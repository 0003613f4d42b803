use vstd::prelude::*;

use std::path::PathBuf;

verus! {

/// A run file whose lines are sorted, with its line count.
#[derive(Debug)]
pub struct SortedChunkFile {
    path: PathBuf,
    lines: usize,
}

impl SortedChunkFile {
    pub closed spec fn lines_spec(&self) -> usize {
        self.lines
    }

    /// The run at `path` holding `lines` lines.
    pub fn new(path: PathBuf, lines: usize) -> (r: SortedChunkFile)
        ensures
            r.lines_spec() == lines,
    {
        SortedChunkFile { path, lines }
    }

    /// The path of the run.
    pub fn path(&self) -> &PathBuf {
        &self.path
    }

    /// The number of lines of the run.
    pub fn lines(&self) -> (r: usize)
        ensures
            r == self.lines_spec(),
    {
        self.lines
    }

    /// The path of the run, giving up the rest.
    pub fn into_path(self) -> PathBuf {
        self.path
    }
}

/// The sorted runs a worker holds, taken smallest first.
pub struct RunHeap {
    runs: Vec<SortedChunkFile>,
}

impl RunHeap {
    /// The line counts of the runs held, in no particular order.
    pub closed spec fn counts(&self) -> Seq<usize> {
        self.runs@.map_values(|r: SortedChunkFile| r.lines_spec())
    }

    /// No runs.
    pub fn new() -> (r: RunHeap)
        ensures
            r.counts().len() == 0,
    {
        RunHeap { runs: Vec::new() }
    }

    /// The number of runs held.
    pub fn len(&self) -> (r: usize)
        ensures
            r == self.counts().len(),
    {
        self.runs.len()
    }

    /// Adds a run.
    pub fn push(&mut self, run: SortedChunkFile)
        ensures
            final(self).counts() == old(self).counts().push(run.lines_spec()),
    {
        self.runs.push(run);
        assert(self.counts() =~= old(self).counts().push(run.lines_spec()));
    }

    /// Takes out a run with the fewest lines, none when no run is held.
    pub fn pop(&mut self) -> (r: Option<SortedChunkFile>)
        ensures
            old(self).counts().len() == 0 <==> r is None,
            r matches Some(f) ==> (forall|i: int|
                0 <= i < old(self).counts().len() ==> f.lines_spec() <= #[trigger] old(
                    self,
                ).counts()[i]),
            r matches Some(f) ==> final(self).counts().len() == old(self).counts().len() - 1
                && final(self).counts().push(f.lines_spec()).to_multiset() == old(
                self,
            ).counts().to_multiset(),
            r is None ==> final(self).counts() == old(self).counts(),
    {
        if self.runs.len() == 0 {
            return None;
        }
        let ghost c = self.counts();
        let mut best: usize = 0;
        let mut i: usize = 1;
        while i < self.runs.len()
            invariant
                c == self.counts(),
                1 <= i <= self.runs.len(),
                best < i,
                forall|j: int| 0 <= j < i ==> c[best as int] <= #[trigger] c[j],
            decreases self.runs.len() - i,
        {
            assert(c[i as int] == self.runs@[i as int].lines_spec());
            assert(c[best as int] == self.runs@[best as int].lines_spec());
            if self.runs[i].lines < self.runs[best].lines {
                best = i;
            }
            i = i + 1;
        }
        let f = self.runs.remove(best);
        proof {
            let nc = self.counts();
            assert(f.lines_spec() == c[best as int]);
            assert(nc =~= c.remove(best as int));
            broadcast use vstd::seq_lib::group_to_multiset_ensures;
            vstd::seq_lib::to_multiset_remove(c, best as int);
            vstd::seq_lib::to_multiset_contains(c, c[best as int]);
            assert(c.contains(c[best as int]));
            assert(nc.push(f.lines_spec()).to_multiset() =~= c.to_multiset());
        }
        Some(f)
    }

    /// Whether a worker holding these runs merges two of them before writing another one:
    /// when it already holds its share `files / tasks` of the run budget.
    pub fn needs_premerge(&self, files: usize, tasks: usize) -> (r: bool)
        requires
            tasks > 0,
        ensures
            r == (self.counts().len() >= files / tasks),
    {
        self.runs.len() >= files / tasks
    }
}

} // verus!
