use vstd::prelude::*;

use std::path::PathBuf;

verus! {

#[verifier::external_type_specification]
#[verifier::external_body]
pub struct ExPathBuf(PathBuf);

/// Relies on `PathBuf::clone`; nothing is claimed of the copy.
pub assume_specification[ <PathBuf as Clone>::clone ](p: &PathBuf) -> PathBuf;

/// A byte range `[offset, offset + length)` of the input file at `path`.
#[derive(Debug)]
pub struct Chunk {
    offset: u64,
    length: u64,
    path: PathBuf,
}

impl Chunk {
    /// The chunk of `length` bytes at `offset` of the file at `path`.
    pub fn new(offset: u64, length: u64, path: PathBuf) -> (r: Chunk)
        ensures
            r.offset_spec() == offset,
            r.length_spec() == length,
    {
        Chunk { offset, length, path }
    }

    pub closed spec fn offset_spec(&self) -> u64 {
        self.offset
    }

    pub closed spec fn length_spec(&self) -> u64 {
        self.length
    }

    /// The first byte of the chunk.
    pub fn offset(&self) -> (r: u64)
        ensures
            r == self.offset_spec(),
    {
        self.offset
    }

    /// The number of bytes of the chunk.
    pub fn length(&self) -> (r: u64)
        ensures
            r == self.length_spec(),
    {
        self.length
    }

    /// The file the chunk belongs to.
    pub fn path(&self) -> &PathBuf {
        &self.path
    }
}

/// The position just after the first terminator at or after `from`, or the end of `data`.
pub open spec fn next_boundary(data: Seq<u8>, from: int, endl: u8) -> int
    decreases data.len() - from,
{
    if from >= data.len() {
        data.len() as int
    } else if data[from] == endl {
        from + 1
    } else {
        next_boundary(data, from + 1, endl)
    }
}

/// The chunks `(offset, length)` of `data` from `pos` on, for a target size `jump`: the rest
/// when at most `jump` bytes remain, else `jump` bytes extended to the next terminator.
pub open spec fn chunk_spans(data: Seq<u8>, pos: int, jump: int, endl: u8) -> Seq<(int, int)>
    decreases data.len() - pos,
{
    if pos >= data.len() || pos < 0 {
        Seq::empty()
    } else if jump >= data.len() - pos {
        seq![(pos, data.len() - pos)]
    } else {
        let nb = next_boundary(data, pos + jump, endl);
        if nb <= pos || nb > data.len() {
            Seq::empty()
        } else {
            seq![(pos, nb - pos)] + chunk_spans(data, nb, jump, endl)
        }
    }
}

proof fn lemma_next_boundary(data: Seq<u8>, from: int, endl: u8)
    requires
        0 <= from,
    ensures
        from < next_boundary(data, from, endl) <= data.len() || (from >= data.len()
            && next_boundary(data, from, endl) == data.len()),
        next_boundary(data, from, endl) < data.len() ==> data[next_boundary(data, from, endl) - 1]
            == endl,
        from < data.len() && next_boundary(data, from, endl) == data.len() ==> (data[data.len() - 1]
            == endl || forall|k: int| from <= k < data.len() ==> data[k] != endl),
    decreases data.len() - from,
{
    if from < data.len() && data[from] != endl {
        lemma_next_boundary(data, from + 1, endl);
    }
}

/// The spans from `pos` tile `[pos, data.len())` without gaps or overlaps, each is
/// non-empty, and each one but the last ends just after a terminator.
pub proof fn lemma_chunk_spans_cover(data: Seq<u8>, pos: int, jump: int, endl: u8)
    requires
        0 <= pos <= data.len(),
        jump >= 0,
    ensures
        ({
            let c = chunk_spans(data, pos, jump, endl);
            &&& c.len() == 0 <==> pos == data.len()
            &&& c.len() > 0 ==> c[0].0 == pos && c.last().0 + c.last().1 == data.len()
            &&& forall|i: int| 0 <= i < c.len() ==> (#[trigger] c[i]).1 > 0
            &&& forall|i: int|
                0 <= i < c.len() - 1 ==> (#[trigger] c[i]).0 + c[i].1 == c[i + 1].0 && data[c[i].0
                    + c[i].1 - 1] == endl
        }),
    decreases data.len() - pos,
{
    if pos < data.len() && jump < data.len() - pos {
        let nb = next_boundary(data, pos + jump, endl);
        lemma_next_boundary(data, pos + jump, endl);
        lemma_chunk_spans_cover(data, nb, jump, endl);
        let c = chunk_spans(data, pos, jump, endl);
        let rest = chunk_spans(data, nb, jump, endl);
        assert(c == seq![(pos, nb - pos)] + rest);
        assert forall|i: int| 0 <= i < c.len() - 1 implies (#[trigger] c[i]).0 + c[i].1 == c[i + 1].0
            && data[c[i].0 + c[i].1 - 1] == endl by {
            if i > 0 {
                assert(c[i] == rest[i - 1]);
                assert(c[i + 1] == rest[i]);
            }
        }
        assert forall|i: int| 0 <= i < c.len() implies (#[trigger] c[i]).1 > 0 by {
            if i > 0 {
                assert(c[i] == rest[i - 1]);
            }
        }
    }
}

/// Chunk enumeration over a whole input: the chunks cover every byte exactly once in order,
/// every boundary between two chunks follows a terminator, and there are no chunks exactly
/// when the input is empty.
pub proof fn lemma_chunk_coverage(data: Seq<u8>, jump: nat, endl: u8)
    ensures
        ({
            let c = chunk_spans(data, 0, jump as int, endl);
            &&& c.len() == 0 <==> data.len() == 0
            &&& c.len() > 0 ==> c[0].0 == 0 && c.last().0 + c.last().1 == data.len()
            &&& forall|i: int|
                0 <= i < c.len() - 1 ==> (#[trigger] c[i]).0 + c[i].1 == c[i + 1].0 && data[c[i].0
                    + c[i].1 - 1] == endl
        }),
{
    lemma_chunk_spans_cover(data, 0, jump as int, endl);
}

/// Walks a file of `length` bytes in chunks of about `jump` bytes that end on line
/// boundaries. The bytes themselves are read by the caller: where a chunk must be extended
/// to a terminator, `probe_at` names the offset to read from, and the number of bytes
/// read up to and including the next terminator is handed to `next_chunk`.
pub struct ChunkIterator {
    path: PathBuf,
    length: u64,
    reminder: u64,
    jump: u64,
    pos: u64,
    endl: u8,
}

impl ChunkIterator {
    pub closed spec fn pos_spec(&self) -> u64 {
        self.pos
    }

    pub closed spec fn length_spec(&self) -> u64 {
        self.length
    }

    pub closed spec fn jump_spec(&self) -> u64 {
        self.jump
    }

    pub closed spec fn endl_spec(&self) -> u8 {
        self.endl
    }

    /// The position and the bytes left agree with the length.
    pub closed spec fn wf(&self) -> bool {
        self.pos + self.reminder == self.length
    }

    /// Chunks of the file at `path`, `length` bytes long, of about `jump` bytes, ending on
    /// the terminator `endl`.
    pub fn new(path: PathBuf, length: u64, jump: u64, endl: u8) -> (r: ChunkIterator)
        ensures
            r.wf(),
            r.pos_spec() == 0,
            r.length_spec() == length,
            r.jump_spec() == jump,
            r.endl_spec() == endl,
    {
        ChunkIterator { path, length, reminder: length, jump, pos: 0, endl }
    }

    /// The offset where the next chunk starts.
    pub fn position(&self) -> (r: u64)
        ensures
            r == self.pos_spec(),
    {
        self.pos
    }

    /// The length of the file.
    pub fn file_length(&self) -> (r: u64)
        ensures
            r == self.length_spec(),
    {
        self.length
    }

    /// The terminator byte.
    pub fn endl(&self) -> (r: u8)
        ensures
            r == self.endl_spec(),
    {
        self.endl
    }

    /// The offset to read from up to the next terminator before the next call of
    /// `next_chunk`, when the next chunk ends past the target size; none otherwise.
    pub fn probe_at(&self) -> (r: Option<u64>)
        requires
            self.wf(),
        ensures
            r matches Some(p) ==> p == self.pos_spec() + self.jump_spec() && p < self.length_spec(),
            r is None <==> self.pos_spec() + self.jump_spec() >= self.length_spec(),
    {
        if self.jump < self.reminder {
            Some(self.pos + self.jump)
        } else {
            None
        }
    }

    /// The next chunk, none once the file is covered. `probe_len` is the number of bytes
    /// read from `probe_at` up to and including the next terminator (or to the end); it is
    /// unused when `probe_at` gives none.
    pub fn next_chunk(&mut self, probe_len: u64) -> (r: Option<Chunk>)
        requires
            old(self).wf(),
            old(self).pos_spec() + old(self).jump_spec() < old(self).length_spec() ==> 0 < probe_len
                <= old(self).length_spec() - old(self).pos_spec() - old(self).jump_spec(),
        ensures
            final(self).wf(),
            final(self).length_spec() == old(self).length_spec(),
            final(self).jump_spec() == old(self).jump_spec(),
            final(self).endl_spec() == old(self).endl_spec(),
            old(self).pos_spec() == old(self).length_spec() ==> r is None && final(self).pos_spec()
                == old(self).pos_spec(),
            old(self).pos_spec() < old(self).length_spec() ==> (r matches Some(c) && c.offset_spec()
                == old(self).pos_spec() && c.offset_spec() + c.length_spec() == final(self).pos_spec()),
            old(self).pos_spec() < old(self).length_spec() ==> final(self).pos_spec() == if old(
                self,
            ).pos_spec() + old(self).jump_spec() >= old(self).length_spec() {
                old(self).length_spec() as int
            } else {
                old(self).pos_spec() + old(self).jump_spec() + probe_len
            },
    {
        if self.reminder == 0 {
            None
        } else if self.jump >= self.reminder {
            let chunk = Chunk::new(self.pos, self.reminder, self.path.clone());
            self.pos = self.length;
            self.reminder = 0;
            Some(chunk)
        } else {
            let current = self.pos + self.jump + probe_len;
            let chunk = Chunk::new(self.pos, current - self.pos, self.path.clone());
            self.pos = current;
            self.reminder = self.length - current;
            Some(chunk)
        }
    }
}

/// The number of bytes from `from` up to and including the next terminator, or to the end.
pub fn boundary_len(data: &[u8], from: usize, endl: u8) -> (r: usize)
    requires
        from <= data@.len(),
    ensures
        r == next_boundary(data@, from as int, endl) - from,
{
    let mut i = from;
    while i < data.len()
        invariant
            from <= i <= data@.len(),
            next_boundary(data@, from as int, endl) == next_boundary(data@, i as int, endl),
        decreases data.len() - i,
    {
        if data[i] == endl {
            return i + 1 - from;
        }
        i = i + 1;
    }
    i - from
}

/// The chunks of an input held in memory, in order, as `ChunkIterator` gives them for
/// the file at `path` with these bytes.
pub fn chunks_of_bytes(data: &[u8], path: PathBuf, jump: u64, endl: u8) -> (r: Vec<Chunk>)
    ensures
        r@.len() == chunk_spans(data@, 0, jump as int, endl).len(),
        forall|i: int|
            0 <= i < r@.len() ==> (#[trigger] r@[i]).offset_spec() == chunk_spans(data@, 0, jump as int, endl)[i].0
                && r@[i].length_spec() == chunk_spans(data@, 0, jump as int, endl)[i].1,
{
    let ghost d = data@;
    let ghost all = chunk_spans(d, 0, jump as int, endl);
    let mut it = ChunkIterator::new(path, data.len() as u64, jump, endl);
    let mut out: Vec<Chunk> = Vec::new();
    proof {
        lemma_chunk_spans_cover(d, 0, jump as int, endl);
    }
    while it.position() < it.file_length()
        invariant
            d == data@,
            all == chunk_spans(d, 0, jump as int, endl),
            it.wf(),
            it.length_spec() == d.len(),
            it.jump_spec() == jump,
            it.endl_spec() == endl,
            it.pos_spec() <= d.len(),
            all == out@.map_values(|c: Chunk| (c.offset_spec() as int, c.length_spec() as int)) + chunk_spans(
                d,
                it.pos_spec() as int,
                jump as int,
                endl,
            ),
        decreases d.len() - it.pos_spec(),
    {
        let probe_len: u64 = match it.probe_at() {
            Some(p) => {
                proof {
                    lemma_next_boundary(d, p as int, endl);
                }
                assert(p < data.len());
                boundary_len(data, p as usize, endl) as u64
            },
            None => 0,
        };
        let ghost pos = it.pos_spec() as int;
        let ghost rest = chunk_spans(d, pos, jump as int, endl);
        let c = it.next_chunk(probe_len);
        let c = c.unwrap();
        proof {
            let nb = it.pos_spec() as int;
            if pos + jump < d.len() {
                lemma_next_boundary(d, pos + jump, endl);
                assert(rest == seq![(pos, nb - pos)] + chunk_spans(d, nb, jump as int, endl));
            } else {
                assert(chunk_spans(d, nb, jump as int, endl) =~= Seq::empty());
                assert(rest =~= seq![(pos, nb - pos)] + chunk_spans(d, nb, jump as int, endl));
            }
        }
        let ghost old_out = out@;
        let ghost cv = (c.offset_spec() as int, c.length_spec() as int);
        out.push(c);
        proof {
            let f = |x: Chunk| (x.offset_spec() as int, x.length_spec() as int);
            assert(out@.map_values(f) =~= old_out.map_values(f).push(cv));
        }
    }
    proof {
        assert(chunk_spans(d, it.pos_spec() as int, jump as int, endl) =~= Seq::empty());
        assert(all =~= out@.map_values(|c: Chunk| (c.offset_spec() as int, c.length_spec() as int)));
        assert forall|i: int| 0 <= i < out@.len() implies (#[trigger] out@[i]).offset_spec() == all[i].0
            && out@[i].length_spec() == all[i].1 by {
            let f = |c: Chunk| (c.offset_spec() as int, c.length_spec() as int);
            assert(all[i] == out@.map_values(f)[i]);
        }
    }
    out
}

} // verus!
