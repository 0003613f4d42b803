use vstd::prelude::*;

use crate::chunk_iterator::Chunk;
use crate::config::{line_skipped, Config};
use crate::line_record::{all_fields_succeed, first_failure, key_fits_and_holds, LineRecord, RecordError};
use crate::sorting::{all_directed, record_views, sort_records, sorted_by};

verus! {

broadcast use vstd::seq_lib::group_to_multiset_ensures;

/// The lines of `s`, each with its terminating `'\n'`; the last one may lack it. An empty
/// text has no lines.
pub open spec fn lines_of(s: Seq<char>) -> Seq<Seq<char>>
    decreases s.len(),
{
    if s.len() == 0 {
        Seq::empty()
    } else {
        let prev = lines_of(s.drop_last());
        if prev.len() == 0 || prev.last().last() == '\n' {
            prev.push(seq![s.last()])
        } else {
            prev.update(prev.len() - 1, prev.last().push(s.last()))
        }
    }
}

/// Relies on `str::split_inclusive` with the pattern `'\n'`.
#[verifier::external_body]
fn split_lines<'a>(text: &'a str) -> (r: Vec<&'a str>)
    ensures
        r@.map_values(|p: &str| p@) == lines_of(text@),
{
    text.split_inclusive('\n').collect()
}

/// The lines of a chunk that the sort keeps.
pub open spec fn kept_lines(lines: Seq<Seq<char>>, ignore_empty: bool, pattern: Option<Seq<char>>) -> Seq<
    Seq<char>,
> {
    lines.filter(|l: Seq<char>| !line_skipped(ignore_empty, pattern, l))
}

/// Sizes seen in earlier chunks, used as initial capacities for the next one.
pub struct CapacityHints {
    line: usize,
    records: usize,
}

impl CapacityHints {
    pub closed spec fn line_spec(&self) -> usize {
        self.line
    }

    pub closed spec fn records_spec(&self) -> usize {
        self.records
    }

    /// Hints of one byte per line and one record per chunk.
    pub fn new() -> (r: CapacityHints)
        ensures
            r.line_spec() == 1,
            r.records_spec() == 1,
    {
        CapacityHints { line: 1, records: 1 }
    }
}

/// The longest line seen so far.
pub fn get_line_capacity(hints: &CapacityHints) -> (r: usize)
    ensures
        r == hints.line_spec(),
{
    hints.line
}

/// Records `value` as the longest line seen so far.
pub fn set_line_capacity(hints: &mut CapacityHints, value: usize)
    ensures
        final(hints).line_spec() == value,
        final(hints).records_spec() == old(hints).records_spec(),
{
    hints.line = value;
}

/// The largest record count of a chunk seen so far.
pub fn get_line_records_capacity(hints: &CapacityHints) -> (r: usize)
    ensures
        r == hints.records_spec(),
{
    hints.records
}

/// Records `value` as the largest record count of a chunk seen so far.
pub fn set_line_records_capacity(hints: &mut CapacityHints, value: usize)
    ensures
        final(hints).records_spec() == value,
        final(hints).line_spec() == old(hints).line_spec(),
{
    hints.records = value;
}

/// A line of a chunk gave no record.
#[derive(Clone, Copy, Debug, PartialEq, Eq, Structural)]
pub struct LineError {
    /// The number of the line within the chunk, from 1, counting left out lines too
    pub line: usize,
    /// Why the line gave no record
    pub error: RecordError,
}

/// The records of a chunk's text are those of its kept lines, in order.
pub open spec fn chunk_records_ok<F: Fn(&str) -> Option<u64>>(
    text: Seq<char>,
    config: &Config,
    number: F,
    recs: Seq<crate::line_record::RecordView>,
) -> bool {
    let kept = kept_lines(lines_of(text), config.ignore_empty_spec(), config.pattern_spec());
    &&& recs.len() == kept.len()
    &&& forall|i: int|
        0 <= i < recs.len() ==> (#[trigger] recs[i]).line == kept[i] && recs[i].order
            == config.order_spec() && recs[i].keys.len() == config.fields_spec().len() && forall|k: int|
            0 <= k < config.fields_spec().len() ==> #[trigger] key_fits_and_holds(
                kept[i],
                config.separator_spec(),
                config.fields_spec(),
                number,
                k,
                recs[i].keys[k],
            )
}

/// The line error `e` of a chunk's text: it names a kept line whose record fails.
pub open spec fn chunk_error_ok<F: Fn(&str) -> Option<u64>>(
    text: Seq<char>,
    config: &Config,
    number: F,
    e: LineError,
) -> bool {
    let lines = lines_of(text);
    &&& 1 <= e.line <= lines.len()
    &&& !line_skipped(config.ignore_empty_spec(), config.pattern_spec(), lines[e.line - 1])
    &&& exists|k: int|
        #[trigger] first_failure(
            lines[e.line - 1],
            config.separator_spec(),
            config.fields_spec(),
            number,
            k,
            e.error,
        )
}

/// Every kept line of a chunk's text gives a record whatever `number` returns.
pub open spec fn chunk_can_succeed<F: Fn(&str) -> Option<u64>>(
    text: Seq<char>,
    config: &Config,
    number: F,
) -> bool {
    let kept = kept_lines(lines_of(text), config.ignore_empty_spec(), config.pattern_spec());
    forall|i: int|
        0 <= i < kept.len() ==> #[trigger] all_fields_succeed(
            kept[i],
            config.separator_spec(),
            config.fields_spec(),
            number,
        )
}

/// The work of sorting one chunk into a run.
pub struct SortCommand {
    chunk: Option<Chunk>,
}

impl SortCommand {
    /// The task for `chunk`; none stands for no work.
    pub fn new(chunk: Option<Chunk>) -> (r: SortCommand)
        ensures
            r.chunk_spec() == chunk,
    {
        SortCommand { chunk }
    }

    pub closed spec fn chunk_spec(&self) -> Option<Chunk> {
        self.chunk
    }

    /// The chunk to sort.
    pub fn chunk(&self) -> (r: &Option<Chunk>)
        ensures
            *r == self.chunk_spec(),
    {
        &self.chunk
    }

    /// The records of the kept lines of `text`, the bytes of the chunk, in order;
    /// or the first line that gives no record. The capacity hints grow to the longest kept
    /// line and the record count.
    pub fn read_records<F: Fn(&str) -> Option<u64>>(
        &self,
        text: &str,
        config: &Config,
        hints: &mut CapacityHints,
        number: &F,
    ) -> (r: Result<Vec<LineRecord>, LineError>)
        requires
            forall|t: &str| #[trigger] number.requires((t,)),
        ensures
            r matches Ok(v) ==> chunk_records_ok(text@, config, *number, record_views(v@)),
            r matches Err(e) ==> chunk_error_ok(text@, config, *number, e),
            chunk_can_succeed(text@, config, *number) ==> r is Ok,
            final(hints).line_spec() >= old(hints).line_spec(),
            final(hints).records_spec() >= old(hints).records_spec(),
    {
        let ghost ie = config.ignore_empty_spec();
        let ghost pat = config.pattern_spec();
        let ghost lines = lines_of(text@);
        let parts = split_lines(text);
        let records_capacity = get_line_records_capacity(hints);
        let mut line_capacity = get_line_capacity(hints);
        let mut records: Vec<LineRecord> = Vec::with_capacity(records_capacity);
        let mut n: usize = 0;
        assert(lines.subrange(0, 0) =~= Seq::<Seq<char>>::empty());
        while n < parts.len()
            invariant
                lines == lines_of(text@),
                ie == config.ignore_empty_spec(),
                pat == config.pattern_spec(),
                parts@.map_values(|p: &str| p@) == lines,
                n <= parts@.len(),
                forall|t: &str| #[trigger] number.requires((t,)),
                chunk_records_ok_prefix(kept_lines(lines.subrange(0, n as int), ie, pat), config, *number, record_views(records@)),
                line_capacity >= old(hints).line_spec(),
                hints.records_spec() == old(hints).records_spec(),
            decreases parts.len() - n,
        {
            let line = parts[n];
            assert(line@ == lines[n as int]);
            assert(lines.subrange(0, n + 1) =~= lines.subrange(0, n as int).push(lines[n as int]));
            proof {
                lemma_kept_push(lines.subrange(0, n as int), lines[n as int], ie, pat);
            }
            let ghost before = kept_lines(lines.subrange(0, n as int), ie, pat);
            if !config.skip_line(line) {
                assert(kept_lines(lines.subrange(0, n + 1), ie, pat) == before.push(lines[n as int]));
                if line.len() > line_capacity {
                    line_capacity = line.len();
                }
                match LineRecord::new(line.to_owned(), config.fields(), config.field_separator(), config.order(), number) {
                    Ok(rec) => {
                        let ghost old_recs = record_views(records@);
                        records.push(rec);
                        proof {
                            assert(record_views(records@) =~= old_recs.push(rec@));
                            let kept = kept_lines(lines.subrange(0, n + 1), ie, pat);
                            let recs = record_views(records@);
                            assert forall|i: int| 0 <= i < recs.len() implies (#[trigger] recs[i]).line == kept[i] && recs[i].order
                                == config.order_spec() && recs[i].keys.len() == config.fields_spec().len() && forall|k: int|
                                0 <= k < config.fields_spec().len() ==> #[trigger] key_fits_and_holds(
                                    kept[i],
                                    config.separator_spec(),
                                    config.fields_spec(),
                                    *number,
                                    k,
                                    recs[i].keys[k],
                                ) by {
                                if i < recs.len() - 1 {
                                    assert(recs[i] == old_recs[i]);
                                    assert(kept[i] == before[i]);
                                }
                            }
                        }
                    },
                    Err(e) => {
                        set_line_capacity(hints, line_capacity);
                        proof {
                            let k = choose|k: int| first_failure(lines[n as int], config.separator_spec(), config.fields_spec(), *number, k, e);
                            assert(first_failure(lines[(n + 1) - 1], config.separator_spec(), config.fields_spec(), *number, k, e));
                            assert(!line_skipped(config.ignore_empty_spec(), config.pattern_spec(), lines[n as int]));
                            assert(1 <= n + 1 <= lines.len());
                            assert(chunk_error_ok(text@, config, *number, LineError { line: (n + 1) as usize, error: e }));
                            if chunk_can_succeed(text@, config, *number) {
                                lemma_kept_index(lines, ie, pat, n as int);
                                let kept = kept_lines(lines, ie, pat);
                                let j = choose|j: int| 0 <= j < kept.len() && kept[j] == lines[n as int];
                                assert(all_fields_succeed(kept[j], config.separator_spec(), config.fields_spec(), *number));
                            }
                        }
                        return Err(LineError { line: n + 1, error: e });
                    },
                }
            } else {
                assert(kept_lines(lines.subrange(0, n + 1), ie, pat) == before);
            }
            n = n + 1;
        }
        proof {
            assert(lines.subrange(0, n as int) =~= lines);
        }
        set_line_capacity(hints, line_capacity);
        if records.len() > records_capacity {
            set_line_records_capacity(hints, records.len());
        }
        Ok(records)
    }

    /// The records of the kept lines of `text`, sorted in the job's direction.
    pub fn sorted_records<F: Fn(&str) -> Option<u64>>(
        &self,
        text: &str,
        config: &Config,
        hints: &mut CapacityHints,
        number: &F,
    ) -> (r: Result<Vec<LineRecord>, LineError>)
        requires
            forall|t: &str| #[trigger] number.requires((t,)),
        ensures
            r matches Ok(v) ==> exists|u: Seq<LineRecord>|
                #![trigger record_views(u)]
                chunk_records_ok(text@, config, *number, record_views(u))
                    && record_views(v@).to_multiset() == record_views(u).to_multiset(),
            r matches Ok(v) ==> all_directed(record_views(v@), config.order_spec()) && sorted_by(
                config.order_spec(),
                record_views(v@),
            ),
            r matches Err(e) ==> chunk_error_ok(text@, config, *number, e),
            chunk_can_succeed(text@, config, *number) ==> r is Ok,
    {
        match self.read_records(text, config, hints, number) {
            Ok(v) => {
                let ghost u = v@;
                proof {
                    assert forall|i: int| 0 <= i < record_views(v@).len() implies (#[trigger] record_views(
                        v@,
                    )[i]).order == config.order_spec() by {
                        assert(chunk_records_ok(text@, config, *number, record_views(v@)));
                    }
                }
                let s = sort_records(v, config.order());
                assert(chunk_records_ok(text@, config, *number, record_views(u)));
                Ok(s)
            },
            Err(e) => Err(e),
        }
    }
}

/// `chunk_records_ok` over a prefix of the kept lines.
pub open spec fn chunk_records_ok_prefix<F: Fn(&str) -> Option<u64>>(
    kept: Seq<Seq<char>>,
    config: &Config,
    number: F,
    recs: Seq<crate::line_record::RecordView>,
) -> bool {
    &&& recs.len() == kept.len()
    &&& forall|i: int|
        0 <= i < recs.len() ==> (#[trigger] recs[i]).line == kept[i] && recs[i].order
            == config.order_spec() && recs[i].keys.len() == config.fields_spec().len() && forall|k: int|
            0 <= k < config.fields_spec().len() ==> #[trigger] key_fits_and_holds(
                kept[i],
                config.separator_spec(),
                config.fields_spec(),
                number,
                k,
                recs[i].keys[k],
            )
}

proof fn lemma_kept_push(s: Seq<Seq<char>>, x: Seq<char>, ie: bool, pat: Option<Seq<char>>)
    ensures
        kept_lines(s.push(x), ie, pat) == if line_skipped(ie, pat, x) {
            kept_lines(s, ie, pat)
        } else {
            kept_lines(s, ie, pat).push(x)
        },
{
    let pred = |l: Seq<char>| !line_skipped(ie, pat, l);
    reveal(Seq::filter);
    assert(s.push(x).drop_last() =~= s);
    assert(s.push(x).filter(pred) == if pred(x) {
        s.filter(pred).push(x)
    } else {
        s.filter(pred)
    });
}

proof fn lemma_kept_index(s: Seq<Seq<char>>, ie: bool, pat: Option<Seq<char>>, n: int)
    requires
        0 <= n < s.len(),
        !line_skipped(ie, pat, s[n]),
    ensures
        exists|j: int| 0 <= j < kept_lines(s, ie, pat).len() && kept_lines(s, ie, pat)[j] == s[n],
    decreases s.len(),
{
    assert(s =~= s.drop_last().push(s.last()));
    lemma_kept_push(s.drop_last(), s.last(), ie, pat);
    if n < s.len() - 1 {
        lemma_kept_index(s.drop_last(), ie, pat, n);
        let j = choose|j: int| 0 <= j < kept_lines(s.drop_last(), ie, pat).len() && kept_lines(s.drop_last(), ie, pat)[j] == s[n];
        assert(kept_lines(s, ie, pat)[j] == s[n]);
    } else {
        let k = kept_lines(s, ie, pat);
        assert(k[k.len() - 1] == s[n]);
    }
}

} // verus!
