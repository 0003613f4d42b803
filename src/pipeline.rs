use vstd::prelude::*;

use crate::config::Config;
use crate::line_record::{LineRecord, RecordView};
use crate::merge::{concat, merge_runs, run_views, runs_sorted};
use crate::sort_command::{
    chunk_can_succeed, chunk_error_ok, chunk_records_ok, kept_lines, lines_of, CapacityHints,
    LineError, SortCommand,
};
use crate::sorting::{all_directed, record_views, sorted_by};

verus! {

broadcast use vstd::seq_lib::group_to_multiset_ensures;

/// The lines of records.
pub open spec fn record_lines(s: Seq<RecordView>) -> Seq<Seq<char>> {
    s.map_values(|r: RecordView| r.line)
}

/// Sequences holding the same items hold the same items once mapped.
pub proof fn lemma_multiset_map<A, B>(s1: Seq<A>, s2: Seq<A>, f: spec_fn(A) -> B)
    requires
        s1.to_multiset() == s2.to_multiset(),
    ensures
        s1.map_values(f).to_multiset() == s2.map_values(f).to_multiset(),
    decreases s1.len(),
{
    vstd::seq_lib::to_multiset_len(s1);
    vstd::seq_lib::to_multiset_len(s2);
    if s1.len() == 0 {
        assert(s1.map_values(f) =~= s2.map_values(f));
    } else {
        let x = s1.last();
        assert(s1.to_multiset().count(x) > 0) by {
            assert(s1 =~= s1.drop_last().push(x));
        }
        vstd::seq_lib::to_multiset_contains(s2, x);
        let j = choose|j: int| 0 <= j < s2.len() && s2[j] == x;
        let s2r = s2.remove(j);
        vstd::seq_lib::to_multiset_remove(s2, j);
        assert(s1 =~= s1.drop_last().push(x));
        assert(s1.drop_last().to_multiset() =~= s2r.to_multiset());
        lemma_multiset_map(s1.drop_last(), s2r, f);
        let m2 = s2.map_values(f);
        assert(s2r.map_values(f) =~= m2.remove(j));
        vstd::seq_lib::to_multiset_remove(m2, j);
        assert(s1.map_values(f) =~= s1.drop_last().map_values(f).push(f(x)));
        vstd::seq_lib::to_multiset_contains(m2, f(x));
        assert(m2.contains(f(x))) by {
            assert(m2[j] == f(x));
        }
        assert(s1.map_values(f).to_multiset() =~= m2.to_multiset());
    }
}

/// The kept lines of every chunk, chunk after chunk.
pub open spec fn all_kept(chunks: Seq<Seq<char>>, config: &Config) -> Seq<Seq<char>>
    decreases chunks.len(),
{
    if chunks.len() == 0 {
        Seq::empty()
    } else {
        all_kept(chunks.drop_last(), config) + kept_lines(
            lines_of(chunks.last()),
            config.ignore_empty_spec(),
            config.pattern_spec(),
        )
    }
}

proof fn lemma_lines_concat(runs: Seq<Seq<RecordView>>)
    ensures
        record_lines(concat(runs)) == concat_lines(runs),
    decreases runs.len(),
{
    if runs.len() > 0 {
        lemma_lines_concat(runs.drop_last());
        assert(record_lines(concat(runs)) =~= record_lines(concat(runs.drop_last())) + record_lines(
            runs.last(),
        ));
    }
}

/// The lines of each run, run after run.
pub open spec fn concat_lines(runs: Seq<Seq<RecordView>>) -> Seq<Seq<char>>
    decreases runs.len(),
{
    if runs.len() == 0 {
        Seq::empty()
    } else {
        concat_lines(runs.drop_last()) + record_lines(runs.last())
    }
}

proof fn lemma_concat_lines_kept(runs: Seq<Seq<RecordView>>, chunks: Seq<Seq<char>>, config: &Config)
    requires
        runs.len() == chunks.len(),
        forall|i: int|
            0 <= i < runs.len() ==> (#[trigger] record_lines(runs[i])).to_multiset() == kept_lines(
                lines_of(chunks[i]),
                config.ignore_empty_spec(),
                config.pattern_spec(),
            ).to_multiset(),
    ensures
        concat_lines(runs).to_multiset() == all_kept(chunks, config).to_multiset(),
    decreases runs.len(),
{
    if runs.len() > 0 {
        lemma_concat_lines_kept(runs.drop_last(), chunks.drop_last(), config);
        assert(record_lines(runs.last()).to_multiset() == kept_lines(
            lines_of(chunks.last()),
            config.ignore_empty_spec(),
            config.pattern_spec(),
        ).to_multiset()) by {
            assert(record_lines(runs[runs.len() - 1]).to_multiset() == kept_lines(
                lines_of(chunks[chunks.len() - 1]),
                config.ignore_empty_spec(),
                config.pattern_spec(),
            ).to_multiset());
        }
        vstd::seq_lib::lemma_multiset_commutative(concat_lines(runs.drop_last()), record_lines(runs.last()));
        vstd::seq_lib::lemma_multiset_commutative(
            all_kept(chunks.drop_last(), config),
            kept_lines(lines_of(chunks.last()), config.ignore_empty_spec(), config.pattern_spec()),
        );
    }
}

/// The lines of a sorted output: the prefix lines, each ended by a line feed, then the
/// records' lines as they are, then the suffix lines, each ended by a line feed.
pub open spec fn framed(prefix: Seq<Seq<char>>, body: Seq<Seq<char>>, suffix: Seq<Seq<char>>) -> Seq<Seq<char>> {
    prefix.map_values(|p: Seq<char>| p.push('\n')) + body + suffix.map_values(|p: Seq<char>| p.push('\n'))
}

/// Relies on `String::push`: the character is appended.
pub assume_specification[ std::string::String::push ](s: &mut std::string::String, ch: char)
    ensures
        final(s)@ == old(s)@.push(ch),
;

/// A copy of `s` ended by a line feed.
fn with_line_feed(s: &String) -> (r: String)
    ensures
        r@ == s@.push('\n'),
{
    let mut r = s.clone();
    r.push('\n');
    r
}

proof fn lemma_strings_push(s: Seq<String>, x: String)
    ensures
        s.push(x).map_values(|t: String| t@) == s.map_values(|t: String| t@).push(x@),
{
    assert(s.push(x).map_values(|t: String| t@) =~= s.map_values(|t: String| t@).push(x@));
}

/// The output lines of a job: its prefix, the records' lines, its suffix.
pub fn framed_output(config: &Config, records: Vec<LineRecord>) -> (r: Vec<String>)
    ensures
        r@.map_values(|s: String| s@) == framed(
            config.prefix_spec(),
            record_lines(record_views(records@)),
            config.suffix_spec(),
        ),
{
    let ghost body = record_lines(record_views(records@));
    let ghost pre = config.prefix_spec().map_values(|p: Seq<char>| p.push('\n'));
    let ghost suf = config.suffix_spec().map_values(|p: Seq<char>| p.push('\n'));
    let mut out: Vec<String> = Vec::new();
    let prefix = config.prefix();
    let mut i: usize = 0;
    while i < prefix.len()
        invariant
            prefix@.map_values(|s: String| s@) == config.prefix_spec(),
            pre == config.prefix_spec().map_values(|p: Seq<char>| p.push('\n')),
            i <= prefix@.len(),
            out@.map_values(|s: String| s@) == pre.subrange(0, i as int),
        decreases prefix.len() - i,
    {
        let line = with_line_feed(&prefix[i]);
        let ghost before = out@;
        let ghost lv = line@;
        out.push(line);
        proof {
            lemma_strings_push(before, out@.last());
            assert(out@ == before.push(out@.last()));
            assert(prefix@[i as int]@ == config.prefix_spec()[i as int]);
            assert(pre.subrange(0, i + 1) =~= pre.subrange(0, i as int).push(pre[i as int]));
            assert(out@.map_values(|s: String| s@) =~= pre.subrange(0, i + 1));
        }
        i = i + 1;
    }
    let ghost n_pre = out@.len();
    let mut rest = crate::sorting::reversed(records);
    let ghost total = rest@.len();
    while rest.len() > 0
        invariant
            total == body.len(),
            rest@.len() <= total,
            forall|k: int| 0 <= k < rest@.len() ==> (#[trigger] rest@[k])@.line == body[total - 1 - k],
            out@.map_values(|s: String| s@) == pre + body.subrange(0, total - rest@.len()),
            pre.len() == n_pre,
        decreases rest.len(),
    {
        let rec = rest.pop().unwrap();
        let ghost k = total - rest@.len() - 1;
        let line = rec.line();
        let ghost before = out@;
        out.push(line);
        proof {
            lemma_strings_push(before, out@.last());
            assert(out@ == before.push(out@.last()));
            assert(body.subrange(0, total - rest@.len()) =~= body.subrange(0, k).push(body[k]));
            assert((pre + body.subrange(0, k)).push(body[k]) =~= pre + body.subrange(0, k).push(body[k]));
        }
    }
    let suffix = config.suffix();
    let mut j: usize = 0;
    assert(body.subrange(0, total as int) =~= body);
    while j < suffix.len()
        invariant
            suffix@.map_values(|s: String| s@) == config.suffix_spec(),
            suf == config.suffix_spec().map_values(|p: Seq<char>| p.push('\n')),
            j <= suffix@.len(),
            out@.map_values(|s: String| s@) == pre + body + suf.subrange(0, j as int),
        decreases suffix.len() - j,
    {
        let line = with_line_feed(&suffix[j]);
        let ghost before = out@;
        out.push(line);
        proof {
            lemma_strings_push(before, out@.last());
            assert(out@ == before.push(out@.last()));
            assert(suffix@[j as int]@ == config.suffix_spec()[j as int]);
            assert(suf.subrange(0, j + 1) =~= suf.subrange(0, j as int).push(suf[j as int]));
            assert((pre + body + suf.subrange(0, j as int)).push(suf[j as int]) =~= pre + body + suf.subrange(0, j as int).push(suf[j as int]));
            assert(out@.map_values(|s: String| s@) =~= pre + body + suf.subrange(0, j + 1));
        }
        j = j + 1;
    }
    assert(suf.subrange(0, suffix@.len() as int) =~= suf);
    out
}

/// Sorts a text given as consecutive chunks, all in memory: each chunk is sorted into a run
/// and the runs are merged. The result holds the records of the kept lines, sorted in the
/// job's direction; or it is the error of the first chunk that has a line without record.
pub fn sort_chunks<F: Fn(&str) -> Option<u64>>(
    chunks: &Vec<String>,
    config: &Config,
    number: &F,
) -> (r: Result<Vec<LineRecord>, LineError>)
    requires
        forall|t: &str| #[trigger] number.requires((t,)),
    ensures
        r matches Ok(v) ==> record_lines(record_views(v@)).to_multiset() == all_kept(
            chunks@.map_values(|c: String| c@),
            config,
        ).to_multiset(),
        r matches Ok(v) ==> all_directed(record_views(v@), config.order_spec()) && sorted_by(
            config.order_spec(),
            record_views(v@),
        ),
        r matches Err(e) ==> exists|i: int|
            0 <= i < chunks@.len() && #[trigger] chunk_error_ok(chunks@[i]@, config, *number, e),
        (forall|i: int|
            0 <= i < chunks@.len() ==> #[trigger] chunk_can_succeed(chunks@[i]@, config, *number))
            ==> r is Ok,
{
    let ghost cv = chunks@.map_values(|c: String| c@);
    let mut hints = CapacityHints::new();
    let task = SortCommand::new(None);
    let mut runs: Vec<Vec<LineRecord>> = Vec::new();
    let mut i: usize = 0;
    while i < chunks.len()
        invariant
            cv == chunks@.map_values(|c: String| c@),
            i <= chunks@.len(),
            runs@.len() == i,
            forall|t: &str| #[trigger] number.requires((t,)),
            runs_sorted(run_views(runs@), config.order_spec()),
            forall|q: int|
                0 <= q < i ==> (#[trigger] record_lines(run_views(runs@)[q])).to_multiset() == kept_lines(
                    lines_of(cv[q]),
                    config.ignore_empty_spec(),
                    config.pattern_spec(),
                ).to_multiset(),
        decreases chunks.len() - i,
    {
        let text = chunks[i].as_str();
        match task.sorted_records(text, config, &mut hints, number) {
            Ok(v) => {
                proof {
                    let u = choose|u: Seq<LineRecord>|
                        #![trigger record_views(u)]
                        chunk_records_ok(text@, config, *number, record_views(u))
                            && record_views(v@).to_multiset() == record_views(u).to_multiset();
                    let f = |r: RecordView| r.line;
                    lemma_multiset_map(record_views(v@), record_views(u), f);
                    assert(record_lines(record_views(u)) =~= kept_lines(
                        lines_of(cv[i as int]),
                        config.ignore_empty_spec(),
                        config.pattern_spec(),
                    ));
                }
                let ghost old_runs = run_views(runs@);
                runs.push(v);
                proof {
                    assert(run_views(runs@) =~= old_runs.push(record_views(v@)));
                }
            },
            Err(e) => {
                assert(chunk_error_ok(chunks@[i as int]@, config, *number, e));
                return Err(e);
            },
        }
        i = i + 1;
    }
    let ghost rv = run_views(runs@);
    let out = merge_runs(runs, config.order());
    proof {
        lemma_multiset_map(record_views(out@), concat(rv), |r: RecordView| r.line);
        lemma_lines_concat(rv);
        assert(cv.len() == rv.len());
        lemma_concat_lines_kept(rv, cv, config);
    }
    Ok(out)
}

} // verus!
