use vstd::multiset::Multiset;
use vstd::prelude::*;

use core::cmp::Ordering;

use crate::line_record::{
    lemma_record_le_total, lemma_record_le_trans, record_le, LineRecord, RecordView,
};
use crate::order::Order;
use crate::sorting::{all_directed, lemma_views_push, record_views, reversed, sorted_by};

verus! {

broadcast use vstd::seq_lib::group_to_multiset_ensures;

/// The heads of the runs being merged, as plain values.
pub ghost struct HeadsView {
    pub heads: Seq<Option<RecordView>>,
    pub order: Order,
}

/// The current head record of each sorted run of a k-way merge; an exhausted run has none.
pub struct MergeHeads {
    heads: Vec<Option<LineRecord>>,
    order: Order,
    // the run last selected, and the run whose head comes first among the others
    cursor: Option<(usize, Option<usize>)>,
}

/// The head, if any, as plain values.
pub open spec fn head_view(h: Option<LineRecord>) -> Option<RecordView> {
    match h {
        Some(r) => Some(r@),
        None => None,
    }
}

/// `h` is absent or sorts in direction `order`.
pub open spec fn head_directed(h: Option<RecordView>, order: Order) -> bool {
    match h {
        Some(r) => r.order == order,
        None => true,
    }
}

/// Head `i` is present and may stand before every present head.
pub open spec fn is_min_head(v: HeadsView, i: int) -> bool {
    &&& 0 <= i < v.heads.len()
    &&& v.heads[i] is Some
    &&& forall|j: int|
        0 <= j < v.heads.len() && (#[trigger] v.heads[j]) is Some ==> record_le(
            v.order,
            v.heads[i]->0,
            v.heads[j]->0,
        )
}

impl View for MergeHeads {
    type V = HeadsView;

    closed spec fn view(&self) -> HeadsView {
        HeadsView { heads: self.heads@.map_values(|h: Option<LineRecord>| head_view(h)), order: self.order }
    }
}

impl MergeHeads {
    /// Head `j` is present, is not head `c`, and may stand before every other present head
    /// but head `c`.
    pub open spec fn is_min_except(v: HeadsView, c: int, j: int) -> bool {
        &&& 0 <= j < v.heads.len()
        &&& j != c
        &&& v.heads[j] is Some
        &&& forall|k: int|
            0 <= k < v.heads.len() && k != c && (#[trigger] v.heads[k]) is Some ==> record_le(
                v.order,
                v.heads[j]->0,
                v.heads[k]->0,
            )
    }

    /// No head is present but possibly head `c`.
    pub open spec fn none_except(v: HeadsView, c: int) -> bool {
        forall|k: int| 0 <= k < v.heads.len() && k != c ==> (#[trigger] v.heads[k]) is None
    }

    closed spec fn cursor_ok(&self) -> bool {
        match self.cursor {
            None => true,
            Some((c, o)) => c < self.heads@.len() && match o {
                Some(j) => Self::is_min_except(self@, c as int, j as int),
                None => Self::none_except(self@, c as int),
            },
        }
    }

    /// Every present head sorts in the merge's direction.
    pub closed spec fn wf(&self) -> bool {
        &&& forall|i: int| 0 <= i < self@.heads.len() ==> head_directed(#[trigger] self@.heads[i], self@.order)
        &&& self.cursor_ok()
    }

    /// No runs yet, merging in direction `order`.
    pub fn new(order: Order) -> (r: MergeHeads)
        ensures
            r@.heads.len() == 0,
            r@.order == order,
            r.wf(),
    {
        MergeHeads { heads: Vec::new(), order, cursor: None }
    }

    /// The direction of the merge.
    pub fn order(&self) -> (r: Order)
        ensures
            r == self@.order,
    {
        self.order
    }

    /// The number of runs.
    pub fn len(&self) -> (r: usize)
        ensures
            r == self@.heads.len(),
    {
        self.heads.len()
    }

    /// Adds a run whose first record is `head`, or an empty run.
    pub fn add_run(&mut self, head: Option<LineRecord>)
        requires
            old(self).wf(),
            head_directed(head_view(head), old(self)@.order),
        ensures
            final(self)@.heads == old(self)@.heads.push(head_view(head)),
            final(self)@.order == old(self)@.order,
            final(self).wf(),
    {
        self.heads.push(head);
        self.cursor = None;
        assert(self@.heads =~= old(self)@.heads.push(head_view(head)));
    }

    /// The run whose head comes first, or none when every run is exhausted.
    ///
    /// Exhausted runs come after every run that still has a head.
    pub fn select(&self) -> (r: Option<usize>)
        requires
            self.wf(),
        ensures
            r is None <==> forall|j: int| 0 <= j < self@.heads.len() ==> (#[trigger] self@.heads[j]) is None,
            r matches Some(i) ==> is_min_head(self@, i as int),
    {
        self.min_head(None)
    }

    /// The present head that comes first among all but head `skip`.
    fn min_head(&self, skip: Option<usize>) -> (r: Option<usize>)
        requires
            self.wf(),
        ensures
            ({
                let c = match skip {
                    Some(x) => x as int,
                    None => -1,
                };
                &&& r is None <==> Self::none_except(self@, c)
                &&& r matches Some(i) ==> Self::is_min_except(self@, c, i as int)
            }),
    {
        let ghost v = self@;
        let ghost c: int = match skip {
            Some(x) => x as int,
            None => -1,
        };
        let mut best: Option<usize> = None;
        let mut i: usize = 0;
        while i < self.heads.len()
            invariant
                v == self@,
                c == match skip {
                    Some(x) => x as int,
                    None => -1,
                },
                self.wf(),
                i <= self.heads.len(),
                v.heads.len() == self.heads.len(),
                best is None <==> forall|j: int| 0 <= j < i && j != c ==> (#[trigger] v.heads[j]) is None,
                best matches Some(b) ==> b < i && b != c && v.heads[b as int] is Some && forall|j: int|
                    0 <= j < i && j != c && (#[trigger] v.heads[j]) is Some ==> record_le(
                        v.order,
                        v.heads[b as int]->0,
                        v.heads[j]->0,
                    ),
            decreases self.heads.len() - i,
        {
            assert(v.heads[i as int] == head_view(self.heads@[i as int]));
            let skipped = match skip {
                Some(x) => x == i,
                None => false,
            };
            if !skipped {
                match &self.heads[i] {
                    None => {},
                    Some(h) => {
                        match best {
                            None => {
                                best = Some(i);
                                proof {
                                    lemma_record_le_total(v.order, h@, h@);
                                }
                            },
                            Some(b) => {
                                assert(v.heads[b as int] == head_view(self.heads@[b as int]));
                                let hb = self.heads[b].as_ref().unwrap();
                                let cmp = hb.compare(h);
                                proof {
                                    assert(head_directed(v.heads[b as int], v.order));
                                    lemma_record_le_total(v.order, hb@, h@);
                                }
                                if matches!(cmp, Ordering::Greater) {
                                    best = Some(i);
                                    proof {
                                        assert forall|j: int|
                                            0 <= j <= i && j != c && (#[trigger] v.heads[j]) is Some implies record_le(
                                            v.order,
                                            h@,
                                            v.heads[j]->0,
                                        ) by {
                                            if j < i {
                                                lemma_record_le_trans(v.order, h@, hb@, v.heads[j]->0);
                                            } else {
                                                lemma_record_le_total(v.order, h@, h@);
                                            }
                                        }
                                    }
                                }
                            },
                        }
                    },
                }
            }
            i = i + 1;
        }
        best
    }

    /// The run whose head comes first, as `select` gives it, remembering the run that comes
    /// next: while the same run stays first it is found without a scan of all heads.
    pub fn next_source(&mut self) -> (r: Option<usize>)
        requires
            old(self).wf(),
        ensures
            final(self).wf(),
            final(self)@ == old(self)@,
            r is None <==> forall|j: int| 0 <= j < old(self)@.heads.len() ==> (#[trigger] old(self)@.heads[j]) is None,
            r matches Some(i) ==> is_min_head(old(self)@, i as int),
    {
        let ghost v = self@;
        if let Some((c, o)) = self.cursor {
            assert(v.heads[c as int] == head_view(self.heads@[c as int]));
            if let Some(hc) = &self.heads[c] {
                let first = match o {
                    None => true,
                    Some(j) => {
                        assert(v.heads[j as int] == head_view(self.heads@[j as int]));
                        let hj = self.heads[j].as_ref().unwrap();
                        let cmp = hc.compare(hj);
                        proof {
                            assert(head_directed(v.heads[c as int], v.order));
                        }
                        !matches!(cmp, Ordering::Greater)
                    },
                };
                if first {
                    proof {
                        assert forall|k: int| 0 <= k < v.heads.len() && (#[trigger] v.heads[k]) is Some implies record_le(
                            v.order,
                            v.heads[c as int]->0,
                            v.heads[k]->0,
                        ) by {
                            if k == c {
                                lemma_record_le_total(v.order, hc@, hc@);
                            } else {
                                let j = o.unwrap() as int;
                                lemma_record_le_trans(v.order, hc@, v.heads[j]->0, v.heads[k]->0);
                            }
                        }
                    }
                    return Some(c);
                }
            }
        }
        let r = self.min_head(None);
        match r {
            None => {
                self.cursor = None;
                None
            },
            Some(i) => {
                let o = self.min_head(Some(i));
                self.cursor = Some((i, o));
                Some(i)
            },
        }
    }

    /// Replaces head `i` by `next`, the following record of its run, and returns the
    /// head it had.
    pub fn advance(&mut self, i: usize, next: Option<LineRecord>) -> (r: Option<LineRecord>)
        requires
            old(self).wf(),
            i < old(self)@.heads.len(),
            head_directed(head_view(next), old(self)@.order),
        ensures
            head_view(r) == old(self)@.heads[i as int],
            final(self)@.heads == old(self)@.heads.update(i as int, head_view(next)),
            final(self)@.order == old(self)@.order,
            final(self).wf(),
    {
        let mut slot = next;
        std::mem::swap(&mut slot, &mut self.heads[i]);
        let keep = match self.cursor {
            Some((c, _)) => c == i,
            None => false,
        };
        if !keep {
            self.cursor = None;
        }
        assert(self@.heads =~= old(self)@.heads.update(i as int, head_view(next)));
        proof {
            let v0 = old(self)@;
            let v1 = self@;
            if let Some((c, o)) = self.cursor {
                match o {
                    Some(j) => {
                        assert forall|k: int|
                            0 <= k < v1.heads.len() && k != c && (#[trigger] v1.heads[k]) is Some implies record_le(
                            v1.order,
                            v1.heads[j as int]->0,
                            v1.heads[k]->0,
                        ) by {
                            assert(v0.heads[k] == v1.heads[k]);
                        }
                    },
                    None => {
                        assert forall|k: int| 0 <= k < v1.heads.len() && k != c implies (#[trigger] v1.heads[k]) is None by {
                            assert(v0.heads[k] == v1.heads[k]);
                        }
                    },
                }
            }
        }
        slot
    }
}

/// The runs, one after another.
pub open spec fn concat(runs: Seq<Seq<RecordView>>) -> Seq<RecordView>
    decreases runs.len(),
{
    if runs.len() == 0 {
        Seq::empty()
    } else {
        concat(runs.drop_last()) + runs.last()
    }
}

/// The records of all runs, counted with multiplicity.
pub open spec fn ms_sum(runs: Seq<Seq<RecordView>>) -> Multiset<RecordView>
    decreases runs.len(),
{
    if runs.len() == 0 {
        Multiset::empty()
    } else {
        ms_sum(runs.drop_last()).add(runs.last().to_multiset())
    }
}

proof fn lemma_ms_sum_concat(runs: Seq<Seq<RecordView>>)
    ensures
        ms_sum(runs) == concat(runs).to_multiset(),
    decreases runs.len(),
{
    if runs.len() > 0 {
        lemma_ms_sum_concat(runs.drop_last());
        vstd::seq_lib::lemma_multiset_commutative(concat(runs.drop_last()), runs.last());
    }
}

proof fn lemma_ms_sum_update(runs: Seq<Seq<RecordView>>, r: int, u: Seq<RecordView>)
    requires
        0 <= r < runs.len(),
    ensures
        ms_sum(runs).add(u.to_multiset()) == ms_sum(runs.update(r, u)).add(runs[r].to_multiset()),
    decreases runs.len(),
{
    let s2 = runs.update(r, u);
    if r == runs.len() - 1 {
        assert(s2.drop_last() =~= runs.drop_last());
        assert(ms_sum(runs).add(u.to_multiset()) =~= ms_sum(s2).add(runs[r].to_multiset()));
    } else {
        lemma_ms_sum_update(runs.drop_last(), r, u);
        assert(s2.drop_last() =~= runs.drop_last().update(r, u));
        assert(s2.last() == runs.last());
        assert(runs.drop_last()[r] == runs[r]);
        assert(ms_sum(runs) == ms_sum(runs.drop_last()).add(runs.last().to_multiset()));
        assert(ms_sum(s2) == ms_sum(s2.drop_last()).add(s2.last().to_multiset()));
        let dl = runs.drop_last();
        let lm = runs.last().to_multiset();
        assert(ms_sum(runs).add(u.to_multiset()) =~= ms_sum(dl).add(u.to_multiset()).add(lm));
        assert(ms_sum(dl).add(u.to_multiset()) == ms_sum(dl.update(r, u)).add(runs[r].to_multiset()));
        assert(ms_sum(dl.update(r, u)).add(runs[r].to_multiset()).add(lm) =~= ms_sum(s2).add(
            runs[r].to_multiset(),
        ));
    }
}

proof fn lemma_ms_sum_empty(runs: Seq<Seq<RecordView>>)
    requires
        forall|r: int| 0 <= r < runs.len() ==> (#[trigger] runs[r]).len() == 0,
    ensures
        ms_sum(runs) == Multiset::<RecordView>::empty(),
    decreases runs.len(),
{
    if runs.len() > 0 {
        lemma_ms_sum_empty(runs.drop_last());
        assert(runs.last().to_multiset() =~= Multiset::empty());
        assert(ms_sum(runs) =~= Multiset::empty());
    }
}

/// The runs as plain values.
pub open spec fn run_views(runs: Seq<Vec<LineRecord>>) -> Seq<Seq<RecordView>> {
    runs.map_values(|v: Vec<LineRecord>| record_views(v@))
}

/// Every run sorts in direction `order` and is sorted.
pub open spec fn runs_sorted(runs: Seq<Seq<RecordView>>, order: Order) -> bool {
    forall|r: int|
        0 <= r < runs.len() ==> all_directed(#[trigger] runs[r], order) && sorted_by(order, runs[r])
}

/// Merges sorted runs through their heads: the result holds the records of all runs and
/// is sorted.
pub fn merge_runs(runs: Vec<Vec<LineRecord>>, order: Order) -> (r: Vec<LineRecord>)
    requires
        runs_sorted(run_views(runs@), order),
    ensures
        record_views(r@).to_multiset() == concat(run_views(runs@)).to_multiset(),
        all_directed(record_views(r@), order),
        sorted_by(order, record_views(r@)),
{
    let ghost vr = run_views(runs@);
    let k = runs.len();
    let mut pending = reversed(runs);
    let mut heads = MergeHeads::new(order);
    let mut rests: Vec<Vec<LineRecord>> = Vec::new();
    // the records of each run not yet emitted, head first
    let ghost mut rems: Seq<Seq<RecordView>> = Seq::empty();
    while pending.len() > 0
        invariant
            vr == run_views(runs@),
            runs_sorted(vr, order),
            k == vr.len(),
            pending@.len() + rems.len() == k,
            forall|q: int| 0 <= q < pending@.len() ==> record_views((#[trigger] pending@[q])@) == vr[k - 1 - q],
            heads.wf(),
            heads@.order == order,
            heads@.heads.len() == rems.len(),
            rests@.len() == rems.len(),
            forall|q: int| 0 <= q < rems.len() ==> #[trigger] rems[q] == vr[q],
            forall|q: int|
                0 <= q < rems.len() ==> run_state(#[trigger] rems[q], heads@.heads[q], rests@[q]),
        decreases pending.len(),
    {
        let run = pending.pop().unwrap();
        let ghost q = rems.len() as int;
        assert(record_views(run@) == vr[q]);
        let mut rest = reversed(run);
        let head = rest.pop();
        proof {
            assert(all_directed(vr[q], order));
            if vr[q].len() > 0 {
                assert(vr[q][0] == run@[0]@);
            }
        }
        heads.add_run(head);
        rests.push(rest);
        proof {
            rems = rems.push(vr[q]);
            assert forall|p: int| 0 <= p < rems.len() implies run_state(#[trigger] rems[p], heads@.heads[p], rests@[p]) by {
                if p == q {
                    assert forall|t: int| 0 <= t < rest@.len() implies (#[trigger] rest@[t])@ == rems[p][rems[p].len() - 1 - t] by {
                        assert(rest@[t] == run@[run@.len() - 1 - t]);
                    }
                }
            }
        }
    }
    assert(rems =~= vr);
    let mut out: Vec<LineRecord> = Vec::new();
    proof {
        assert(record_views(out@).to_multiset() =~= Multiset::empty());
    }
    loop
        invariant
            vr == run_views(runs@),
            runs_sorted(vr, order),
            heads.wf(),
            heads@.order == order,
            heads@.heads.len() == rems.len(),
            rests@.len() == rems.len(),
            forall|q: int| 0 <= q < rems.len() ==> all_directed(#[trigger] rems[q], order) && sorted_by(order, rems[q]),
            forall|q: int|
                0 <= q < rems.len() ==> run_state(#[trigger] rems[q], heads@.heads[q], rests@[q]),
            record_views(out@).to_multiset().add(ms_sum(rems)) == ms_sum(vr),
            all_directed(record_views(out@), order),
            sorted_by(order, record_views(out@)),
            forall|p: int, q: int|
                0 <= p < out@.len() && 0 <= q < rems.len() && (#[trigger] heads@.heads[q]) is Some
                    ==> record_le(order, #[trigger] record_views(out@)[p], heads@.heads[q]->0),
        decreases ms_sum(rems).len(),
    {
        let sel = heads.next_source();
        match sel {
            None => {
                proof {
                    assert forall|q: int| 0 <= q < rems.len() implies (#[trigger] rems[q]).len() == 0 by {
                        assert(heads@.heads[q] is None);
                    }
                    lemma_ms_sum_empty(rems);
                    assert(record_views(out@).to_multiset() =~= ms_sum(vr));
                    lemma_ms_sum_concat(vr);
                }
                return out;
            },
            Some(i) => {
                let ghost hv = heads@;
                let ghost rem = rems[i as int];
                let ghost old_rests = rests@;
                let ghost old_rest = rests@[i as int]@;
                let next = rests[i].pop();
                proof {
                    assert(hv.heads[i as int] is Some);
                    assert(rem.len() > 0);
                    if rem.len() > 1 {
                        assert(next.unwrap()@ == rem[1]);
                        assert(all_directed(rem, order));
                        assert(rem[1].order == order);
                    }
                }
                let taken = heads.advance(i, next);
                let x = taken.unwrap();
                let ghost old_out = record_views(out@);
                proof {
                    lemma_views_push(out@, x);
                    let t = rem.drop_first();
                    lemma_ms_sum_update(rems, i as int, t);
                    assert(rem =~= seq![rem[0]] + t);
                    vstd::seq_lib::lemma_multiset_commutative(seq![rem[0]], t);
                    assert(seq![rem[0]] =~= Seq::<RecordView>::empty().push(rem[0]));
                    assert(seq![rem[0]].to_multiset() =~= Multiset::<RecordView>::empty().insert(rem[0]));
                }
                out.push(x);
                proof {
                    let vo = record_views(out@);
                    let old_rems = rems;
                    rems = rems.update(i as int, rem.drop_first());
                    assert(vo == old_out.push(x@));
                    assert(x@ == rem[0]);
                    let t = rem.drop_first();
                    assert(rem.to_multiset() =~= t.to_multiset().insert(rem[0]));
                    assert(ms_sum(old_rems).add(t.to_multiset()) == ms_sum(rems).add(rem.to_multiset()));
                    assert(ms_sum(rems).add(rem.to_multiset()) =~= ms_sum(rems).insert(x@).add(t.to_multiset()));
                    let lhs = ms_sum(old_rems);
                    let rhs = ms_sum(rems).insert(x@);
                    assert forall|v: RecordView| lhs.count(v) == rhs.count(v) by {
                        assert(lhs.add(t.to_multiset()).count(v) == rhs.add(t.to_multiset()).count(v));
                    }
                    assert(ms_sum(old_rems) =~= ms_sum(rems).insert(x@));
                    assert(record_views(out@).to_multiset() =~= old_out.to_multiset().insert(x@));
                    assert(record_views(out@).to_multiset().add(ms_sum(rems)) =~= ms_sum(vr));
                    assert forall|q: int| 0 <= q < rems.len() implies all_directed(#[trigger] rems[q], order) && sorted_by(order, rems[q]) by {
                        if q == i {
                            assert(all_directed(old_rems[q], order));
                            assert(sorted_by(order, old_rems[q]));
                            assert forall|a: int, b: int| 0 <= a < b < rems[q].len() implies record_le(order, #[trigger] rems[q][a], #[trigger] rems[q][b]) by {
                                assert(rems[q][a] == old_rems[q][a + 1]);
                                assert(rems[q][b] == old_rems[q][b + 1]);
                            }
                        }
                    }
                    assert forall|q: int| 0 <= q < rems.len() implies run_state(#[trigger] rems[q], heads@.heads[q], rests@[q]) by {
                        if q == i {
                            let nr = rems[q];
                            assert(run_state(rem, hv.heads[q], old_rests[q]));
                            if old_rest.len() > 0 {
                                assert(rests@[q]@ =~= old_rest.drop_last());
                            }
                            assert forall|t: int| 0 <= t < rests@[q]@.len() implies (#[trigger] rests@[q]@[t])@ == nr[nr.len() - 1 - t] by {
                                assert(old_rest[t]@ == rem[rem.len() - 1 - t]);
                            }
                            if rem.len() > 1 {
                                assert(old_rest.last()@ == rem[1]);
                            }
                        } else {
                            assert(rests@[q] == old_rests[q]);
                            assert(heads@.heads[q] == hv.heads[q]);
                            assert(rems[q] == old_rems[q]);
                        }
                    }
                    assert forall|a: int, b: int| 0 <= a < b < vo.len() implies record_le(order, #[trigger] vo[a], #[trigger] vo[b]) by {
                        if b == vo.len() - 1 {
                            assert(vo[a] == old_out[a]);
                            assert(hv.heads[i as int] is Some);
                        }
                    }
                    assert forall|a: int| 0 <= a < vo.len() implies (#[trigger] vo[a]).order == order by {
                        if a < vo.len() - 1 {
                            assert(vo[a] == old_out[a]);
                        }
                    }
                    assert forall|p: int, q: int|
                        0 <= p < vo.len() && 0 <= q < rems.len() && (#[trigger] heads@.heads[q]) is Some
                            implies record_le(order, #[trigger] vo[p], heads@.heads[q]->0) by {
                        let h = heads@.heads[q]->0;
                        if q != i {
                            assert(hv.heads[q] is Some);
                            if p < vo.len() - 1 {
                                assert(vo[p] == old_out[p]);
                            } else {
                                assert(is_min_head(hv, i as int));
                            }
                        } else {
                            assert(h == old_rems[q][1]);
                            assert(sorted_by(order, old_rems[q]));
                            assert(record_le(order, x@, h));
                            if p < vo.len() - 1 {
                                assert(vo[p] == old_out[p]);
                                lemma_record_le_trans(order, vo[p], x@, h);
                            } else {
                                lemma_record_le_total(order, x@, x@);
                            }
                        }
                    }
                }
            },
        }
    }
}

/// The state of one run during the merge: `rem` holds its records not yet emitted, its head
/// is the first of them, and `rest` holds the others in reverse order.
pub open spec fn run_state(rem: Seq<RecordView>, head: Option<RecordView>, rest: Vec<LineRecord>) -> bool {
    &&& (head is Some <==> rem.len() > 0)
    &&& (head matches Some(h) ==> h == rem[0])
    &&& rest@.len() == if rem.len() > 0 { rem.len() - 1 } else { 0 }
    &&& forall|t: int| 0 <= t < rest@.len() ==> (#[trigger] rest@[t])@ == rem[rem.len() - 1 - t]
}

} // verus!
