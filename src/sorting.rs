use vstd::prelude::*;

use core::cmp::Ordering;

use crate::line_record::{
    lemma_record_le_total, lemma_record_le_trans, record_cmp, record_le, LineRecord, RecordView,
};
use crate::order::Order;

verus! {

broadcast use vstd::seq_lib::group_to_multiset_ensures;

/// The records as plain values.
pub open spec fn record_views(s: Seq<LineRecord>) -> Seq<RecordView> {
    s.map_values(|r: LineRecord| r@)
}

/// Every record sorts in direction `order`.
pub open spec fn all_directed(s: Seq<RecordView>, order: Order) -> bool {
    forall|i: int| 0 <= i < s.len() ==> (#[trigger] s[i]).order == order
}

/// Each record may stand before every later one.
pub open spec fn sorted_by(order: Order, s: Seq<RecordView>) -> bool {
    forall|i: int, j: int| 0 <= i < j < s.len() ==> record_le(order, #[trigger] s[i], #[trigger] s[j])
}

pub(crate) proof fn lemma_views_push(s: Seq<LineRecord>, r: LineRecord)
    ensures
        record_views(s.push(r)) == record_views(s).push(r@),
{
    assert(record_views(s.push(r)) =~= record_views(s).push(r@));
}

/// A record compared in its own direction compares as `record_le` says.
proof fn lemma_cmp_le(order: Order, a: RecordView, b: RecordView)
    requires
        a.order == order,
    ensures
        record_cmp(a, b) != Ordering::Greater <==> record_le(order, a, b),
{
}

/// The items of `a` in reverse order.
pub fn reversed<T>(a: Vec<T>) -> (r: Vec<T>)
    ensures
        r@.len() == a@.len(),
        forall|k: int| 0 <= k < a@.len() ==> #[trigger] r@[k] == a@[a@.len() - 1 - k],
{
    let ghost orig = a@;
    let mut a = a;
    let mut r: Vec<T> = Vec::new();
    while a.len() > 0
        invariant
            a@ == orig.subrange(0, orig.len() - r@.len()),
            r@.len() <= orig.len(),
            forall|k: int| 0 <= k < r@.len() ==> #[trigger] r@[k] == orig[orig.len() - 1 - k],
        decreases a.len(),
    {
        let x = a.pop().unwrap();
        r.push(x);
    }
    r
}

/// Merges two sorted sequences of records into one sorted sequence holding both.
pub fn merge_sorted(a: Vec<LineRecord>, b: Vec<LineRecord>, order: Order) -> (r: Vec<LineRecord>)
    requires
        all_directed(record_views(a@), order),
        all_directed(record_views(b@), order),
        sorted_by(order, record_views(a@)),
        sorted_by(order, record_views(b@)),
    ensures
        record_views(r@).to_multiset() == record_views(a@ + b@).to_multiset(),
        all_directed(record_views(r@), order),
        sorted_by(order, record_views(r@)),
{
    let ghost va = record_views(a@);
    let ghost vb = record_views(b@);
    let ghost n = a@.len() as int;
    let ghost m = b@.len() as int;
    let mut ra = reversed(a);
    let mut rb = reversed(b);
    let mut out: Vec<LineRecord> = Vec::new();
    let ghost mut i: int = 0;
    let ghost mut j: int = 0;
    assert(va.subrange(0, 0) =~= Seq::<RecordView>::empty());
    assert(vb.subrange(0, 0) =~= Seq::<RecordView>::empty());
    while ra.len() > 0 || rb.len() > 0
        invariant
            0 <= i <= n,
            0 <= j <= m,
            n == va.len(),
            m == vb.len(),
            all_directed(va, order),
            all_directed(vb, order),
            sorted_by(order, va),
            sorted_by(order, vb),
            ra@.len() == n - i,
            rb@.len() == m - j,
            forall|k: int| 0 <= k < n - i ==> (#[trigger] ra@[k])@ == va[n - 1 - k],
            forall|k: int| 0 <= k < m - j ==> (#[trigger] rb@[k])@ == vb[m - 1 - k],
            record_views(out@).to_multiset() == va.subrange(0, i).to_multiset().add(
                vb.subrange(0, j).to_multiset(),
            ),
            out@.len() == i + j,
            all_directed(record_views(out@), order),
            sorted_by(order, record_views(out@)),
            forall|k: int|
                0 <= k < out@.len() ==> (i < n ==> record_le(order, #[trigger] record_views(out@)[k], va[i]))
                    && (j < m ==> record_le(order, record_views(out@)[k], vb[j])),
        decreases ra@.len() + rb@.len(),
    {
        let take_a = if ra.len() == 0 {
            false
        } else if rb.len() == 0 {
            true
        } else {
            let c = ra[ra.len() - 1].compare(&rb[rb.len() - 1]);
            proof {
                lemma_cmp_le(order, va[i], vb[j]);
            }
            !matches!(c, Ordering::Greater)
        };
        let ghost old_out = record_views(out@);
        let x = if take_a {
            ra.pop().unwrap()
        } else {
            rb.pop().unwrap()
        };
        proof {
            lemma_views_push(out@, x);
            if take_a {
                assert(x@ == va[i]);
                assert(va.subrange(0, i + 1) =~= va.subrange(0, i).push(va[i]));
                if j < m {
                    lemma_record_le_total(order, va[i], vb[j]);
                }
            } else {
                assert(x@ == vb[j]);
                assert(vb.subrange(0, j + 1) =~= vb.subrange(0, j).push(vb[j]));
                if i < n {
                    lemma_record_le_total(order, va[i], vb[j]);
                }
            }
        }
        out.push(x);
        proof {
            let vo = record_views(out@);
            assert(vo == old_out.push(x@));
            if take_a {
                i = i + 1;
            } else {
                j = j + 1;
            }
            assert forall|p: int, q: int| 0 <= p < q < vo.len() implies record_le(
                order,
                #[trigger] vo[p],
                #[trigger] vo[q],
            ) by {
                if q == vo.len() - 1 {
                    assert(vo[p] == old_out[p]);
                }
            }
            assert forall|k: int| 0 <= k < vo.len() implies (i < n ==> record_le(
                order,
                #[trigger] vo[k],
                va[i],
            )) && (j < m ==> record_le(order, vo[k], vb[j])) by {
                if k < vo.len() - 1 {
                    assert(vo[k] == old_out[k]);
                    if i < n {
                        if take_a {
                            lemma_record_le_trans(order, vo[k], va[i - 1], va[i]);
                        }
                    }
                    if j < m {
                        if !take_a {
                            lemma_record_le_trans(order, vo[k], vb[j - 1], vb[j]);
                        }
                    }
                } else {
                    if take_a {
                        if j < m {
                            assert(record_le(order, va[i - 1], vb[j]));
                        }
                    } else {
                        if i < n {
                            assert(record_le(order, vb[j - 1], va[i]));
                        }
                    }
                }
            }
            assert forall|k: int| 0 <= k < vo.len() implies (#[trigger] vo[k]).order == order by {
                if k < vo.len() - 1 {
                    assert(vo[k] == old_out[k]);
                }
            }
        }
    }
    proof {
        assert(va.subrange(0, n) =~= va);
        assert(vb.subrange(0, m) =~= vb);
        assert(record_views(a@ + b@) =~= va + vb);
        vstd::seq_lib::lemma_multiset_commutative(va, vb);
    }
    out
}

/// Sorts records in direction `order`: the result holds the same records and each may
/// stand before every later one.
pub fn sort_records(v: Vec<LineRecord>, order: Order) -> (r: Vec<LineRecord>)
    requires
        all_directed(record_views(v@), order),
    ensures
        record_views(r@).to_multiset() == record_views(v@).to_multiset(),
        all_directed(record_views(r@), order),
        sorted_by(order, record_views(r@)),
    decreases v@.len(),
{
    if v.len() <= 1 {
        return v;
    }
    let ghost whole = v@;
    let mut left = v;
    let mid = left.len() / 2;
    let right = left.split_off(mid);
    proof {
        assert(whole =~= left@ + right@);
        assert(record_views(left@) =~= record_views(whole).subrange(0, mid as int));
        assert(record_views(right@) =~= record_views(whole).subrange(mid as int, whole.len() as int));
    }
    let sl = sort_records(left, order);
    let sr = sort_records(right, order);
    let r = merge_sorted(sl, sr, order);
    proof {
        vstd::seq_lib::lemma_multiset_commutative(record_views(sl@), record_views(sr@));
        vstd::seq_lib::lemma_multiset_commutative(record_views(left@), record_views(right@));
        assert(record_views(sl@ + sr@) =~= record_views(sl@) + record_views(sr@));
        assert(record_views(whole) =~= record_views(left@) + record_views(right@));
    }
    r
}

} // verus!
