use vstd::prelude::*;
use vstd::utf8::{encode_utf8, encode_utf8_decode_utf8};

use crate::field::FieldView;
use crate::field_type::FieldType;
use crate::key::KeyView;
use crate::line_record::{key_fits_and_holds, lemma_keys_cmp_props, record_le, RecordView};
use crate::merge::concat;
use crate::order::Order;
use crate::pipeline::record_lines;
use crate::sorting::sorted_by;

verus! {

broadcast use vstd::seq_lib::group_to_multiset_ensures;

/// Stability of line bytes: when the output lines hold the same lines as the kept input
/// lines, every output line is, byte for byte, one of the kept input lines.
pub proof fn lemma_output_lines_are_input_lines(output: Seq<Seq<char>>, kept: Seq<Seq<char>>)
    requires
        output.to_multiset() == kept.to_multiset(),
    ensures
        forall|i: int| 0 <= i < output.len() ==> kept.contains(#[trigger] output[i]),
{
    assert forall|i: int| 0 <= i < output.len() implies kept.contains(#[trigger] output[i]) by {
        vstd::seq_lib::to_multiset_contains(output, output[i]);
        vstd::seq_lib::to_multiset_contains(kept, output[i]);
        assert(output.contains(output[i]));
    }
}

/// Records with equal keys are the same record: no two distinct records tie.
pub open spec fn keys_determine(s: Seq<RecordView>) -> bool {
    forall|i: int, j: int|
        0 <= i < s.len() && 0 <= j < s.len() && (#[trigger] s[i]).keys == (#[trigger] s[j]).keys
            ==> s[i] == s[j]
}

/// Two records that may each stand before the other have equal keys.
proof fn lemma_le_both_ways(order: Order, a: RecordView, b: RecordView)
    requires
        record_le(order, a, b),
        record_le(order, b, a),
    ensures
        a.keys == b.keys,
{
    lemma_keys_cmp_props(a.keys, b.keys);
}

/// Sorting has one outcome where no two distinct records tie: two sorted sequences that
/// hold the same records are equal.
pub proof fn lemma_sorted_unique(order: Order, s1: Seq<RecordView>, s2: Seq<RecordView>)
    requires
        sorted_by(order, s1),
        sorted_by(order, s2),
        s1.to_multiset() == s2.to_multiset(),
        keys_determine(s1),
    ensures
        s1 == s2,
    decreases s1.len(),
{
    vstd::seq_lib::to_multiset_len(s1);
    vstd::seq_lib::to_multiset_len(s2);
    if s1.len() == 0 {
        assert(s1 =~= s2);
    } else {
        let x = s1[0];
        let y = s2[0];
        vstd::seq_lib::to_multiset_contains(s1, y);
        vstd::seq_lib::to_multiset_contains(s2, x);
        assert(s2.contains(y));
        assert(s1.contains(x));
        let j = choose|j: int| 0 <= j < s1.len() && s1[j] == y;
        let k = choose|k: int| 0 <= k < s2.len() && s2[k] == x;
        if j > 0 {
            assert(record_le(order, s1[0], s1[j]));
        } else {
            crate::line_record::lemma_record_le_total(order, x, x);
        }
        if k > 0 {
            assert(record_le(order, s2[0], s2[k]));
        } else {
            crate::line_record::lemma_record_le_total(order, y, y);
        }
        lemma_le_both_ways(order, x, y);
        assert(s1[0] == s1[j]);
        vstd::seq_lib::to_multiset_remove(s1, 0);
        vstd::seq_lib::to_multiset_remove(s2, 0);
        assert(s1.remove(0) =~= s1.drop_first());
        assert(s2.remove(0) =~= s2.drop_first());
        let t1 = s1.drop_first();
        let t2 = s2.drop_first();
        assert(sorted_by(order, t1)) by {
            assert forall|a: int, b: int| 0 <= a < b < t1.len() implies record_le(order, #[trigger] t1[a], #[trigger] t1[b]) by {
                assert(t1[a] == s1[a + 1] && t1[b] == s1[b + 1]);
            }
        }
        assert(sorted_by(order, t2)) by {
            assert forall|a: int, b: int| 0 <= a < b < t2.len() implies record_le(order, #[trigger] t2[a], #[trigger] t2[b]) by {
                assert(t2[a] == s2[a + 1] && t2[b] == s2[b + 1]);
            }
        }
        assert(keys_determine(t1)) by {
            assert forall|a: int, b: int|
                0 <= a < t1.len() && 0 <= b < t1.len() && (#[trigger] t1[a]).keys == (#[trigger] t1[b]).keys
                    implies t1[a] == t1[b] by {
                assert(t1[a] == s1[a + 1] && t1[b] == s1[b + 1]);
            }
        }
        lemma_sorted_unique(order, t1, t2);
        assert(s1 =~= s2) by {
            assert forall|a: int| 0 <= a < s1.len() implies s1[a] == s2[a] by {
                if a > 0 {
                    assert(s1[a] == t1[a - 1] && s2[a] == t2[a - 1]);
                }
            }
        }
    }
}

/// The single field that keys the whole line as plain text, with no flag set.
pub open spec fn plain_whole_line(fields: Seq<FieldView>) -> bool {
    &&& fields.len() == 1
    &&& fields[0].index == 0
    &&& fields[0].field_type == FieldType::String
    &&& !fields[0].ignore_blanks
    &&& !fields[0].ignore_case
    &&& !fields[0].random
}

/// Records built from their lines under `fields`, all in direction `order`.
pub open spec fn built_from_lines<F: Fn(&str) -> Option<u64>>(
    s: Seq<RecordView>,
    sep: char,
    fields: Seq<FieldView>,
    number: F,
    order: Order,
) -> bool {
    forall|i: int|
        0 <= i < s.len() ==> (#[trigger] s[i]).order == order && s[i].keys.len() == fields.len()
            && forall|k: int|
            0 <= k < fields.len() ==> #[trigger] key_fits_and_holds(
                s[i].line,
                sep,
                fields,
                number,
                k,
                s[i].keys[k],
            )
}

/// Under the plain whole-line key, equal keys mean equal records.
pub proof fn lemma_plain_keys_determine<F: Fn(&str) -> Option<u64>>(
    s: Seq<RecordView>,
    sep: char,
    fields: Seq<FieldView>,
    number: F,
    order: Order,
)
    requires
        plain_whole_line(fields),
        built_from_lines(s, sep, fields, number, order),
    ensures
        keys_determine(s),
{
    assert forall|i: int, j: int|
        0 <= i < s.len() && 0 <= j < s.len() && (#[trigger] s[i]).keys == (#[trigger] s[j]).keys
            implies s[i] == s[j] by {
        assert(key_fits_and_holds(s[i].line, sep, fields, number, 0, s[i].keys[0]));
        assert(key_fits_and_holds(s[j].line, sep, fields, number, 0, s[j].keys[0]));
        assert(s[i].keys[0] == KeyView::Str(encode_utf8(s[i].line)));
        assert(s[j].keys[0] == KeyView::Str(encode_utf8(s[j].line)));
        encode_utf8_decode_utf8(s[i].line);
        encode_utf8_decode_utf8(s[j].line);
        assert(s[i].line == s[j].line);
    }
}

/// Idempotence: where the whole line is the plain key, sorting records that are already
/// sorted gives them back unchanged: any sorted sequence holding the same records is the
/// input itself, line for line.
pub proof fn lemma_sort_sorted_is_identity<F: Fn(&str) -> Option<u64>>(
    order: Order,
    sep: char,
    fields: Seq<FieldView>,
    number: F,
    input: Seq<RecordView>,
    output: Seq<RecordView>,
)
    requires
        plain_whole_line(fields),
        built_from_lines(input, sep, fields, number, order),
        sorted_by(order, input),
        sorted_by(order, output),
        output.to_multiset() == input.to_multiset(),
    ensures
        output == input,
        record_lines(output) == record_lines(input),
{
    lemma_plain_keys_determine(input, sep, fields, number, order);
    lemma_sorted_unique(order, input, output);
}

/// Merge equivalence: where no two distinct records tie, merging sorted shards whose records
/// together are those of a sorted sequence gives that sequence back, line for line.
pub proof fn lemma_merge_restores(
    order: Order,
    original: Seq<RecordView>,
    shards: Seq<Seq<RecordView>>,
    merged: Seq<RecordView>,
)
    requires
        sorted_by(order, original),
        keys_determine(original),
        concat(shards).to_multiset() == original.to_multiset(),
        merged.to_multiset() == concat(shards).to_multiset(),
        sorted_by(order, merged),
    ensures
        merged == original,
        record_lines(merged) == record_lines(original),
{
    lemma_sorted_unique(order, original, merged);
}

/// A record with its direction set to ascending: what remains is its line and keys.
pub open spec fn undirected(r: RecordView) -> RecordView {
    RecordView { order: Order::Asc, ..r }
}

/// Round trip: where no two distinct records tie, the descending sort of some records lists
/// the lines of their ascending sort in reverse.
pub proof fn lemma_desc_reverses_asc(asc: Seq<RecordView>, desc: Seq<RecordView>)
    requires
        sorted_by(Order::Asc, asc),
        sorted_by(Order::Desc, desc),
        asc.map_values(|r: RecordView| undirected(r)).to_multiset() == desc.map_values(
            |r: RecordView| undirected(r),
        ).to_multiset(),
        keys_determine(asc.map_values(|r: RecordView| undirected(r))),
    ensures
        record_lines(desc) == record_lines(asc).reverse(),
{
    let f = |r: RecordView| undirected(r);
    let a = asc.map_values(f);
    let dm = desc.map_values(f);
    let d = dm.reverse();
    let n = desc.len();
    assert(sorted_by(Order::Asc, a)) by {
        assert forall|i: int, j: int| 0 <= i < j < a.len() implies record_le(Order::Asc, #[trigger] a[i], #[trigger] a[j]) by {
            assert(record_le(Order::Asc, asc[i], asc[j]));
        }
    }
    assert(sorted_by(Order::Asc, d)) by {
        assert forall|i: int, j: int| 0 <= i < j < d.len() implies record_le(Order::Asc, #[trigger] d[i], #[trigger] d[j]) by {
            assert(d[i] == f(desc[n - 1 - i]));
            assert(d[j] == f(desc[n - 1 - j]));
            assert(record_le(Order::Desc, desc[n - 1 - j], desc[n - 1 - i]));
            lemma_keys_cmp_props(desc[n - 1 - j].keys, desc[n - 1 - i].keys);
        }
    }
    dm.lemma_reverse_to_multiset();
    lemma_sorted_unique(Order::Asc, a, d);
    assert(record_lines(desc) =~= record_lines(asc).reverse()) by {
        assert forall|i: int| 0 <= i < n implies record_lines(desc)[i] == record_lines(asc).reverse()[i] by {
            assert(a[n - 1 - i] == d[n - 1 - i]);
            assert(d[n - 1 - i] == f(desc[i]));
        }
    }
}

} // verus!
