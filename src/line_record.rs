use vstd::prelude::*;

use core::cmp::Ordering;

use crate::field::{Field, FieldView};
use crate::key::{
    flip, key_can_succeed, key_cmp, key_result, lemma_key_cmp_props, lemma_key_cmp_trans, Key,
    KeyError, KeyView,
};
use crate::order::Order;

verus! {

/// The parts of `s` between occurrences of `sep`, as `str::split` with a `char` yields
/// them: one more part than there are separators, empty parts kept.
pub open spec fn split_on(s: Seq<char>, sep: char) -> Seq<Seq<char>>
    decreases s.len(),
{
    if s.len() == 0 {
        seq![Seq::<char>::empty()]
    } else {
        let prev = split_on(s.drop_last(), sep);
        if s.last() == sep {
            prev.push(Seq::<char>::empty())
        } else {
            prev.update(prev.len() - 1, prev.last().push(s.last()))
        }
    }
}

/// Relies on `str::split` with a `char` pattern.
#[verifier::external_body]
fn split_fields<'a>(line: &'a str, sep: char) -> (r: Vec<&'a str>)
    ensures
        r@.map_values(|p: &str| p@) == split_on(line@, sep),
{
    line.split(sep).collect()
}

/// A record, as plain values.
pub ghost struct RecordView {
    pub line: Seq<char>,
    pub keys: Seq<KeyView>,
    pub order: Order,
}

/// A line with the keys that its fields give, and the direction it sorts in.
#[derive(Debug)]
pub struct LineRecord {
    line: String,
    keys: Vec<Key>,
    order: Order,
}

impl View for LineRecord {
    type V = RecordView;

    closed spec fn view(&self) -> RecordView {
        RecordView { line: self.line@, keys: self.keys@.map_values(|k: Key| k@), order: self.order }
    }
}

/// Why a line gave no record.
#[derive(Clone, Copy, Debug, PartialEq, Eq, Structural)]
pub enum RecordError {
    /// Index 0, the whole line, stands beside other fields
    WholeLineMixed,
    /// The line has fewer parts than a field's index
    MissingField { index: usize, parts: usize },
    /// A field's text gave no key
    Key(KeyError),
}

/// Lexicographic comparison of key sequences; a proper prefix comes first.
pub open spec fn keys_cmp(a: Seq<KeyView>, b: Seq<KeyView>) -> Ordering
    decreases a.len(),
{
    if a.len() == 0 {
        if b.len() == 0 {
            Ordering::Equal
        } else {
            Ordering::Less
        }
    } else if b.len() == 0 {
        Ordering::Greater
    } else if key_cmp(a[0], b[0]) != Ordering::Equal {
        key_cmp(a[0], b[0])
    } else {
        keys_cmp(a.drop_first(), b.drop_first())
    }
}

/// The comparison of keys turned by the direction of the sort.
pub open spec fn directed(order: Order, o: Ordering) -> Ordering {
    match order {
        Order::Asc => o,
        Order::Desc => flip(o),
    }
}

/// Comparison of two records: their keys, reversed when the first one sorts descending.
pub open spec fn record_cmp(a: RecordView, b: RecordView) -> Ordering {
    directed(a.order, keys_cmp(a.keys, b.keys))
}

/// Whether `a` may stand before `b` in output sorted in direction `order`.
pub open spec fn record_le(order: Order, a: RecordView, b: RecordView) -> bool {
    directed(order, keys_cmp(a.keys, b.keys)) != Ordering::Greater
}

pub proof fn lemma_keys_cmp_props(a: Seq<KeyView>, b: Seq<KeyView>)
    ensures
        keys_cmp(b, a) == flip(keys_cmp(a, b)),
        keys_cmp(a, b) == Ordering::Equal <==> a == b,
    decreases a.len(),
{
    if a.len() > 0 && b.len() > 0 {
        lemma_key_cmp_props(a[0], b[0]);
        if key_cmp(a[0], b[0]) == Ordering::Equal {
            lemma_keys_cmp_props(a.drop_first(), b.drop_first());
            if a.drop_first() == b.drop_first() {
                assert(a =~= seq![a[0]] + a.drop_first());
                assert(b =~= seq![b[0]] + b.drop_first());
            }
        }
    }
    if a.len() == 0 && b.len() == 0 {
        assert(a =~= b);
    }
}

pub proof fn lemma_keys_cmp_trans(a: Seq<KeyView>, b: Seq<KeyView>, c: Seq<KeyView>)
    requires
        keys_cmp(a, b) != Ordering::Greater,
        keys_cmp(b, c) != Ordering::Greater,
    ensures
        keys_cmp(a, c) != Ordering::Greater,
    decreases a.len(),
{
    if a.len() > 0 && b.len() > 0 && c.len() > 0 {
        lemma_key_cmp_props(a[0], b[0]);
        lemma_key_cmp_props(b[0], c[0]);
        lemma_key_cmp_props(a[0], c[0]);
        lemma_key_cmp_trans(a[0], b[0], c[0]);
        if key_cmp(a[0], b[0]) == Ordering::Equal && key_cmp(b[0], c[0]) == Ordering::Equal {
            lemma_keys_cmp_trans(a.drop_first(), b.drop_first(), c.drop_first());
        }
    }
}

/// Records ordered in one direction form a total preorder.
pub proof fn lemma_record_le_total(order: Order, a: RecordView, b: RecordView)
    ensures
        record_le(order, a, b) || record_le(order, b, a),
{
    lemma_keys_cmp_props(a.keys, b.keys);
}

pub proof fn lemma_record_le_trans(order: Order, a: RecordView, b: RecordView, c: RecordView)
    requires
        record_le(order, a, b),
        record_le(order, b, c),
    ensures
        record_le(order, a, c),
{
    lemma_keys_cmp_props(a.keys, b.keys);
    lemma_keys_cmp_props(b.keys, c.keys);
    lemma_keys_cmp_props(a.keys, c.keys);
    match order {
        Order::Asc => lemma_keys_cmp_trans(a.keys, b.keys, c.keys),
        Order::Desc => lemma_keys_cmp_trans(c.keys, b.keys, a.keys),
    }
}

/// Whether the fields select the whole line as the only key.
pub open spec fn whole_line(fields: Seq<FieldView>) -> bool {
    fields.len() == 1 && fields[0].index == 0
}

/// The text that field `def` selects from `line`.
pub open spec fn field_text(line: Seq<char>, sep: char, fields: Seq<FieldView>, def: FieldView) -> Seq<
    char,
> {
    if whole_line(fields) {
        line
    } else {
        split_on(line, sep)[def.index - 1]
    }
}

/// Whether field `def` selects an existing part of `line`.
pub open spec fn field_fits(line: Seq<char>, sep: char, fields: Seq<FieldView>, def: FieldView) -> bool {
    whole_line(fields) || (def.index != 0 && def.index <= split_on(line, sep).len())
}

/// The error of a field that selects no part of `line`.
pub open spec fn fit_error(line: Seq<char>, sep: char, def: FieldView) -> RecordError {
    if def.index == 0 {
        RecordError::WholeLineMixed
    } else {
        RecordError::MissingField { index: def.index as usize, parts: split_on(line, sep).len() as usize }
    }
}

/// Field `k` selects a part of `line` and its key `kv` is one that its text gives.
pub open spec fn key_fits_and_holds<F: Fn(&str) -> Option<u64>>(
    line: Seq<char>,
    sep: char,
    fv: Seq<FieldView>,
    number: F,
    k: int,
    kv: KeyView,
) -> bool {
    field_fits(line, sep, fv, fv[k]) && key_result(field_text(line, sep, fv, fv[k]), fv[k], number, Ok(kv))
}

/// Field `k` is the first that fails on `line`, with error `e`.
pub open spec fn first_failure<F: Fn(&str) -> Option<u64>>(
    line: Seq<char>,
    sep: char,
    fv: Seq<FieldView>,
    number: F,
    k: int,
    e: RecordError,
) -> bool {
    &&& 0 <= k < fv.len()
    &&& forall|j: int| 0 <= j < k ==> #[trigger] field_fits(line, sep, fv, fv[j])
    &&& if field_fits(line, sep, fv, fv[k]) {
        exists|ke: KeyError|
            e == RecordError::Key(ke) && #[trigger] key_result(
                field_text(line, sep, fv, fv[k]),
                fv[k],
                number,
                Err(ke),
            )
    } else {
        e == fit_error(line, sep, fv[k])
    }
}

/// Every field selects a part of `line` whose text gives a key whatever `number` returns.
pub open spec fn all_fields_succeed<F: Fn(&str) -> Option<u64>>(
    line: Seq<char>,
    sep: char,
    fv: Seq<FieldView>,
    number: F,
) -> bool {
    forall|k: int|
        0 <= k < fv.len() ==> field_fits(line, sep, fv, fv[k]) && #[trigger] key_can_succeed(
            field_text(line, sep, fv, fv[k]),
            fv[k],
            number,
        )
}

/// The fields can key some line: the whole line alone, or only indices from 1 on.
pub open spec fn fields_consistent(fields: Seq<FieldView>) -> bool {
    whole_line(fields) || forall|k: int| 0 <= k < fields.len() ==> (#[trigger] fields[k]).index != 0
}

/// Whether the fields can key some line: index 0 may only stand alone.
pub fn fields_are_consistent(fields: &Vec<Field>) -> (r: bool)
    ensures
        r == fields_consistent(field_views(fields@)),
{
    let ghost fv = field_views(fields@);
    if fields.len() == 1 && fields[0].index() == 0 {
        return true;
    }
    let mut i: usize = 0;
    while i < fields.len()
        invariant
            fv == field_views(fields@),
            !whole_line(fv),
            i <= fields.len(),
            forall|k: int| 0 <= k < i ==> (#[trigger] fv[k]).index != 0,
        decreases fields.len() - i,
    {
        assert(fv[i as int] == fields@[i as int]@);
        if fields[i].index() == 0 {
            return false;
        }
        i = i + 1;
    }
    true
}

/// The fields as plain values.
pub open spec fn field_views(fields: Seq<Field>) -> Seq<FieldView> {
    fields.map_values(|f: Field| f@)
}

impl LineRecord {
    /// The record of `line` under `fields`, split at `sep`, sorting in direction `order`;
    /// `number` reads the IEEE-754 bits of a double from the text of a number field.
    ///
    /// A single field of index 0 keys the whole line. Otherwise the fields are read in
    /// turn from the parts of the line; the first field that has index 0, selects a part
    /// the line lacks, or whose text gives no key, is the error.
    pub fn new<F: Fn(&str) -> Option<u64>>(
        line: String,
        fields: &Vec<Field>,
        sep: char,
        order: Order,
        number: &F,
    ) -> (r: Result<LineRecord, RecordError>)
        requires
            forall|t: &str| #[trigger] number.requires((t,)),
        ensures
            match r {
                Ok(rec) => {
                    &&& rec@.line == line@
                    &&& rec@.order == order
                    &&& rec@.keys.len() == fields.len()
                    &&& forall|k: int|
                        0 <= k < fields.len() ==> #[trigger] key_fits_and_holds(
                            line@,
                            sep,
                            field_views(fields@),
                            *number,
                            k,
                            rec@.keys[k],
                        )
                },
                Err(e) => exists|k: int|
                    first_failure(line@, sep, field_views(fields@), *number, k, e),
            },
            all_fields_succeed(line@, sep, field_views(fields@), *number) ==> r is Ok,
    {
        let ghost fv = field_views(fields@);
        if fields.len() == 1 && fields[0].index() == 0 {
            let kr = Key::new(line.as_str(), &fields[0], number);
            match kr {
                Ok(key) => {
                    let mut keys: Vec<Key> = Vec::new();
                    keys.push(key);
                    let rec = LineRecord { line, keys, order };
                    assert(rec@.keys[0] == key@);
                    assert(key_fits_and_holds(rec@.line, sep, fv, *number, 0, rec@.keys[0]));
                    Ok(rec)
                },
                Err(e) => {
                    proof {
                        assert(field_fits(line@, sep, fv, fv[0]));
                        assert(key_result(field_text(line@, sep, fv, fv[0]), fv[0], *number, Err(e)));
                        assert(first_failure(line@, sep, fv, *number, 0, RecordError::Key(e)));
                        if all_fields_succeed(line@, sep, fv, *number) {
                            assert(key_can_succeed(field_text(line@, sep, fv, fv[0]), fv[0], *number));
                            crate::key::lemma_key_can_succeed(field_text(line@, sep, fv, fv[0]), fv[0], *number, e);
                        }
                    }
                    Err(RecordError::Key(e))
                },
            }
        } else {
            let mut keys: Vec<Key> = Vec::new();
            let parts = split_fields(line.as_str(), sep);
            proof {
                lemma_split_on_len(line@, sep);
                assert(parts@.len() == split_on(line@, sep).len());
            }
            let mut i: usize = 0;
            while i < fields.len()
                invariant
                    fv == field_views(fields@),
                    !whole_line(fv),
                    parts@.map_values(|p: &str| p@) == split_on(line@, sep),
                    i <= fields.len(),
                    keys@.len() == i,
                    forall|t: &str| #[trigger] number.requires((t,)),
                    forall|k: int|
                        0 <= k < i ==> #[trigger] key_fits_and_holds(
                            line@,
                            sep,
                            fv,
                            *number,
                            k,
                            keys@[k]@,
                        ),
                decreases fields.len() - i,
            {
                let f = &fields[i];
                assert(fv[i as int] == f@);
                let idx = f.index();
                proof {
                    assert forall|j: int| 0 <= j < i implies #[trigger] field_fits(line@, sep, fv, fv[j]) by {
                        assert(key_fits_and_holds(line@, sep, fv, *number, j, keys@[j]@));
                    }
                }
                proof {
                    if all_fields_succeed(line@, sep, fv, *number) {
                        assert(key_can_succeed(field_text(line@, sep, fv, fv[i as int]), fv[i as int], *number));
                    }
                }
                if idx == 0 {
                    assert(first_failure(line@, sep, fv, *number, i as int, RecordError::WholeLineMixed));
                    return Err(RecordError::WholeLineMixed);
                }
                if idx > parts.len() {
                    assert(first_failure(
                        line@,
                        sep,
                        fv,
                        *number,
                        i as int,
                        RecordError::MissingField { index: idx, parts: parts.len() },
                    ));
                    return Err(RecordError::MissingField { index: idx, parts: parts.len() });
                }
                let part = parts[idx - 1];
                assert(part@ == split_on(line@, sep)[idx - 1]);
                match Key::new(part, f, number) {
                    Ok(key) => {
                        keys.push(key);
                        assert(key_fits_and_holds(line@, sep, fv, *number, i as int, keys@[i as int]@));
                    },
                    Err(e) => {
                        proof {
                            let t = field_text(line@, sep, fv, fv[i as int]);
                            assert(key_result(t, fv[i as int], *number, Err(e)));
                            assert(first_failure(line@, sep, fv, *number, i as int, RecordError::Key(e)));
                            if all_fields_succeed(line@, sep, fv, *number) {
                                assert(key_can_succeed(t, fv[i as int], *number));
                                crate::key::lemma_key_can_succeed(t, fv[i as int], *number, e);
                            }
                        }
                        return Err(RecordError::Key(e));
                    },
                }
                i = i + 1;
            }
            let rec = LineRecord { line, keys, order };
            assert forall|k: int| 0 <= k < fields.len() implies #[trigger] key_fits_and_holds(
                line@,
                sep,
                fv,
                *number,
                k,
                rec@.keys[k],
            ) by {
                assert(key_fits_and_holds(line@, sep, fv, *number, k, keys@[k]@));
            }
            Ok(rec)
        }
    }

    /// The line of this record, terminator included where it had one.
    pub fn line(self) -> (r: String)
        ensures
            r@ == self@.line,
    {
        self.line
    }

    /// The line of this record.
    pub fn line_ref(&self) -> (r: &String)
        ensures
            r@ == self@.line,
    {
        &self.line
    }

    /// Compares this record with `other` in this record's direction.
    pub fn compare(&self, other: &LineRecord) -> (r: Ordering)
        ensures
            r == record_cmp(self@, other@),
    {
        let mut i: usize = 0;
        let ghost a = self@.keys;
        let ghost b = other@.keys;
        assert(a.skip(0) =~= a);
        assert(b.skip(0) =~= b);
        let mut c = Ordering::Equal;
        while i < self.keys.len() && i < other.keys.len()
            invariant
                a == self@.keys,
                b == other@.keys,
                i <= a.len(),
                i <= b.len(),
                keys_cmp(a, b) == keys_cmp(a.skip(i as int), b.skip(i as int)),
            decreases a.len() - i,
        {
            let ki = self.keys[i].compare(&other.keys[i]);
            assert(a.skip(i as int)[0] == self.keys@[i as int]@);
            assert(b.skip(i as int)[0] == other.keys@[i as int]@);
            assert(keys_cmp(a.skip(i as int), b.skip(i as int)) == if ki != Ordering::Equal {
                ki
            } else {
                keys_cmp(a.skip(i as int).drop_first(), b.skip(i as int).drop_first())
            });
            if !matches!(ki, Ordering::Equal) {
                return match self.order {
                    Order::Asc => ki,
                    Order::Desc => match ki {
                        Ordering::Less => Ordering::Greater,
                        Ordering::Equal => Ordering::Equal,
                        Ordering::Greater => Ordering::Less,
                    },
                };
            }
            assert(a.skip(i as int).drop_first() =~= a.skip(i + 1));
            assert(b.skip(i as int).drop_first() =~= b.skip(i + 1));
            i = i + 1;
        }
        if i < other.keys.len() {
            c = Ordering::Less;
        } else if i < self.keys.len() {
            c = Ordering::Greater;
        }
        match self.order {
            Order::Asc => c,
            Order::Desc => match c {
                Ordering::Less => Ordering::Greater,
                Ordering::Equal => Ordering::Equal,
                Ordering::Greater => Ordering::Less,
            },
        }
    }

    /// The direction this record sorts in.
    pub fn order(&self) -> (r: Order)
        ensures
            r == self@.order,
    {
        self.order
    }
}

proof fn lemma_split_on_len(s: Seq<char>, sep: char)
    ensures
        split_on(s, sep).len() >= 1,
    decreases s.len(),
{
    if s.len() > 0 {
        lemma_split_on_len(s.drop_last(), sep);
    }
}

} // verus!
