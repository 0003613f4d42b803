use vstd::prelude::*;
use vstd::utf8::encode_utf8;

use core::cmp::Ordering;

use crate::field::{Field, FieldView};
use crate::field_type::FieldType;

verus! {

/// A character with the Unicode property White_Space, as `char::is_whitespace` decides.
pub open spec fn is_white_space(c: char) -> bool {
    let u = c as u32;
    (0x9 <= u <= 0xD) || u == 0x20 || u == 0x85 || u == 0xA0 || u == 0x1680 || (0x2000 <= u
        <= 0x200A) || u == 0x2028 || u == 0x2029 || u == 0x202F || u == 0x205F || u == 0x3000
}

/// The text without its leading white space.
pub open spec fn trim_start(s: Seq<char>) -> Seq<char>
    decreases s.len(),
{
    if s.len() > 0 && is_white_space(s[0]) {
        trim_start(s.drop_first())
    } else {
        s
    }
}

/// The text without its trailing white space.
pub open spec fn trim_end(s: Seq<char>) -> Seq<char>
    decreases s.len(),
{
    if s.len() > 0 && is_white_space(s.last()) {
        trim_end(s.drop_last())
    } else {
        s
    }
}

/// The text with leading and trailing white space removed, as `str::trim` gives it.
pub open spec fn trimmed(s: Seq<char>) -> Seq<char> {
    trim_end(trim_start(s))
}

/// The upper-case form of the text, as `str::to_uppercase` gives it.
pub uninterp spec fn uppercased(s: Seq<char>) -> Seq<char>;

/// Every character is an ASCII digit.
pub open spec fn all_digits(s: Seq<char>) -> bool {
    forall|i: int| 0 <= i < s.len() ==> '0' <= #[trigger] s[i] <= '9'
}

/// The value of a sequence of ASCII digits, most significant first.
pub open spec fn digits_value(s: Seq<char>) -> int
    decreases s.len(),
{
    if s.len() == 0 {
        0
    } else {
        digits_value(s.drop_last()) * 10 + (s.last() as u32 - '0' as u32)
    }
}

/// The value of the text read as a decimal `i64`, as `str::parse::<i64>` gives it: an
/// optional sign then at least one ASCII digit, the value within range; else none.
pub open spec fn parsed_integer(s: Seq<char>) -> Option<i64> {
    let neg = s.len() > 0 && s[0] == '-';
    let d = if s.len() > 0 && (s[0] == '-' || s[0] == '+') {
        s.drop_first()
    } else {
        s
    };
    let v = if neg {
        -digits_value(d)
    } else {
        digits_value(d)
    };
    if d.len() == 0 || !all_digits(d) || v < i64::MIN || v > i64::MAX {
        None
    } else {
        Some(v as i64)
    }
}

/// Relies on `str::trim`: white space as `char::is_whitespace` defines it is removed at both ends.
#[verifier::external_body]
pub(crate) fn trim_text(s: &str) -> (r: &str)
    ensures
        r@ == trimmed(s@),
{
    s.trim()
}

/// Relies on `str::to_uppercase`.
#[verifier::external_body]
fn upper_text(s: &str) -> (r: String)
    ensures
        r@ == uppercased(s@),
{
    s.to_uppercase()
}

/// Relies on `str::parse::<i64>`: an optional sign and decimal digits, in range; the parse
/// error is dropped.
#[verifier::external_body]
fn parse_integer(s: &str) -> (r: Option<i64>)
    ensures
        r == parsed_integer(s@),
{
    s.parse::<i64>().ok()
}

/// Relies on `rand::random`, here for byte arrays, `i64` and `u64`; nothing is known of
/// the value drawn.
pub assume_specification<T>[ rand::random::<T> ]() -> (r: T)
    where
        rand::distributions::Standard: rand::distributions::Distribution<T>,
;

/// The lower-case hexadecimal digit of a value below 16.
pub open spec fn hex_digit(n: int) -> char {
    seq!['0', '1', '2', '3', '4', '5', '6', '7', '8', '9', 'a', 'b', 'c', 'd', 'e', 'f'][n]
}

/// Two lower-case hexadecimal digits per byte, high digit first.
pub open spec fn hex_lower(b: Seq<u8>) -> Seq<char>
    decreases b.len(),
{
    if b.len() == 0 {
        Seq::empty()
    } else {
        hex_lower(b.drop_last()) + seq![hex_digit(b.last() as int / 16), hex_digit(b.last() as int % 16)]
    }
}

/// Relies on `data_encoding::HEXLOWER.encode`: lower-case hexadecimal, two digits per byte.
#[verifier::external_body]
fn encode_hex(b: [u8; 16]) -> (r: String)
    ensures
        r@ == hex_lower(b@),
{
    data_encoding::HEXLOWER.encode(&b)
}

/// `u64` bits of an IEEE-754 double whose magnitude bits exceed those of infinity: a NaN.
pub open spec fn is_nan_bits(bits: u64) -> bool {
    bits % 0x8000_0000_0000_0000 > 0x7FF0_0000_0000_0000
}

/// The place of a double, given by its bits, in the total order of numbers: numeric order,
/// with -0 equal to +0, and every NaN equal to every other NaN and above every number.
pub open spec fn number_rank(bits: u64) -> u64 {
    if is_nan_bits(bits) {
        u64::MAX
    } else if bits == 0x8000_0000_0000_0000 {
        0x8000_0000_0000_0000
    } else if bits > 0x8000_0000_0000_0000 {
        (u64::MAX - bits) as u64
    } else {
        (bits + 0x8000_0000_0000_0000) as u64
    }
}

/// The rank of a double given by its bits.
pub fn rank_of_bits(bits: u64) -> (r: u64)
    ensures
        r == number_rank(bits),
{
    if bits % 0x8000_0000_0000_0000 > 0x7FF0_0000_0000_0000 {
        u64::MAX
    } else if bits == 0x8000_0000_0000_0000 {
        0x8000_0000_0000_0000
    } else if bits > 0x8000_0000_0000_0000 {
        u64::MAX - bits
    } else {
        bits + 0x8000_0000_0000_0000
    }
}

/// A comparable key, as plain values: the bytes of a text, an integer, or the rank of a
/// number.
pub ghost enum KeyView {
    Str(Seq<u8>),
    Int(int),
    Num(int),
}

/// Comparison of two integers.
pub open spec fn int_cmp(a: int, b: int) -> Ordering {
    if a < b {
        Ordering::Less
    } else if a > b {
        Ordering::Greater
    } else {
        Ordering::Equal
    }
}

/// Byte-wise lexicographic comparison; a proper prefix comes first.
pub open spec fn lex_cmp(a: Seq<u8>, b: Seq<u8>) -> Ordering
    decreases a.len(),
{
    if a.len() == 0 {
        if b.len() == 0 {
            Ordering::Equal
        } else {
            Ordering::Less
        }
    } else if b.len() == 0 {
        Ordering::Greater
    } else if a[0] != b[0] {
        int_cmp(a[0] as int, b[0] as int)
    } else {
        lex_cmp(a.drop_first(), b.drop_first())
    }
}

/// The rank of the variant, which orders keys of different types.
pub open spec fn key_tag(k: KeyView) -> int {
    match k {
        KeyView::Str(_) => 0,
        KeyView::Int(_) => 1,
        KeyView::Num(_) => 2,
    }
}

/// Comparison of two keys. Within one job keys at one position share their type; keys of
/// different types are ordered by type, which keeps the order total.
pub open spec fn key_cmp(a: KeyView, b: KeyView) -> Ordering {
    match (a, b) {
        (KeyView::Str(x), KeyView::Str(y)) => lex_cmp(x, y),
        (KeyView::Int(x), KeyView::Int(y)) => int_cmp(x, y),
        (KeyView::Num(x), KeyView::Num(y)) => int_cmp(x, y),
        _ => int_cmp(key_tag(a), key_tag(b)),
    }
}

/// The reverse of an ordering.
pub open spec fn flip(o: Ordering) -> Ordering {
    match o {
        Ordering::Less => Ordering::Greater,
        Ordering::Equal => Ordering::Equal,
        Ordering::Greater => Ordering::Less,
    }
}

pub proof fn lemma_lex_cmp_props(a: Seq<u8>, b: Seq<u8>)
    ensures
        lex_cmp(b, a) == flip(lex_cmp(a, b)),
        lex_cmp(a, b) == Ordering::Equal <==> a == b,
    decreases a.len(),
{
    if a.len() > 0 && b.len() > 0 && a[0] == b[0] {
        lemma_lex_cmp_props(a.drop_first(), b.drop_first());
        if a.drop_first() == b.drop_first() {
            assert(a =~= seq![a[0]] + a.drop_first());
            assert(b =~= seq![b[0]] + b.drop_first());
        }
    }
    if a.len() == 0 && b.len() == 0 {
        assert(a =~= b);
    }
}

pub proof fn lemma_lex_cmp_trans(a: Seq<u8>, b: Seq<u8>, c: Seq<u8>)
    requires
        lex_cmp(a, b) != Ordering::Greater,
        lex_cmp(b, c) != Ordering::Greater,
    ensures
        lex_cmp(a, c) != Ordering::Greater,
        lex_cmp(a, b) == Ordering::Less || lex_cmp(b, c) == Ordering::Less ==> lex_cmp(a, c)
            == Ordering::Less,
    decreases a.len(),
{
    if a.len() > 0 && b.len() > 0 && c.len() > 0 && a[0] == b[0] && b[0] == c[0] {
        lemma_lex_cmp_trans(a.drop_first(), b.drop_first(), c.drop_first());
    }
}

/// `key_cmp` is a total preorder: reversing the operands reverses the result, and it is
/// transitive; keys equal under it are identical.
pub proof fn lemma_key_cmp_props(a: KeyView, b: KeyView)
    ensures
        key_cmp(b, a) == flip(key_cmp(a, b)),
        key_cmp(a, b) == Ordering::Equal <==> a == b,
{
    match (a, b) {
        (KeyView::Str(x), KeyView::Str(y)) => lemma_lex_cmp_props(x, y),
        _ => {},
    }
}

pub proof fn lemma_key_cmp_trans(a: KeyView, b: KeyView, c: KeyView)
    requires
        key_cmp(a, b) != Ordering::Greater,
        key_cmp(b, c) != Ordering::Greater,
    ensures
        key_cmp(a, c) != Ordering::Greater,
        key_cmp(a, b) == Ordering::Less || key_cmp(b, c) == Ordering::Less ==> key_cmp(a, c)
            == Ordering::Less,
{
    match (a, b, c) {
        (KeyView::Str(x), KeyView::Str(y), KeyView::Str(z)) => lemma_lex_cmp_trans(x, y, z),
        _ => {},
    }
}

/// Byte-wise comparison of two byte strings.
pub fn compare_bytes(a: &[u8], b: &[u8]) -> (r: Ordering)
    ensures
        r == lex_cmp(a@, b@),
{
    let mut i: usize = 0;
    assert(a@.skip(0) =~= a@);
    assert(b@.skip(0) =~= b@);
    while i < a.len() && i < b.len()
        invariant
            i <= a.len(),
            i <= b.len(),
            lex_cmp(a@, b@) == lex_cmp(a@.skip(i as int), b@.skip(i as int)),
        decreases a.len() - i,
    {
        if a[i] < b[i] {
            return Ordering::Less;
        }
        if a[i] > b[i] {
            return Ordering::Greater;
        }
        assert(a@.skip(i as int).drop_first() =~= a@.skip(i + 1));
        assert(b@.skip(i as int).drop_first() =~= b@.skip(i + 1));
        i = i + 1;
    }
    if i < b.len() {
        Ordering::Less
    } else if i < a.len() {
        Ordering::Greater
    } else {
        Ordering::Equal
    }
}

/// A key of a record, built from one field of a line.
#[derive(Debug)]
pub enum Key {
    /// Text compared byte-wise
    String { s: String },
    /// Signed integer
    Integer { i: i64 },
    /// Double, held as its IEEE-754 bits
    Number { bits: u64 },
}

impl View for Key {
    type V = KeyView;

    open spec fn view(&self) -> KeyView {
        match self {
            Key::String { s } => KeyView::Str(encode_utf8(s@)),
            Key::Integer { i } => KeyView::Int(*i as int),
            Key::Number { bits } => KeyView::Num(number_rank(*bits) as int),
        }
    }
}

/// Why the text of a field gave no key.
#[derive(Clone, Copy, Debug, PartialEq, Eq, Structural)]
pub enum KeyError {
    /// The text is not an `i64`
    Integer,
    /// The text is not a number
    Number,
}

/// A result of `Key::new` with the key as plain values.
pub open spec fn key_view_result(r: Result<Key, KeyError>) -> Result<KeyView, KeyError> {
    match r {
        Ok(k) => Ok(k@),
        Err(e) => Err(e),
    }
}

/// Whether a key can be built from `text` whatever `number` returns among its outcomes.
pub open spec fn key_can_succeed<F: Fn(&str) -> Option<u64>>(
    text: Seq<char>,
    def: FieldView,
    number: F,
) -> bool {
    match def.field_type {
        FieldType::String => true,
        FieldType::Integer => parsed_integer(trimmed(text)) is Some,
        FieldType::Number => forall|t: &str, o: Option<u64>|
            #![trigger number.ensures((t,), o)]
            t@ == trimmed(text) && number.ensures((t,), o) ==> o is Some,
    }
}

/// A field whose every outcome gives a key does not fail.
pub proof fn lemma_key_can_succeed<F: Fn(&str) -> Option<u64>>(
    text: Seq<char>,
    def: FieldView,
    number: F,
    e: KeyError,
)
    requires
        key_can_succeed(text, def, number),
    ensures
        !key_result(text, def, number, Err(e)),
{
}

/// The text a string key is made of: trimmed and upper-cased as the field asks.
pub open spec fn string_key_text(text: Seq<char>, def: FieldView) -> Seq<char> {
    let t = if def.ignore_blanks {
        trimmed(text)
    } else {
        text
    };
    if def.ignore_case {
        uppercased(t)
    } else {
        t
    }
}

/// The bits of a double in [1, 2) taken from the high bits of `r`.
pub open spec fn unit_range_bits(r: u64) -> u64 {
    (0x3FF0_0000_0000_0000 + r / 4096) as u64
}

/// What `Key::new` promises for the text `text` of a field `def`, where `number` reads
/// the bits of a double from a trimmed text.
pub open spec fn key_result<F: Fn(&str) -> Option<u64>>(
    text: Seq<char>,
    def: FieldView,
    number: F,
    r: Result<KeyView, KeyError>,
) -> bool {
    match def.field_type {
        FieldType::String => match r {
            Ok(k) => if def.random {
                exists|b: Seq<u8>|
                    #![trigger hex_lower(b)]
                    b.len() == 16 && k == KeyView::Str(encode_utf8(hex_lower(b)))
            } else {
                k == KeyView::Str(encode_utf8(string_key_text(text, def)))
            },
            Err(_) => false,
        },
        FieldType::Integer => match parsed_integer(trimmed(text)) {
            None => r == Err::<KeyView, KeyError>(KeyError::Integer),
            Some(v) => match r {
                Ok(k) => if def.random {
                    k is Int
                } else {
                    k == KeyView::Int(v as int)
                },
                Err(_) => false,
            },
        },
        FieldType::Number => exists|t: &str, o: Option<u64>|
            #![trigger number.ensures((t,), o)]
            t@ == trimmed(text) && number.ensures((t,), o) && match o {
                None => r == Err::<KeyView, KeyError>(KeyError::Number),
                Some(bits) => match r {
                    Ok(k) => if def.random {
                        exists|x: u64|
                            #![trigger unit_range_bits(x)]
                            k == KeyView::Num(number_rank(unit_range_bits(x)) as int)
                    } else {
                        k == KeyView::Num(number_rank(bits) as int)
                    },
                    Err(_) => false,
                },
            },
    }
}

impl Key {
    /// The key that field `def` makes of `text`, the field's part of a line.
    ///
    /// A string key is the text, trimmed and upper-cased as the field asks; an integer key
    /// is the trimmed text read as `i64`; a number key is the trimmed text read as a double
    /// by `number`, which returns its IEEE-754 bits. A random field replaces the value by a
    /// fresh random one of the same type, once the text has been read.
    pub fn new<F: Fn(&str) -> Option<u64>>(text: &str, def: &Field, number: &F) -> (r: Result<
        Key,
        KeyError,
    >)
        requires
            forall|t: &str| #[trigger] number.requires((t,)),
        ensures
            key_result(text@, def@, *number, key_view_result(r)),
    {
        match def.field_type() {
            FieldType::String => {
                let t = if def.ignore_blanks() {
                    trim_text(text)
                } else {
                    text
                };
                let mut s = if def.ignore_case() {
                    upper_text(t)
                } else {
                    t.to_owned()
                };
                if def.random() {
                    let b: [u8; 16] = rand::random::<[u8; 16]>();
                    s = encode_hex(b);
                    assert(b@.len() == 16 && encode_utf8(s@) == encode_utf8(hex_lower(b@)));
                }
                Ok(Key::String { s })
            },
            FieldType::Integer => {
                match parse_integer(trim_text(text)) {
                    None => Err(KeyError::Integer),
                    Some(v) => {
                        let i = if def.random() {
                            rand::random::<i64>()
                        } else {
                            v
                        };
                        Ok(Key::Integer { i })
                    },
                }
            },
            FieldType::Number => {
                let t = trim_text(text);
                let o = number(t);
                let r = match o {
                    None => Err(KeyError::Number),
                    Some(v) => {
                        let bits = if def.random() {
                            let x: u64 = rand::random::<u64>();
                            assert(unit_range_bits(x) == 0x3FF0_0000_0000_0000 + x / 4096);
                            0x3FF0_0000_0000_0000 + x / 4096
                        } else {
                            v
                        };
                        Ok(Key::Number { bits })
                    },
                };
                assert(t@ == trimmed(text@) && number.ensures((t,), o));
                r
            },
        }
    }

    /// Compares this key with `other`.
    pub fn compare(&self, other: &Key) -> (r: Ordering)
        ensures
            r == key_cmp(self@, other@),
    {
        match (self, other) {
            (Key::String { s: x }, Key::String { s: y }) => compare_bytes(
                x.as_str().as_bytes(),
                y.as_str().as_bytes(),
            ),
            (Key::Integer { i: x }, Key::Integer { i: y }) => {
                if *x < *y {
                    Ordering::Less
                } else if *x > *y {
                    Ordering::Greater
                } else {
                    Ordering::Equal
                }
            },
            (Key::Number { bits: x }, Key::Number { bits: y }) => {
                let rx = rank_of_bits(*x);
                let ry = rank_of_bits(*y);
                if rx < ry {
                    Ordering::Less
                } else if rx > ry {
                    Ordering::Greater
                } else {
                    Ordering::Equal
                }
            },
            _ => {
                let tx: u8 = match self {
                    Key::String { .. } => 0,
                    Key::Integer { .. } => 1,
                    Key::Number { .. } => 2,
                };
                let ty: u8 = match other {
                    Key::String { .. } => 0,
                    Key::Integer { .. } => 1,
                    Key::Number { .. } => 2,
                };
                if tx < ty {
                    Ordering::Less
                } else if tx > ty {
                    Ordering::Greater
                } else {
                    Ordering::Equal
                }
            },
        }
    }
}

} // verus!
