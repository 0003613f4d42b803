use std::cmp::Ordering;
use std::path::PathBuf;

use text_file_sort::config::{cpu_count, raised_soft_limit, Config, LinePattern};
use text_file_sort::field::Field;
use text_file_sort::field_type::FieldType;
use text_file_sort::key::{compare_bytes, rank_of_bits, Key, KeyError};
use text_file_sort::line_record::{fields_are_consistent, LineRecord, RecordError};
use text_file_sort::order::Order;
use text_file_sort::sort_command::{
    get_line_capacity, get_line_records_capacity, set_line_capacity, set_line_records_capacity,
    CapacityHints, SortCommand,
};
use text_file_sort::sorted_chunk_file::{RunHeap, SortedChunkFile};

fn number(t: &str) -> Option<u64> {
    t.parse::<f64>().ok().map(|f| f.to_bits())
}

fn record(line: &str, fields: Vec<Field>, order: Order) -> LineRecord {
    LineRecord::new(line.to_string(), &fields, '\t', order, &number).unwrap()
}

fn cmp(a: &str, b: &str, fields: Vec<Field>) -> Ordering {
    record(a, fields.clone(), Order::Asc).compare(&record(b, fields, Order::Asc))
}

#[test]
fn field_builders_set_each_setting() {
    let f = Field::new(2, FieldType::Integer)
        .with_str_name("id")
        .with_ignore_blanks(true)
        .with_ignore_case(true)
        .with_random(true);
    assert_eq!(f.name(), "id");
    assert_eq!(f.index(), 2);
    assert_eq!(*f.field_type(), FieldType::Integer);
    assert!(f.ignore_blanks() && f.ignore_case() && f.random());
    let g = f.with_name("n".to_string()).with_index(0).with_field_type(FieldType::Number);
    assert_eq!(g.name(), "n");
    assert_eq!(g.index(), 0);
    assert_eq!(*g.field_type(), FieldType::Number);
    let h = Field::new(1, FieldType::String);
    assert_eq!(h.name(), "");
    assert!(!h.ignore_blanks() && !h.ignore_case() && !h.random());
}

#[test]
fn bytes_compare_lexicographically() {
    assert_eq!(compare_bytes(b"abc", b"abd"), Ordering::Less);
    assert_eq!(compare_bytes(b"ab", b"abc"), Ordering::Less);
    assert_eq!(compare_bytes(b"b", b"abc"), Ordering::Greater);
    assert_eq!(compare_bytes(b"", b""), Ordering::Equal);
}

#[test]
fn blanks_are_trimmed_when_asked() {
    let plain = vec![Field::new(1, FieldType::String)];
    let trimmed = vec![Field::new(1, FieldType::String).with_ignore_blanks(true)];
    assert_eq!(cmp("  b", "a", plain), Ordering::Less);
    assert_eq!(cmp("  b", "a", trimmed.clone()), Ordering::Greater);
    assert_eq!(cmp("\u{3000}a\t", "a", vec![Field::new(0, FieldType::String).with_ignore_blanks(true)]), Ordering::Equal);
}

#[test]
fn case_is_ignored_when_asked() {
    let plain = vec![Field::new(1, FieldType::String)];
    let folded = vec![Field::new(1, FieldType::String).with_ignore_case(true)];
    assert_eq!(cmp("a", "B", plain), Ordering::Greater);
    assert_eq!(cmp("a", "B", folded.clone()), Ordering::Less);
    assert_eq!(cmp("abc", "ABC", folded), Ordering::Equal);
}

#[test]
fn integers_compare_numerically() {
    let int = vec![Field::new(1, FieldType::Integer)];
    let text = vec![Field::new(1, FieldType::String)];
    assert_eq!(cmp("10", "9", int.clone()), Ordering::Greater);
    assert_eq!(cmp("10", "9", text), Ordering::Less);
    assert_eq!(cmp(" -3 ", "2", int.clone()), Ordering::Less);
    assert_eq!(cmp("+5", "5", int), Ordering::Equal);
    let f = Field::new(1, FieldType::Integer);
    assert_eq!(Key::new("9223372036854775808", &f, &number).unwrap_err(), KeyError::Integer);
    assert_eq!(Key::new("-", &f, &number).unwrap_err(), KeyError::Integer);
}

#[test]
fn numbers_order_totally_with_nan_last() {
    let num = vec![Field::new(1, FieldType::Number)];
    assert_eq!(cmp("1.5", "10", num.clone()), Ordering::Less);
    assert_eq!(cmp("-0", "0", num.clone()), Ordering::Equal);
    assert_eq!(cmp("NaN", "inf", num.clone()), Ordering::Greater);
    assert_eq!(cmp("NaN", "NaN", num.clone()), Ordering::Equal);
    assert_eq!(cmp("-inf", "-1e300", num), Ordering::Less);
    let ranks: Vec<u64> = [-1.0f64, -0.0, 0.0, 1.0, f64::INFINITY, f64::NAN]
        .iter()
        .map(|f| rank_of_bits(f.to_bits()))
        .collect();
    assert!(ranks[0] < ranks[1]);
    assert_eq!(ranks[1], ranks[2]);
    assert!(ranks[2] < ranks[3] && ranks[3] < ranks[4] && ranks[4] < ranks[5]);
}

#[test]
fn random_string_key_is_hex() {
    let f = Field::new(0, FieldType::String).with_random(true);
    match Key::new("same text", &f, &number).unwrap() {
        Key::String { s } => {
            assert_eq!(s.len(), 32);
            assert!(s.chars().all(|c| c.is_ascii_hexdigit() && !c.is_ascii_uppercase()));
        },
        _ => panic!("not a string key"),
    }
}

#[test]
fn bad_typed_text_is_an_error() {
    let f = Field::new(1, FieldType::Integer);
    assert_eq!(Key::new("x1", &f, &number).unwrap_err(), KeyError::Integer);
    let g = Field::new(1, FieldType::Number);
    assert_eq!(Key::new("one", &g, &number).unwrap_err(), KeyError::Number);
    let r = LineRecord::new("a\tb".to_string(), &vec![Field::new(2, FieldType::Integer)], '\t', Order::Asc, &number);
    assert_eq!(r.unwrap_err(), RecordError::Key(KeyError::Integer));
}

#[test]
fn fields_select_parts_split_at_separator() {
    let second = vec![Field::new(2, FieldType::String)];
    assert_eq!(cmp("x\tb", "y\ta", second), Ordering::Greater);
    let r = LineRecord::new("a,b".to_string(), &vec![Field::new(2, FieldType::String)], ',', Order::Asc, &number);
    assert!(r.is_ok());
}

#[test]
fn missing_field_and_mixed_whole_line_are_errors() {
    let r = LineRecord::new("a\tb".to_string(), &vec![Field::new(3, FieldType::String)], '\t', Order::Asc, &number);
    assert_eq!(r.unwrap_err(), RecordError::MissingField { index: 3, parts: 2 });
    let fields = vec![Field::new(1, FieldType::String), Field::new(0, FieldType::String)];
    let r = LineRecord::new("a\tb".to_string(), &fields, '\t', Order::Asc, &number);
    assert_eq!(r.unwrap_err(), RecordError::WholeLineMixed);
}

#[test]
fn descending_records_compare_reversed() {
    let f = vec![Field::new(0, FieldType::String)];
    let a = record("a", f.clone(), Order::Desc);
    let b = record("b", f, Order::Desc);
    assert_eq!(a.compare(&b), Ordering::Greater);
    assert_eq!(b.compare(&a), Ordering::Less);
    assert_eq!(a.line(), "a");
}

#[test]
fn pattern_and_blank_filters() {
    let c = Config::new(
        PathBuf::from("/tmp"),
        0,
        4,
        '\t',
        true,
        Some(LinePattern::new("^#").unwrap()),
        false,
        100,
        3,
        vec![],
        Order::Asc,
        vec!["first".to_string()],
        vec!["last".to_string()],
        '\n',
    );
    assert!(c.skip_line("  # comment\n"));
    assert!(c.skip_line("   \n"));
    assert!(!c.skip_line("data # not a comment\n"));
    assert_eq!(c.tasks(), 4);
    assert_eq!(c.files(), 8);
    assert_eq!(c.fields().len(), 1);
    assert_eq!(c.fields()[0].index(), 0);
    assert_eq!(c.prefix()[0], "first");
    assert_eq!(c.suffix()[0], "last");
    assert!(LinePattern::new("(").is_err());
    assert_eq!(LinePattern::new("^#").unwrap().source(), "^#");
}

#[test]
fn machine_and_limits() {
    assert!(cpu_count() >= 1);
    assert_eq!(raised_soft_limit(1024, 256), 1280);
    assert_eq!(raised_soft_limit(1024, 4096), 4096);
}

#[test]
fn lines_of_a_chunk_keep_their_terminators() {
    let c = Config::new(
        PathBuf::from("/tmp"),
        1,
        1,
        '\t',
        false,
        None,
        false,
        100,
        3,
        vec![],
        Order::Asc,
        vec![],
        vec![],
        '\n',
    );
    let task = SortCommand::new(None);
    let mut hints = CapacityHints::new();
    let recs = task.read_records("bb\na\n\nccc", &c, &mut hints, &number).unwrap();
    let lines: Vec<String> = recs.into_iter().map(|r| r.line()).collect();
    assert_eq!(lines, vec!["bb\n", "a\n", "\n", "ccc"]);
    assert_eq!(get_line_capacity(&hints), 3);
    assert_eq!(get_line_records_capacity(&hints), 4);
    set_line_capacity(&mut hints, 10);
    set_line_records_capacity(&mut hints, 20);
    assert_eq!(get_line_capacity(&hints), 10);
    assert_eq!(get_line_records_capacity(&hints), 20);
}

#[test]
fn run_heap_gives_smallest_run_first() {
    let mut heap = RunHeap::new();
    heap.push(SortedChunkFile::new(PathBuf::from("a"), 30));
    heap.push(SortedChunkFile::new(PathBuf::from("b"), 10));
    heap.push(SortedChunkFile::new(PathBuf::from("c"), 20));
    assert!(heap.needs_premerge(6, 2));
    assert!(!heap.needs_premerge(8, 2));
    let first = heap.pop().unwrap();
    assert_eq!(first.lines(), 10);
    assert_eq!(first.path(), &PathBuf::from("b"));
    assert_eq!(heap.pop().unwrap().lines(), 20);
    assert_eq!(heap.pop().unwrap().lines(), 30);
    assert!(heap.pop().is_none());
}

#[test]
fn whole_line_index_stands_alone() {
    assert!(fields_are_consistent(&vec![]));
    assert!(fields_are_consistent(&vec![Field::new(0, FieldType::String)]));
    assert!(fields_are_consistent(&vec![Field::new(2, FieldType::String), Field::new(1, FieldType::Integer)]));
    assert!(!fields_are_consistent(&vec![Field::new(1, FieldType::String), Field::new(0, FieldType::String)]));
    assert!(!fields_are_consistent(&vec![Field::new(0, FieldType::String), Field::new(0, FieldType::String)]));
}
