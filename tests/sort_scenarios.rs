use std::path::PathBuf;

use text_file_sort::chunk_iterator::chunks_of_bytes;
use text_file_sort::config::{cpu_count, Config, LinePattern};
use text_file_sort::field::Field;
use text_file_sort::field_type::FieldType;
use text_file_sort::line_record::LineRecord;
use text_file_sort::merge::merge_runs;
use text_file_sort::order::Order;
use text_file_sort::order_check::OrderCheck;
use text_file_sort::pipeline::{framed_output, sort_chunks};
use text_file_sort::sort_command::{CapacityHints, SortCommand};

fn number(t: &str) -> Option<u64> {
    t.parse::<f64>().ok().map(|f| f.to_bits())
}

fn sorted_text(n: usize) -> String {
    let mut s = String::new();
    for i in 0..n {
        s.push_str(&format!("{:06}\tline number {}\t{}\n", i, i, i % 37));
    }
    s
}

fn config(fields: Vec<Field>, order: Order, tasks: usize) -> Config {
    Config::new(
        PathBuf::from("/tmp"),
        tasks,
        cpu_count(),
        '\t',
        false,
        Some(LinePattern::new("^#").unwrap()),
        true,
        10_000_000,
        1024,
        fields,
        order,
        vec![],
        vec![],
        '\n',
    )
}

fn split_chunks(text: &str, jump: u64) -> Vec<String> {
    let chunks = chunks_of_bytes(text.as_bytes(), PathBuf::from("mem"), jump, b'\n');
    chunks
        .iter()
        .map(|c| text[c.offset() as usize..(c.offset() + c.length()) as usize].to_string())
        .collect()
}

fn lines(records: Vec<LineRecord>) -> String {
    let mut s = String::new();
    for r in records {
        s.push_str(&r.line());
    }
    s
}

fn sort_text(text: &str, jump: u64, fields: Vec<Field>, order: Order) -> String {
    let c = config(fields, order, 1);
    lines(sort_chunks(&split_chunks(text, jump), &c, &number).unwrap())
}

fn shuffle(text: &str) -> String {
    sort_text(text, 1000, vec![Field::new(0, FieldType::String).with_random(true)], Order::Asc)
}

fn is_sorted(text: &str, order: Order) -> bool {
    let c = config(vec![], order, 1);
    let mut check = OrderCheck::new(order);
    for line in text.split_inclusive('\n') {
        let rec = LineRecord::new(line.to_string(), c.fields(), '\t', order, &number).unwrap();
        check.push(rec);
    }
    check.is_sorted()
}

#[test]
fn shuffled_then_sorted_gives_input_back() {
    let input = sorted_text(10_000);
    let random = shuffle(&input);
    assert_ne!(random, input);
    let output = sort_text(&random, 20_000, vec![], Order::Asc);
    assert_eq!(output, input);
}

#[test]
fn merging_ten_copies_keeps_every_line_ten_times() {
    let input = sorted_text(1_000);
    let c = config(vec![], Order::Asc, 1);
    let task = SortCommand::new(None);
    let mut hints = CapacityHints::new();
    let mut runs = Vec::new();
    for _ in 0..10 {
        runs.push(task.read_records(&input, &c, &mut hints, &number).unwrap());
    }
    let merged = lines(merge_runs(runs, Order::Asc));
    let out: Vec<&str> = merged.split_inclusive('\n').collect();
    assert_eq!(out.len(), 10_000);
    for (i, line) in input.split_inclusive('\n').enumerate() {
        for k in 0..10 {
            assert_eq!(out[i * 10 + k], line);
        }
    }
    assert!(out.windows(2).all(|w| w[0] <= w[1]));
}

#[test]
fn descending_sort_reverses_ascending() {
    let input = sorted_text(1_000);
    let random = shuffle(&input);
    let asc = sort_text(&random, 5_000, vec![], Order::Asc);
    let desc = sort_text(&random, 5_000, vec![], Order::Desc);
    let asc_lines: Vec<&str> = asc.split_inclusive('\n').collect();
    let desc_lines: Vec<&str> = desc.split_inclusive('\n').collect();
    assert_eq!(asc_lines[0], desc_lines[999]);
    assert_eq!(asc_lines[999], desc_lines[0]);
    let mut rev = desc_lines.clone();
    rev.reverse();
    assert_eq!(asc_lines, rev);
}

#[test]
fn check_accepts_sorted_and_rejects_shuffled() {
    let input = sorted_text(1_000);
    assert!(is_sorted(&input, Order::Asc));
    let desc = sort_text(&input, 5_000, vec![], Order::Desc);
    assert!(is_sorted(&desc, Order::Desc));
    assert!(!is_sorted(&desc, Order::Asc));
    let random = shuffle(&input);
    assert!(!is_sorted(&random, Order::Asc));
}

#[test]
fn chunk_count_does_not_change_the_output() {
    let input = sorted_text(10_000);
    let random = shuffle(&input);
    let one = sort_text(&random, 10_000_000, vec![], Order::Asc);
    let jump = random.len() as u64 / 10;
    assert!(split_chunks(&random, jump).len() >= 10);
    let ten = sort_text(&random, jump, vec![], Order::Asc);
    assert_eq!(one, input);
    assert_eq!(ten, input);
}

#[test]
fn sorting_sorted_input_is_identity() {
    let input = sorted_text(2_000);
    assert_eq!(sort_text(&input, 3_000, vec![], Order::Asc), input);
}

#[test]
fn output_is_a_permutation_of_kept_lines() {
    let text = "b\n# comment\na\n\nc\na\n";
    let out = sort_text(text, 4, vec![], Order::Asc);
    assert_eq!(out, "\na\na\nb\nc\n");
}

#[test]
fn empty_lines_are_left_out_when_asked() {
    let c = Config::new(
        PathBuf::from("/tmp"),
        1,
        cpu_count(),
        '\t',
        true,
        None,
        true,
        10_000_000,
        1024,
        vec![],
        Order::Asc,
        vec![],
        vec![],
        '\n',
    );
    let out = lines(sort_chunks(&vec!["b\n  \n# x\na\n".to_string()], &c, &number).unwrap());
    assert_eq!(out, "# x\na\nb\n");
}

#[test]
fn records_sort_by_typed_fields() {
    let text = "x\t10\tb\ny\t9\ta\nz\t10\ta\n";
    let fields = vec![Field::new(2, FieldType::Integer), Field::new(3, FieldType::String)];
    let out = sort_text(text, 1_000, fields, Order::Asc);
    assert_eq!(out, "y\t9\ta\nz\t10\ta\nx\t10\tb\n");
}

#[test]
fn parse_error_names_the_line_in_the_chunk() {
    let c = config(vec![Field::new(2, FieldType::Integer)], Order::Asc, 1);
    let r = sort_chunks(&vec!["a\t1\n# skipped\nb\tzz\n".to_string()], &c, &number);
    let e = r.unwrap_err();
    assert_eq!(e.line, 3);
}

#[test]
fn prefix_and_suffix_frame_the_sorted_lines() {
    let input = sorted_text(1_000);
    let random = shuffle(&input);
    let c = Config::new(
        PathBuf::from("/tmp"),
        15,
        cpu_count(),
        '\t',
        false,
        Some(LinePattern::new("^#").unwrap()),
        true,
        10_000_000,
        1024,
        vec![],
        Order::Asc,
        vec!["first line".to_string(), "second line".to_string()],
        vec!["penultimate line".to_string(), "last line".to_string()],
        '\n',
    );
    let records = sort_chunks(&split_chunks(&random, 4_000), &c, &number).unwrap();
    let lines = framed_output(&c, records);
    assert_eq!(lines.len(), 1004);
    assert_eq!(lines[0], "first line\n");
    assert_eq!(lines[1], "second line\n");
    assert_eq!(lines[1002], "penultimate line\n");
    assert_eq!(lines[1003], "last line\n");
    assert!(lines[2..1002].windows(2).all(|w| w[0] <= w[1]));
    assert_eq!(lines[2..1002].concat(), input);
}

#[test]
fn every_output_line_is_an_input_line() {
    let text = "c\tz\nb\ty\na\tx\nb\ty\n";
    let out = sort_text(text, 3, vec![Field::new(2, FieldType::String)], Order::Desc);
    assert_eq!(out, "c\tz\nb\ty\nb\ty\na\tx\n");
    for line in out.split_inclusive('\n') {
        assert!(text.split_inclusive('\n').any(|l| l == line));
    }
}
