use text_file_sort::field::Field;
use text_file_sort::field_type::FieldType;
use text_file_sort::line_record::LineRecord;
use text_file_sort::merge::{merge_runs, MergeHeads};
use text_file_sort::order::Order;
use text_file_sort::sorting::{merge_sorted, sort_records};

fn number(t: &str) -> Option<u64> {
    t.parse::<f64>().ok().map(|f| f.to_bits())
}

fn records(lines: &[&str], order: Order) -> Vec<LineRecord> {
    let fields = vec![Field::new(0, FieldType::String)];
    lines
        .iter()
        .map(|l| LineRecord::new(l.to_string(), &fields, '\t', order, &number).unwrap())
        .collect()
}

fn texts(v: Vec<LineRecord>) -> Vec<String> {
    v.into_iter().map(|r| r.line()).collect()
}

#[test]
fn exhausted_runs_come_last_and_heads_drain_in_order() {
    let mut runs: Vec<Vec<LineRecord>> = vec![
        records(&["b", "e", "f"], Order::Asc),
        records(&[], Order::Asc),
        records(&["a", "c", "d", "g"], Order::Asc),
    ];
    let mut heads = MergeHeads::new(Order::Asc);
    for run in runs.iter_mut() {
        run.reverse();
        heads.add_run(run.pop());
    }
    assert_eq!(heads.len(), 3);
    let mut out = Vec::new();
    while let Some(i) = heads.next_source() {
        assert_ne!(i, 1);
        let next = runs[i].pop();
        out.push(heads.advance(i, next).unwrap().line());
    }
    assert_eq!(out, vec!["a", "b", "c", "d", "e", "f", "g"]);
    assert_eq!(heads.select(), None);
}

#[test]
fn merge_runs_merges_descending_runs() {
    let runs = vec![
        records(&["z", "m", "a"], Order::Desc),
        records(&["y", "b"], Order::Desc),
        records(&[], Order::Desc),
        records(&["q"], Order::Desc),
    ];
    assert_eq!(texts(merge_runs(runs, Order::Desc)), vec!["z", "y", "q", "m", "b", "a"]);
    assert!(merge_runs(vec![], Order::Asc).is_empty());
}

#[test]
fn sort_and_merge_of_records() {
    let v = records(&["d", "a", "c", "a", "b"], Order::Asc);
    assert_eq!(texts(sort_records(v, Order::Asc)), vec!["a", "a", "b", "c", "d"]);
    let a = records(&["a", "c"], Order::Asc);
    let b = records(&["b", "c", "d"], Order::Asc);
    assert_eq!(texts(merge_sorted(a, b, Order::Asc)), vec!["a", "b", "c", "c", "d"]);
    assert!(sort_records(vec![], Order::Desc).is_empty());
}
