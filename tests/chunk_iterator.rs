use std::path::PathBuf;

use text_file_sort::chunk_iterator::{boundary_len, chunks_of_bytes, Chunk, ChunkIterator};

fn sorted_text(n: usize) -> String {
    let mut s = String::new();
    for i in 0..n {
        s.push_str(&format!("{:06}\tline number {}\t{}\n", i, i, i % 37));
    }
    s
}

fn count_lines_in_chunk(data: &[u8], chunk: &Chunk) -> usize {
    let start = chunk.offset() as usize;
    let end = start + chunk.length() as usize;
    let bytes = &data[start..end];
    let mut n = bytes.iter().filter(|b| **b == b'\n').count();
    if !bytes.is_empty() && *bytes.last().unwrap() != b'\n' {
        n += 1;
    }
    n
}

fn walk(data: &[u8], path: &PathBuf, jump: u64) -> Vec<Chunk> {
    let mut it = ChunkIterator::new(path.clone(), data.len() as u64, jump, b'\n');
    let mut chunks = Vec::new();
    loop {
        let probe = match it.probe_at() {
            Some(p) => boundary_len(data, p as usize, it.endl()) as u64,
            None => 0,
        };
        match it.next_chunk(probe) {
            Some(c) => chunks.push(c),
            None => break,
        }
    }
    chunks
}

#[test]
fn test_empty_file() {
    let jump = 20000;
    let input_path = PathBuf::from("./tests/fixtures/empty-file.dat");
    let data: Vec<u8> = Vec::new();
    let mut count = 0;
    for _chunk in walk(&data, &input_path, jump) {
        count += 1;
    }
    assert_eq!(count, 0);
}

#[test]
fn test_jump_greater_than_file() {
    let input_path = PathBuf::from("./tests/fixtures/sorted-10000.dat");
    let text = sorted_text(10_000);
    let data = text.as_bytes();
    let jump = data.len() as u64 + 18;
    let mut count = 0;
    let mut lines = 0;
    for chunk in walk(data, &input_path, jump) {
        count += 1;
        assert_eq!(chunk.offset(), 0);
        assert_eq!(chunk.length(), data.len() as u64);
        assert_eq!(chunk.path(), &input_path);
        lines += count_lines_in_chunk(data, &chunk);
    }
    assert_eq!(count, 1);
    assert_eq!(lines, 10_000);
}

#[test]
fn test_jump_equal_to_file() {
    let input_path = PathBuf::from("./tests/fixtures/sorted-10000.dat");
    let text = sorted_text(10_000);
    let data = text.as_bytes();
    let jump = data.len() as u64 + 18;
    let mut count = 0;
    let mut lines = 0;
    for chunk in walk(data, &input_path, jump) {
        assert_eq!(chunk.offset(), 0);
        assert_eq!(chunk.length(), data.len() as u64);
        assert_eq!(chunk.path(), &input_path);
        count += 1;
        lines += count_lines_in_chunk(data, &chunk);
    }
    assert_eq!(count, 1);
    assert_eq!(lines, 10_000);
}

#[test]
fn test_no_lines_lost() {
    let input_path = PathBuf::from("./tests/fixtures/sorted-10000.dat");
    let text = sorted_text(10_000);
    let data = text.as_bytes();
    let jump = 10_000;
    let mut lines = 0;
    for chunk in walk(data, &input_path, jump) {
        assert_eq!(chunk.path(), &input_path);
        lines += count_lines_in_chunk(data, &chunk);
    }
    assert_eq!(lines, 10_000);
}

#[test]
fn chunks_tile_the_input_and_end_on_terminators() {
    let text = sorted_text(1_000);
    let data = text.as_bytes();
    let chunks = chunks_of_bytes(data, PathBuf::from("mem"), 777, b'\n');
    assert!(chunks.len() > 1);
    let mut pos = 0u64;
    for (i, c) in chunks.iter().enumerate() {
        assert_eq!(c.offset(), pos);
        assert!(c.length() > 0);
        pos += c.length();
        if i + 1 < chunks.len() {
            assert_eq!(data[pos as usize - 1], b'\n');
            assert!(c.length() >= 777);
        }
    }
    assert_eq!(pos, data.len() as u64);
}

#[test]
fn last_line_without_terminator_is_in_last_chunk() {
    let data = b"aa\nbb\ncc";
    let chunks = chunks_of_bytes(data, PathBuf::from("mem"), 1, b'\n');
    let spans: Vec<(u64, u64)> = chunks.iter().map(|c| (c.offset(), c.length())).collect();
    assert_eq!(spans, vec![(0, 3), (3, 3), (6, 2)]);
}

#[test]
fn zero_jump_gives_one_chunk_per_line() {
    let data = b"a\nbb\nccc\n";
    let chunks = chunks_of_bytes(data, PathBuf::from("mem"), 0, b'\n');
    let spans: Vec<(u64, u64)> = chunks.iter().map(|c| (c.offset(), c.length())).collect();
    assert_eq!(spans, vec![(0, 2), (2, 3), (5, 4)]);
}

#[test]
fn other_terminator_is_honoured() {
    let data = b"a;bb;ccc;";
    let chunks = chunks_of_bytes(data, PathBuf::from("mem"), 2, b';');
    let spans: Vec<(u64, u64)> = chunks.iter().map(|c| (c.offset(), c.length())).collect();
    assert_eq!(spans, vec![(0, 5), (5, 4)]);
}

#[test]
fn boundary_len_counts_through_terminator_or_to_end() {
    assert_eq!(boundary_len(b"abc\ndef", 0, b'\n'), 4);
    assert_eq!(boundary_len(b"abc\ndef", 4, b'\n'), 3);
    assert_eq!(boundary_len(b"abc\ndef", 7, b'\n'), 0);
}
