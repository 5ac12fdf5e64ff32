use extsort::codec::Entry;
use extsort::codec::Error;
use extsort::pipeline::parse_lines;
use extsort::pipeline::run_pipeline;

fn keyed_line(last: char, count: u32) -> Vec<u8> {
    let mut s = String::new();
    let mut i: usize = 0;
    while i < 39 {
        s.push('0');
        i += 1;
    }
    s.push(last);
    s.push(':');
    s.push_str(&format!("{}", count));
    s.into_bytes()
}

fn entry(w4: u32, count: u32) -> Entry {
    Entry { w0: 0, w1: 0, w2: 0, w3: 0, w4, count }
}

fn sorted(out: &[Entry]) -> bool {
    out.windows(2).all(|p| p[0].compare(&p[1]) != std::cmp::Ordering::Greater)
}

#[test]
fn parse_lines_all_or_nothing() {
    let lines = vec![keyed_line('1', 5), keyed_line('0', 2)];
    let es = parse_lines(&lines).unwrap();
    assert_eq!(es, vec![entry(1, 5), entry(0, 2)]);
    let bad = vec![keyed_line('1', 5), b"nothex:5".to_vec()];
    assert_eq!(parse_lines(&bad), Err(Error::MalformedRecord));
}

#[test]
fn three_records_capacity_two() {
    // Three keys differing in the last digit, generator capacity 2: the
    // merged output is the three records sorted ascending by key.
    let lines = vec![keyed_line('1', 5), keyed_line('0', 2), keyed_line('3', 9)];
    let out = run_pipeline(&lines, 2, 2).unwrap();
    assert_eq!(out, vec![entry(0, 2), entry(1, 5), entry(3, 9)]);
}

#[test]
fn malformed_line_aborts_pipeline() {
    let lines = vec![keyed_line('1', 5), b"nothex:5".to_vec(), keyed_line('3', 9)];
    assert_eq!(run_pipeline(&lines, 2, 2), Err(Error::MalformedRecord));
}

#[test]
fn malformed_line_first_aborts_pipeline() {
    let lines = vec![b"nothex:5".to_vec(), keyed_line('1', 5)];
    assert_eq!(run_pipeline(&lines, 1024, 1024), Err(Error::MalformedRecord));
}

#[test]
fn capacity_independence_concrete() {
    let lines = vec![
        keyed_line('7', 1),
        keyed_line('2', 2),
        keyed_line('9', 3),
        keyed_line('0', 4),
        keyed_line('5', 5),
        keyed_line('4', 6),
        keyed_line('8', 7),
    ];
    let small = run_pipeline(&lines, 4, 4).unwrap();
    let large = run_pipeline(&lines, 4096, 4096).unwrap();
    assert_eq!(small, large);
    assert!(sorted(&small));
    assert_eq!(small.len(), 7);
}

#[test]
fn window_independence_concrete() {
    let lines = vec![
        keyed_line('3', 1),
        keyed_line('1', 2),
        keyed_line('6', 3),
        keyed_line('0', 4),
        keyed_line('9', 5),
        keyed_line('c', 6),
        keyed_line('a', 7),
    ];
    // Capacity 2 forces four runs; merge with the minimum window and with
    // one far larger than the whole input.
    let minimum = run_pipeline(&lines, 2, 4).unwrap();
    let ample = run_pipeline(&lines, 2, 1_000_000).unwrap();
    assert_eq!(minimum, ample);
    assert!(sorted(&minimum));
}

#[test]
fn single_run_fast_path() {
    let lines = vec![keyed_line('2', 1), keyed_line('1', 2)];
    let out = run_pipeline(&lines, 10, 10).unwrap();
    assert_eq!(out, vec![entry(1, 2), entry(2, 1)]);
}

#[test]
fn empty_input_sorts_to_empty() {
    let out = run_pipeline(&Vec::new(), 8, 8).unwrap();
    assert!(out.is_empty());
}

#[test]
fn duplicate_keys_all_kept() {
    let lines = vec![
        keyed_line('1', 10),
        keyed_line('1', 20),
        keyed_line('1', 30),
        keyed_line('0', 40),
    ];
    let out = run_pipeline(&lines, 2, 2).unwrap();
    assert_eq!(out.len(), 4);
    assert!(sorted(&out));
    assert_eq!(out[0], entry(0, 40));
    let mut counts: Vec<u32> = out[1..].iter().map(|e| e.count).collect();
    counts.sort();
    assert_eq!(counts, vec![10, 20, 30]);
}

#[test]
fn pipeline_output_encodes_as_text() {
    let lines = vec![keyed_line('3', 9), keyed_line('1', 5)];
    let out = run_pipeline(&lines, 2, 2).unwrap();
    let bytes = extsort::codec::encode_text_run(&out);
    let text = String::from_utf8(bytes).unwrap();
    let expected = format!(
        "{}:5\n{}:9\n",
        "0000000000000000000000000000000000000001",
        "0000000000000000000000000000000000000003",
    );
    assert_eq!(text, expected);
}

#[test]
fn large_batch_sorted_and_complete() {
    let digits = ['0', '1', '2', '3', '4', '5', '6', '7', '8', '9', 'a', 'b', 'c', 'd', 'e', 'f'];
    let mut lines = Vec::new();
    for (i, d) in digits.iter().enumerate() {
        lines.push(keyed_line(*d, (16 - i) as u32));
    }
    for (i, d) in digits.iter().rev().enumerate() {
        lines.push(keyed_line(*d, 100 + i as u32));
    }
    let out = run_pipeline(&lines, 3, 5).unwrap();
    assert_eq!(out.len(), 32);
    assert!(sorted(&out));
    for i in 0..16 {
        assert_eq!(out[2 * i].w4, out[2 * i + 1].w4);
    }
}
