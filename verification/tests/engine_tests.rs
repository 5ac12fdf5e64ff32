use extsort::codec::Entry;
use extsort::generator::RunGenerator;
use extsort::generator::generate_runs;
use extsort::merge::merge_runs;
use extsort::sorting::sort_entries;

fn rec(w4: u32, count: u32) -> Entry {
    Entry { w0: 0, w1: 0, w2: 0, w3: 0, w4, count }
}

fn is_sorted(es: &[Entry]) -> bool {
    es.windows(2).all(|p| p[0].compare(&p[1]) != std::cmp::Ordering::Greater)
}

#[test]
fn sort_entries_orders_and_keeps_records() {
    let v = vec![rec(3, 9), rec(1, 5), rec(0, 2), rec(1, 7)];
    let s = sort_entries(v);
    assert_eq!(s.len(), 4);
    assert!(is_sorted(&s));
    assert_eq!(s[0], rec(0, 2));
    assert_eq!(s[3], rec(3, 9));
    let mut counts: Vec<u32> = s.iter().map(|e| e.count).collect();
    counts.sort();
    assert_eq!(counts, vec![2, 5, 7, 9]);
}

#[test]
fn generator_splits_into_two_runs() {
    // Three records under capacity 2: the first sealed run holds the two
    // smallest keys in order, the second holds the remainder.
    let input = vec![rec(1, 5), rec(0, 2), rec(3, 9)];
    let runs = generate_runs(&input, 2);
    assert_eq!(runs.len(), 2);
    assert_eq!(runs[0], vec![rec(0, 2), rec(1, 5)]);
    assert_eq!(runs[1], vec![rec(3, 9)]);
}

#[test]
fn generator_single_run_when_input_fits() {
    let input = vec![rec(2, 1), rec(1, 1)];
    let runs = generate_runs(&input, 10);
    assert_eq!(runs.len(), 1);
    assert_eq!(runs[0], vec![rec(1, 1), rec(2, 1)]);
}

#[test]
fn generator_single_run_at_exact_capacity() {
    let input = vec![rec(2, 1), rec(1, 1), rec(0, 1)];
    let runs = generate_runs(&input, 3);
    assert_eq!(runs.len(), 1);
    assert_eq!(runs[0], vec![rec(0, 1), rec(1, 1), rec(2, 1)]);
}

#[test]
fn generator_empty_input_yields_one_empty_run() {
    let runs = generate_runs(&Vec::new(), 8);
    assert_eq!(runs.len(), 1);
    assert!(runs[0].is_empty());
}

#[test]
fn generator_state_push_and_finish() {
    let mut gen = RunGenerator::new(2);
    assert_eq!(gen.push(rec(5, 1)), None);
    let run = gen.push(rec(4, 1)).unwrap();
    assert_eq!(run, vec![rec(4, 1), rec(5, 1)]);
    assert_eq!(gen.push(rec(9, 1)), None);
    let last = gen.finish().unwrap();
    assert_eq!(last, vec![rec(9, 1)]);
}

#[test]
fn generator_finish_without_remainder() {
    let mut gen = RunGenerator::new(1);
    assert!(gen.push(rec(1, 1)).is_some());
    assert_eq!(gen.finish(), None);
}

#[test]
fn merge_two_runs_interleaved() {
    let runs = vec![
        vec![rec(0, 2), rec(1, 5)],
        vec![rec(3, 9)],
    ];
    let out = merge_runs(&runs, 2);
    assert_eq!(out, vec![rec(0, 2), rec(1, 5), rec(3, 9)]);
}

#[test]
fn merge_with_minimum_window() {
    // Window capacity equal to the number of runs: one record per source.
    let runs = vec![
        vec![rec(0, 1), rec(4, 1), rec(8, 1)],
        vec![rec(1, 1), rec(5, 1)],
        vec![rec(2, 1), rec(3, 1), rec(9, 1)],
    ];
    let out = merge_runs(&runs, 3);
    let keys: Vec<u32> = out.iter().map(|e| e.w4).collect();
    assert_eq!(keys, vec![0, 1, 2, 3, 4, 5, 8, 9]);
}

#[test]
fn merge_window_smaller_than_run_count() {
    // The per-source share floors at one record even when the configured
    // capacity is below the number of runs.
    let runs = vec![
        vec![rec(2, 1)],
        vec![rec(0, 1)],
        vec![rec(1, 1)],
        vec![rec(3, 1)],
    ];
    let out = merge_runs(&runs, 1);
    let keys: Vec<u32> = out.iter().map(|e| e.w4).collect();
    assert_eq!(keys, vec![0, 1, 2, 3]);
}

#[test]
fn merge_keeps_equal_key_duplicates() {
    let runs = vec![
        vec![rec(1, 10), rec(1, 11)],
        vec![rec(1, 12)],
    ];
    let out = merge_runs(&runs, 4);
    assert_eq!(out.len(), 3);
    assert!(is_sorted(&out));
    let mut counts: Vec<u32> = out.iter().map(|e| e.count).collect();
    counts.sort();
    assert_eq!(counts, vec![10, 11, 12]);
}

#[test]
fn merge_ties_prefer_lower_source() {
    let runs = vec![
        vec![rec(1, 100)],
        vec![rec(1, 200)],
    ];
    let out = merge_runs(&runs, 8);
    assert_eq!(out, vec![rec(1, 100), rec(1, 200)]);
}

#[test]
fn merge_with_empty_sources() {
    let runs = vec![
        Vec::new(),
        vec![rec(2, 1), rec(7, 1)],
        Vec::new(),
        vec![rec(5, 1)],
    ];
    let out = merge_runs(&runs, 2);
    let keys: Vec<u32> = out.iter().map(|e| e.w4).collect();
    assert_eq!(keys, vec![2, 5, 7]);
}

#[test]
fn merge_single_run_passes_through() {
    let runs = vec![vec![rec(1, 1), rec(2, 2)]];
    let out = merge_runs(&runs, 1);
    assert_eq!(out, vec![rec(1, 1), rec(2, 2)]);
}
