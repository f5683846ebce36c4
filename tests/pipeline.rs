use tsv_sort::merge::{merge_runs, pick_run};
use tsv_sort::range::{find_sentinel, is_sentinel_line, sort_range, RangeError, RunBuffer, SENTINEL};
use tsv_sort::sort::sort_lines;

fn strings(v: &[&str]) -> Vec<String> {
    v.iter().map(|s| s.to_string()).collect()
}

#[test]
fn sort_lines_orders_numbers_as_numbers() {
    let r = sort_lines(strings(&["42\tfoo", "12\tfoo", "123\tfoo", "-7", "x"]));
    assert_eq!(r, strings(&["-7", "x", "12\tfoo", "42\tfoo", "123\tfoo"]));
}

#[test]
fn sort_lines_of_nothing() {
    assert_eq!(sort_lines(Vec::new()), Vec::<String>::new());
}

#[test]
fn sorting_sorted_lines_changes_nothing() {
    let sorted = strings(&["-2", "-1", "abc", "007", "7", "12", "12.0"]);
    assert_eq!(sort_lines(sorted.clone()), sorted);
    let once = sort_lines(strings(&["b", "10", "9", "7", "007", "-3"]));
    assert_eq!(sort_lines(once.clone()), once);
}

#[test]
fn equal_lines_keep_their_order() {
    let r = sort_lines(strings(&["7", "5", "007", "07"]));
    assert_eq!(r, strings(&["5", "7", "007", "07"]));
}

#[test]
fn pick_run_takes_smallest_head() {
    let heads = vec![Some("9".to_string()), None, Some("10".to_string()), Some("2".to_string())];
    assert_eq!(pick_run(&heads), Some(3));
}

#[test]
fn pick_run_breaks_ties_by_lowest_run() {
    let heads = vec![Some("5".to_string()), Some("3".to_string()), Some("03".to_string())];
    assert_eq!(pick_run(&heads), Some(1));
    let heads = vec![None, Some("03".to_string()), Some("3".to_string())];
    assert_eq!(pick_run(&heads), Some(1));
}

#[test]
fn pick_run_when_all_done() {
    assert_eq!(pick_run(&vec![None, None]), None);
    assert_eq!(pick_run(&Vec::new()), None);
}

#[test]
fn merge_runs_merges_sorted_runs() {
    let runs = vec![strings(&["1", "5", "9"]), strings(&[]), strings(&["2", "3", "10"]), strings(&["05"])];
    assert_eq!(merge_runs(runs), strings(&["1", "2", "3", "5", "05", "9", "10"]));
}

#[test]
fn run_buffer_fills_at_budget() {
    let mut b = RunBuffer::new(6);
    assert!(b.is_empty());
    assert!(!b.is_full());
    assert!(!b.push("10".to_string()));
    assert!(!b.push("9".to_string()));
    assert!(b.push("abc".to_string()));
    assert!(b.is_full());
    let run = b.take_run();
    assert_eq!(run, strings(&["abc", "9", "10"]));
    assert!(b.is_empty());
    assert!(!b.is_full());
}

#[test]
fn run_buffer_counts_bytes() {
    let mut b = RunBuffer::new(2);
    assert!(b.push("é".to_string()));
}

#[test]
fn sentinel_is_recognised() {
    assert!(is_sentinel_line(SENTINEL));
    assert!(is_sentinel_line("\\."));
    assert!(!is_sentinel_line("\\.x"));
    assert!(!is_sentinel_line("."));
    let lines = strings(&["a", "\\.", "b", "\\."]);
    assert_eq!(find_sentinel(&lines, 0), Some(1));
    assert_eq!(find_sentinel(&lines, 2), Some(3));
    assert_eq!(find_sentinel(&lines, 4), None);
}

#[test]
fn end_to_end_range() {
    let input = strings(&["42\tfoo", "12\tfoo", "123\tfoo", "\\."]);
    let mut out = Vec::new();
    assert_eq!(sort_range(&input, 0, 1000000, &mut out), Ok(4));
    assert_eq!(out, strings(&["12\tfoo", "42\tfoo", "123\tfoo", "\\."]));
}

#[test]
fn range_appends_and_resumes_after_sentinel() {
    let input = strings(&["head", "3", "1", "\\.", "b", "a", "\\.", "tail"]);
    let mut out = strings(&["kept"]);
    let next = sort_range(&input, 1, 100, &mut out).unwrap();
    assert_eq!(next, 4);
    let next = sort_range(&input, next, 100, &mut out).unwrap();
    assert_eq!(next, 7);
    assert_eq!(out, strings(&["kept", "1", "3", "\\.", "a", "b", "\\."]));
}

#[test]
fn sentinel_is_not_sorted_with_the_lines() {
    let input = strings(&["]", "\\.", "\\"]);
    let mut out = Vec::new();
    assert_eq!(sort_range(&input, 0, 10, &mut out), Ok(2));
    assert_eq!(out, strings(&["]", "\\."]));
    let input = strings(&["\\."]);
    let mut out = Vec::new();
    assert_eq!(sort_range(&input, 0, 10, &mut out), Ok(1));
    assert_eq!(out, strings(&["\\."]));
}

#[test]
fn missing_sentinel_fails_and_writes_nothing() {
    let input = strings(&["3", "1", "2"]);
    let mut out = strings(&["before"]);
    assert_eq!(sort_range(&input, 0, 10, &mut out), Err(RangeError::TruncatedInput));
    assert_eq!(out, strings(&["before"]));
    assert_eq!(sort_range(&input, 7, 10, &mut out), Err(RangeError::TruncatedInput));
    assert_eq!(out, strings(&["before"]));
}

#[test]
fn small_budget_gives_same_result() {
    let mut input = Vec::new();
    for k in 0..200u32 {
        input.push(format!("{}\t{}", (k * 7919) % 211, k % 3));
        input.push(format!("-{}.{}", k % 17, k % 5));
    }
    input.push("\\.".to_string());
    let mut big = Vec::new();
    let mut small = Vec::new();
    let mut zero = Vec::new();
    assert_eq!(sort_range(&input, 0, 1000000, &mut big), Ok(401));
    assert_eq!(sort_range(&input, 0, 16, &mut small), Ok(401));
    assert_eq!(sort_range(&input, 0, 0, &mut zero), Ok(401));
    assert_eq!(big, small);
    assert_eq!(big, zero);
    let mut expected = input[..400].to_vec();
    expected.sort_by(|a, b| tsv_sort::compare::tsv_cmp(a, b));
    expected.push("\\.".to_string());
    assert_eq!(big, expected);
}

#[test]
fn sort_range_is_deterministic() {
    let input = strings(&["5", "05", "005", "-1", "x", "5", "\\."]);
    let mut first = Vec::new();
    let mut second = Vec::new();
    sort_range(&input, 0, 3, &mut first).unwrap();
    sort_range(&input, 0, 3, &mut second).unwrap();
    assert_eq!(first, second);
    assert_eq!(first, strings(&["-1", "x", "5", "05", "005", "5", "\\."]));
}
