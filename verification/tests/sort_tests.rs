use quicksort64::sort::quicksort;
use quicksort64::THRESHOLD;

/// Sorts `[first, last)` of a copy of `input` and checks the sort's three
/// promises at runtime: the range is ascending, it holds exactly the same
/// values as before (compared against a std-sorted copy), and everything
/// outside the range is untouched.
fn check_sort(input: &[u64], first: usize, last: usize) -> Vec<u64> {
    let mut v: Vec<u64> = input.to_vec();
    quicksort(&mut v, first, last);
    assert_eq!(v.len(), input.len());
    for i in first..last.saturating_sub(1) {
        assert!(v[i] <= v[i + 1], "not ascending at {}", i);
    }
    let mut expected: Vec<u64> = input[first..last].to_vec();
    expected.sort_unstable();
    assert_eq!(&v[first..last], &expected[..], "range is not a permutation");
    assert_eq!(&v[..first], &input[..first], "prefix was touched");
    assert_eq!(&v[last..], &input[last..], "suffix was touched");
    v
}

/// A deterministic pseudo-random sequence for the larger inputs.
fn scrambled(n: usize) -> Vec<u64> {
    let mut x: u64 = 0x2545F4914F6CDD1D;
    let mut v: Vec<u64> = Vec::with_capacity(n);
    for _ in 0..n {
        x = x.wrapping_mul(6364136223846793005).wrapping_add(1442695040888963407);
        v.push(x >> 16);
    }
    v
}

#[test]
fn sorts_example() {
    let v = check_sort(&[5, 3, 1, 4, 2], 0, 5);
    assert_eq!(v, vec![1, 2, 3, 4, 5]);
}

#[test]
fn all_equal_unchanged() {
    let v = check_sort(&[1, 1, 1, 1], 0, 4);
    assert_eq!(v, vec![1, 1, 1, 1]);
}

#[test]
fn empty_range_is_noop() {
    let v = check_sort(&[9, 7, 8], 1, 1);
    assert_eq!(v, vec![9, 7, 8]);
    let w = check_sort(&[], 0, 0);
    assert_eq!(w, Vec::<u64>::new());
}

#[test]
fn singleton_range_is_noop() {
    let v = check_sort(&[9, 7, 8], 1, 2);
    assert_eq!(v, vec![9, 7, 8]);
}

#[test]
fn range_of_threshold_length() {
    let input = scrambled(THRESHOLD);
    check_sort(&input, 0, THRESHOLD);
}

#[test]
fn range_of_threshold_plus_one_length() {
    let input = scrambled(THRESHOLD + 1);
    check_sort(&input, 0, THRESHOLD + 1);
}

#[test]
fn sorted_input_is_noop() {
    let input: Vec<u64> = (0..100).collect();
    let v = check_sort(&input, 0, 100);
    assert_eq!(v, input);
}

#[test]
fn ascending_large() {
    let input: Vec<u64> = (0..10_000).collect();
    check_sort(&input, 0, 10_000);
}

#[test]
fn descending_large() {
    let input: Vec<u64> = (0..10_000).rev().collect();
    let v = check_sort(&input, 0, 10_000);
    for (i, x) in v.iter().enumerate() {
        assert_eq!(*x, i as u64);
    }
}

#[test]
fn all_equal_large() {
    let input = vec![42u64; 10_000];
    let v = check_sort(&input, 0, 10_000);
    assert_eq!(v, input);
}

#[test]
fn organ_pipe_large() {
    let mut input: Vec<u64> = (0..5_000).collect();
    input.extend((0..5_000).rev());
    check_sort(&input, 0, 10_000);
}

#[test]
fn duplicates_keep_their_counts() {
    let input = vec![3u64, 1, 3, 2, 3, 1, 2, 3, 0, 3];
    let v = check_sort(&input, 0, 10);
    assert_eq!(v, vec![0, 1, 1, 2, 2, 3, 3, 3, 3, 3]);
}

#[test]
fn inner_range_only() {
    let input = vec![99u64, 5, 4, 3, 2, 1, 0, 99];
    let v = check_sort(&input, 1, 7);
    assert_eq!(v, vec![99, 0, 1, 2, 3, 4, 5, 99]);
}

#[test]
fn scrambled_large() {
    let input = scrambled(20_000);
    check_sort(&input, 0, 20_000);
}

#[test]
fn scrambled_inner_range() {
    let input = scrambled(1_000);
    check_sort(&input, 123, 987);
}
