use ext_size_stats::{
    checked_total, median_of, mode_of, record_sizes, sort_sizes, summarize, FileRecord, Summary,
};

fn records(sizes: &[u64]) -> Vec<FileRecord> {
    sizes
        .iter()
        .enumerate()
        .map(|(i, s)| FileRecord { name: format!("f{}.txt", i), size_kib: *s })
        .collect()
}

#[test]
fn center_lies_between_extremes() {
    for sizes in [vec![7u64, 1, 100, 3], vec![5, 5, 9], vec![0, u64::MAX], vec![42]] {
        let s = summarize(&records(&sizes)).unwrap();
        assert!(s.min_kib <= s.median_kib && s.median_kib <= s.max_kib);
        let total: u128 = sizes.iter().map(|x| *x as u128).sum();
        let n = sizes.len() as u128;
        assert!(s.min_kib as u128 * n <= total && total <= s.max_kib as u128 * n);
    }
}

#[test]
fn total_is_the_sum() {
    let s = summarize(&records(&[3, 10, 0, 7])).unwrap();
    assert_eq!(s.total_kib, Some(20));
    assert_eq!(checked_total(&vec![u64::MAX - 1, 1]), Some(u64::MAX));
}

#[test]
fn total_overflow_is_reported() {
    let s = summarize(&records(&[u64::MAX, 1, 4])).unwrap();
    assert_eq!(s.total_kib, None);
    assert_eq!(s.count, 3);
    assert_eq!(s.min_kib, 1);
    assert_eq!(s.max_kib, u64::MAX);
    assert_eq!(s.median_kib, 4);
    assert_eq!(checked_total(&vec![u64::MAX, 1]), None);
}

#[test]
fn single_record_summary() {
    let s = summarize(&records(&[13])).unwrap();
    assert_eq!(
        s,
        Summary {
            count: 1,
            total_kib: Some(13),
            mode_kib: 13,
            median_kib: 13,
            min_kib: 13,
            max_kib: 13
        }
    );
}

#[test]
fn even_count_median_is_floor_of_middle_mean() {
    let s = summarize(&records(&[9, 1, 4, 2])).unwrap();
    assert_eq!(s.median_kib, (2 + 4) / 2);
    let s = summarize(&records(&[10, 1, 4, 2])).unwrap();
    assert_eq!(s.median_kib, 3);
    let s = summarize(&records(&[1, 2])).unwrap();
    assert_eq!(s.median_kib, 1);
    assert_eq!(median_of(&vec![u64::MAX, u64::MAX]), u64::MAX);
    assert_eq!(median_of(&vec![u64::MAX - 2, u64::MAX]), u64::MAX - 1);
}

#[test]
fn odd_count_median_is_middle() {
    let s = summarize(&records(&[50, 1, 7])).unwrap();
    assert_eq!(s.median_kib, 7);
}

#[test]
fn mode_is_most_frequent_smallest_on_tie() {
    let s = summarize(&records(&[8, 3, 8, 5, 3, 8])).unwrap();
    assert_eq!(s.mode_kib, 8);
    let s = summarize(&records(&[9, 4, 9, 4, 1])).unwrap();
    assert_eq!(s.mode_kib, 4);
    assert_eq!(mode_of(&vec![1, 2, 3]), 1);
    assert_eq!(mode_of(&vec![1, 2, 2, 3, 3]), 2);
}

#[test]
fn sizes_sort_ascending() {
    let mut v = vec![5u64, 0, 9, 5, 1];
    sort_sizes(&mut v);
    assert_eq!(v, vec![0, 1, 5, 5, 9]);
    let mut e: Vec<u64> = vec![];
    sort_sizes(&mut e);
    assert!(e.is_empty());
    assert_eq!(record_sizes(&records(&[4, 2])), vec![4, 2]);
}

#[test]
fn full_summary_of_mixed_sizes() {
    let s = summarize(&records(&[4, 1, 4, 10, 6])).unwrap();
    assert_eq!(
        s,
        Summary {
            count: 5,
            total_kib: Some(25),
            mode_kib: 4,
            median_kib: 4,
            min_kib: 1,
            max_kib: 10
        }
    );
}
