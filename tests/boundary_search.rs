use bsearch::{bsearch_eq, bsearch_ge, bsearch_le};

#[test]
fn test_bsearch_ge_exact_matches() {
    let data = vec![10, 20, 30, 40, 50];

    assert_eq!(bsearch_ge(&data, &10, |a, b| a.cmp(b)), Some(0));
    assert_eq!(bsearch_ge(&data, &20, |a, b| a.cmp(b)), Some(1));
    assert_eq!(bsearch_ge(&data, &30, |a, b| a.cmp(b)), Some(2));
    assert_eq!(bsearch_ge(&data, &40, |a, b| a.cmp(b)), Some(3));
    assert_eq!(bsearch_ge(&data, &50, |a, b| a.cmp(b)), Some(4));
}

#[test]
fn test_bsearch_ge_between_elements() {
    let data = vec![10, 20, 30, 40, 50];

    assert_eq!(bsearch_ge(&data, &15, |a, b| a.cmp(b)), Some(1));
    assert_eq!(bsearch_ge(&data, &25, |a, b| a.cmp(b)), Some(2));
    assert_eq!(bsearch_ge(&data, &35, |a, b| a.cmp(b)), Some(3));
    assert_eq!(bsearch_ge(&data, &45, |a, b| a.cmp(b)), Some(4));
}

#[test]
fn test_bsearch_ge_boundaries() {
    let data = vec![10, 20, 30, 40, 50];

    assert_eq!(bsearch_ge(&data, &5, |a, b| a.cmp(b)), Some(0));
    assert_eq!(bsearch_ge(&data, &100, |a, b| a.cmp(b)), None);
}

#[test]
fn test_bsearch_ge_empty() {
    let data: Vec<i32> = vec![];
    assert_eq!(bsearch_ge(&data, &10, |a, b| a.cmp(b)), None);
}

#[test]
fn test_bsearch_ge_single_element() {
    let data = vec![42];
    assert_eq!(bsearch_ge(&data, &20, |a, b| a.cmp(b)), Some(0));
    assert_eq!(bsearch_ge(&data, &42, |a, b| a.cmp(b)), Some(0));
    assert_eq!(bsearch_ge(&data, &50, |a, b| a.cmp(b)), None);
}

#[test]
fn test_bsearch_le_exact_matches() {
    let data = vec![10, 20, 30, 40, 50];

    assert_eq!(bsearch_le(&data, &10, |a, b| a.cmp(b)), Some(0));
    assert_eq!(bsearch_le(&data, &20, |a, b| a.cmp(b)), Some(1));
    assert_eq!(bsearch_le(&data, &30, |a, b| a.cmp(b)), Some(2));
    assert_eq!(bsearch_le(&data, &40, |a, b| a.cmp(b)), Some(3));
    assert_eq!(bsearch_le(&data, &50, |a, b| a.cmp(b)), Some(4));
}

#[test]
fn test_bsearch_le_between_elements() {
    let data = vec![10, 20, 30, 40, 50];

    assert_eq!(bsearch_le(&data, &15, |a, b| a.cmp(b)), Some(0));
    assert_eq!(bsearch_le(&data, &25, |a, b| a.cmp(b)), Some(1));
    assert_eq!(bsearch_le(&data, &35, |a, b| a.cmp(b)), Some(2));
    assert_eq!(bsearch_le(&data, &45, |a, b| a.cmp(b)), Some(3));
}

#[test]
fn test_bsearch_le_boundaries() {
    let data = vec![10, 20, 30, 40, 50];

    assert_eq!(bsearch_le(&data, &5, |a, b| a.cmp(b)), None);
    assert_eq!(bsearch_le(&data, &100, |a, b| a.cmp(b)), Some(4));
}

#[test]
fn test_bsearch_le_empty() {
    let data: Vec<i32> = vec![];
    assert_eq!(bsearch_le(&data, &10, |a, b| a.cmp(b)), None);
}

#[test]
fn test_bsearch_le_single_element() {
    let data = vec![42];
    assert_eq!(bsearch_le(&data, &20, |a, b| a.cmp(b)), None);
    assert_eq!(bsearch_le(&data, &42, |a, b| a.cmp(b)), Some(0));
    assert_eq!(bsearch_le(&data, &50, |a, b| a.cmp(b)), Some(0));
}

#[test]
fn test_bsearch_eq_exact_matches() {
    let data = vec![10, 20, 30, 40, 50];

    assert_eq!(bsearch_eq(&data, &10, |a, b| a.cmp(b)), Some(0));
    assert_eq!(bsearch_eq(&data, &20, |a, b| a.cmp(b)), Some(1));
    assert_eq!(bsearch_eq(&data, &30, |a, b| a.cmp(b)), Some(2));
    assert_eq!(bsearch_eq(&data, &40, |a, b| a.cmp(b)), Some(3));
    assert_eq!(bsearch_eq(&data, &50, |a, b| a.cmp(b)), Some(4));
}

#[test]
fn test_bsearch_eq_no_match() {
    let data = vec![10, 20, 30, 40, 50];

    assert_eq!(bsearch_eq(&data, &15, |a, b| a.cmp(b)), None);
    assert_eq!(bsearch_eq(&data, &25, |a, b| a.cmp(b)), None);
    assert_eq!(bsearch_eq(&data, &5, |a, b| a.cmp(b)), None);
    assert_eq!(bsearch_eq(&data, &100, |a, b| a.cmp(b)), None);
}

#[test]
fn test_bsearch_eq_empty() {
    let data: Vec<i32> = vec![];
    assert_eq!(bsearch_eq(&data, &10, |a, b| a.cmp(b)), None);
}

#[test]
fn test_range_query_example() {
    let data = vec![10, 20, 30, 40, 50, 60, 70, 80, 90];

    let start_idx = bsearch_ge(&data, &25, |a, b| a.cmp(b));
    let end_idx = bsearch_le(&data, &75, |a, b| a.cmp(b));

    assert_eq!(start_idx, Some(2));
    assert_eq!(end_idx, Some(6));

    if let (Some(start), Some(end)) = (start_idx, end_idx) {
        let range = &data[start..=end];
        assert_eq!(range, &[30, 40, 50, 60, 70]);
    }
}

#[test]
fn test_large_array() {
    let data: Vec<i32> = (0..10000).map(|i| i * 2).collect();

    assert_eq!(bsearch_eq(&data, &1000, |a, b| a.cmp(b)), Some(500));

    let start = bsearch_ge(&data, &100, |a, b| a.cmp(b));
    let end = bsearch_le(&data, &200, |a, b| a.cmp(b));
    assert_eq!(start, Some(50));
    assert_eq!(end, Some(100));
}
