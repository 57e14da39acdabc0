use sorting::{bubble_sort, merge_sort, pivot, quick_sort, quick_sort_rayon};

#[test]
fn test_bubble_sort() {
    let mut v = vec![4, 2, 3, 6, 1, 5];
    bubble_sort(&mut v);
    assert_eq!(v, vec![1, 2, 3, 4, 5, 6]);
}

#[test]
fn test_merge_sort() {
    let v = vec![4, 2, 3, 6, 1, 5];
    let r = merge_sort(v);
    assert_eq!(r, vec![1, 2, 3, 4, 5, 6]);
}

#[test]
fn test_pivot() {
    let mut v = vec![4, 6, 1, 19, 8, 11, 13, 3];
    let p = pivot(&mut v);

    for x in 1..v.len() {
        assert_eq!(v[x] < v[p], x < p);
    }
}

#[test]
fn test_quick_sort() {
    let mut v = vec![4, 6, 1, 19, 8, 11, 13, 3];
    quick_sort(&mut v);
    assert_eq!(v, vec![1, 3, 4, 6, 8, 11, 13, 19]);

    let mut v = vec![1, 2, 3, 4, 5, 6, 7, 8];
    quick_sort(&mut v);
    assert_eq!(v, vec![1, 2, 3, 4, 5, 6, 7, 8]);
}

#[test]
fn test_quick_sort_rayon() {
    let mut v = vec![4, 6, 1, 19, 8, 11, 13, 3];
    quick_sort_rayon(&mut v);
    assert_eq!(v, vec![1, 3, 4, 6, 8, 11, 13, 19]);

    let mut v = vec![1, 2, 3, 4, 5, 6, 7, 8];
    quick_sort_rayon(&mut v);
    assert_eq!(v, vec![1, 2, 3, 4, 5, 6, 7, 8]);
}

#[test]
fn test_quick_sort_scenario() {
    let mut v = vec![4, 2, 3, 6, 1, 5];
    quick_sort(&mut v);
    assert_eq!(v, vec![1, 2, 3, 4, 5, 6]);

    let mut v = vec![4, 2, 3, 6, 1, 5];
    quick_sort_rayon(&mut v);
    assert_eq!(v, vec![1, 2, 3, 4, 5, 6]);
}

#[test]
fn test_quick_sort_variants_agree() {
    let mut a = vec![4, 6, 1, 19, 8, 11, 13, 3];
    let mut b = a.clone();
    quick_sort(&mut a);
    quick_sort_rayon(&mut b);
    assert_eq!(a, b);
    assert_eq!(a, vec![1, 3, 4, 6, 8, 11, 13, 19]);
}

#[test]
fn test_empty_and_single() {
    let mut v: Vec<u64> = vec![];
    bubble_sort(&mut v);
    assert_eq!(v, Vec::<u64>::new());
    quick_sort(&mut v);
    assert_eq!(v, Vec::<u64>::new());
    quick_sort_rayon(&mut v);
    assert_eq!(v, Vec::<u64>::new());
    let r = merge_sort(v);
    assert_eq!(r, Vec::<u64>::new());

    let mut v: Vec<u64> = vec![7];
    bubble_sort(&mut v);
    assert_eq!(v, vec![7]);
    quick_sort(&mut v);
    assert_eq!(v, vec![7]);
    quick_sort_rayon(&mut v);
    assert_eq!(v, vec![7]);
    let r = merge_sort(v);
    assert_eq!(r, vec![7]);
}

#[test]
fn test_already_sorted_unchanged() {
    let mut v = vec![1, 2, 3, 4, 5, 6, 7, 8];
    bubble_sort(&mut v);
    assert_eq!(v, vec![1, 2, 3, 4, 5, 6, 7, 8]);

    let r = merge_sort(vec![1, 2, 3, 4, 5, 6, 7, 8]);
    assert_eq!(r, vec![1, 2, 3, 4, 5, 6, 7, 8]);
}

#[test]
fn test_pivot_equal_keys() {
    let mut v = vec![5, 5, 5, 5];
    let p = pivot(&mut v);
    // every element equals the pivot, so none compares less than it
    assert_eq!(p, 0);
    assert_eq!(v, vec![5, 5, 5, 5]);
}

#[test]
fn test_duplicates_sort() {
    let mut v = vec![3, 1, 3, 2, 3, 1];
    quick_sort(&mut v);
    assert_eq!(v, vec![1, 1, 2, 3, 3, 3]);

    let mut v = vec![3, 1, 3, 2, 3, 1];
    bubble_sort(&mut v);
    assert_eq!(v, vec![1, 1, 2, 3, 3, 3]);

    let r = merge_sort(vec![3, 1, 3, 2, 3, 1]);
    assert_eq!(r, vec![1, 1, 2, 3, 3, 3]);

    let mut v = vec![3, 1, 3, 2, 3, 1];
    quick_sort_rayon(&mut v);
    assert_eq!(v, vec![1, 1, 2, 3, 3, 3]);
}

#[test]
fn test_merge_sort_permutation_of_larger_input() {
    let v: Vec<u64> = (0..200).rev().collect();
    let r = merge_sort(v);
    let expected: Vec<u64> = (0..200).collect();
    assert_eq!(r, expected);
}
