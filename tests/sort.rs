use rust_examples::sort::mergesort::MergeSort;
use rust_examples::sort::quicksort::QuickSort;
use rust_examples::sort::Sorter;

fn is_sorted(arr: &[isize]) -> bool {
    arr.windows(2).all(|w| w[0] <= w[1])
}

fn sorted_copy(arr: &[isize]) -> Vec<isize> {
    let mut copy = arr.to_vec();
    copy.sort();
    copy
}

fn samples() -> Vec<Vec<isize>> {
    vec![
        vec![],
        vec![7],
        vec![2, 1],
        vec![1, 2, 3, 4, 5],
        vec![5, 4, 3, 2, 1],
        vec![3, -1, 4, 1, -5, 9, 2, 6, 5, 3, 5],
        vec![0, 0, 0, 0],
        vec![isize::MAX, isize::MIN, 0, -1, 1],
    ]
}

#[test]
fn mergesort_sorts_samples() {
    for sample in samples() {
        let mut arr = sample.clone();
        MergeSort.sort(&mut arr);
        assert_eq!(arr, sorted_copy(&sample));
    }
}

#[test]
fn quicksort_sorts_samples() {
    for sample in samples() {
        let mut arr = sample.clone();
        QuickSort.sort(&mut arr);
        assert_eq!(arr, sorted_copy(&sample));
    }
}

#[test]
fn merge_sort_helper_sorts_only_the_range() {
    let mut arr = vec![9, 8, 7, 6, 5, 4, 3];
    MergeSort.merge_sort_helper(&mut arr, 2, 5);
    assert_eq!(arr, vec![9, 8, 4, 5, 6, 7, 3]);
}

#[test]
fn merge_sort_helper_empty_range_is_noop() {
    let mut arr = vec![3, 2, 1];
    MergeSort.merge_sort_helper(&mut arr, 2, 1);
    assert_eq!(arr, vec![3, 2, 1]);
}

#[test]
fn quicksort_helper_sorts_only_the_range() {
    let mut arr = vec![9, 8, 7, 6, 5, 4, 3];
    QuickSort.quicksort_helper(&mut arr, 1, 4);
    assert_eq!(arr, vec![9, 5, 6, 7, 8, 4, 3]);
}

fn mergesort_sorts(xs: Vec<isize>) -> bool {
    let mut arr = xs.clone();
    MergeSort.sort(&mut arr);
    is_sorted(&arr) && arr == sorted_copy(&xs)
}

fn quicksort_sorts(xs: Vec<isize>) -> bool {
    let mut arr = xs.clone();
    QuickSort.sort(&mut arr);
    is_sorted(&arr) && arr == sorted_copy(&xs)
}

#[test]
fn mergesort_property() {
    quickcheck::quickcheck(mergesort_sorts as fn(Vec<isize>) -> bool);
}

#[test]
fn quicksort_property() {
    quickcheck::quickcheck(quicksort_sorts as fn(Vec<isize>) -> bool);
}

#[test]
fn sorts_strings_too() {
    let mut words = ["pear", "apple", "fig"];
    MergeSort.sort(&mut words);
    assert_eq!(words, ["apple", "fig", "pear"]);
}
