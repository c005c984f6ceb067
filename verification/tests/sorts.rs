use rust_sorts::bucket::{octal_pivot_quicksort, quadro_pivot_quicksort_2};
use rust_sorts::multi_pivot::{
    double_pivot_quicksort, double_pivot_quicksort_lomuto_partition_block,
    double_pivot_quicksort_new_partition_block, quad_pivot_quicksort, triple_pivot_quicksort,
};
use rust_sorts::qsort::{
    insertion_sort, partial_insertion_sort, quick_sort_hoare_partition,
    quick_sort_hoare_partition_block, quick_sort_lomuto_partition,
    quick_sort_lomuto_partition_block,
};
use rust_sorts::util::{default_vec, is_sorted};

fn reference_sorted(v: &Vec<u32>) -> Vec<u32> {
    let mut c = v.clone();
    c.sort_unstable();
    c
}

fn deterministic_input(n: usize) -> Vec<u32> {
    // a full cycle modulo a prime, plus some duplicates at the end
    let mut v: Vec<u32> = (0..n).map(|i| ((i * 37) % 101) as u32).collect();
    v.push(50);
    v.push(50);
    v.push(0);
    v
}

fn all_strategies() -> Vec<fn(&mut Vec<u32>)> {
    vec![
        quick_sort_lomuto_partition,
        quick_sort_lomuto_partition_block,
        quick_sort_hoare_partition,
        quick_sort_hoare_partition_block,
        double_pivot_quicksort,
        double_pivot_quicksort_lomuto_partition_block,
        double_pivot_quicksort_new_partition_block,
        triple_pivot_quicksort,
        quad_pivot_quicksort,
        quadro_pivot_quicksort_2,
        octal_pivot_quicksort,
    ]
}

#[test]
fn test_1k_array() {
    let arr: Vec<u32> = default_vec(1_000);

    let mut copy = arr.clone();
    quick_sort_hoare_partition(&mut copy);
    assert_eq!(is_sorted(&copy), true);

    let mut copy = arr.clone();
    quick_sort_lomuto_partition(&mut copy);
    assert_eq!(is_sorted(&copy), true);

    let mut copy = arr.clone();
    double_pivot_quicksort(&mut copy);
    assert_eq!(is_sorted(&copy), true);

    let mut copy = arr.clone();
    triple_pivot_quicksort(&mut copy);
    assert_eq!(is_sorted(&copy), true);
}

#[test]
fn test_hoare_partition() {
    let mut arr: Vec<u32> = default_vec(1_000);
    quick_sort_hoare_partition(&mut arr);
    assert_eq!(is_sorted(&arr), true);

    let mut arr: Vec<u32> = default_vec(1_000_000);
    quick_sort_hoare_partition(&mut arr);
    assert_eq!(is_sorted(&arr), true);
}

#[test]
fn test_double_pivot_quicksort_lomuto_partition_block() {
    let arr: Vec<u32> = default_vec(1_000);

    let mut copy = arr.clone();
    double_pivot_quicksort(&mut copy);
    assert_eq!(is_sorted(&copy), true);

    let mut copy = arr.clone();
    double_pivot_quicksort_lomuto_partition_block(&mut copy);
    assert_eq!(is_sorted(&copy), true);

    let arr: Vec<u32> = default_vec(1_000_000);

    let mut copy = arr.clone();
    double_pivot_quicksort(&mut copy);
    assert_eq!(is_sorted(&copy), true);

    let mut copy = arr.clone();
    double_pivot_quicksort_lomuto_partition_block(&mut copy);
    assert_eq!(is_sorted(&copy), true);
}

#[test]
fn test_real_quad_pivot_qsort() {
    for _ in 0..100 {
        let mut some_vec: Vec<u32> = default_vec(5000);
        quad_pivot_quicksort(&mut some_vec);
        assert_eq!(is_sorted(&some_vec), true);
    }
}

#[test]
fn every_strategy_matches_reference_sort() {
    let arr = deterministic_input(1000);
    let expected = reference_sorted(&arr);
    for f in all_strategies() {
        let mut copy = arr.clone();
        f(&mut copy);
        assert_eq!(copy, expected);
    }
}

#[test]
fn every_strategy_on_random_input() {
    let arr: Vec<u32> = default_vec(4096);
    let expected = reference_sorted(&arr);
    for f in all_strategies() {
        let mut copy = arr.clone();
        f(&mut copy);
        assert_eq!(copy, expected);
    }
}

#[test]
fn empty_sequence_returns_immediately() {
    for f in all_strategies() {
        let mut v: Vec<u32> = Vec::new();
        f(&mut v);
        assert_eq!(v, Vec::<u32>::new());
    }
}

#[test]
fn single_element_unchanged() {
    for f in all_strategies() {
        let mut v: Vec<u32> = vec![42];
        f(&mut v);
        assert_eq!(v, vec![42]);
    }
}

#[test]
fn five_elements_one_pivot_strategies() {
    let one_pivot: Vec<fn(&mut Vec<u32>)> = vec![
        quick_sort_lomuto_partition,
        quick_sort_lomuto_partition_block,
        quick_sort_hoare_partition,
        quick_sort_hoare_partition_block,
    ];
    for f in one_pivot {
        let mut v: Vec<u32> = vec![5, 3, 1, 4, 2];
        f(&mut v);
        assert_eq!(v, vec![1, 2, 3, 4, 5]);
    }
}

#[test]
fn already_sorted_input_unchanged() {
    let arr: Vec<u32> = (0..10_000).map(|i| i as u32).collect();
    for f in all_strategies() {
        let mut copy = arr.clone();
        f(&mut copy);
        assert_eq!(copy, arr);
    }
}

#[test]
fn all_equal_elements_do_not_loop() {
    let arr: Vec<u32> = vec![7; 1000];
    for f in all_strategies() {
        let mut copy = arr.clone();
        f(&mut copy);
        assert_eq!(copy, arr);
    }
}

#[test]
fn reverse_sorted_input() {
    let arr: Vec<u32> = (0..2048).rev().map(|i| i as u32).collect();
    let expected = reference_sorted(&arr);
    for f in all_strategies() {
        let mut copy = arr.clone();
        f(&mut copy);
        assert_eq!(copy, expected);
    }
}

#[test]
fn sorting_twice_equals_sorting_once() {
    let arr: Vec<u32> = default_vec(2000);
    for f in all_strategies() {
        let mut once = arr.clone();
        f(&mut once);
        let mut twice = once.clone();
        f(&mut twice);
        assert_eq!(twice, once);
    }
}

#[test]
fn small_range_fallback_matches_other_strategies() {
    // below the insertion-sort threshold every strategy delegates to the
    // fallback, and all outputs coincide
    let arr: Vec<u32> = default_vec(20);
    let mut fallback = arr.clone();
    let n = fallback.len();
    insertion_sort(&mut fallback, 0, n - 1);
    for f in all_strategies() {
        let mut copy = arr.clone();
        f(&mut copy);
        assert_eq!(copy, fallback);
    }
}

#[test]
fn insertion_sort_exact_subrange() {
    let mut v: Vec<u32> = vec![9, 8, 5, 2, 7, 1, 0];
    insertion_sort(&mut v, 1, 4);
    assert_eq!(v, vec![9, 2, 5, 7, 8, 1, 0]);

    let mut w: Vec<u32> = vec![3, 1, 2];
    partial_insertion_sort(&mut w, 0, 2);
    assert_eq!(w, vec![1, 2, 3]);
}

#[test]
fn default_vec_has_requested_length() {
    let v = default_vec(123);
    assert_eq!(v.len(), 123);
    let w = default_vec(0);
    assert_eq!(w.len(), 0);
}

#[test]
fn is_sorted_checks() {
    assert!(is_sorted(&vec![]));
    assert!(is_sorted(&vec![1]));
    assert!(is_sorted(&vec![1, 1, 2, 3]));
    assert!(!is_sorted(&vec![2, 1]));
    assert!(!is_sorted(&vec![1, 3, 2, 4]));
}
