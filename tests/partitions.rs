use seven_sketches::extras::{bell, factorial, falling_factorial, n_choose_k};
use seven_sketches::partition::Partition;

#[test]
fn empty_partition() {
    let p: Partition<u8> = Partition::new(vec![]);
    assert!(p.empty());
}

#[test]
fn number_of_partitions() {
    let n = 5;
    let all_parts = Partition::all_partitions((0..n).collect());
    let total_number = all_parts.len() as u32;
    assert_eq!(total_number, bell(n))
}

#[test]
fn min_and_max_partitions() {
    let n = 5;
    let all_parts = Partition::all_partitions((0..n).collect());
    let max_partition = Partition::new(vec![(0..n).collect()]);
    let grouped: Vec<Vec<_>> = (0..n).map(|e| vec![e]).collect();
    let min_partition = Partition::new(grouped);
    assert!(all_parts.contains(&max_partition));
    assert!(all_parts.contains(&min_partition));
}

#[test]
fn partition_counts_match_bell_numbers() {
    for n in 1..8u32 {
        let all_parts = Partition::all_partitions((0..n).collect());
        assert_eq!(all_parts.len() as u32, bell(n));
    }
}

#[test]
fn no_partitions_of_empty_sequence() {
    let all_parts: Vec<Partition<u32>> = Partition::all_partitions(vec![]);
    assert_eq!(all_parts.len(), 0);
    assert_eq!(bell(0), 1);
}

#[test]
fn single_and_singleton_groups_present() {
    for n in 1..6u32 {
        let all_parts = Partition::all_partitions((0..n).collect());
        let one_group = Partition::new(vec![(0..n).collect()]);
        let singletons = Partition::new((0..n).map(|e| vec![e]).collect());
        assert!(all_parts.contains(&one_group));
        assert!(all_parts.contains(&singletons));
    }
}

#[test]
fn bell_values() {
    assert_eq!(bell(0), 1);
    assert_eq!(bell(1), 1);
    assert_eq!(bell(3), 5);
    assert_eq!(bell(5), 52);
    assert_eq!(bell(10), 115975);
}

#[test]
fn factorial_values() {
    assert_eq!(factorial(0), 1);
    assert_eq!(factorial(1), 1);
    assert_eq!(factorial(5), 120);
    for n in 1..12u32 {
        assert_eq!(factorial(n), n * factorial(n - 1));
    }
}

#[test]
fn falling_factorial_values() {
    assert_eq!(falling_factorial(5, 0), 1);
    assert_eq!(falling_factorial(5, 2), 20);
    assert_eq!(falling_factorial(6, 6), 720);
}

#[test]
fn choose_values_and_symmetry() {
    assert_eq!(n_choose_k(5, 2), 10);
    assert_eq!(n_choose_k(5, 0), 1);
    assert_eq!(n_choose_k(10, 7), 120);
    for n in 1..15u32 {
        for k in 0..=n {
            assert_eq!(n_choose_k(n, k), n_choose_k(n, n - k));
        }
    }
}

#[test]
fn empty_constructions_are_empty() {
    let p: Partition<u32> = Partition::create_empty();
    assert!(p.empty());
    let q: Partition<u32> = Partition::new(vec![]);
    assert!(q.empty());
    assert_eq!(q.to_string(), "[[]]");
    let r: Partition<u32> = Partition::new(vec![vec![]]);
    assert!(r.empty());
    let s: Partition<u32> = Partition::new(vec![vec![4]]);
    assert!(!s.empty());
}

#[test]
fn first_seen_wins() {
    let p: Partition<u32> = Partition::new(vec![vec![1], vec![1, 2]]);
    assert_eq!(p.to_string(), "[[1], [2]]");
    assert_eq!(p.full_set(), vec![1, 2]);
    let q: Partition<u32> = Partition::new(vec![vec![1], vec![2]]);
    assert!(p == q);
}

#[test]
fn repeated_group_is_dropped() {
    let p: Partition<u32> = Partition::new(vec![vec![3, 1], vec![1, 3], vec![2, 2]]);
    assert_eq!(p.to_string(), "[[1, 3], [2]]");
    assert_eq!(p.full_set(), vec![1, 2, 3]);
}

#[test]
fn full_set_is_union_of_groups() {
    let p: Partition<u32> = Partition::new(vec![vec![9, 4], vec![4, 7, 1], vec![9], vec![2]]);
    assert_eq!(p.full_set(), vec![1, 2, 4, 7, 9]);
    assert_eq!(p.to_string(), "[[1, 7], [2], [4, 9]]");
}

#[test]
fn display_ignores_construction_order() {
    let p: Partition<u32> = Partition::new(vec![vec![3, 1], vec![2]]);
    let q: Partition<u32> = Partition::new(vec![vec![2], vec![1, 3]]);
    assert_eq!(p.to_string(), "[[1, 3], [2]]");
    assert_eq!(p.to_string(), q.to_string());
    assert!(p == q);
}

#[test]
fn display_of_wide_elements() {
    let p: Partition<u64> = Partition::new(vec![vec![12345678901, 0], vec![10]]);
    assert_eq!(p.to_string(), "[[0, 12345678901], [10]]");
    let q: Partition<u8> = Partition::new(vec![vec![255, 7]]);
    assert_eq!(q.to_string(), "[[7, 255]]");
}

#[test]
fn partitions_of_three() {
    let all_parts = Partition::all_partitions(vec![1u32, 2, 3]);
    assert_eq!(all_parts.len(), 5);
    let expected: Vec<Vec<Vec<u32>>> = vec![
        vec![vec![1, 2, 3]],
        vec![vec![1, 2], vec![3]],
        vec![vec![1, 3], vec![2]],
        vec![vec![1], vec![2, 3]],
        vec![vec![1], vec![2], vec![3]],
    ];
    for groups in expected {
        assert!(all_parts.contains(&Partition::new(groups)));
    }
    let mut texts: Vec<String> = all_parts.iter().map(|p| p.to_string()).collect();
    texts.sort();
    texts.dedup();
    assert_eq!(texts.len(), 5);
}

#[test]
fn display_of_signed_elements() {
    let p: Partition<i64> = Partition::new(vec![vec![-5, 3], vec![i64::MIN], vec![0]]);
    assert_eq!(p.to_string(), "[[-9223372036854775808], [-5, 3], [0]]");
}

#[test]
fn groups_in_canonical_order() {
    let p: Partition<i32> = Partition::new(vec![vec![5, -2], vec![3], vec![-7, 3, 4]]);
    let expected: Vec<Vec<i32>> = vec![vec![-7, 4], vec![-2, 5], vec![3]];
    assert_eq!(p.group_list(), &expected);
    assert_eq!(p.to_string(), "[[-7, 4], [-2, 5], [3]]");
    let again: Vec<Vec<i32>> = p.group_list().iter().cloned().collect();
    assert_eq!(again, expected);
}

#[test]
fn rebuild_from_own_groups() {
    let p: Partition<u32> = Partition::new(vec![vec![3], vec![2, 1], vec![3, 5]]);
    let again = Partition::new(p.group_list().clone());
    assert!(again == p);
    let q1: Partition<u32> = Partition::new(vec![vec![3], vec![2, 1]]);
    let q2: Partition<u32> = Partition::new(vec![vec![1, 2], vec![3]]);
    assert_eq!(q1.to_string(), "[[1, 2], [3]]");
    assert_eq!(q2.to_string(), "[[1, 2], [3]]");
}

#[test]
fn choose_symmetry_up_to_seventeen() {
    for n in 1..=17u32 {
        for k in 0..=n {
            assert_eq!(n_choose_k(n, k), n_choose_k(n, n - k));
        }
    }
    assert_eq!(n_choose_k(17, 8), 24310);
}
