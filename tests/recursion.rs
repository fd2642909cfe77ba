use rand::rngs::SmallRng;
use rand::{Rng, SeedableRng};
use dynprog::fib::{factorial, fibd, fibr, fibv, Fibonacci};
use dynprog::sorting::{binary_search, bubble_sort, check_sorted, counting_sort, quicksort};

fn fib_seq_u128() -> Vec<u128> {
    vec![
        0, 1, 1, 2, 3, 5, 8, 13, 21, 34, 55, 89, 144, 233, 377, 610, 987, 1597, 2584, 4181,
        6765, 10946, 17711, 28657, 46368, 75025, 121393, 196418, 317811, 514229, 832040,
        1346269, 2178309, 3524578, 5702887, 9227465, 14930352, 24157817, 39088169, 63245986,
        102334155,
    ]
}
fn fib_seq_u64() -> Vec<u64> {
    vec![
        0, 1, 1, 2, 3, 5, 8, 13, 21, 34, 55, 89, 144, 233, 377, 610, 987, 1597, 2584, 4181,
        6765, 10946, 17711, 28657, 46368, 75025, 121393, 196418, 317811, 514229, 832040,
        1346269, 2178309, 3524578, 5702887, 9227465, 14930352, 24157817, 39088169, 63245986,
        102334155,
    ]
}

#[test]
fn test_fib_recursive() {
    let fibseq = fib_seq_u64();
    for (n, want) in fibseq.iter().take(20).enumerate() {
        assert_eq!(fibr(n as u64), *want);
    }
}

#[test]
fn test_fibd() {
    let fibseq = fib_seq_u128();
    for (n, want) in fibseq.iter().enumerate() {
        assert_eq!(fibd(n as u128), *want);
    }
}

#[test]
fn test_fibv() {
    let fibseq = fib_seq_u128();
    for (n, want) in fibseq.iter().enumerate() {
        assert_eq!(fibv(n as u128), *want);
    }
}

#[test]
fn test_fibiter() {
    let mut fibg = Fibonacci::default();
    for (_, want) in fib_seq_u128().iter().enumerate() {
        assert_eq!(fibg.next(), Some(*want));
    }
}

#[test]
fn factorials() {
    assert_eq!(factorial(0), 1);
    assert_eq!(factorial(1), 1);
    assert_eq!(factorial(5), 120);
    assert_eq!(factorial(21), 51090942171709440000);
}

#[test]
fn test_check_sorted() {
    let table = vec![
        (vec![1, 2, 3, 4], true),
        (vec![4, 2, 3, 4], false),
        (vec![4, 2, 3, 4], false),
        (vec![0, 2, 3, 4], true),
        (vec![-4, 2, 3, 4], true),
        (vec![1, 2, 3, -4], false),
        (vec![10, 23, -3, 40], false),
        (vec![10, 12, 32, 40], true),
        (vec![9, 27, 27, 30], true),
        (vec![1, 2, 2, 4, 4, 5], true),
        (vec![1, 2, 2, 4, 4, 3], true),
    ];

    for tc in table {
        assert_eq!(check_sorted(&tc.0), tc.1);
    }
}

#[test]
fn check_sorted_empty_and_single() {
    assert!(check_sorted(&vec![]));
    assert!(check_sorted(&vec![7]));
}

#[test]
fn quicksort_sorts_fixed_inputs() {
    let mut v = vec![
        22, 10, 52, 9, 78, 76, 41, 36, 99, 23, 1, 74, 38, 12, 44, 52, 67, 14, 1, 58,
    ];
    quicksort(&mut v);
    assert_eq!(
        v,
        vec![1, 1, 9, 10, 12, 14, 22, 23, 36, 38, 41, 44, 52, 52, 58, 67, 74, 76, 78, 99]
    );
    let mut empty: Vec<i32> = vec![];
    quicksort(&mut empty);
    assert!(empty.is_empty());
    let mut w = vec![3, -1, 3, -7, 0];
    quicksort(&mut w[..]);
    assert_eq!(w, vec![-7, -1, 0, 3, 3]);
    assert!(check_sorted(&w));
}

#[test]
fn test_binary_search() {
    let mut v = vec![
        22, 10, 52, 9, 78, 76, 41, 36, 99, 23, 1, 74, 38, 12, 44, 52, 67, 14, 1, 58,
    ];
    quicksort(&mut v);

    assert_eq!(binary_search(&mut v, 10), (3, 5));

    // Light test to ensure it doesn't panic.
    let mut rng = SmallRng::seed_from_u64(4000);
    for i in 5..4000 {
        let mut v: Vec<i32> = (0..i).map(|_| rng.gen_range(0..(i * 2) as i32)).collect();

        binary_search(&mut v, (i + i) as i32);
    }
}

#[test]
fn binary_search_on_ascending_input() {
    let mut v = vec![1, 9, 10, 23, 41, 52, 76, 78, 99];
    assert_eq!(binary_search(&mut v, 41), (4, 1));
    assert_eq!(binary_search(&mut v, 10), (2, 3));
    assert_eq!(binary_search(&mut v, 50).0, -1);
    assert_eq!(binary_search(&mut v, 0).0, -1);
    assert_eq!(binary_search(&mut v, 100).0, -1);
    assert_eq!(binary_search(&mut vec![5], 5), (0, 1));
}

#[test]
fn bubble_sort_sorts_fixed_inputs() {
    let mut v = vec![5, 1, 4, 2, 8, 0, 2];
    bubble_sort(&mut v);
    assert_eq!(v, vec![0, 1, 2, 2, 4, 5, 8]);
    let mut one = vec![3];
    bubble_sort(&mut one);
    assert_eq!(one, vec![3]);
    let mut rev: Vec<i32> = (0..50).rev().collect();
    bubble_sort(&mut rev);
    assert_eq!(rev, (0..50).collect::<Vec<i32>>());
}

#[test]
fn counting_sort_sorts_fixed_inputs() {
    assert_eq!(
        counting_sort(vec![4, 1, 3, 4, 0, 2, 1, 9]),
        vec![0, 1, 1, 2, 3, 4, 4, 9]
    );
    assert_eq!(counting_sort(vec![]), Vec::<i32>::new());
    assert_eq!(counting_sort(vec![0, 0, 0]), vec![0, 0, 0]);
    let v: Vec<i32> = (0..200).map(|i| (i * 37) % 101).collect();
    let got = counting_sort(v.clone());
    let mut want = v;
    want.sort();
    assert_eq!(got, want);
}

#[test]
fn lcg_step_matches_wrapping_arithmetic() {
    use_lcg();
}

fn use_lcg() {
    let mut seed: u32 = 3;
    for _ in 0..1000 {
        let want = seed.wrapping_mul(1_103_515_245).wrapping_add(12_345) % (1 << 31);
        let got = dynprog::lcg::next_seed(seed);
        assert_eq!(got, want);
        seed = got;
    }
    assert_eq!(dynprog::lcg::next_seed(0), 12_345);
}
