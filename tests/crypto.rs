use dynprog::primality::passes_fermat_tests;
use dynprog::factor::{find_primes, find_primes_sieve};
use dynprog::rsa::{inverse_mod, totient, InverseError};
use dynprog::{fast_exp, fast_exp_mod, gcd, lcm, sieve_of_eratosthenes, sieve_to_primes};

#[test]
fn finds_factors() {
    assert_eq!(find_primes(25), vec![5, 5]);
    assert_eq!(find_primes(11), vec![11]);
    assert_eq!(find_primes(714), vec![2, 3, 7, 17]);
    assert_eq!(find_primes(33), vec![3, 11]);
    assert_eq!(find_primes(147), vec![3, 7, 7]);
    assert_eq!(find_primes(17), vec![17]);
    assert_eq!(find_primes(330), vec![2, 3, 5, 11]);
    assert_eq!(find_primes(312680865509917), vec![7791799, 40129483]);
    assert_eq!(find_primes(1819448968910731), vec![40129483, 45339457]);
    assert_eq!(find_primes(12345678901234), vec![2, 7, 73, 12079920647]);
    assert_eq!(find_primes(6795742697625173), vec![6880691, 987654103]);
    assert_eq!(find_primes(64374108854777), vec![64374108854777]);
}

#[test]
fn find_primes_small_inputs() {
    assert_eq!(find_primes(0), Vec::<usize>::new());
    assert_eq!(find_primes(1), Vec::<usize>::new());
    assert_eq!(find_primes(2), vec![2]);
    assert_eq!(find_primes(8), vec![2, 2, 2]);
}

#[test]
fn test_fast_exp() {
    assert_eq!(fast_exp(8, 6), 8usize.pow(6));
    assert_eq!(fast_exp(8, 6), 262144);
    assert_eq!(fast_exp(7, 10), 7usize.pow(10));
    assert_eq!(fast_exp(7, 10), 282475249);

    assert_eq!(fast_exp(9, 13), 9usize.pow(13));
    assert_eq!(fast_exp(9, 13), 2541865828329);

    assert_eq!(fast_exp(213, 5), 213usize.pow(5));
    assert_eq!(fast_exp(213, 5), 438427732293);
}

#[test]
fn test_fast_exp_mod() {
    assert_eq!(fast_exp_mod(8, 6, 10), 8usize.pow(6) % 10);
    assert_eq!(fast_exp_mod(8, 6, 10), 4);
    assert_eq!(fast_exp_mod(7, 10, 101), 7usize.pow(10) % 101);
    assert_eq!(fast_exp_mod(7, 10, 101), 65);

    assert_eq!(fast_exp_mod(9, 13, 283), 9usize.pow(13) % 283);
    assert_eq!(fast_exp_mod(9, 13, 283), 179);

    assert_eq!(fast_exp_mod(213, 5, 1000), 213usize.pow(5) % 1000);
    assert_eq!(fast_exp_mod(213, 5, 1000), 293);
}

#[test]
fn fast_exp_edge_cases() {
    assert_eq!(fast_exp(5, 0), 1);
    assert_eq!(fast_exp(1, 60), 1);
    assert_eq!(fast_exp(2, 63), 1usize << 63);
    assert_eq!(fast_exp_mod(5, 0, 7), 1);
    assert_eq!(fast_exp_mod(5, 3, 1), 0);
}

#[test]
fn gcd_works() {
    assert_eq!(gcd(0, 2), 2);
    assert_eq!(gcd(2, 0), 2);
    assert_eq!(gcd(21, 110), 1);
    assert_eq!(gcd(110, 21), 1);
    assert_eq!(gcd(5, 10), 5);
    assert_eq!(gcd(10, 5), 5);
    assert_eq!(gcd(270, 192), 6);
    assert_eq!(gcd(192, 270), 6);
    assert_eq!(gcd(12, 18), 6);
    assert_eq!(gcd(270, 192), 6);
    assert_eq!(gcd(7469, 2464), 77);
    assert_eq!(gcd(55290, 115430), 970);
}

#[test]
fn lcm_works() {
    assert_eq!(lcm(12, 18), 36);
    assert_eq!(lcm(270, 192), 8640);
    assert_eq!(lcm(7469, 2464), 239008);
    assert_eq!(lcm(55290, 115430), 6579510);
}

#[test]
fn test_totient() {
    assert_eq!(totient(61, 53), 780);
    assert_eq!(totient(53, 61), 780);
    assert_eq!(totient(3449, 5009), 2158448);
    assert_eq!(totient(5009, 3449), 2158448);
}

const ONE_HUNDRED: [bool; 101] = [
    false, false, true, true, false, true, false, true, false, false, false, true, false, true,
    false, false, false, true, false, true, false, false, false, true, false, false, false,
    false, false, true, false, true, false, false, false, false, false, true, false, false,
    false, true, false, true, false, false, false, true, false, false, false, false, false,
    true, false, false, false, false, false, true, false, true, false, false, false, false,
    false, true, false, false, false, true, false, true, false, false, false, false, false,
    true, false, false, false, true, false, false, false, false, false, true, false, false,
    false, false, false, false, false, true, false, false, false,
];

#[test]
fn sieve_to_usize() {
    let want = vec![
        2, 3, 5, 7, 11, 13, 17, 19, 23, 29, 31, 37, 41, 43, 47, 53, 59, 61, 67, 71, 73, 79, 83,
        89, 97,
    ];
    assert_eq!(sieve_to_primes(&ONE_HUNDRED), want);
}

#[test]
fn sieve_matches_table() {
    assert_eq!(sieve_of_eratosthenes(100), ONE_HUNDRED.to_vec());
    assert_eq!(sieve_of_eratosthenes(2), vec![false, false, true]);
}

#[test]
fn test_inverse_mod() {
    assert_eq!(inverse_mod(3, 7).expect("failed to invert"), 5);
    assert_eq!(inverse_mod(3, 26).expect("failed to invert"), 9);
}

#[test]
fn inverse_mod_without_inverse() {
    assert_eq!(inverse_mod(4, 8), Err(InverseError::NotInvertible));
    assert_eq!(inverse_mod(0, 5), Err(InverseError::NotInvertible));
    assert_eq!(inverse_mod(17, 3120), Ok(2753));
}

#[test]
fn fermat_tests_on_given_witnesses() {
    assert!(passes_fermat_tests(13, &[2, 3, 5, 12]));
    assert!(passes_fermat_tests(101, &[]));
    // 2^14 mod 15 == 4.
    assert!(!passes_fermat_tests(15, &[2]));
    // 561 is a Carmichael number: coprime witnesses pass.
    assert!(passes_fermat_tests(561, &[2, 5, 7]));
    assert!(!passes_fermat_tests(561, &[3]));
}

#[test]
fn sieves_factors() {
    // Every prime factor below the square root of the numbers below.
    let primes = sieve_to_primes(&sieve_of_eratosthenes(45_400_000));
    let find = |n: usize| find_primes_sieve(&primes, n);
    assert_eq!(find(25), vec![5, 5]);
    assert_eq!(find(11), vec![11]);
    assert_eq!(find(714), vec![2, 3, 7, 17]);
    assert_eq!(find(33), vec![3, 11]);
    assert_eq!(find(147), vec![3, 7, 7]);
    assert_eq!(find(17), vec![17]);
    assert_eq!(find(330), vec![2, 3, 5, 11]);
    assert_eq!(find(312680865509917), vec![7791799, 40129483]);
    assert_eq!(find(1819448968910731), vec![40129483, 45339457]);
    assert_eq!(find(12345678901234), vec![2, 7, 73, 12079920647]);
    assert_eq!(find(6795742697625173), vec![6880691, 987654103]);
    assert_eq!(find(64374108854777), vec![64374108854777]);
}

#[test]
fn find_primes_sieve_takes_each_prime_once() {
    let primes = sieve_to_primes(&sieve_of_eratosthenes(100));
    assert_eq!(find_primes_sieve(&primes, 8), vec![2, 4]);
    assert_eq!(find_primes_sieve(&primes, 1), Vec::<usize>::new());
    assert_eq!(find_primes_sieve(&primes, 0), Vec::<usize>::new());
}
