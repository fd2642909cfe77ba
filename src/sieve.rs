//! The sieve of Eratosthenes.
use vstd::prelude::*;

use crate::factor::{is_prime, lemma_divides_trans, lemma_no_small_factor_is_prime};
use crate::gcd_lcm::divides;

verus! {

/// No number in `2..lim` below `k` divides `k`.
pub open spec fn survives(k: nat, lim: nat) -> bool {
    k >= 2 && forall|d: nat| 2 <= d < lim && d < k ==> #[trigger] (k % d) != 0
}

/// A table of which numbers up to `max` are prime: entry `k` is `true`
/// exactly when `k` is prime.
pub fn sieve_of_eratosthenes(max: usize) -> (r: Vec<bool>)
    requires
        max > 1,
        max < usize::MAX,
    ensures
        r@.len() == max + 1,
        forall|k: int| 0 <= k <= max ==> #[trigger] r@[k] == is_prime(k as nat),
{
    let mut primes = vec![true; max + 1];
    primes.set(0, false);
    primes.set(1, false);
    let mut start: usize = 2;
    while start <= max / start
        invariant
            2 <= start,
            max > 1,
            primes@.len() == max + 1,
            forall|k: int| 0 <= k <= max ==> #[trigger] primes@[k] == survives(k as nat, start as nat),
        decreases max + 1 - start,
    {
        proof {
            assert(start * start <= max) by (nonlinear_arith)
                requires
                    start <= max / start,
                    start >= 2,
            ;
            assert(start < max) by (nonlinear_arith)
                requires
                    start * start <= max,
                    start >= 2,
            ;
        }
        if primes[start] {
            let mut m: usize = 2;
            while m <= max / start
                invariant
                    2 <= start,
                    start * start <= max,
                    2 <= m,
                    primes@.len() == max + 1,
                    survives(start as nat, start as nat),
                    forall|k: int|
                        0 <= k <= max ==> #[trigger] primes@[k] == (survives(k as nat, start as nat)
                            && !(k % (start as int) == 0 && 2 * start <= k < m * start)),
                decreases max + 1 - m,
            {
                proof {
                    assert(m * start <= max) by (nonlinear_arith)
                        requires
                            m <= max / start,
                            start >= 2,
                    ;
                    assert((m * start) as int % (start as int) == 0) by {
                        vstd::arithmetic::div_mod::lemma_mod_multiples_basic(m as int, start as int);
                    }
                    assert(2 * m <= m * start && 2 * start <= m * start && (m + 1) * start == m
                        * start + start) by (nonlinear_arith)
                        requires
                            m >= 2,
                            start >= 2,
                    ;
                }
                let ghost before = primes@;
                primes.set(m * start, false);
                proof {
                    assert forall|k: int| 0 <= k <= max implies #[trigger] primes@[k] == (survives(
                        k as nat,
                        start as nat,
                    ) && !(k % (start as int) == 0 && 2 * start <= k < (m + 1) * start)) by {
                        if k != m * start {
                            assert(primes@[k] == before[k]);
                            if k % (start as int) == 0 && m * start < k < (m + 1) * start {
                                vstd::arithmetic::div_mod::lemma_fundamental_div_mod(k, start as int);
                                let q = k / (start as int);
                                assert(false) by (nonlinear_arith)
                                    requires
                                        k == start * q,
                                        m * start < k < (m + 1) * start,
                                ;
                            }
                        }
                    }
                }
                m += 1;
            }
            proof {
                assert forall|k: int| 0 <= k <= max implies #[trigger] primes@[k] == survives(
                    k as nat,
                    (start + 1) as nat,
                ) by {
                    if k % (start as int) == 0 && 2 * start <= k {
                        vstd::arithmetic::div_mod::lemma_fundamental_div_mod(k, start as int);
                        let q = k / (start as int);
                        assert(k < m * start) by (nonlinear_arith)
                            requires
                                k == start * q,
                                k <= max,
                                m > max / start,
                                start >= 2,
                        ;
                        assert((k as nat) % (start as nat) == 0);
                    }
                    if survives(k as nat, start as nat) && k >= start && (k as nat) % (start as nat)
                        == 0 && k != start {
                        assert(2 * start <= k) by (nonlinear_arith)
                            requires
                                k % (start as int) == 0,
                                k > start,
                                start >= 2,
                        ;
                    }
                }
            }
        } else {
            proof {
                assert forall|k: int| 0 <= k <= max implies #[trigger] primes@[k] == survives(
                    k as nat,
                    (start + 1) as nat,
                ) by {
                    if survives(k as nat, start as nat) && start < k && (k as nat) % (start as nat)
                        == 0 {
                        // start is not prime: a smaller factor of it divides k
                        assert(!survives(start as nat, start as nat));
                        let d = choose|d: nat| 2 <= d < start && d < start && #[trigger] ((
                        start as nat) % d) != 0 == false;
                        lemma_divides_trans(d as int, start as int, k);
                        assert((k as nat) % d == 0);
                    }
                }
            }
        }
        start += 1;
    }
    proof {
        assert(start * start > max) by (nonlinear_arith)
            requires
                start > max / start,
                start >= 2,
        ;
        assert forall|k: int| 0 <= k <= max implies #[trigger] primes@[k] == is_prime(k as nat) by {
            if survives(k as nat, start as nat) {
                if start > k {
                    assert(is_prime(k as nat));
                } else {
                    assert forall|d: nat| 2 <= d < start implies #[trigger] ((k as nat) % d)
                        != 0 by {
                        if d == k {
                            assert(d < start);
                        }
                    }
                    lemma_no_small_factor_is_prime(k as nat, start as nat);
                }
            }
            if is_prime(k as nat) {
                assert(survives(k as nat, start as nat));
            }
        }
    }
    primes
}

/// The positions of the `true` entries of `s` below `k`, in order.
pub open spec fn true_positions(s: Seq<bool>, k: int) -> Seq<usize>
    decreases k,
{
    if k <= 0 {
        Seq::empty()
    } else if s[k - 1] {
        true_positions(s, k - 1).push((k - 1) as usize)
    } else {
        true_positions(s, k - 1)
    }
}

/// The numbers that a sieve marks as prime, in increasing order.
pub fn sieve_to_primes(sieve: &[bool]) -> (r: Vec<usize>)
    ensures
        r@ == true_positions(sieve@, sieve@.len() as int),
{
    let mut r: Vec<usize> = Vec::new();
    let mut i: usize = 0;
    while i < sieve.len()
        invariant
            i <= sieve@.len(),
            r@ == true_positions(sieve@, i as int),
        decreases sieve@.len() - i,
    {
        if sieve[i] {
            r.push(i);
        }
        i += 1;
    }
    r
}

} // verus!
