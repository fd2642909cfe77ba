//! Prime factorisation by trial division.
use vstd::prelude::*;
use vstd::arithmetic::div_mod::{lemma_fundamental_div_mod, lemma_mod_multiples_basic};

use crate::gcd_lcm::divides;

verus! {

/// `p` is a prime number.
pub open spec fn is_prime(p: nat) -> bool {
    p >= 2 && forall|d: nat| 2 <= d < p ==> #[trigger] (p % d) != 0
}

/// The product of the numbers in `s`.
pub open spec fn product(s: Seq<usize>) -> nat
    decreases s.len(),
{
    if s.len() == 0 {
        1
    } else {
        product(s.drop_last()) * (s.last() as nat)
    }
}

pub proof fn lemma_divides_trans(a: int, b: int, c: int)
    requires
        divides(a, b),
        divides(b, c),
    ensures
        divides(a, c),
{
    lemma_fundamental_div_mod(b, a);
    lemma_fundamental_div_mod(c, b);
    let k = (b / a) * (c / b);
    assert(c == k * a) by (nonlinear_arith)
        requires
            b == a * (b / a),
            c == b * (c / b),
            k == (b / a) * (c / b),
    ;
    lemma_mod_multiples_basic(k, a);
}

pub proof fn lemma_no_small_factor_is_prime(n: nat, i: nat)
    requires
        n > 1,
        i >= 2,
        i * i > n,
        forall|d: nat| 2 <= d < i ==> #[trigger] (n % d) != 0,
    ensures
        is_prime(n),
{
    assert forall|d: nat| 2 <= d < n implies #[trigger] (n % d) != 0 by {
        if d >= i && n % d == 0 {
            lemma_fundamental_div_mod(n as int, d as int);
            let e = n / d;
            assert(n == d * e);
            assert(e >= 2) by (nonlinear_arith)
                requires
                    n == d * e,
                    d < n,
            ;
            assert(e < i) by (nonlinear_arith)
                requires
                    n == d * e,
                    d >= i,
                    i * i > n,
                    i >= 2,
            ;
            lemma_mod_multiples_basic(d as int, e as int);
            assert(n % e == 0) by (nonlinear_arith)
                requires
                    n == d * e,
                    ((d * e) as int) % (e as int) == 0,
            ;
        }
    }
}

/// The prime factors of `num`, smallest first, each as often as it divides
/// `num`; empty for `num < 2`.
pub fn find_primes(num: usize) -> (r: Vec<usize>)
    ensures
        num >= 2 ==> product(r@) == num,
        num < 2 ==> r@.len() == 0,
        forall|k: int| 0 <= k < r@.len() ==> is_prime(#[trigger] r@[k] as nat),
        forall|a: int, b: int| 0 <= a < b < r@.len() ==> r@[a] <= r@[b],
{
    let mut n = num;
    let mut i: usize = 2;
    let mut factors: Vec<usize> = Vec::new();
    assert(product(factors@) == 1);
    while i <= n / i
        invariant
            2 <= i,
            num >= 2 ==> n >= 1,
            num >= 2 ==> product(factors@) * n == num,
            num < 2 ==> n == num && factors@.len() == 0,
            forall|d: nat| 2 <= d < i ==> #[trigger] ((n as nat) % d) != 0,
            forall|k: int| 0 <= k < factors@.len() ==> is_prime(#[trigger] factors@[k] as nat),
            forall|k: int| 0 <= k < factors@.len() ==> #[trigger] factors@[k] <= i,
            forall|a: int, b: int| 0 <= a < b < factors@.len() ==> factors@[a] <= factors@[b],
        decreases n + 1 - i,
    {
        proof {
            assert(i * i <= n) by (nonlinear_arith)
                requires
                    i <= n / i,
                    i >= 2,
            ;
            assert(i < n) by (nonlinear_arith)
                requires
                    i * i <= n,
                    i >= 2,
            ;
        }
        if n % i != 0 {
            i += 1;
        } else {
            proof {
                assert forall|d: nat| 2 <= d < i implies #[trigger] ((i as nat) % d) != 0 by {
                    if (i as nat) % d == 0 {
                        lemma_divides_trans(d as int, i as int, n as int);
                    }
                }
                lemma_fundamental_div_mod(n as int, i as int);
            }
            let ghost old_n = n;
            let ghost old_f = factors@;
            n = n / i;
            factors.push(i);
            proof {
                assert(old_n == i * n);
                assert(factors@.drop_last() =~= old_f);
                assert(product(factors@) * n == product(old_f) * old_n) by (nonlinear_arith)
                    requires
                        product(factors@) == product(old_f) * i,
                        old_n == i * n,
                ;
                assert(n >= i && n < old_n) by (nonlinear_arith)
                    requires
                        old_n == i * n,
                        i * i <= old_n,
                        i >= 2,
                ;
                assert forall|d: nat| 2 <= d < i implies #[trigger] ((n as nat) % d) != 0 by {
                    if (n as nat) % d == 0 {
                        lemma_mod_multiples_basic(i as int, n as int);
                        assert(divides(n as int, old_n as int)) by (nonlinear_arith)
                            requires
                                old_n == i * n,
                                (i * n) % (n as int) == 0,
                                n >= 2,
                        ;
                        lemma_divides_trans(d as int, n as int, old_n as int);
                    }
                }
            }
        }
    }
    if n > 1 {
        proof {
            assert(i * i > n) by (nonlinear_arith)
                requires
                    i > n / i,
                    i >= 2,
            ;
            lemma_no_small_factor_is_prime(n as nat, i as nat);
            assert(n >= i) by {
                if n < i {
                    lemma_mod_multiples_basic(1, n as int);
                    assert((n as nat) % (n as nat) == 0);
                }
            }
        }
        let ghost old_f = factors@;
        factors.push(n);
        proof {
            assert(factors@.drop_last() =~= old_f);
        }
    }
    factors
}

/// Factors `num` by the numbers in `primes`, in order: each one whose square
/// is at most what is left of `num` and that divides it is taken out once;
/// what is left above 1 comes last. The factors multiply back to `num`.
pub fn find_primes_sieve(primes: &[usize], num: usize) -> (r: Vec<usize>)
    requires
        forall|k: int| 0 <= k < primes@.len() ==> #[trigger] primes@[k] >= 2,
    ensures
        num >= 1 ==> product(r@) == num,
        num < 2 ==> r@.len() == 0,
{
    let mut n = num;
    let mut factors: Vec<usize> = Vec::new();
    assert(product(factors@) == 1);
    let mut t: usize = 0;
    while t < primes.len()
        invariant
            forall|k: int| 0 <= k < primes@.len() ==> #[trigger] primes@[k] >= 2,
            t <= primes@.len(),
            num >= 1 ==> n >= 1 && product(factors@) * n == num,
            num < 2 ==> n == num && factors@.len() == 0,
        decreases primes@.len() - t,
    {
        let i = primes[t];
        if i <= n / i {
            if n % i == 0 {
                proof {
                    lemma_fundamental_div_mod(n as int, i as int);
                }
                let ghost old_n = n;
                let ghost old_f = factors@;
                factors.push(i);
                n = n / i;
                proof {
                    assert(factors@.drop_last() =~= old_f);
                    assert(old_n == i * n);
                    assert(product(factors@) * n == product(old_f) * old_n) by (nonlinear_arith)
                        requires
                            product(factors@) == product(old_f) * i,
                            old_n == i * n,
                    ;
                    assert(n >= 1) by (nonlinear_arith)
                        requires
                            old_n == i * n,
                            old_n >= 1,
                            i >= 2,
                    ;
                    if num < 2 {
                        assert(i * i <= old_n) by (nonlinear_arith)
                            requires
                                i <= old_n / i,
                                i >= 2,
                        ;
                    }
                }
            }
        }
        t += 1;
    }
    if n > 1 {
        let ghost old_f = factors@;
        factors.push(n);
        proof {
            assert(factors@.drop_last() =~= old_f);
        }
    }
    factors
}

} // verus!
