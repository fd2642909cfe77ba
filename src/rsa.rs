//! Helpers for RSA key generation.
use vstd::prelude::*;

use vstd::arithmetic::div_mod::{lemma_fundamental_div_mod, lemma_mod_multiples_basic};

use crate::gcd_lcm::{divides, gcd_of, lcm, lemma_divides_combination};

verus! {

/// Carmichael's totient of `p * q` for primes `p` and `q`:
/// `lcm(p - 1, q - 1)`.
pub fn totient(p: usize, q: usize) -> (r: usize)
    requires
        p >= 1,
        q >= 1,
        p > 1 || q > 1,
        (p - 1) * (q - 1) <= usize::MAX,
    ensures
        r == ((p - 1) * (q - 1)) as nat / gcd_of((p - 1) as nat, (q - 1) as nat),
{
    lcm(p - 1, q - 1)
}

/// `e` has no inverse modulo the given modulus.
#[derive(Debug, PartialEq, Eq)]
pub enum InverseError {
    NotInvertible,
}

pub open spec fn abs(x: int) -> int {
    if x < 0 {
        -x
    } else {
        x
    }
}

/// The extended Euclidean algorithm's state: `t * e` is `r` and `new_t * e`
/// is `new_r` modulo `m`, and the coefficients stay within `m`.
pub open spec fn euclid_state(e: int, m: int, t: int, new_t: int, r: int, new_r: int) -> bool {
    &&& r >= 1
    &&& new_r >= 0
    &&& gcd_of(r as nat, new_r as nat) == gcd_of(m as nat, e as nat)
    &&& divides(m, t * e - r)
    &&& divides(m, new_t * e - new_r)
    &&& abs(new_t) * r + abs(t) * new_r == m
    &&& t * new_t <= 0
    &&& abs(t) <= m
    &&& abs(new_t) <= m
}

proof fn lemma_euclid_step(e: int, m: int, t: int, new_t: int, r: int, new_r: int, q: int)
    requires
        m > 1,
        euclid_state(e, m, t, new_t, r, new_r),
        new_r != 0,
        q == r / new_r,
    ensures
        q >= 0,
        0 <= r - q * new_r < new_r,
        abs(q * new_t) <= m,
        q * new_r <= r,
        euclid_state(e, m, new_t, t - q * new_t, new_r, r - q * new_r),
{
    lemma_fundamental_div_mod(r, new_r);
    vstd::arithmetic::div_mod::lemma_mod_pos_bound(r, new_r);
    assert(r - q * new_r == r % new_r);
    assert(q >= 0) by (nonlinear_arith)
        requires
            r >= 1,
            new_r >= 1,
            q == r / new_r,
    ;
    assert(q * new_r <= r);
    let nt = t - q * new_t;
    let nr = r - q * new_r;
    assert(abs(nt) == abs(t) + q * abs(new_t)) by (nonlinear_arith)
        requires
            t * new_t <= 0,
            q >= 0,
            nt == t - q * new_t,
            abs(nt) == if nt < 0 { -nt } else { nt },
            abs(t) == if t < 0 { -t } else { t },
            abs(new_t) == if new_t < 0 { -new_t } else { new_t },
    ;
    assert(abs(nt) * new_r + abs(new_t) * nr == m) by (nonlinear_arith)
        requires
            abs(nt) == abs(t) + q * abs(new_t),
            nr == r - q * new_r,
            abs(new_t) * r + abs(t) * new_r == m,
    ;
    assert(abs(nt) <= m && q * abs(new_t) <= m) by (nonlinear_arith)
        requires
            abs(nt) * new_r + abs(new_t) * nr == m,
            new_r >= 1,
            nr >= 0,
            abs(new_t) >= 0,
            abs(t) >= 0,
            q >= 0,
            abs(nt) == abs(t) + q * abs(new_t),
    ;
    assert(abs(q * new_t) == q * abs(new_t)) by (nonlinear_arith)
        requires
            q >= 0,
            abs(q * new_t) == if q * new_t < 0 { -(q * new_t) } else { q * new_t },
            abs(new_t) == if new_t < 0 { -new_t } else { new_t },
    ;
    assert(new_t * nt <= 0) by (nonlinear_arith)
        requires
            t * new_t <= 0,
            q >= 0,
            nt == t - q * new_t,
    ;
    lemma_divides_combination(m, t * e - r, new_t * e - new_r, 1, -q);
    assert(1 * (t * e - r) + (-q) * (new_t * e - new_r) == nt * e - nr) by (nonlinear_arith)
        requires
            nt == t - q * new_t,
            nr == r - q * new_r,
    ;
}

/// The inverse of `e` modulo `m`: the `t` in `0..m` with `e * t % m == 1`,
/// found by the extended Euclidean algorithm. It exists exactly when `e` and
/// `m` have no common factor.
pub fn inverse_mod(e: usize, m: usize) -> (r: Result<usize, InverseError>)
    requires
        m > 1,
    ensures
        r is Ok <==> gcd_of(m as nat, e as nat) == 1,
        r matches Ok(t) ==> t < m && (e * t) as int % (m as int) == 1,
        r is Err ==> r == Err::<usize, InverseError>(InverseError::NotInvertible),
{
    let mut t: i128 = 0;
    let mut new_t: i128 = 1;
    let mut r: i128 = m as i128;
    let mut new_r: i128 = e as i128;
    proof {
        let (ei, mi) = (e as int, m as int);
        assert(divides(mi, 0 * ei - mi)) by {
            lemma_mod_multiples_basic(-1, mi);
        }
        assert(divides(mi, 1 * ei - ei)) by {
            lemma_mod_multiples_basic(0, mi);
        }
        assert(abs(1) == 1 && abs(0) == 0);
        assert(1 * mi + 0 * ei == mi) by (nonlinear_arith);
        assert(euclid_state(ei, mi, 0, 1, mi, ei));
    }
    while new_r != 0
        invariant
            m > 1,
            euclid_state(e as int, m as int, t as int, new_t as int, r as int, new_r as int),
            m <= usize::MAX,
        decreases new_r,
    {
        let quotient = r / new_r;
        proof {
            lemma_euclid_step(e as int, m as int, t as int, new_t as int, r as int, new_r as int, quotient as int);
            lemma_fundamental_div_mod(r as int, new_r as int);
        }
        let next_t = t - quotient * new_t;
        let next_r = r - quotient * new_r;
        t = new_t;
        new_t = next_t;
        r = new_r;
        new_r = next_r;
    }
    if r > 1 {
        return Err(InverseError::NotInvertible);
    }
    proof {
        assert(r == 1);
        if abs(t as int) == m as int {
            assert(divides(m as int, (t as int) * (e as int))) by {
                if t < 0 {
                    lemma_mod_multiples_basic(-(e as int), m as int);
                    assert((t as int) * (e as int) == (-(e as int)) * (m as int)) by (nonlinear_arith)
                        requires
                            t == -(m as int),
                    ;
                } else {
                    lemma_mod_multiples_basic(e as int, m as int);
                    assert((t as int) * (e as int) == (e as int) * (m as int)) by (nonlinear_arith)
                        requires
                            t == m as int,
                    ;
                }
            }
            lemma_divides_combination(m as int, t * e, t * e - 1, 1, -1);
            assert(1 * (t * e) + (-1) * (t * e - 1) == 1);
            vstd::arithmetic::div_mod::lemma_small_mod(1, m as nat);
        }
    }
    let ghost t0 = t as int;
    if t < 0 {
        t += m as i128;
    }
    proof {
        assert(divides(m as int, (t as int) * (e as int) - 1)) by {
            if t0 < 0 {
                assert(divides(m as int, m as int)) by {
                    lemma_mod_multiples_basic(1, m as int);
                }
                lemma_divides_combination(m as int, t0 * e - 1, m as int, 1, e as int);
                assert(1 * (t0 * e - 1) + (e as int) * (m as int) == (t as int) * (e as int) - 1)
                    by (nonlinear_arith)
                    requires
                        t == t0 + m,
                ;
            }
        }
        let x = (t as int) * (e as int) - 1;
        lemma_fundamental_div_mod(x, m as int);
        vstd::arithmetic::div_mod::lemma_fundamental_div_mod_converse_mod(
            (e * t) as int,
            m as int,
            x / (m as int),
            1,
        );
        assert((e * t) as int == (x / (m as int)) * (m as int) + 1) by (nonlinear_arith)
            requires
                x == (m as int) * (x / (m as int)) + 0,
                x == (t as int) * (e as int) - 1,
                (e * t) as int == (e as int) * (t as int),
        ;
    }
    Ok(t as usize)
}

} // verus!
