//! Exponentiation by repeated squaring, plain and modular.
use vstd::prelude::*;
use vstd::arithmetic::power::{
    pow, lemma_pow_adds, lemma_pow_increases, lemma_pow_mod_noop, lemma_pow_multiplies,
    lemma_pow_positive, lemma_pow1, lemma_square_is_pow2,
};
use vstd::arithmetic::div_mod::{lemma_mul_mod_noop_left, lemma_mul_mod_noop_right};

verus! {

/// One squaring step: `b^e` is `b^(e % 2) * (b * b)^(e / 2)`.
proof fn lemma_square_step(b: int, e: nat)
    ensures
        pow(b, e) == (if e % 2 == 1 {
            b
        } else {
            1
        }) * pow(b * b, e / 2),
{
    let k = e / 2;
    lemma_square_is_pow2(b);
    lemma_pow_multiplies(b, 2, k);
    lemma_pow1(b);
    if e % 2 == 1 {
        assert(e == 1 + 2 * k);
        lemma_pow_adds(b, 1, 2 * k);
    } else {
        assert(e == 2 * k);
    }
}

/// `num` raised to the power `pow`.
pub fn fast_exp(num: usize, pow: usize) -> (r: usize)
    requires
        num >= 1,
        vstd::arithmetic::power::pow(num as int, pow as nat) <= usize::MAX,
    ensures
        r == vstd::arithmetic::power::pow(num as int, pow as nat),
{
    let ghost target = vstd::arithmetic::power::pow(num as int, pow as nat);
    let mut base = num;
    let mut e = pow;
    let mut result: usize = 1;
    while e > 0
        invariant
            base >= 1,
            result >= 1,
            result * vstd::arithmetic::power::pow(base as int, e as nat) == target,
            target <= usize::MAX,
        decreases e,
    {
        proof {
            assert((base as int) * (base as int) >= 1) by (nonlinear_arith)
                requires
                    base >= 1,
            ;
            assert((result as int) * (base as int) >= 1) by (nonlinear_arith)
                requires
                    base >= 1,
                    result >= 1,
            ;
            lemma_square_step(base as int, e as nat);
            lemma_pow_positive(base * base, (e / 2) as nat);
            lemma_pow_increases(base as nat, 1, e as nat);
            lemma_pow1(base as int);
            assert(result * base <= target) by (nonlinear_arith)
                requires
                    result >= 1,
                    base <= vstd::arithmetic::power::pow(base as int, e as nat),
                    result * vstd::arithmetic::power::pow(base as int, e as nat) == target,
            ;
            if e >= 2 {
                lemma_pow_increases(base as nat, 2, e as nat);
                lemma_square_is_pow2(base as int);
                assert(base * base <= target) by (nonlinear_arith)
                    requires
                        result >= 1,
                        base * base <= vstd::arithmetic::power::pow(base as int, e as nat),
                        result * vstd::arithmetic::power::pow(base as int, e as nat) == target,
                ;
            }
        }
        let ghost (b0, e0, r0) = (base, e, result);
        if e % 2 == 1 {
            result = result * base;
        }
        e = e / 2;
        if e > 0 {
            base = base * base;
        }
        proof {
            let p = vstd::arithmetic::power::pow((b0 * b0) as int, e as nat);
            if e == 0 {
                assert(e0 == 1);
                assert(vstd::arithmetic::power::pow(base as int, 0) == 1) by {
                    vstd::arithmetic::power::lemma_pow0(base as int);
                }
                assert(p == 1) by {
                    vstd::arithmetic::power::lemma_pow0((b0 * b0) as int);
                }
            }
            assert(result * vstd::arithmetic::power::pow(base as int, e as nat) == target) by (
            nonlinear_arith)
                requires
                    r0 * vstd::arithmetic::power::pow(b0 as int, e0 as nat) == target,
                    vstd::arithmetic::power::pow(b0 as int, e0 as nat) == (if e0 % 2 == 1 {
                        b0 as int
                    } else {
                        1
                    }) * p,
                    result == if e0 % 2 == 1 {
                        r0 * b0
                    } else {
                        r0 as int
                    },
                    e > 0 ==> base == b0 * b0,
                    e == 0 ==> vstd::arithmetic::power::pow(base as int, e as nat) == 1 && p == 1,
                    e > 0 ==> vstd::arithmetic::power::pow(base as int, e as nat) == p,
            ;
        }
    }
    proof {
        vstd::arithmetic::power::lemma_pow0(base as int);
    }
    result
}

/// One step of the modular loop keeps `result * base^e` the same modulo `m`.
proof fn lemma_mod_step(result: int, base: int, e: nat, m: int)
    requires
        m > 0,
        e > 0,
    ensures
        ({
            let r2 = if e % 2 == 1 {
                (result * base) % m
            } else {
                result
            };
            (r2 * pow((base * base) % m, e / 2)) % m == (result * pow(base, e)) % m
        }),
{
    let k = e / 2;
    let q = pow(base * base, k);
    lemma_square_step(base, e);
    lemma_pow_mod_noop(base * base, k, m);
    let qm = pow((base * base) % m, k);
    if e % 2 == 1 {
        lemma_mul_mod_noop_left(result * base, qm, m);
        lemma_mul_mod_noop_right(result * base, qm, m);
        lemma_mul_mod_noop_right(result * base, q, m);
        assert((result * base) * q == result * pow(base, e)) by (nonlinear_arith)
            requires
                pow(base, e) == base * q,
        ;
    } else {
        lemma_mul_mod_noop_right(result, qm, m);
        lemma_mul_mod_noop_right(result, q, m);
        assert(pow(base, e) == q);
    }
}

/// `num` raised to the power `pow`, modulo `modulus`; `1` when `pow` is 0.
pub fn fast_exp_mod(num: usize, pow: usize, modulus: usize) -> (r: usize)
    requires
        num >= 1,
        modulus > 0,
        num * num <= usize::MAX,
        (modulus - 1) * (modulus - 1) <= usize::MAX,
    ensures
        r == if pow == 0 {
            1
        } else {
            vstd::arithmetic::power::pow(num as int, pow as nat) % (modulus as int)
        },
{
    let ghost target = vstd::arithmetic::power::pow(num as int, pow as nat) % (modulus as int);
    let mut base = num;
    let mut e = pow;
    let mut result: usize = 1;
    while e > 0
        invariant
            modulus > 0,
            (modulus - 1) * (modulus - 1) <= usize::MAX,
            base < modulus || (base == num && e == pow),
            num * num <= usize::MAX,
            result < modulus || (result == 1 && (e > 0 || pow == 0)),
            pow == 0 ==> result == 1,
            e <= pow,
            (result * vstd::arithmetic::power::pow(base as int, e as nat)) % (modulus as int)
                == target,
        decreases e,
    {
        proof {
            lemma_mod_step(result as int, base as int, e as nat, modulus as int);
            if base < modulus {
                assert(base * base <= (modulus - 1) * (modulus - 1)) by (nonlinear_arith)
                    requires
                        base < modulus,
                ;
                if result < modulus {
                    assert(result * base <= (modulus - 1) * (modulus - 1)) by (nonlinear_arith)
                        requires
                            base < modulus,
                            result < modulus,
                    ;
                }
            } else if result < modulus {
                assert(result * base <= num * num) by (nonlinear_arith)
                    requires
                        base == num,
                        result < modulus,
                        base >= modulus,
                ;
            }
        }
        if e % 2 == 1 {
            result = (result * base) % modulus;
        }
        e = e / 2;
        base = (base * base) % modulus;
    }
    proof {
        vstd::arithmetic::power::lemma_pow0(base as int);
        assert(result * vstd::arithmetic::power::pow(base as int, 0) == result);
        if pow > 0 {
            vstd::arithmetic::div_mod::lemma_small_mod(result as nat, modulus as nat);
        }
    }
    result
}

} // verus!
