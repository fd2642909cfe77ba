//! Greatest common divisor and least common multiple.
use vstd::prelude::*;
use vstd::arithmetic::div_mod::{lemma_fundamental_div_mod, lemma_mod_multiples_basic};

verus! {

/// Euclid's recurrence for the greatest common divisor.
pub open spec fn gcd_of(a: nat, b: nat) -> nat
    decreases b,
{
    if b == 0 {
        a
    } else {
        gcd_of(b, a % b)
    }
}

/// `d` is a positive divisor of `x`.
pub open spec fn divides(d: int, x: int) -> bool {
    d > 0 && x % d == 0
}

pub proof fn lemma_divides_combination(d: int, x: int, y: int, p: int, q: int)
    requires
        divides(d, x),
        divides(d, y),
    ensures
        divides(d, p * x + q * y),
{
    lemma_fundamental_div_mod(x, d);
    lemma_fundamental_div_mod(y, d);
    let k = p * (x / d) + q * (y / d);
    assert(p * x + q * y == k * d) by (nonlinear_arith)
        requires
            x == d * (x / d),
            y == d * (y / d),
            k == p * (x / d) + q * (y / d),
    ;
    lemma_mod_multiples_basic(k, d);
}

/// `gcd_of(a, b)` divides both numbers, unless both are zero, and every
/// common divisor of the two divides it.
pub proof fn lemma_gcd_is_greatest(a: nat, b: nat)
    ensures
        a > 0 || b > 0 ==> divides(gcd_of(a, b) as int, a as int) && divides(
            gcd_of(a, b) as int,
            b as int,
        ),
        forall|d: int| divides(d, a as int) && divides(d, b as int) ==> #[trigger] divides(
            d,
            gcd_of(a, b) as int,
        ),
    decreases b,
{
    if b == 0 {
        if a > 0 {
            assert((a as int) % (a as int) == 0) by {
                lemma_mod_multiples_basic(1, a as int);
            }
        }
        assert forall|d: int| divides(d, a as int) && divides(d, b as int) implies #[trigger] divides(
            d,
            gcd_of(a, b) as int,
        ) by {}
    } else {
        let r = a % b;
        lemma_gcd_is_greatest(b, r);
        lemma_fundamental_div_mod(a as int, b as int);
        let g = gcd_of(b, r);
        assert(divides(g as int, a as int)) by {
            lemma_divides_combination(g as int, b as int, r as int, (a / b) as int, 1);
            assert((a / b) as int * b + 1 * r == a as int) by (nonlinear_arith)
                requires
                    a as int == b * (a / b) + r,
            ;
        }
        assert forall|d: int| divides(d, a as int) && divides(d, b as int) implies #[trigger] divides(
            d,
            gcd_of(a, b) as int,
        ) by {
            lemma_divides_combination(d, a as int, b as int, 1, -((a / b) as int));
            assert(1 * a + (-((a / b) as int)) * b == r as int) by (nonlinear_arith)
                requires
                    a as int == b * (a / b) + r,
            ;
        }
    }
}

/// The greatest common divisor of `a` and `b`, by Euclid's algorithm;
/// `gcd(a, 0) == a`.
pub fn gcd(a: usize, b: usize) -> (r: usize)
    ensures
        r == gcd_of(a as nat, b as nat),
    decreases b,
{
    if b == 0 {
        return a;
    }
    gcd(b, a % b)
}

proof fn lemma_gcd_bounded(a: nat, b: nat)
    ensures
        gcd_of(a, b) <= if a > b {
            a
        } else {
            b
        },
        a > 0 || b > 0 ==> gcd_of(a, b) > 0,
    decreases b,
{
    if b > 0 {
        lemma_gcd_bounded(b, a % b);
    }
}

/// The least common multiple of `a` and `b`: `a * b / gcd(a, b)`.
pub fn lcm(a: usize, b: usize) -> (r: usize)
    requires
        a > 0 || b > 0,
        a * b <= usize::MAX,
    ensures
        r == (a * b) as nat / gcd_of(a as nat, b as nat),
{
    proof {
        lemma_gcd_bounded(a as nat, b as nat);
    }
    a * b / gcd(a, b)
}

} // verus!
