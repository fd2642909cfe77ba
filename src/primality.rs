//! Fermat's primality test on given witnesses.
use vstd::prelude::*;
use vstd::arithmetic::power::pow;

use crate::fast_exp::fast_exp_mod;

verus! {

/// Whether every witness `n` in `draws` passes Fermat's test for
/// `candidate`: `n^(candidate - 1) % candidate == 1`. A failing witness shows
/// that `candidate` is not prime.
pub fn passes_fermat_tests(candidate: usize, draws: &[usize]) -> (r: bool)
    requires
        candidate >= 2,
        (candidate - 1) * (candidate - 1) <= usize::MAX,
        forall|k: int| 0 <= k < draws@.len() ==> 1 <= #[trigger] draws@[k] < candidate,
    ensures
        r == forall|k: int|
            0 <= k < draws@.len() ==> pow(#[trigger] draws@[k] as int, (candidate - 1) as nat)
                % (candidate as int) == 1,
{
    let mut i: usize = 0;
    while i < draws.len()
        invariant
            candidate >= 2,
            (candidate - 1) * (candidate - 1) <= usize::MAX,
            forall|k: int| 0 <= k < draws@.len() ==> 1 <= #[trigger] draws@[k] < candidate,
            i <= draws@.len(),
            forall|k: int|
                0 <= k < i ==> pow(#[trigger] draws@[k] as int, (candidate - 1) as nat) % (
                candidate as int) == 1,
        decreases draws@.len() - i,
    {
        let n = draws[i];
        proof {
            assert(n * n <= (candidate - 1) * (candidate - 1)) by (nonlinear_arith)
                requires
                    1 <= n < candidate,
            ;
        }
        if fast_exp_mod(n, candidate - 1, candidate) != 1 {
            return false;
        }
        i += 1;
    }
    true
}

} // verus!
