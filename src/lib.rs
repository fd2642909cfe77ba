//! Subset selection for the 0/1 knapsack problem by exhaustive search, branch
//! and bound, and branch and bound with dominance pruning, together with a
//! few small number-theoretic and recursive routines.
use vstd::prelude::*;

pub mod item;
pub mod model;
pub mod exhaustive;
pub mod branch_bound;
pub mod rod;
pub mod gcd_lcm;
pub mod fast_exp;
pub mod rsa;
pub mod factor;
pub mod sieve;
pub mod fib;
pub mod sorting;
pub mod knights;
pub mod hanoi;
pub mod queens;
pub mod customers;
pub mod primality;
pub mod lcg;

pub use exhaustive::exhaustive_search;
pub use branch_bound::branch_and_bound;
pub use rod::{make_block_lists, rods_technique, rods_technique_sorted};
pub use gcd_lcm::{gcd, lcm};
pub use fast_exp::{fast_exp, fast_exp_mod};
pub use sieve::{sieve_of_eratosthenes, sieve_to_primes};

verus! {

} // verus!
