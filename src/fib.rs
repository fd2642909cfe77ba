//! Factorials and Fibonacci numbers, computed in several ways.
use std::collections::HashMap;
use vstd::prelude::*;

verus! {

broadcast use vstd::std_specs::hash::group_hash_axioms;

/// `n!`.
pub open spec fn fact(n: nat) -> nat
    decreases n,
{
    if n == 0 {
        1
    } else {
        n * fact((n - 1) as nat)
    }
}

/// `n!`, computed recursively.
pub fn factorial(n: u128) -> (r: u128)
    requires
        fact(n as nat) <= u128::MAX,
    ensures
        r == fact(n as nat),
    decreases n,
{
    if n == 0 {
        return 1;
    }
    proof {
        assert(fact((n - 1) as nat) <= fact(n as nat)) by (nonlinear_arith)
            requires
                fact(n as nat) == n * fact((n - 1) as nat),
                n >= 1,
        ;
    }
    n * factorial(n - 1)
}

/// The `n`-th Fibonacci number, with `fib(0) == 0` and `fib(1) == 1`.
pub open spec fn fib(n: nat) -> nat
    decreases n,
{
    if n == 0 {
        0
    } else if n == 1 {
        1
    } else {
        fib((n - 1) as nat) + fib((n - 2) as nat)
    }
}

proof fn lemma_fib_small()
    ensures
        fib(0) == 0,
        fib(1) == 1,
        fib(2) == 1,
{
    reveal_with_fuel(fib, 3);
}

/// The Fibonacci numbers never decrease.
pub proof fn lemma_fib_monotone(m: nat, n: nat)
    requires
        m <= n,
    ensures
        fib(m) <= fib(n),
    decreases n - m,
{
    if m < n {
        lemma_fib_monotone(m, (n - 1) as nat);
        if n >= 2 {
            assert(fib(n) == fib((n - 1) as nat) + fib((n - 2) as nat));
        }
    }
}

/// The `n`-th Fibonacci number, by plain recursion.
pub fn fibr(n: u64) -> (r: u64)
    requires
        fib(n as nat) <= u64::MAX,
    ensures
        r == fib(n as nat),
    decreases n,
{
    match n {
        0 => 0,
        1 => 1,
        n => {
            proof {
                lemma_fib_monotone((n - 1) as nat, n as nat);
                lemma_fib_monotone((n - 2) as nat, n as nat);
            }
            fibr(n - 1) + fibr(n - 2)
        },
    }
}

/// Every remembered entry of `memo` holds the Fibonacci number of its index.
pub open spec fn memo_holds_fib(memo: Seq<Option<u128>>) -> bool {
    forall|k: int| 0 <= k < memo.len() && (#[trigger] memo[k]) is Some ==> memo[k]->0 == fib(k as nat)
}

fn fib_memo_vec(n: u128, memo: &mut Vec<Option<u128>>) -> (r: u128)
    requires
        n < old(memo)@.len(),
        n < usize::MAX,
        memo_holds_fib(old(memo)@),
        fib(n as nat) <= u128::MAX,
    ensures
        r == fib(n as nat),
        final(memo)@.len() == old(memo)@.len(),
        memo_holds_fib(final(memo)@),
    decreases n,
{
    proof {
        lemma_fib_small();
    }
    let known = memo[n as usize];
    match known {
        Some(v) => {
            proof {
                assert(memo@[n as int] is Some);
            }
            v
        },
        None => match n {
            0 => 0,
            1 | 2 => 1,
            _ => {
                proof {
                    lemma_fib_monotone((n - 1) as nat, n as nat);
                    lemma_fib_monotone((n - 2) as nat, n as nat);
                }
                let val = fib_memo_vec(n - 1, memo) + fib_memo_vec(n - 2, memo);
                memo.set(n as usize, Some(val));
                proof {
                    assert(fib(n as nat) == fib((n - 1) as nat) + fib((n - 2) as nat));
                }
                val
            },
        },
    }
}

/// The `n`-th Fibonacci number, remembering the smaller ones in a vector.
pub fn fibv(n: u128) -> (r: u128)
    requires
        n < usize::MAX,
        fib(n as nat) <= u128::MAX,
    ensures
        r == fib(n as nat),
{
    let mut memo: Vec<Option<u128>> = Vec::new();
    let mut i: usize = 0;
    while i <= n as usize
        invariant
            n < usize::MAX,
            i <= n + 1,
            memo@.len() == i,
            forall|k: int| 0 <= k < i ==> #[trigger] memo@[k] is None,
        decreases n + 1 - i,
    {
        memo.push(None);
        i += 1;
    }
    fib_memo_vec(n, &mut memo)
}

/// Every entry of `memo` maps an index to its Fibonacci number.
pub open spec fn map_holds_fib(memo: Map<u128, u128>) -> bool {
    forall|k: u128| #[trigger] memo.contains_key(k) ==> memo[k] == fib(k as nat)
}

fn fib_memo_map(n: u128, memo: &mut HashMap<u128, u128>) -> (r: u128)
    requires
        map_holds_fib(old(memo)@),
        fib(n as nat) <= u128::MAX,
    ensures
        r == fib(n as nat),
        map_holds_fib(final(memo)@),
    decreases n,
{
    proof {
        lemma_fib_small();
    }
    match n {
        0 => {
            memo.insert(0, 0);
            return 0;
        },
        1 => {
            memo.insert(1, 1);
            return 1;
        },
        2 => {
            memo.insert(2, 1);
            return 1;
        },
        _ => {},
    }
    if !memo.contains_key(&n) {
        proof {
            lemma_fib_monotone((n - 1) as nat, n as nat);
            lemma_fib_monotone((n - 2) as nat, n as nat);
        }
        let one = fib_memo_map(n - 1, memo);
        let two = fib_memo_map(n - 2, memo);
        memo.insert(n, one + two);
    }
    match memo.get(&n) {
        Some(v) => *v,
        None => 0,
    }
}

/// The `n`-th Fibonacci number, remembering the smaller ones in a hash map.
pub fn fibd(n: u128) -> (r: u128)
    requires
        fib(n as nat) <= u128::MAX,
    ensures
        r == fib(n as nat),
{
    let mut memo: HashMap<u128, u128> = HashMap::new();
    fib_memo_map(n, &mut memo)
}

/// A generator of the Fibonacci numbers: `b` is the next one handed out and
/// `a` the one after it.
pub struct Fibonacci {
    pub a: u128,
    pub b: u128,
}

impl Fibonacci {
    /// The generator stands at position `k` of the sequence.
    pub open spec fn at(&self, k: nat) -> bool {
        self.b == fib(k) && self.a == fib(k + 1)
    }

    /// A generator at the start of the sequence.
    pub fn new() -> (r: Fibonacci)
        ensures
            r.at(0),
    {
        Fibonacci { a: 1, b: 0 }
    }

    /// Hands out the current Fibonacci number and moves on by one.
    pub fn next(&mut self) -> (r: Option<u128>)
        requires
            old(self).a + old(self).b <= u128::MAX,
        ensures
            r == Some(old(self).b),
            final(self).b == old(self).a,
            final(self).a == old(self).a + old(self).b,
            forall|k: nat| #[trigger] old(self).at(k) ==> final(self).at(k + 1),
    {
        let ret = self.b;
        self.b = self.a;
        self.a = self.a + ret;
        proof {
            assert forall|k: nat| #[trigger] old(self).at(k) implies self.at(k + 1) by {
                assert(fib(k + 2) == fib(k + 1) + fib(k));
            }
        }
        Some(ret)
    }
}

impl Default for Fibonacci {
    fn default() -> (r: Fibonacci)
        ensures
            r.at(0),
    {
        Fibonacci::new()
    }
}

} // verus!
