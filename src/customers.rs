//! Counting sort of customer records by their number of purchases.
use std::slice::Iter;
use std::vec::IntoIter;
use vstd::prelude::*;

use crate::sorting::{
    count_at_most, count_of, lemma_at_most_bounds, lemma_at_most_monotone, lemma_at_most_step,
    lemma_blocks_cover, lemma_count_block, lemma_count_positive, lemma_count_prefix, permutes,
    sorted_between,
};

verus! {

pub struct Customer {
    pub id: String,
    pub num_purchases: i32,
}

pub struct Customers(pub Vec<Customer>);

impl Customers {
    pub fn len(&self) -> (r: usize)
        ensures
            r == self.0@.len(),
    {
        self.0.len()
    }

    pub fn iter(&self) -> Iter<'_, Customer> {
        self.0.iter()
    }

    pub fn into_iter(self) -> IntoIter<Customer> {
        self.0.into_iter()
    }
}

/// The purchase counts of a list of customers.
pub open spec fn purchases(c: Seq<Customer>) -> Seq<i32> {
    c.map_values(|x: Customer| x.num_purchases)
}

/// `x` has the id and purchase count of some customer in `s`.
pub open spec fn copied_from(x: Customer, s: Seq<Customer>) -> bool {
    exists|j: int| 0 <= j < s.len() && #[trigger] s[j].id@ == x.id@ && s[j].num_purchases == x.num_purchases
}

fn copy_customer(c: &Customer) -> (r: Customer)
    ensures
        r.id@ == c.id@,
        r.num_purchases == c.num_purchases,
{
    Customer { id: c.id.clone(), num_purchases: c.num_purchases }
}

/// The number a customer's purchases are compared with: `-1` for the first
/// one, else those of the customer before.
pub open spec fn before_purchases(s: Seq<Customer>, k: int) -> int {
    if k == 0 {
        -1
    } else {
        s[k - 1].num_purchases as int
    }
}

/// Whether no customer has fewer purchases than the one before it, the
/// first one being compared with `-1`.
pub fn sorted_customers(v: &Customers) -> (r: bool)
    ensures
        r == forall|k: int|
            0 <= k < v.0@.len() ==> before_purchases(v.0@, k) <= #[trigger] v.0@[k].num_purchases,
{
    if v.len() == 0 {
        return true;
    }
    let mut prev: i32 = -1;
    let mut i: usize = 0;
    while i < v.0.len()
        invariant
            i <= v.0@.len(),
            prev as int == before_purchases(v.0@, i as int),
            forall|k: int|
                0 <= k < i ==> before_purchases(v.0@, k) <= #[trigger] v.0@[k].num_purchases,
        decreases v.0@.len() - i,
    {
        if v.0[i].num_purchases < prev {
            proof {
                assert(!(before_purchases(v.0@, i as int) <= v.0@[i as int].num_purchases));
            }
            return false;
        }
        prev = v.0[i].num_purchases;
        i += 1;
    }
    true
}

/// Sorts customers by number of purchases, which must not be negative, by
/// counting sort. The purchase counts come out sorted and as often as they
/// went in, and each customer is a copy of one that went in.
pub fn counting_sort(input: Customers) -> (r: Customers)
    requires
        input.0@.len() <= i32::MAX,
        forall|k: int| 0 <= k < input.0@.len() ==> 0 <= #[trigger] input.0@[k].num_purchases,
    ensures
        r.0@.len() == input.0@.len(),
        permutes(purchases(r.0@), purchases(input.0@)),
        sorted_between(purchases(r.0@), 0, r.0@.len() as int),
        forall|p: int| 0 <= p < r.0@.len() ==> copied_from(#[trigger] r.0@[p], input.0@),
{
    let ghost c = input.0@;
    let ghost s = purchases(c);
    let n = input.len();
    let mut max: i32 = 0;
    let mut i: usize = 0;
    while i < n
        invariant
            n == s.len() == c.len() == input.0@.len(),
            input.0@ == c,
            s == purchases(c),
            i <= n,
            0 <= max,
            forall|k: int| 0 <= k < i ==> #[trigger] s[k] <= max,
        decreases n - i,
    {
        if input.0[i].num_purchases > max {
            max = input.0[i].num_purchases;
        }
        i += 1;
    }
    let m = max as usize;
    proof {
        assert forall|k: int| 0 <= k < n implies 0 <= #[trigger] s[k] <= m by {
            assert(s[k] == c[k].num_purchases);
        }
        lemma_at_most_bounds(s, m as int);
    }
    let mut counts: Vec<i32> = Vec::new();
    let mut t: usize = 0;
    while t <= m
        invariant
            m <= i32::MAX,
            t <= m + 1,
            counts@.len() == t,
            forall|v: int| 0 <= v < t ==> #[trigger] counts@[v] == 0,
        decreases m + 1 - t,
    {
        counts.push(0);
        t += 1;
    }
    let mut i: usize = 0;
    while i < n
        invariant
            n == s.len() == input.0@.len() <= i32::MAX,
            input.0@ == c,
            s == purchases(c),
            forall|k: int| 0 <= k < n ==> 0 <= #[trigger] s[k] <= m,
            m <= i32::MAX,
            counts@.len() == m + 1,
            i <= n,
            forall|v: int| 0 <= v <= m ==> #[trigger] counts@[v] == count_of(s.take(i as int), v as i32),
            forall|v: int| 0 <= v <= m ==> #[trigger] counts@[v] <= i,
        decreases n - i,
    {
        let e = input.0[i].num_purchases as usize;
        proof {
            assert(s[i as int] == c[i as int].num_purchases);
            assert forall|x: i32| #[trigger] count_of(s.take(i + 1), x) == count_of(s.take(i as int), x)
                + (if s[i as int] == x { 1nat } else { 0nat }) by {
                lemma_count_prefix(s, i as int, x);
            }
        }
        let cur = counts[e];
        counts.set(e, cur + 1);
        i += 1;
    }
    proof {
        assert(s.take(n as int) =~= s);
        lemma_at_most_step(s, 0);
    }
    let mut idx: usize = 1;
    while idx <= m
        invariant
            n == s.len() <= i32::MAX,
            forall|k: int| 0 <= k < n ==> 0 <= #[trigger] s[k] <= m,
            m <= i32::MAX,
            counts@.len() == m + 1,
            1 <= idx <= m + 1,
            forall|v: int| 0 <= v < idx ==> #[trigger] counts@[v] == count_at_most(s, v),
            forall|v: int| idx <= v <= m ==> #[trigger] counts@[v] == count_of(s, v as i32),
            count_at_most(s, m as int) == n,
            count_at_most(s, -1) == 0,
            forall|v: int| #[trigger] count_at_most(s, v) <= n,
        decreases m + 1 - idx,
    {
        proof {
            lemma_at_most_step(s, idx as int);
        }
        let a = counts[idx];
        let b = counts[idx - 1];
        counts.set(idx, a + b);
        idx += 1;
    }
    let mut output: Vec<Customer> = Vec::new();
    let mut t: usize = 0;
    while t < n
        invariant
            output@.len() == t,
            t <= n,
        decreases n - t,
    {
        output.push(Customer { id: String::new(), num_purchases: 0 });
        t += 1;
    }
    proof {
        assert(s.take(n as int) =~= s);
        assert forall|v: int| 0 <= v <= m implies #[trigger] counts@[v] == count_at_most(s, v - 1)
            + count_of(s.take(n as int), v as i32) by {
            lemma_at_most_step(s, v);
        }
    }
    let mut j: usize = n;
    while j > 0
        invariant
            n == s.len() == input.0@.len() <= i32::MAX,
            input.0@ == c,
            s == purchases(c),
            forall|k: int| 0 <= k < n ==> 0 <= #[trigger] s[k] <= m,
            m <= i32::MAX,
            counts@.len() == m + 1,
            output@.len() == n,
            j <= n,
            count_at_most(s, m as int) == n,
            count_at_most(s, -1) == 0,
            forall|v: int| #[trigger] count_at_most(s, v) <= n,
            forall|v: int|
                0 <= v <= m ==> #[trigger] counts@[v] == count_at_most(s, v - 1) + count_of(
                    s.take(j as int),
                    v as i32,
                ),
            forall|v: int, p: int|
                0 <= v <= m && #[trigger] counts@[v] <= p < count_at_most(s, v) ==> (#[trigger] output@[p]).num_purchases
                    == v && copied_from(output@[p], c),
        decreases j,
    {
        let e = input.0[j - 1].num_purchases as usize;
        let ghost jj = (j - 1) as int;
        let ghost k = s[jj];
        proof {
            assert(s[jj] == c[jj].num_purchases);
            assert(s.take(jj + 1) =~= s.take(j as int));
            assert forall|x: i32| #[trigger] count_of(s.take(j as int), x) == count_of(s.take(jj), x)
                + (if s[jj] == x { 1nat } else { 0nat }) by {
                lemma_count_prefix(s, jj, x);
            }
            lemma_at_most_step(s, e as int);
            lemma_count_prefix(s, jj, k);
        }
        let pos = counts[e] - 1;
        counts.set(e, pos);
        let ghost before = output@;
        let item = copy_customer(&input.0[j - 1]);
        output.set(pos as usize, item);
        proof {
            assert(copied_from(output@[pos as int], c)) by {
                assert(c[jj].id@ == output@[pos as int].id@);
            }
            assert forall|v: int, p: int|
                0 <= v <= m && #[trigger] counts@[v] <= p < count_at_most(s, v) implies (#[trigger] output@[p]).num_purchases
                    == v && copied_from(output@[p], c) by {
                if p != pos && v != e {
                    assert(before[p] == output@[p]);
                } else if v != e && p == pos {
                    if v < e {
                        lemma_at_most_monotone(s, v, e - 1);
                    } else {
                        lemma_at_most_monotone(s, e as int, v - 1);
                        lemma_count_prefix(s, jj, v as i32);
                    }
                } else if p != pos {
                    assert(before[p] == output@[p]);
                }
            }
        }
        j -= 1;
    }
    proof {
        assert(s.take(0) =~= Seq::<i32>::empty());
        let o = output@;
        let r = purchases(o);
        assert forall|p: int| 0 <= p < n implies 0 <= #[trigger] r[p] <= m && count_at_most(s, r[p] - 1) <= p < count_at_most(s, r[p] as int) && copied_from(o[p], c) by {
            lemma_blocks_cover(s, m as int, p);
            let v = choose|v: int|
                0 <= v <= m && count_at_most(s, v - 1) <= p < #[trigger] count_at_most(s, v);
            assert(counts@[v] == count_at_most(s, v - 1));
            assert(r[p] == o[p].num_purchases);
        }
        assert forall|p: int| 0 <= p < n implies copied_from(#[trigger] o[p], c) by {
            lemma_blocks_cover(s, m as int, p);
            let v = choose|v: int|
                0 <= v <= m && count_at_most(s, v - 1) <= p < #[trigger] count_at_most(s, v);
            assert(counts@[v] == count_at_most(s, v - 1));
        }
        assert forall|a: int, b: int| 0 <= a <= b < n implies #[trigger] r[a] <= #[trigger] r[b] by {
            if r[b] < r[a] {
                lemma_at_most_monotone(s, r[b] as int, r[a] - 1);
            }
        }
        assert forall|x: i32| #[trigger] count_of(r, x) == count_of(s, x) by {
            if 0 <= x <= m {
                lemma_at_most_step(s, x as int);
                assert forall|p: int| 0 <= p < r.len() implies (#[trigger] r[p] == x <==> count_at_most(s, x - 1) <= p < count_at_most(s, x as int)) by {
                    if r[p] != x && count_at_most(s, x - 1) <= p < count_at_most(s, x as int) {
                        assert(counts@[x as int] == count_at_most(s, x - 1));
                        assert(r[p] == o[p].num_purchases);
                    }
                }
                lemma_at_most_monotone(s, x - 1, x as int);
                lemma_count_block(r, x, count_at_most(s, x - 1) as int, count_at_most(s, x as int) as int);
            } else {
                lemma_count_positive(r, x);
                lemma_count_positive(s, x);
                if s.contains(x) {
                    let k = choose|k: int| 0 <= k < s.len() && s[k] == x;
                }
                if r.contains(x) {
                    let p = choose|p: int| 0 <= p < r.len() && r[p] == x;
                }
            }
        }
    }
    Customers(output)
}

} // verus!
