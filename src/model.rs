//! The knapsack optimum as a recursive function, and the facts about it that
//! the searches rely on.
use vstd::prelude::*;

use crate::item::{
    ItemView, chosen_value, chosen_weight, lemma_sums_concat, same_but_selection,
    same_goods_and_ids, selected_of, value_sum, weight_sum,
};

verus! {

/// The (value, weight) pairs of a sequence of items.
pub open spec fn goods(s: Seq<ItemView>) -> Seq<(nat, nat)> {
    s.map_values(|v: ItemView| (v.value as nat, v.weight as nat))
}

pub proof fn lemma_same_goods(a: Seq<ItemView>, b: Seq<ItemView>)
    requires
        same_but_selection(a, b),
    ensures
        goods(a) == goods(b),
{
    assert(goods(a) =~= goods(b));
}

/// Which of two search outcomes wins: `None` marks a branch that found no
/// feasible choice; on equal values the first one wins.
pub open spec fn first_wins(a: Option<usize>, b: Option<usize>) -> bool {
    match (a, b) {
        (_, None) => true,
        (None, Some(_)) => false,
        (Some(x), Some(y)) => x >= y,
    }
}

pub fn first_is_better(a: Option<usize>, b: Option<usize>) -> (r: bool)
    ensures
        r == first_wins(a, b),
{
    match (a, b) {
        (_, None) => true,
        (None, Some(_)) => false,
        (Some(x), Some(y)) => x >= y,
    }
}

/// Item `i` dominates item `j`: it is a different item, at least as valuable
/// and no heavier.
pub open spec fn dominates(g: Seq<(nat, nat)>, i: int, j: int) -> bool {
    i != j && g[i].0 >= g[j].0 && g[i].1 <= g[j].1
}

/// The positions of the items that item `i` dominates.
pub open spec fn dominated_by(g: Seq<(nat, nat)>, i: int) -> Set<int> {
    Set::new(|j: int| 0 <= j < g.len() && dominates(g, i, j))
}

/// The largest total value of a choice among the items from position `i` on
/// that leaves out the positions in `avoid` and weighs at most `cap`.
pub open spec fn best_avoiding(g: Seq<(nat, nat)>, i: int, cap: int, avoid: Set<int>) -> nat
    decreases g.len() - i,
{
    if i >= g.len() {
        0
    } else {
        let skip = best_avoiding(g, i + 1, cap, avoid);
        if !avoid.contains(i) && g[i].1 <= cap {
            let take = g[i].0 + best_avoiding(g, i + 1, cap - g[i].1, avoid);
            if take >= skip {
                take
            } else {
                skip
            }
        } else {
            skip
        }
    }
}

/// The largest total value of a choice among the items from position `i` on
/// that weighs at most `cap`.
pub open spec fn best_from(g: Seq<(nat, nat)>, i: int, cap: int) -> nat {
    best_avoiding(g, i, cap, Set::empty())
}

/// The choice that exhaustive search settles on from position `i`: an item
/// is taken when it fits and taking it is worth at least as much as leaving
/// it out, so that on equal values the choice that takes it wins.
pub open spec fn best_choice(g: Seq<(nat, nat)>, i: int, cap: int) -> Seq<bool>
    decreases g.len() - i,
{
    if i >= g.len() {
        Seq::empty()
    } else if g[i].1 <= cap && g[i].0 + best_from(g, i + 1, cap - g[i].1) >= best_from(
        g,
        i + 1,
        cap,
    ) {
        seq![true] + best_choice(g, i + 1, cap - g[i].1)
    } else {
        seq![false] + best_choice(g, i + 1, cap)
    }
}

/// The selection flags of a sequence of items.
pub open spec fn selections(s: Seq<ItemView>) -> Seq<bool> {
    s.map_values(|v: ItemView| v.selected)
}

/// The knapsack optimum: the largest total value of a choice of items that
/// weighs at most `cap`.
pub open spec fn best_value(g: Seq<(nat, nat)>, cap: int) -> nat {
    best_from(g, 0, cap)
}

/// What the dominance-pruned search can reach from position `i`: an item in
/// `blocked` is never taken, and leaving an item out blocks every item that
/// it dominates.
pub open spec fn best_unblocked(g: Seq<(nat, nat)>, i: int, cap: int, blocked: Set<int>) -> nat
    decreases g.len() - i,
{
    if i >= g.len() {
        0
    } else {
        let skip = best_unblocked(g, i + 1, cap, blocked.union(dominated_by(g, i)));
        if !blocked.contains(i) && g[i].1 <= cap {
            let take = g[i].0 + best_unblocked(g, i + 1, cap - g[i].1, blocked);
            if take >= skip {
                take
            } else {
                skip
            }
        } else {
            skip
        }
    }
}

/// The sum of the values of the items from position `i` on.
pub open spec fn remaining(g: Seq<(nat, nat)>, i: int) -> nat
    decreases g.len() - i,
{
    if i >= g.len() {
        0
    } else {
        g[i].0 + remaining(g, i + 1)
    }
}

/// Every item dominated by a blocked item at or after `lo`, and later than
/// it, is blocked too.
pub open spec fn closed_under_dominance(g: Seq<(nat, nat)>, blocked: Set<int>, lo: int) -> bool {
    forall|i: int, j: int|
        lo <= i < j < g.len() && #[trigger] blocked.contains(i) && #[trigger] dominates(g, i, j)
            ==> blocked.contains(j)
}

pub proof fn lemma_remaining_is_value_sum(s: Seq<ItemView>, i: int)
    requires
        0 <= i <= s.len(),
    ensures
        remaining(goods(s), i) == value_sum(s.skip(i)),
    decreases s.len() - i,
{
    if i < s.len() {
        lemma_remaining_is_value_sum(s, i + 1);
        lemma_sums_concat(seq![s[i]], s.skip(i + 1));
        assert(seq![s[i]] + s.skip(i + 1) =~= s.skip(i));
        assert(seq![s[i]].drop_last() =~= Seq::<ItemView>::empty());
        assert(value_sum(Seq::<ItemView>::empty()) == 0);
        assert(seq![s[i]].last() == s[i]);
        assert(value_sum(seq![s[i]]) == s[i].value);
        assert(goods(s)[i].0 == s[i].value as nat);
    } else {
        assert(s.skip(i) =~= Seq::<ItemView>::empty());
    }
}

pub proof fn lemma_best_at_most_remaining(g: Seq<(nat, nat)>, i: int, cap: int, avoid: Set<int>)
    ensures
        best_avoiding(g, i, cap, avoid) <= remaining(g, i),
    decreases g.len() - i,
{
    if i < g.len() {
        lemma_best_at_most_remaining(g, i + 1, cap, avoid);
        lemma_best_at_most_remaining(g, i + 1, cap - g[i].1, avoid);
    }
}

pub proof fn lemma_unblocked_at_most_remaining(
    g: Seq<(nat, nat)>,
    i: int,
    cap: int,
    blocked: Set<int>,
)
    ensures
        best_unblocked(g, i, cap, blocked) <= remaining(g, i),
    decreases g.len() - i,
{
    if i < g.len() {
        lemma_unblocked_at_most_remaining(g, i + 1, cap, blocked.union(dominated_by(g, i)));
        lemma_unblocked_at_most_remaining(g, i + 1, cap - g[i].1, blocked);
    }
}

pub proof fn lemma_best_cap_monotone(g: Seq<(nat, nat)>, i: int, c1: int, c2: int, avoid: Set<int>)
    requires
        c1 <= c2,
    ensures
        best_avoiding(g, i, c1, avoid) <= best_avoiding(g, i, c2, avoid),
    decreases g.len() - i,
{
    if i < g.len() {
        lemma_best_cap_monotone(g, i + 1, c1, c2, avoid);
        lemma_best_cap_monotone(g, i + 1, c1 - g[i].1, c2 - g[i].1, avoid);
    }
}

pub proof fn lemma_best_avoid_more(g: Seq<(nat, nat)>, i: int, cap: int, x: Set<int>, y: Set<int>)
    requires
        x.subset_of(y),
    ensures
        best_avoiding(g, i, cap, y) <= best_avoiding(g, i, cap, x),
    decreases g.len() - i,
{
    if i < g.len() {
        lemma_best_avoid_more(g, i + 1, cap, x, y);
        lemma_best_avoid_more(g, i + 1, cap - g[i].1, x, y);
    }
}

pub proof fn lemma_best_avoid_agree(g: Seq<(nat, nat)>, i: int, cap: int, x: Set<int>, y: Set<int>)
    requires
        forall|k: int| i <= k < g.len() ==> (x.contains(k) <==> y.contains(k)),
    ensures
        best_avoiding(g, i, cap, y) == best_avoiding(g, i, cap, x),
    decreases g.len() - i,
{
    if i < g.len() {
        lemma_best_avoid_agree(g, i + 1, cap, x, y);
        lemma_best_avoid_agree(g, i + 1, cap - g[i].1, x, y);
    }
}

/// Exchange argument: a choice from position `m` on that takes items
/// dominated by an earlier item `d` is no better than the best choice that
/// avoids them, or than the one that takes `d` in place of one of them.
pub proof fn lemma_exchange(g: Seq<(nat, nat)>, d: int, m: int, cap: int, avoid: Set<int>)
    requires
        0 <= d < m,
    ensures
        ({
            let with_d = if g[d].1 <= cap {
                g[d].0 + best_avoiding(g, m, cap - g[d].1, avoid)
            } else {
                0
            };
            let without = best_avoiding(g, m, cap, avoid.union(dominated_by(g, d)));
            best_avoiding(g, m, cap, avoid) <= if with_d >= without {
                with_d
            } else {
                without
            }
        }),
    decreases g.len() - m,
{
    if m < g.len() {
        let xd = avoid.union(dominated_by(g, d));
        lemma_exchange(g, d, m + 1, cap, avoid);
        if !avoid.contains(m) && g[m].1 <= cap {
            if dominates(g, d, m) {
                lemma_best_cap_monotone(g, m + 1, cap - g[m].1, cap - g[d].1, avoid);
            } else {
                lemma_exchange(g, d, m + 1, cap - g[m].1, avoid);
                assert(!xd.contains(m));
            }
        }
    }
}

proof fn lemma_chosen_split(s: Seq<ItemView>, i: int)
    requires
        0 <= i < s.len(),
    ensures
        chosen_value(s.skip(i)) == (if s[i].selected {
            s[i].value as nat
        } else {
            0
        }) + chosen_value(s.skip(i + 1)),
        chosen_weight(s.skip(i)) == (if s[i].selected {
            s[i].weight as nat
        } else {
            0
        }) + chosen_weight(s.skip(i + 1)),
{
    let one = seq![s[i]];
    assert(one + s.skip(i + 1) =~= s.skip(i));
    lemma_sums_concat(one, s.skip(i + 1));
    lemma_sums_concat(selected_of(one), selected_of(s.skip(i + 1)));
    assert(one.drop_last() =~= Seq::<ItemView>::empty());
    assert(one.last() == s[i]);
    let e = Seq::<ItemView>::empty();
    assert(selected_of(e) == e);
    assert(value_sum(e) == 0 && weight_sum(e) == 0);
    if s[i].selected {
        assert(selected_of(one) == e.push(s[i]));
        assert(e.push(s[i]).drop_last() =~= e);
        assert(value_sum(e.push(s[i])) == s[i].value);
        assert(weight_sum(e.push(s[i])) == s[i].weight);
    } else {
        assert(selected_of(one) == e);
    }
}

proof fn lemma_best_bounds_suffix(s: Seq<ItemView>, i: int, cap: int)
    requires
        0 <= i <= s.len(),
        chosen_weight(s.skip(i)) <= cap,
    ensures
        chosen_value(s.skip(i)) <= best_from(goods(s), i, cap),
    decreases s.len() - i,
{
    let g = goods(s);
    if i < s.len() {
        lemma_chosen_split(s, i);
        assert(g[i] == (s[i].value as nat, s[i].weight as nat));
        if s[i].selected {
            lemma_best_bounds_suffix(s, i + 1, cap - s[i].weight);
        } else {
            lemma_best_bounds_suffix(s, i + 1, cap);
        }
    } else {
        assert(s.skip(i) =~= Seq::<ItemView>::empty());
    }
}

/// The knapsack optimum bounds every choice: a choice of items that weighs at
/// most `cap` is worth at most `best_value`.
pub proof fn lemma_best_bounds_every_choice(s: Seq<ItemView>, cap: int)
    requires
        chosen_weight(s) <= cap,
    ensures
        chosen_value(s) <= best_value(goods(s), cap),
{
    assert(s.skip(0) =~= s);
    lemma_best_bounds_suffix(s, 0, cap);
}

/// How often `x` occurs in `g`.
pub open spec fn occurrences(g: Seq<(nat, nat)>, x: (nat, nat)) -> nat
    decreases g.len(),
{
    if g.len() == 0 {
        0
    } else {
        occurrences(g.drop_last(), x) + if g.last() == x {
            1nat
        } else {
            0nat
        }
    }
}

proof fn lemma_occurrences_update(g: Seq<(nat, nat)>, i: int, v: (nat, nat), x: (nat, nat))
    requires
        0 <= i < g.len(),
    ensures
        occurrences(g.update(i, v), x) + (if g[i] == x {
            1nat
        } else {
            0nat
        }) == occurrences(g, x) + (if v == x {
            1nat
        } else {
            0nat
        }),
    decreases g.len(),
{
    let u = g.update(i, v);
    if i < g.len() - 1 {
        assert(u.drop_last() =~= g.drop_last().update(i, v));
        lemma_occurrences_update(g.drop_last(), i, v, x);
    } else {
        assert(u.drop_last() =~= g.drop_last());
    }
}

/// No choice among the items of `items` that weighs at most `cap` is worth
/// more than the knapsack optimum.
pub proof fn lemma_optimum_bounds_all_choices(items: Seq<ItemView>, cap: int)
    ensures
        forall|c: Seq<ItemView>|
            same_goods_and_ids(c, items) && chosen_weight(c) <= cap ==> #[trigger] chosen_value(c)
                <= best_value(goods(items), cap),
{
    assert forall|c: Seq<ItemView>|
        same_goods_and_ids(c, items) && chosen_weight(c) <= cap implies #[trigger] chosen_value(c)
            <= best_value(goods(items), cap) by {
        assert(goods(c) =~= goods(items));
        lemma_best_bounds_every_choice(c, cap);
    }
}

/// `g` with the entries at `p` and `p + 1` exchanged.
pub open spec fn swapped(g: Seq<(nat, nat)>, p: int) -> Seq<(nat, nat)> {
    g.update(p, g[p + 1]).update(p + 1, g[p])
}

pub proof fn lemma_best_suffix_agree(g1: Seq<(nat, nat)>, g2: Seq<(nat, nat)>, i: int, cap: int)
    requires
        g1.len() == g2.len(),
        forall|k: int| i <= k < g1.len() ==> g1[k] == g2[k],
    ensures
        best_from(g1, i, cap) == best_from(g2, i, cap),
        remaining(g1, i) == remaining(g2, i),
    decreases g1.len() - i,
{
    if i < g1.len() {
        lemma_best_suffix_agree(g1, g2, i + 1, cap);
        lemma_best_suffix_agree(g1, g2, i + 1, cap - g1[i].1);
    }
}

/// Exchanging two neighbouring items changes neither the knapsack optimum nor
/// the total value.
pub proof fn lemma_best_swap(g: Seq<(nat, nat)>, p: int, i: int, cap: int)
    requires
        0 <= i <= p,
        p + 1 < g.len(),
    ensures
        best_from(swapped(g, p), i, cap) == best_from(g, i, cap),
        remaining(swapped(g, p), i) == remaining(g, i),
    decreases p - i,
{
    let h = swapped(g, p);
    if i < p {
        assert(h[i] == g[i]);
        assert(h.len() == g.len());
        lemma_best_swap(g, p, i + 1, cap);
        lemma_best_swap(g, p, i + 1, cap - g[i].1);
    } else {
        let (vp, wp) = g[p];
        let (vq, wq) = g[p + 1];
        assert(h[p] == g[p + 1]);
        assert(h[p + 1] == g[p]);
        lemma_best_suffix_agree(g, h, p + 2, cap);
        lemma_best_suffix_agree(g, h, p + 2, cap - wp);
        lemma_best_suffix_agree(g, h, p + 2, cap - wq);
        lemma_best_suffix_agree(g, h, p + 2, cap - wp - wq);
        assert(cap - wp - wq == cap - wq - wp);
        reveal_with_fuel(best_avoiding, 3);
        reveal_with_fuel(remaining, 3);
    }
}

/// Exchanging two neighbouring items keeps every item, as often as before.
pub proof fn lemma_swap_keeps_items(g: Seq<(nat, nat)>, p: int)
    requires
        0 <= p,
        p + 1 < g.len(),
    ensures
        forall|x: (nat, nat)| #[trigger] occurrences(swapped(g, p), x) == occurrences(g, x),
{
    assert forall|x: (nat, nat)| #[trigger] occurrences(swapped(g, p), x) == occurrences(g, x) by {
        let t = g.update(p, g[p + 1]);
        lemma_occurrences_update(g, p, g[p + 1], x);
        lemma_occurrences_update(t, p + 1, g[p], x);
    }
}

/// On a blocked set closed under dominance, the dominance-pruned search loses
/// nothing: it reaches the best choice that avoids the blocked items.
pub proof fn lemma_unblocked_is_best(g: Seq<(nat, nat)>, i: int, cap: int, blocked: Set<int>)
    requires
        0 <= i,
        closed_under_dominance(g, blocked, i),
    ensures
        best_unblocked(g, i, cap, blocked) == best_avoiding(g, i, cap, blocked),
    decreases g.len() - i,
{
    if i < g.len() {
        let d = dominated_by(g, i);
        let bd = blocked.union(d);
        assert(closed_under_dominance(g, bd, i + 1)) by {
            assert forall|a: int, b: int|
                i + 1 <= a < b < g.len() && #[trigger] bd.contains(a) && #[trigger] dominates(
                    g,
                    a,
                    b,
                ) implies bd.contains(b) by {
                if !blocked.contains(a) {
                    assert(dominates(g, i, b));
                }
            }
        }
        lemma_unblocked_is_best(g, i + 1, cap, bd);
        lemma_unblocked_is_best(g, i + 1, cap - g[i].1, blocked);
        lemma_best_avoid_more(g, i + 1, cap, blocked, bd);
        if blocked.contains(i) {
            assert forall|k: int| i + 1 <= k < g.len() implies (blocked.contains(k)
                <==> bd.contains(k)) by {
                if d.contains(k) {
                    assert(dominates(g, i, k));
                }
            }
            lemma_best_avoid_agree(g, i + 1, cap, blocked, bd);
        } else {
            lemma_exchange(g, i, i + 1, cap, blocked);
        }
    }
}

/// The dominance-pruned search, started with nothing blocked, reaches the
/// knapsack optimum.
pub proof fn lemma_dominance_pruning_keeps_optimum(g: Seq<(nat, nat)>, cap: int)
    ensures
        best_unblocked(g, 0, cap, Set::empty()) == best_value(g, cap),
{
    lemma_unblocked_is_best(g, 0, cap, Set::empty());
}

} // verus!
