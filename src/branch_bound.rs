//! Branch-and-bound search: a subtree is cut off when even all of its
//! remaining value could not beat the best value found so far.
use vstd::prelude::*;
use vstd::arithmetic::power2::{pow2, lemma_pow2_unfold, lemma_pow2_pos};

use crate::item::{
    ids_distinct, lemma_solution_ids_distinct, same_goods_and_ids, selected_of,
    Item, ItemView, KnapsackError, chosen_value, chosen_weight, duplicate, is_solution,
    lemma_same_value_sum, lemma_selected_sums_bounded, lemma_sums_concat, lemma_take_one_more,
    keeps_decided, same_but_selection, sum_values, value_sum, views,
};
use crate::model::{
    lemma_optimum_bounds_all_choices,
    best_from, best_value, first_is_better, goods, lemma_best_at_most_remaining,
    lemma_remaining_is_value_sum, lemma_same_goods, remaining,
};

verus! {

/// Finds an optimal choice by depth-first search, cutting off every subtree
/// whose items, all taken regardless of weight, could not beat the best value
/// found so far.
///
/// Returns the collection with the selection flags of an optimal choice, its
/// total value, and the number of recursive calls made.
pub fn branch_and_bound(items: &mut [Item], allowed_weight: usize) -> (r: Result<
    (Vec<Item>, usize, usize),
    KnapsackError,
>)
    requires
        value_sum(views(old(items)@)) <= usize::MAX,
        pow2((old(items)@.len() + 1) as nat) <= usize::MAX + 1,
    ensures
        same_but_selection(views(final(items)@), views(old(items)@)),
        r is Ok,
        ({
            let (sol, value, calls) = r->Ok_0;
            &&& is_solution(views(sol@), views(old(items)@), allowed_weight as int)
            &&& chosen_value(views(sol@)) == value
            &&& value == best_value(goods(views(old(items)@)), allowed_weight as int)
            &&& forall|c: Seq<ItemView>|
                same_goods_and_ids(c, views(old(items)@)) && chosen_weight(c) <= allowed_weight
                    ==> #[trigger] chosen_value(c) <= value
            &&& ids_distinct(views(old(items)@)) ==> ids_distinct(selected_of(views(sol@)))
            &&& 1 <= calls <= pow2((old(items)@.len() + 1) as nat) - 1
        }),
{
    let ghost s = views(items@);
    let remaining_value = sum_values(items);
    proof {
        assert(s.take(0) =~= Seq::<ItemView>::empty());
        assert(s.skip(0) =~= s);
        lemma_remaining_is_value_sum(s, 0);
    }
    let (sol, value, calls) = do_bnb(items, allowed_weight, None, 0, 0, remaining_value, 0);
    proof {
        lemma_optimum_bounds_all_choices(views(old(items)@), allowed_weight as int);
        if value is Some && ids_distinct(views(old(items)@)) {
            lemma_solution_ids_distinct(views(sol@), views(old(items)@), allowed_weight as int);
        }
    }
    match value {
        Some(v) => Ok((sol, v, calls)),
        None => Ok((sol, 0, calls)),
    }
}

/// The state at a search node: the items before `next_idx` are decided,
/// `current_value` and `current_weight` are those of the items taken among
/// them, and `remaining_value` is the sum of the values of the items not yet
/// decided. The total value fits in a `usize`.
pub open spec fn node_state(
    s: Seq<ItemView>,
    allowed_weight: usize,
    current_value: usize,
    current_weight: usize,
    remaining_value: usize,
    next_idx: usize,
) -> bool {
    &&& next_idx <= s.len()
    &&& value_sum(s) <= usize::MAX
    &&& current_value == chosen_value(s.take(next_idx as int))
    &&& current_weight == chosen_weight(s.take(next_idx as int))
    &&& current_weight <= allowed_weight
    &&& remaining_value == remaining(goods(s), next_idx as int)
}

/// `best_value` after a branch came back with `found`.
pub open spec fn raised(best_value: Option<usize>, found: Option<usize>) -> Option<usize> {
    match (best_value, found) {
        (Some(b), Some(x)) => if x > b {
            Some(x)
        } else {
            Some(b)
        },
        (None, f) => f,
        (b, None) => b,
    }
}

pub fn raise(best_value: Option<usize>, found: Option<usize>) -> (r: Option<usize>)
    ensures
        r == raised(best_value, found),
{
    match (best_value, found) {
        (Some(b), Some(x)) => if x > b {
            Some(x)
        } else {
            Some(b)
        },
        (None, f) => f,
        (b, None) => b,
    }
}

pub(crate) proof fn lemma_node_bounds(s: Seq<ItemView>, next_idx: int)
    requires
        0 <= next_idx <= s.len(),
    ensures
        chosen_value(s.take(next_idx)) + remaining(goods(s), next_idx) <= value_sum(s),
{
    lemma_remaining_is_value_sum(s, next_idx);
    lemma_sums_concat(s.take(next_idx), s.skip(next_idx));
    assert(s.take(next_idx) + s.skip(next_idx) =~= s);
    lemma_selected_sums_bounded(s.take(next_idx));
}

fn do_bnb(
    items: &mut [Item],
    allowed_weight: usize,
    best_value: Option<usize>,
    current_value: usize,
    current_weight: usize,
    remaining_value: usize,
    next_idx: usize,
) -> (r: (Vec<Item>, Option<usize>, usize))
    requires
        node_state(
            views(old(items)@),
            allowed_weight,
            current_value,
            current_weight,
            remaining_value,
            next_idx,
        ),
        pow2((old(items)@.len() - next_idx + 1) as nat) <= usize::MAX + 1,
    ensures
        same_but_selection(views(final(items)@), views(old(items)@)),
        views(final(items)@).take(next_idx as int) == views(old(items)@).take(next_idx as int),
        1 <= r.2 <= pow2((old(items)@.len() - next_idx + 1) as nat) - 1,
        ({
            let s = views(old(items)@);
            let o = current_value + best_from(goods(s), next_idx as int, allowed_weight - current_weight);
            &&& r.1 is Some ==> {
                &&& is_solution(views(r.0@), s, allowed_weight as int)
                &&& keeps_decided(views(r.0@), s, next_idx as int)
                &&& chosen_value(views(r.0@)) == r.1->0
                &&& r.1->0 <= o
            }
            &&& (best_value is None || o > best_value->0) ==> (r.1 is Some && r.1->0 == o)
        }),
    decreases old(items)@.len() - next_idx,
{
    let ghost s = views(items@);
    let ghost g = goods(s);
    let ghost n = s.len();
    proof {
        lemma_node_bounds(s, next_idx as int);
        lemma_best_at_most_remaining(g, next_idx as int, allowed_weight - current_weight, Set::empty());
        lemma_pow2_unfold((n - next_idx + 1) as nat);
        lemma_pow2_pos((n - next_idx) as nat);
    }
    if next_idx >= items.len() {
        proof {
            assert(s.take(n as int) =~= s);
        }
        return (duplicate(items), Some(current_value), 1);
    }
    if let Some(b) = best_value {
        if current_value + remaining_value <= b {
            return (Vec::new(), None, 1);
        }
    }
    let ghost w = items@[next_idx as int].weight;
    let ghost v = items@[next_idx as int].value;
    proof {
        assert(g[next_idx as int] == (v as nat, w as nat));
    }
    let ghost mut s1 = s;
    let (sol1, v1, c1) = if items[next_idx].weight <= allowed_weight - current_weight {
        items[next_idx].selected = true;
        proof {
            s1 = views(items@);
            assert(same_but_selection(s1, s));
            assert(s1.take(next_idx as int) =~= s.take(next_idx as int));
            lemma_take_one_more(s1, next_idx as int);
            lemma_same_goods(s1, s);
            lemma_same_value_sum(s1, s);
        }
        do_bnb(
            items,
            allowed_weight,
            best_value,
            current_value + items[next_idx].value,
            current_weight + items[next_idx].weight,
            remaining_value - items[next_idx].value,
            next_idx + 1,
        )
    } else {
        (Vec::new(), None, 1)
    };
    let ghost f1 = views(items@);
    let best2 = raise(best_value, v1);
    // Leave the item out.
    items[next_idx].selected = false;
    let ghost s2 = views(items@);
    proof {
        assert(same_but_selection(s2, s));
        assert(s2.take(next_idx as int) =~= s.take(next_idx as int)) by {
            assert(f1.take(next_idx as int) =~= s1.take(next_idx as int));
            assert(s1.take(next_idx as int) =~= s.take(next_idx as int));
        }
        lemma_take_one_more(s2, next_idx as int);
        lemma_same_goods(s2, s);
        lemma_same_value_sum(s2, s);
    }
    let (sol2, v2, c2) = do_bnb(
        items,
        allowed_weight,
        best2,
        current_value,
        current_weight,
        remaining_value - items[next_idx].value,
        next_idx + 1,
    );
    proof {
        let f = views(items@);
        assert(f.take(next_idx as int) =~= s2.take(next_idx + 1).take(next_idx as int));
        assert(same_but_selection(f, s));
        assert forall|j: int| 0 <= j < next_idx implies #[trigger] s2[j] == s[j] && s1[j] == s[j] by {
            assert(s2.take(next_idx as int)[j] == s.take(next_idx as int)[j]);
            assert(s1.take(next_idx as int)[j] == s.take(next_idx as int)[j]);
        }
    }
    if first_is_better(v1, v2) {
        (sol1, v1, c1 + c2 + 1)
    } else {
        (sol2, v2, c1 + c2 + 1)
    }
}

} // verus!
