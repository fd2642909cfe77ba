//! Exhaustive search: every include/exclude decision is tried.
use vstd::prelude::*;
use vstd::arithmetic::power2::{pow2, lemma_pow2_unfold};

use crate::item::{
    ids_distinct, lemma_solution_ids_distinct, same_goods_and_ids, selected_of,
    Item, ItemView, KnapsackError, chosen_value, chosen_weight, duplicate, is_solution,
    lemma_same_value_sum, lemma_selected_sums_bounded, lemma_take_one_more, same_but_selection,
    solution_value, value_sum, views,
};
use crate::model::{
    lemma_optimum_bounds_all_choices,
    best_choice, best_from, best_value, first_is_better, goods, lemma_same_goods, selections,
};

verus! {

/// Finds an optimal choice by trying all `2^n` of them.
///
/// Returns the collection with the selection flags of an optimal choice, its
/// total value, and the number of recursive calls made, which is
/// `2^(n+1) - 1`.
pub fn exhaustive_search(items: &mut [Item], allowed_weight: usize) -> (r: Result<
    (Vec<Item>, usize, usize),
    KnapsackError,
>)
    requires
        value_sum(views(old(items)@)) <= usize::MAX,
        pow2((old(items)@.len() + 1) as nat) <= usize::MAX + 1,
    ensures
        same_but_selection(views(final(items)@), views(old(items)@)),
        r is Ok,
        ({
            let (sol, value, calls) = r->Ok_0;
            &&& is_solution(views(sol@), views(old(items)@), allowed_weight as int)
            &&& chosen_value(views(sol@)) == value
            &&& value == best_value(goods(views(old(items)@)), allowed_weight as int)
            &&& forall|c: Seq<ItemView>|
                same_goods_and_ids(c, views(old(items)@)) && chosen_weight(c) <= allowed_weight
                    ==> #[trigger] chosen_value(c) <= value
            &&& ids_distinct(views(old(items)@)) ==> ids_distinct(selected_of(views(sol@)))
            &&& selections(views(sol@)) == best_choice(
                goods(views(old(items)@)),
                0,
                allowed_weight as int,
            )
            &&& calls == pow2((old(items)@.len() + 1) as nat) - 1
        }),
{
    proof {
        assert(views(old(items)@).take(0) =~= Seq::<ItemView>::empty());
    }
    let (sol, value, calls) = do_exhaustive_search(items, allowed_weight, 0);
    proof {
        lemma_optimum_bounds_all_choices(views(old(items)@), allowed_weight as int);
        if value is Some && ids_distinct(views(old(items)@)) {
            lemma_solution_ids_distinct(views(sol@), views(old(items)@), allowed_weight as int);
        }
    }
    match value {
        Some(v) => Ok((sol, v, calls)),
        None => Ok((sol, 0, calls)),
    }
}

fn do_exhaustive_search(items: &mut [Item], allowed_weight: usize, next_idx: usize) -> (r: (
    Vec<Item>,
    Option<usize>,
    usize,
))
    requires
        next_idx <= old(items)@.len(),
        value_sum(views(old(items)@)) <= usize::MAX,
        pow2((old(items)@.len() - next_idx + 1) as nat) <= usize::MAX + 1,
    ensures
        same_but_selection(views(final(items)@), views(old(items)@)),
        views(final(items)@).take(next_idx as int) == views(old(items)@).take(next_idx as int),
        r.2 == pow2((old(items)@.len() - next_idx + 1) as nat) - 1,
        ({
            let s = views(old(items)@);
            let cw = chosen_weight(s.take(next_idx as int));
            let cv = chosen_value(s.take(next_idx as int));
            if cw <= allowed_weight {
                &&& r.1 is Some
                &&& r.1->0 == cv + best_from(goods(s), next_idx as int, allowed_weight - cw)
                &&& is_solution(views(r.0@), s, allowed_weight as int)
                &&& selections(views(r.0@)) == selections(s).take(next_idx as int) + best_choice(
                    goods(s),
                    next_idx as int,
                    allowed_weight - cw,
                )
                &&& chosen_value(views(r.0@)) == r.1->0
            } else {
                r.1 is None
            }
        }),
    decreases old(items)@.len() - next_idx,
{
    let ghost s = views(items@);
    let ghost n = s.len();
    if next_idx >= items.len() {
        proof {
            assert(s.take(n as int) =~= s);
            assert(selections(s).take(n as int) + Seq::<bool>::empty() =~= selections(s));
            lemma_selected_sums_bounded(s);
            lemma_pow2_unfold(1);
            assert(pow2(0) == 1) by {
                vstd::arithmetic::power2::lemma2_to64();
            }
        }
        match solution_value(items, allowed_weight) {
            Ok(v) => {
                return (duplicate(items), Some(v), 1);
            },
            Err(_) => {
                return (Vec::new(), None, 1);
            },
        }
    }
    proof {
        lemma_pow2_unfold((n - next_idx + 1) as nat);
        vstd::arithmetic::power2::lemma_pow2_pos((n - next_idx) as nat);
    }
    // Include the item.
    items[next_idx].selected = true;
    let ghost s1 = views(items@);
    proof {
        assert(same_but_selection(s1, s));
        assert(s1.take(next_idx as int) =~= s.take(next_idx as int));
        lemma_take_one_more(s1, next_idx as int);
        lemma_same_goods(s1, s);
        lemma_same_value_sum(s1, s);
    }
    let (sol1, v1, c1) = do_exhaustive_search(items, allowed_weight, next_idx + 1);
    // Leave it out.
    items[next_idx].selected = false;
    let ghost s2 = views(items@);
    proof {
        assert(same_but_selection(s2, s));
        assert(s2.take(next_idx as int) =~= s.take(next_idx as int)) by {
            assert(s2.take(next_idx as int) =~= s1.take(next_idx + 1).take(next_idx as int));
        }
        lemma_take_one_more(s2, next_idx as int);
        lemma_same_goods(s2, s);
        lemma_same_value_sum(s2, s);
    }
    let (sol2, v2, c2) = do_exhaustive_search(items, allowed_weight, next_idx + 1);
    proof {
        let f = views(items@);
        assert(f.take(next_idx as int) =~= s2.take(next_idx + 1).take(next_idx as int));
        assert(same_but_selection(f, s));
        let ii = next_idx as int;
        assert(selections(s1).take(ii + 1) =~= selections(s).take(ii).push(true)) by {
            assert(s1.take(ii) =~= s.take(ii));
            assert forall|j: int| 0 <= j < ii implies #[trigger] s1[j] == s[j] by {
                assert(s1.take(ii)[j] == s.take(ii)[j]);
            }
        }
        assert(selections(s2).take(ii + 1) =~= selections(s).take(ii).push(false)) by {
            assert forall|j: int| 0 <= j < ii implies #[trigger] s2[j] == s[j] by {
                assert(s2.take(ii)[j] == s.take(ii)[j]);
            }
        }
        let cw = chosen_weight(s.take(ii));
        let w = s[ii].weight as int;
        assert(cw - w == cw - w);
        assert(allowed_weight - (cw + w) == allowed_weight - cw - w);
        assert forall|b: bool, t: Seq<bool>| #[trigger] (selections(s).take(ii).push(b) + t)
            =~= selections(s).take(ii) + (seq![b] + t) by {}
    }
    if first_is_better(v1, v2) {
        (sol1, v1, c1 + c2 + 1)
    } else {
        (sol2, v2, c1 + c2 + 1)
    }
}

} // verus!
