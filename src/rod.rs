//! Rod's technique: branch and bound that also prunes by dominance. Once an
//! item is left out, every item that it dominates is blocked for the rest of
//! that path.
use vstd::prelude::*;
use vstd::arithmetic::power2::{pow2, lemma_pow2_unfold, lemma_pow2_pos};

use crate::branch_bound::{node_state, raise};
use crate::item::{
    ids_distinct, lemma_solution_ids_distinct, same_goods_and_ids, selected_of,
    Item, ItemView, KnapsackError, agrees_but_selection, copy_item, chosen_value, chosen_weight, duplicate,
    is_solution, keeps_decided, lemma_same_value_sum,
    lemma_same_chosen_sums, lemma_take_one_more, lemma_views_index, same_but_selection, sum_values, value_sum, views,
};
use crate::model::{
    lemma_optimum_bounds_all_choices,
    best_from, best_value, lemma_best_swap, lemma_swap_keeps_items, occurrences, remaining, swapped, best_unblocked, dominated_by, dominates, first_is_better, goods,
    lemma_dominance_pruning_keeps_optimum, lemma_remaining_is_value_sum, lemma_same_goods,
    lemma_unblocked_at_most_remaining,
};

verus! {

/// The positions before `k` of the items that item `i` dominates, in order.
pub open spec fn dominated_list(g: Seq<(nat, nat)>, i: int, k: int) -> Seq<usize>
    decreases k,
{
    if k <= 0 {
        Seq::empty()
    } else if dominates(g, i, k - 1) {
        dominated_list(g, i, k - 1).push((k - 1) as usize)
    } else {
        dominated_list(g, i, k - 1)
    }
}

/// Every item's block list is as long as the list of the items it dominates.
pub open spec fn block_counts_match(s: Seq<ItemView>) -> bool {
    forall|k: int|
        0 <= k < s.len() ==> #[trigger] s[k].block_list.len() == dominated_list(
            goods(s),
            k,
            s.len() as int,
        ).len()
}

/// The block lists get no longer from one item to the next.
pub open spec fn block_counts_descending(s: Seq<ItemView>) -> bool {
    forall|a: int, b: int|
        0 <= a <= b < s.len() ==> #[trigger] s[a].block_list.len() >= #[trigger] s[b].block_list.len()
}

/// The position that `i` moves to when the items at `p` and `p + 1` swap.
pub open spec fn swap_pos(p: int, i: int) -> int {
    if i == p {
        p + 1
    } else if i == p + 1 {
        p
    } else {
        i
    }
}

proof fn lemma_dominated_count_swap(g: Seq<(nat, nat)>, p: int, i: int, k: int)
    requires
        0 <= p,
        p + 1 < g.len(),
        0 <= i < g.len(),
        0 <= k <= g.len(),
        k != p + 1,
    ensures
        dominated_list(swapped(g, p), swap_pos(p, i), k).len() == dominated_list(g, i, k).len(),
    decreases k,
{
    let h = swapped(g, p);
    let si = swap_pos(p, i);
    assert(h[si] == g[i]);
    if k > 0 {
        if k == p + 2 {
            lemma_dominated_count_swap(g, p, i, p);
            assert(h[p] == g[p + 1] && h[p + 1] == g[p]);
            assert(dominates(h, si, p) == dominates(g, i, p + 1));
            assert(dominates(h, si, p + 1) == dominates(g, i, p));
            reveal_with_fuel(dominated_list, 3);
        } else {
            lemma_dominated_count_swap(g, p, i, k - 1);
            let j = k - 1;
            assert(j != p && j != p + 1);
            assert(h[j] == g[j]);
            assert(dominates(h, si, j) == dominates(g, i, j));
        }
    }
}

/// Every item's id is its position.
pub open spec fn ids_are_positions(s: Seq<ItemView>) -> bool {
    forall|k: int| 0 <= k < s.len() ==> #[trigger] s[k].id == k
}

/// Every item's block list holds the positions of the items it dominates.
pub open spec fn block_lists_built(s: Seq<ItemView>) -> bool {
    forall|k: int|
        0 <= k < s.len() ==> #[trigger] s[k].block_list == dominated_list(goods(s), k, s.len() as int)
}

/// No item is blocked.
pub open spec fn unmarked(s: Seq<ItemView>) -> bool {
    forall|k: int| 0 <= k < s.len() ==> #[trigger] s[k].blocked_by is None
}

/// Every mark was set by an item before position `idx`.
pub open spec fn marks_below(s: Seq<ItemView>, idx: int) -> bool {
    forall|k: int| 0 <= k < s.len() && #[trigger] s[k].blocked_by is Some ==> s[k].blocked_by->0 < idx
}

/// The positions of the blocked items.
pub open spec fn blocked_set(s: Seq<ItemView>) -> Set<int> {
    Set::new(|k: int| 0 <= k < s.len() && s[k].blocked_by is Some)
}

/// `a` and `b` are the same item, whatever their marks.
pub open spec fn agrees_but_mark(a: ItemView, b: ItemView) -> bool {
    a.id == b.id && a.value == b.value && a.weight == b.weight && a.selected == b.selected
        && a.block_list == b.block_list
}

proof fn lemma_dominated_list(g: Seq<(nat, nat)>, i: int, k: int)
    requires
        0 <= k <= g.len(),
        g.len() <= usize::MAX,
    ensures
        forall|t: int|
            0 <= t < dominated_list(g, i, k).len() ==> {
                let j = #[trigger] dominated_list(g, i, k)[t];
                &&& j < k
                &&& dominates(g, i, j as int)
            },
        forall|j: int|
            0 <= j < k && dominates(g, i, j) ==> dominated_list(g, i, k).contains(j as usize),
    decreases k,
{
    if k > 0 {
        lemma_dominated_list(g, i, k - 1);
        let p = dominated_list(g, i, k - 1);
        if dominates(g, i, k - 1) {
            let q = p.push((k - 1) as usize);
            assert(q == dominated_list(g, i, k));
            assert forall|t: int| 0 <= t < q.len() implies {
                let j = #[trigger] q[t];
                &&& j < k
                &&& dominates(g, i, j as int)
            } by {
                if t < p.len() {
                    assert(q[t] == p[t]);
                }
            }
            assert forall|j: int| 0 <= j < k && dominates(g, i, j) implies dominated_list(
                g,
                i,
                k,
            ).contains(j as usize) by {
                if j < k - 1 {
                    let t = choose|t: int| 0 <= t < p.len() && p[t] == j as usize;
                    assert(dominated_list(g, i, k)[t] == j as usize);
                } else {
                    assert(dominated_list(g, i, k)[p.len() as int] == j as usize);
                }
            }
        }
    }
}

/// Once the block lists are built, item `i`'s list names every other item
/// that is worth no more and weighs no less.
pub proof fn lemma_block_lists_name_dominated(s: Seq<ItemView>, i: int, j: int)
    requires
        s.len() <= usize::MAX,
        ids_are_positions(s),
        block_lists_built(s),
        0 <= i < s.len(),
        0 <= j < s.len(),
        i != j,
        s[i].value >= s[j].value,
        s[i].weight <= s[j].weight,
    ensures
        s[i].block_list.contains(s[j].id),
{
    let g = goods(s);
    assert(g[i] == (s[i].value as nat, s[i].weight as nat));
    assert(g[j] == (s[j].value as nat, s[j].weight as nat));
    assert(s[j].id == j);
    assert(s[i].block_list == dominated_list(g, i, s.len() as int));
    lemma_dominated_list(g, i, s.len() as int);
    assert(dominates(g, i, j));
    assert(j as usize == s[j].id);
}

/// Fills in every item's block list: the ids of the items that it dominates.
pub fn make_block_lists(items: &mut [Item])
    requires
        ids_are_positions(views(old(items)@)),
    ensures
        final(items)@.len() == old(items)@.len(),
        forall|k: int|
            0 <= k < old(items)@.len() ==> {
                let a = #[trigger] views(final(items)@)[k];
                let b = views(old(items)@)[k];
                &&& a.id == b.id
                &&& a.value == b.value
                &&& a.weight == b.weight
                &&& a.selected == b.selected
                &&& a.blocked_by == b.blocked_by
            },
        block_lists_built(views(final(items)@)),
{
    let ghost s = items@;
    let ghost g = goods(views(s));
    proof {
        lemma_views_index(s);
        assert(forall|k: int| 0 <= k < s.len() ==> #[trigger] s[k].id == views(s)[k].id);
    }
    let n = items.len();
    let mut i: usize = 0;
    while i < n
        invariant
            n == items@.len() == s.len(),
            i <= n,
            g == goods(views(s)),
            forall|k: int|
                0 <= k < n ==> {
                    let a = #[trigger] items@[k];
                    let b = s[k];
                    &&& a.id == b.id
                    &&& a.value == b.value
                    &&& a.weight == b.weight
                    &&& a.selected == b.selected
                    &&& a.blocked_by == b.blocked_by
                },
            forall|k: int| 0 <= k < i ==> #[trigger] items@[k].block_list@ == dominated_list(g, k, n as int),
            forall|k: int| 0 <= k < n ==> #[trigger] s[k].id == k,
            forall|k: int| 0 <= k < n ==> #[trigger] g[k] == (s[k].value as nat, s[k].weight as nat),
        decreases n - i,
    {
        let mut list: Vec<usize> = Vec::new();
        let mut j: usize = 0;
        while j < n
            invariant
                n == items@.len() == s.len(),
                i < n,
                j <= n,
                g == goods(views(s)),
                forall|k: int|
                    0 <= k < n ==> {
                        let a = #[trigger] items@[k];
                        let b = s[k];
                        &&& a.id == b.id
                        &&& a.value == b.value
                        &&& a.weight == b.weight
                    },
                forall|k: int| 0 <= k < n ==> #[trigger] s[k].id == k,
                forall|k: int| 0 <= k < n ==> #[trigger] g[k] == (s[k].value as nat, s[k].weight as nat),
                list@ == dominated_list(g, i as int, j as int),
                forall|k: int| 0 <= k < i ==> #[trigger] items@[k].block_list@ == dominated_list(g, k, n as int),
                forall|k: int|
                    0 <= k < n ==> {
                        let a = #[trigger] items@[k];
                        let b = s[k];
                        &&& a.selected == b.selected
                        &&& a.blocked_by == b.blocked_by
                    },
            decreases n - j,
        {
            if i != j && items[i].value >= items[j].value && items[i].weight <= items[j].weight {
                list.push(items[j].id);
            }
            j += 1;
        }
        let ghost pre = items@;
        let ghost lv = list@;
        assert(j == n);
        assert(lv == dominated_list(g, i as int, n as int));
        items[i].block_list = list;
        proof {
            assert(items@[i as int].block_list@ == lv);
            assert forall|k: int| 0 <= k < i implies #[trigger] items@[k].block_list@
                == dominated_list(g, k, n as int) by {
                assert(items@[k] == pre[k]);
                assert(pre[k].block_list@ == dominated_list(g, k, n as int));
            }
            assert forall|k: int| 0 <= k < n implies {
                let a = #[trigger] items@[k];
                let b = s[k];
                &&& a.id == b.id
                &&& a.value == b.value
                &&& a.weight == b.weight
                &&& a.selected == b.selected
                &&& a.blocked_by == b.blocked_by
            } by {
                if k != i {
                    assert(items@[k] == pre[k]);
                }
            }
        }
        i += 1;
    }
    proof {
        lemma_views_index(items@);
        assert(goods(views(items@)) =~= g);
    }
}

/// Finds an optimal choice by branch and bound with dominance pruning.
///
/// First fills in the block lists. Returns the collection with the selection
/// flags of an optimal choice, its total value, and the number of recursive
/// calls made. The marks are all cleared again when it returns.
pub fn rods_technique(items: &mut [Item], allowed_weight: usize) -> (r: Result<
    (Vec<Item>, usize, usize),
    KnapsackError,
>)
    requires
        ids_are_positions(views(old(items)@)),
        unmarked(views(old(items)@)),
        value_sum(views(old(items)@)) <= usize::MAX,
    ensures
        final(items)@.len() == old(items)@.len(),
        goods(views(final(items)@)) == goods(views(old(items)@)),
        ids_are_positions(views(final(items)@)),
        block_lists_built(views(final(items)@)),
        unmarked(views(final(items)@)),
        r is Ok,
        ({
            let (sol, value, calls) = r->Ok_0;
            &&& is_solution(views(sol@), views(final(items)@), allowed_weight as int)
            &&& chosen_value(views(sol@)) == value
            &&& value == best_value(goods(views(old(items)@)), allowed_weight as int)
            &&& forall|c: Seq<ItemView>|
                same_goods_and_ids(c, views(old(items)@)) && chosen_weight(c) <= allowed_weight
                    ==> #[trigger] chosen_value(c) <= value
            &&& ids_distinct(views(final(items)@)) ==> ids_distinct(selected_of(views(sol@)))
            &&& 1 <= calls
            &&& pow2((old(items)@.len() + 1) as nat) <= usize::MAX + 1 ==> calls <= pow2(
                (old(items)@.len() + 1) as nat,
            ) - 1
        }),
{
    let ghost s0 = views(items@);
    make_block_lists(items);
    let ghost s = views(items@);
    proof {
        assert(goods(s) =~= goods(s0));
        lemma_same_value_sum_goods(s, s0);
    }
    let remaining_value = sum_values(items);
    proof {
        assert(s.take(0) =~= Seq::<ItemView>::empty());
        assert(s.skip(0) =~= s);
        lemma_remaining_is_value_sum(s, 0);
        assert(blocked_set(s) =~= Set::<int>::empty());
        lemma_dominance_pruning_keeps_optimum(goods(s), allowed_weight as int);
    }
    let (sol, value, calls) = do_rod(items, allowed_weight, None, 0, 0, remaining_value, 0);
    proof {
        let f = views(items@);
        assert(goods(f) =~= goods(s));
    }
    proof {
        lemma_optimum_bounds_all_choices(views(old(items)@), allowed_weight as int);
        let fin = views(items@);
        assert(ids_distinct(fin)) by {
            assert forall|a: int, b: int| 0 <= a < b < fin.len() implies fin[a].id != fin[b].id by {
                assert(fin[a].id == a && fin[b].id == b);
            }
        }
        if value is Some && ids_distinct(fin) {
            lemma_solution_ids_distinct(views(sol@), fin, allowed_weight as int);
        }
    }
    match value {
        Some(v) => Ok((sol, v, calls)),
        None => Ok((sol, 0, calls)),
    }
}

/// Runs Rod's technique on the items reordered by descending number of
/// dominated items, so that strong dominators are decided first.
///
/// Ids are reassigned to the new positions and the block lists rebuilt. The
/// reordering is stable and keeps the knapsack optimum, which is the value
/// returned.
pub fn rods_technique_sorted(items: &mut [Item], allowed_weight: usize) -> (r: Result<
    (Vec<Item>, usize, usize),
    KnapsackError,
>)
    requires
        ids_are_positions(views(old(items)@)),
        unmarked(views(old(items)@)),
        value_sum(views(old(items)@)) <= usize::MAX,
    ensures
        final(items)@.len() == old(items)@.len(),
        forall|x: (nat, nat)|
            #[trigger] occurrences(goods(views(final(items)@)), x) == occurrences(
                goods(views(old(items)@)),
                x,
            ),
        forall|c: int|
            #![trigger best_value(goods(views(final(items)@)), c)]
            best_value(goods(views(final(items)@)), c) == best_value(goods(views(old(items)@)), c),
        ids_are_positions(views(final(items)@)),
        block_lists_built(views(final(items)@)),
        block_counts_descending(views(final(items)@)),
        unmarked(views(final(items)@)),
        r is Ok,
        ({
            let (sol, value, calls) = r->Ok_0;
            &&& is_solution(views(sol@), views(final(items)@), allowed_weight as int)
            &&& chosen_value(views(sol@)) == value
            &&& value == best_value(goods(views(old(items)@)), allowed_weight as int)
            &&& forall|c: Seq<ItemView>|
                same_goods_and_ids(c, views(old(items)@)) && chosen_weight(c) <= allowed_weight
                    ==> #[trigger] chosen_value(c) <= value
            &&& ids_distinct(views(final(items)@)) ==> ids_distinct(selected_of(views(sol@)))
            &&& 1 <= calls
            &&& pow2((old(items)@.len() + 1) as nat) <= usize::MAX + 1 ==> calls <= pow2(
                (old(items)@.len() + 1) as nat,
            ) - 1
        }),
{
    let ghost g0 = goods(views(items@));
    proof {
        lemma_remaining_is_value_sum(views(items@), 0);
        assert(views(items@).skip(0) =~= views(items@));
    }
    make_block_lists(items);
    proof {
        assert(goods(views(items@)) =~= g0);
        lemma_views_index(items@);
    }
    proof {
        assert(block_counts_match(views(items@)));
    }
    sort_by_block_count(items);
    let ghost sv = views(items@);
    let n = items.len();
    let mut k: usize = 0;
    while k < n
        invariant
            n == items@.len(),
            k <= n,
            forall|c: int|
                #![trigger best_from(goods(views(items@)), 0, c)]
                best_from(goods(views(items@)), 0, c) == best_from(g0, 0, c),
            remaining(goods(views(items@)), 0) == remaining(g0, 0),
            forall|x: (nat, nat)| #[trigger] occurrences(goods(views(items@)), x) == occurrences(g0, x),
            unmarked(views(items@)),
            forall|t: int| 0 <= t < k ==> #[trigger] items@[t].id == t,
            sv.len() == n,
            goods(sv) == goods(views(items@)),
            block_counts_match(sv),
            block_counts_descending(sv),
            forall|t: int| 0 <= t < n ==> #[trigger] items@[t].block_list@ == sv[t].block_list,
        decreases n - k,
    {
        let ghost before = goods(views(items@));
        let ghost pre = items@;
        items[k].id = k;
        proof {
            lemma_views_index(items@);
            lemma_views_index(pre);
            assert(goods(views(items@)) =~= before);
            assert forall|t: int| 0 <= t < n implies #[trigger] views(items@)[t].blocked_by is None by {
                assert(views(pre)[t].blocked_by is None);
            }
            assert forall|t: int| 0 <= t < n implies #[trigger] items@[t].block_list@ == sv[t].block_list by {
                assert(pre[t].block_list@ == sv[t].block_list);
            }
        }
        k += 1;
    }
    let ghost s1 = views(items@);
    proof {
        lemma_views_index(items@);
        assert(ids_are_positions(s1));
    }
    make_block_lists(items);
    let ghost s = views(items@);
    proof {
        lemma_views_index(items@);
        assert(goods(s) =~= goods(s1));
        lemma_remaining_is_value_sum(s, 0);
        assert(s.skip(0) =~= s);
        assert(s.take(0) =~= Seq::<ItemView>::empty());
        assert(unmarked(s));
        assert(blocked_set(s) =~= Set::<int>::empty());
        lemma_dominance_pruning_keeps_optimum(goods(s), allowed_weight as int);
    }
    let remaining_value = sum_values(items);
    let (sol, value, calls) = do_rod(items, allowed_weight, None, 0, 0, remaining_value, 0);
    proof {
        let f = views(items@);
        assert(goods(f) =~= goods(s));
        assert(goods(s) == goods(sv));
        assert forall|a: int, b: int| 0 <= a <= b < f.len() implies #[trigger] f[a].block_list.len()
            >= #[trigger] f[b].block_list.len() by {
            assert(f[a].block_list == s[a].block_list && f[b].block_list == s[b].block_list);
            assert(s[a].block_list == dominated_list(goods(s), a, n as int));
            assert(s[b].block_list == dominated_list(goods(s), b, n as int));
            assert(sv[a].block_list.len() == dominated_list(goods(sv), a, n as int).len());
            assert(sv[b].block_list.len() == dominated_list(goods(sv), b, n as int).len());
            assert(sv[a].block_list.len() >= sv[b].block_list.len());
        }
    }
    proof {
        lemma_optimum_bounds_all_choices(views(old(items)@), allowed_weight as int);
        let fin = views(items@);
        assert(ids_distinct(fin)) by {
            assert forall|a: int, b: int| 0 <= a < b < fin.len() implies fin[a].id != fin[b].id by {
                assert(fin[a].id == a && fin[b].id == b);
            }
        }
        if value is Some && ids_distinct(fin) {
            lemma_solution_ids_distinct(views(sol@), fin, allowed_weight as int);
        }
    }
    match value {
        Some(v) => Ok((sol, v, calls)),
        None => Ok((sol, 0, calls)),
    }
}

/// Exchanges the items at `p` and `p + 1`.
fn swap_neighbours(items: &mut [Item], p: usize)
    requires
        p + 1 < old(items)@.len(),
    ensures
        views(final(items)@) == views(old(items)@).update(p as int, views(old(items)@)[p + 1]).update(
            p + 1,
            views(old(items)@)[p as int],
        ),
{
    let a = copy_item(&items[p]);
    let b = copy_item(&items[p + 1]);
    items[p] = b;
    items[p + 1] = a;
    proof {
        lemma_views_index(items@);
        lemma_views_index(old(items)@);
        assert(views(items@) =~= views(old(items)@).update(p as int, views(old(items)@)[p + 1]).update(
            p + 1,
            views(old(items)@)[p as int],
        ));
    }
}

/// Stable insertion sort by descending block-list length.
fn sort_by_block_count(items: &mut [Item])
    ensures
        final(items)@.len() == old(items)@.len(),
        forall|c: int|
            #![trigger best_from(goods(views(final(items)@)), 0, c)]
            best_from(goods(views(final(items)@)), 0, c) == best_from(goods(views(old(items)@)), 0, c),
        remaining(goods(views(final(items)@)), 0) == remaining(goods(views(old(items)@)), 0),
        unmarked(views(old(items)@)) ==> unmarked(views(final(items)@)),
        forall|x: (nat, nat)|
            #[trigger] occurrences(goods(views(final(items)@)), x) == occurrences(
                goods(views(old(items)@)),
                x,
            ),
        block_counts_match(views(old(items)@)) ==> block_counts_match(views(final(items)@)),
        block_counts_descending(views(final(items)@)),
{
    let ghost g0 = goods(views(items@));
    let ghost was_unmarked = unmarked(views(items@));
    let ghost counted = block_counts_match(views(items@));
    let n = items.len();
    let mut i: usize = 1;
    proof {
        lemma_views_index(items@);
    }
    while i < n
        invariant
            n == items@.len() == old(items)@.len(),
            1 <= i,
            i <= n || n == 0,
            g0 == goods(views(old(items)@)),
            was_unmarked == unmarked(views(old(items)@)),
            counted == block_counts_match(views(old(items)@)),
            forall|c: int|
                #![trigger best_from(goods(views(items@)), 0, c)]
                best_from(goods(views(items@)), 0, c) == best_from(g0, 0, c),
            remaining(goods(views(items@)), 0) == remaining(g0, 0),
            was_unmarked ==> unmarked(views(items@)),
            forall|x: (nat, nat)| #[trigger] occurrences(goods(views(items@)), x) == occurrences(g0, x),
            counted ==> block_counts_match(views(items@)),
            forall|a: int, b: int|
                0 <= a <= b < i && b < n ==> #[trigger] items@[a].block_list@.len()
                    >= #[trigger] items@[b].block_list@.len(),
        decreases n - i,
    {
        let mut j: usize = i;
        while j > 0 && items[j - 1].block_list.len() < items[j].block_list.len()
            invariant
                n == items@.len(),
                j <= i < n,
                counted == block_counts_match(views(old(items)@)),
                forall|c: int|
                    #![trigger best_from(goods(views(items@)), 0, c)]
                    best_from(goods(views(items@)), 0, c) == best_from(g0, 0, c),
                remaining(goods(views(items@)), 0) == remaining(g0, 0),
                was_unmarked ==> unmarked(views(items@)),
                forall|x: (nat, nat)| #[trigger] occurrences(goods(views(items@)), x) == occurrences(g0, x),
                counted ==> block_counts_match(views(items@)),
                forall|a: int, b: int|
                    0 <= a <= b <= i && a != j && b != j ==> #[trigger] items@[a].block_list@.len()
                        >= #[trigger] items@[b].block_list@.len(),
                forall|b: int|
                    j < b <= i ==> items@[j as int].block_list@.len() > #[trigger] items@[b].block_list@.len(),
                0 < j < i ==> items@[j - 1].block_list@.len() >= items@[j + 1].block_list@.len(),
            decreases j,
        {
            let ghost g = goods(views(items@));
            let ghost before = views(items@);
            let ghost bi = items@;
            swap_neighbours(items, j - 1);
            proof {
                lemma_views_index(items@);
                lemma_views_index(bi);
                assert(goods(views(items@)) =~= swapped(g, j - 1));
                assert forall|c: int| #[trigger] best_from(goods(views(items@)), 0, c) == best_from(
                    g0,
                    0,
                    c,
                ) by {
                    lemma_best_swap(g, j - 1, 0, c);
                }
                lemma_best_swap(g, j - 1, 0, 0);
                lemma_swap_keeps_items(g, j - 1);
                if was_unmarked {
                    assert forall|t: int| 0 <= t < n implies #[trigger] views(items@)[t].blocked_by is None by {
                        assert(before[t].blocked_by is None);
                        assert(before[j - 1].blocked_by is None);
                        assert(before[j as int].blocked_by is None);
                    }
                }
                let after = views(items@);
                assert forall|t: int| 0 <= t < n implies #[trigger] items@[t].block_list@.len()
                    == bi[swap_pos(j - 1, t)].block_list@.len() by {
                    assert(items@[t]@ == after[t]);
                }
                if counted {
                    assert forall|t: int| 0 <= t < n implies #[trigger] after[t].block_list.len()
                        == dominated_list(goods(after), t, n as int).len() by {
                        let u = swap_pos(j - 1, t);
                        assert(swap_pos(j - 1, u) == t);
                        assert(before[u].block_list.len() == dominated_list(g, u, n as int).len());
                        lemma_dominated_count_swap(g, j - 1, u, n as int);
                        assert(after[t] == before[u]);
                    }
                }
            }
            j -= 1;
        }
        proof {
            assert forall|a: int, b: int|
                0 <= a <= b < i + 1 && b < n implies #[trigger] items@[a].block_list@.len()
                    >= #[trigger] items@[b].block_list@.len() by {
                if a == j && b > a {
                } else if b == j && a < b {
                    if a < j - 1 {
                        assert(items@[a].block_list@.len() >= items@[j - 1].block_list@.len());
                    }
                }
            }
        }
        i += 1;
    }
}

proof fn lemma_same_value_sum_goods(a: Seq<ItemView>, b: Seq<ItemView>)
    requires
        goods(a) == goods(b),
    ensures
        value_sum(a) == value_sum(b),
    decreases a.len(),
{
    assert(a.len() == goods(a).len());
    assert(b.len() == goods(b).len());
    if a.len() > 0 {
        assert(goods(a.drop_last()) =~= goods(a).drop_last());
        assert(goods(b.drop_last()) =~= goods(b).drop_last());
        assert(goods(a)[a.len() - 1] == goods(b)[a.len() - 1]);
        lemma_same_value_sum_goods(a.drop_last(), b.drop_last());
    }
}

proof fn lemma_contains_push(p: Seq<usize>, x: usize, y: usize)
    ensures
        p.push(x).contains(y) == (p.contains(y) || x == y),
{
    let q = p.push(x);
    if p.contains(y) {
        let u = choose|u: int| 0 <= u < p.len() && p[u] == y;
        assert(q[u] == y);
    }
    if x == y {
        assert(q[p.len() as int] == y);
    }
    if q.contains(y) {
        let u = choose|u: int| 0 <= u < q.len() && q[u] == y;
        if u < p.len() {
            assert(p[u] == y);
        }
    }
}

/// Blocks every item in `list` that is not blocked yet, in the name of `id`.
fn mark_all(items: &mut [Item], list: &Vec<usize>, id: usize)
    requires
        forall|t: int| 0 <= t < list@.len() ==> #[trigger] list@[t] < old(items)@.len(),
    ensures
        final(items)@.len() == old(items)@.len(),
        forall|k: int|
            0 <= k < old(items)@.len() ==> {
                let a = #[trigger] final(items)@[k]@;
                let b = old(items)@[k]@;
                &&& agrees_but_mark(a, b)
                &&& a.blocked_by == if list@.contains(k as usize) && b.blocked_by is None {
                    Some(id)
                } else {
                    b.blocked_by
                }
            },
{
    let ghost s = items@;
    let mut t: usize = 0;
    while t < list.len()
        invariant
            items@.len() == s.len(),
            t <= list@.len(),
            forall|u: int| 0 <= u < list@.len() ==> #[trigger] list@[u] < s.len(),
            forall|k: int|
                0 <= k < s.len() ==> {
                    let a = #[trigger] items@[k]@;
                    let b = s[k]@;
                    &&& agrees_but_mark(a, b)
                    &&& a.blocked_by == if list@.take(t as int).contains(k as usize)
                        && b.blocked_by is None {
                        Some(id)
                    } else {
                        b.blocked_by
                    }
                },
        decreases list@.len() - t,
    {
        let j = list[t];
        proof {
            assert(list@.take(t + 1) =~= list@.take(t as int).push(j));
        }
        let ghost pre = items@;
        if items[j].blocked_by.is_none() {
            items[j].blocked_by = Some(id);
        }
        t += 1;
        proof {
            assert forall|k: int| 0 <= k < s.len() implies {
                let a = #[trigger] items@[k]@;
                let b = s[k]@;
                &&& agrees_but_mark(a, b)
                &&& a.blocked_by == if list@.take(t as int).contains(k as usize)
                    && b.blocked_by is None {
                    Some(id)
                } else {
                    b.blocked_by
                }
            } by {
                lemma_contains_push(list@.take(t - 1), j, k as usize);
                if k != j {
                    assert(items@[k] == pre[k]);
                }
            }
        }
    }
    assert(list@.take(t as int) =~= list@);
}

/// Clears the marks in `list` that were set in the name of `id`.
fn unmark_all(items: &mut [Item], list: &Vec<usize>, id: usize)
    requires
        forall|t: int| 0 <= t < list@.len() ==> #[trigger] list@[t] < old(items)@.len(),
    ensures
        final(items)@.len() == old(items)@.len(),
        forall|k: int|
            0 <= k < old(items)@.len() ==> {
                let a = #[trigger] final(items)@[k]@;
                let b = old(items)@[k]@;
                &&& agrees_but_mark(a, b)
                &&& a.blocked_by == if list@.contains(k as usize) && b.blocked_by == Some(id) {
                    None
                } else {
                    b.blocked_by
                }
            },
{
    let ghost s = items@;
    let mut t: usize = 0;
    while t < list.len()
        invariant
            items@.len() == s.len(),
            t <= list@.len(),
            forall|u: int| 0 <= u < list@.len() ==> #[trigger] list@[u] < s.len(),
            forall|k: int|
                0 <= k < s.len() ==> {
                    let a = #[trigger] items@[k]@;
                    let b = s[k]@;
                    &&& agrees_but_mark(a, b)
                    &&& a.blocked_by == if list@.take(t as int).contains(k as usize)
                        && b.blocked_by == Some(id) {
                        None
                    } else {
                        b.blocked_by
                    }
                },
        decreases list@.len() - t,
    {
        let j = list[t];
        proof {
            assert(list@.take(t + 1) =~= list@.take(t as int).push(j));
        }
        let ghost pre = items@;
        let owned = match items[j].blocked_by {
            Some(b) => b == id,
            None => false,
        };
        if owned {
            items[j].blocked_by = None;
        }
        t += 1;
        proof {
            assert forall|k: int| 0 <= k < s.len() implies {
                let a = #[trigger] items@[k]@;
                let b = s[k]@;
                &&& agrees_but_mark(a, b)
                &&& a.blocked_by == if list@.take(t as int).contains(k as usize)
                    && b.blocked_by == Some(id) {
                    None
                } else {
                    b.blocked_by
                }
            } by {
                lemma_contains_push(list@.take(t - 1), j, k as usize);
                if k != j {
                    assert(items@[k] == pre[k]);
                } else {
                    let pb = pre[k]@;
                    assert(agrees_but_mark(pb, s[k]@));
                }
            }
        }
    }
    assert(list@.take(t as int) =~= list@);
}

/// The state of a node's exclude branch: the marks in the name of item `idx`
/// are set and the item is left out.
proof fn lemma_marked(
    s: Seq<ItemView>,
    f1: Seq<ItemView>,
    s2: Seq<ItemView>,
    list: Seq<usize>,
    idx: int,
)
    requires
        0 <= idx < s.len() <= usize::MAX,
        ids_are_positions(s),
        block_lists_built(s),
        marks_below(s, idx),
        same_but_selection(f1, s),
        forall|k: int| 0 <= k < idx ==> f1[k] == s[k],
        list == s[idx].block_list,
        s2.len() == s.len(),
        !s2[idx].selected,
        forall|k: int|
            0 <= k < s.len() ==> {
                let a = #[trigger] s2[k];
                let b = f1[k];
                &&& a.id == b.id
                &&& a.value == b.value
                &&& a.weight == b.weight
                &&& a.block_list == b.block_list
                &&& (k != idx ==> a.selected == b.selected)
                &&& a.blocked_by == if list.contains(k as usize) && b.blocked_by is None {
                    Some(idx as usize)
                } else {
                    b.blocked_by
                }
            },
    ensures
        chosen_value(s2.take(idx + 1)) == chosen_value(s.take(idx)),
        chosen_weight(s2.take(idx + 1)) == chosen_weight(s.take(idx)),
        goods(s2) == goods(s),
        value_sum(s2) == value_sum(s),
        ids_are_positions(s2),
        block_lists_built(s2),
        marks_below(s2, idx + 1),
        blocked_set(s2) == blocked_set(s).union(dominated_by(goods(s), idx)),
{
    let g = goods(s);
    let n = s.len();
    let d = dominated_by(g, idx);
    lemma_dominated_list(g, idx, n as int);
    assert forall|k: int| 0 <= k < idx implies s2[k].selected == s[k].selected && s2[k].value
        == s[k].value && s2[k].weight == s[k].weight by {
        assert(f1[k] == s[k]);
    }
    lemma_same_chosen_sums(s2.take(idx), s.take(idx));
    lemma_take_one_more(s2, idx);
    lemma_same_value_sum(s2, s);
    assert(goods(s2) =~= g);
    assert(blocked_set(s2) =~= blocked_set(s).union(d)) by {
        assert forall|k: int| 0 <= k < n implies (list.contains(k as usize) <==> d.contains(k)) by {
            if list.contains(k as usize) {
                let t = choose|t: int| 0 <= t < list.len() && list[t] == k as usize;
                assert(list[t] == k as usize);
            }
        }
    }
    assert(block_lists_built(s2)) by {
        assert forall|k: int| 0 <= k < n implies #[trigger] s2[k].block_list == dominated_list(
            goods(s2),
            k,
            n as int,
        ) by {
            assert(s[k].block_list == dominated_list(g, k, n as int));
        }
    }
    assert(ids_are_positions(s2)) by {
        assert forall|k: int| 0 <= k < n implies #[trigger] s2[k].id == k by {
            assert(s[k].id == k);
        }
    }
    assert(marks_below(s2, idx + 1)) by {
        assert forall|k: int| 0 <= k < n && #[trigger] s2[k].blocked_by is Some implies s2[k].blocked_by->0
            < idx + 1 by {
            if f1[k].blocked_by is Some {
                assert(s[k].blocked_by == f1[k].blocked_by);
            }
        }
    }
}

/// Once the exclude branch is back and the marks in the name of item `idx`
/// are cleared, every item holds its mark from before the node again.
proof fn lemma_unmarked(
    s: Seq<ItemView>,
    f1: Seq<ItemView>,
    s2: Seq<ItemView>,
    f2: Seq<ItemView>,
    u: Seq<ItemView>,
    list: Seq<usize>,
    idx: int,
)
    requires
        0 <= idx < s.len() <= usize::MAX,
        marks_below(s, idx),
        same_but_selection(f1, s),
        forall|k: int| 0 <= k < idx ==> f1[k] == s[k],
        s2.len() == s.len(),
        forall|k: int|
            0 <= k < s.len() ==> {
                let a = #[trigger] s2[k];
                let b = f1[k];
                &&& a.id == b.id
                &&& a.value == b.value
                &&& a.weight == b.weight
                &&& a.block_list == b.block_list
                &&& (k != idx ==> a.selected == b.selected)
                &&& a.blocked_by == if list.contains(k as usize) && b.blocked_by is None {
                    Some(idx as usize)
                } else {
                    b.blocked_by
                }
            },
        same_but_selection(f2, s2),
        forall|k: int| 0 <= k <= idx ==> f2[k] == s2[k],
        u.len() == s.len(),
        forall|k: int|
            0 <= k < s.len() ==> {
                let a = #[trigger] u[k];
                let b = f2[k];
                &&& agrees_but_mark(a, b)
                &&& a.blocked_by == if list.contains(k as usize) && b.blocked_by == Some(
                    idx as usize,
                ) {
                    None
                } else {
                    b.blocked_by
                }
            },
    ensures
        same_but_selection(u, s),
        u.take(idx) == s.take(idx),
{
    assert forall|k: int| 0 <= k < s.len() implies #[trigger] u[k].blocked_by == s[k].blocked_by by {
        assert(f1[k].blocked_by == s[k].blocked_by);
        assert(f2[k].blocked_by == s2[k].blocked_by);
        if s[k].blocked_by is Some {
            assert(s[k].blocked_by->0 < idx);
        }
    }
    assert forall|k: int| 0 <= k < s.len() implies agrees_but_selection(u[k], s[k]) by {
        assert(agrees_but_selection(f1[k], s[k]));
        assert(agrees_but_selection(f2[k], s2[k]));
    }
    assert forall|k: int| 0 <= k < idx implies u[k] == s[k] by {
        assert(f2[k] == s2[k]);
        assert(f1[k] == s[k]);
    }
    assert(u.take(idx) =~= s.take(idx));
}

fn do_rod(
    items: &mut [Item],
    allowed_weight: usize,
    best_value: Option<usize>,
    current_value: usize,
    current_weight: usize,
    remaining_value: usize,
    next_idx: usize,
) -> (r: (Vec<Item>, Option<usize>, usize))
    requires
        node_state(
            views(old(items)@),
            allowed_weight,
            current_value,
            current_weight,
            remaining_value,
            next_idx,
        ),
        ids_are_positions(views(old(items)@)),
        block_lists_built(views(old(items)@)),
        marks_below(views(old(items)@), next_idx as int),
    ensures
        same_but_selection(views(final(items)@), views(old(items)@)),
        views(final(items)@).take(next_idx as int) == views(old(items)@).take(next_idx as int),
        1 <= r.2,
        pow2((old(items)@.len() - next_idx + 1) as nat) <= usize::MAX + 1 ==> r.2 <= pow2(
            (old(items)@.len() - next_idx + 1) as nat,
        ) - 1,
        ({
            let s = views(old(items)@);
            let o = current_value + best_unblocked(
                goods(s),
                next_idx as int,
                allowed_weight - current_weight,
                blocked_set(s),
            );
            &&& r.1 is Some ==> {
                &&& is_solution(views(r.0@), s, allowed_weight as int)
                &&& keeps_decided(views(r.0@), s, next_idx as int)
                &&& forall|k: int|
                    next_idx <= k < s.len() && (#[trigger] s[k]).blocked_by is Some
                        ==> !views(r.0@)[k].selected
                &&& chosen_value(views(r.0@)) == r.1->0
                &&& r.1->0 <= o
            }
            &&& (best_value is None || o > best_value->0) ==> (r.1 is Some && r.1->0 == o)
        }),
    decreases old(items)@.len() - next_idx,
{
    let ghost s = views(items@);
    let ghost g = goods(s);
    let ghost n = s.len();
    let ghost bs = blocked_set(s);
    proof {
        crate::branch_bound::lemma_node_bounds(s, next_idx as int);
        lemma_unblocked_at_most_remaining(g, next_idx as int, allowed_weight - current_weight, bs);
        lemma_pow2_unfold((n - next_idx + 1) as nat);
        lemma_pow2_pos((n - next_idx) as nat);
    }
    if next_idx >= items.len() {
        proof {
            assert(s.take(n as int) =~= s);
        }
        return (duplicate(items), Some(current_value), 1);
    }
    if let Some(b) = best_value {
        if current_value + remaining_value <= b {
            return (Vec::new(), None, 1);
        }
    }
    let ghost w = items@[next_idx as int].weight;
    let ghost v = items@[next_idx as int].value;
    proof {
        assert(g[next_idx as int] == (v as nat, w as nat));
        assert(bs.contains(next_idx as int) == (s[next_idx as int].blocked_by is Some));
    }
    let ghost mut s1 = s;
    let (sol1, v1, c1) = if items[next_idx].blocked_by.is_none() && items[next_idx].weight
        <= allowed_weight - current_weight {
        items[next_idx].selected = true;
        proof {
            s1 = views(items@);
            assert(same_but_selection(s1, s));
            assert(s1.take(next_idx as int) =~= s.take(next_idx as int));
            lemma_take_one_more(s1, next_idx as int);
            lemma_same_goods(s1, s);
            lemma_same_value_sum(s1, s);
            assert(blocked_set(s1) =~= bs);
        }
        do_rod(
            items,
            allowed_weight,
            best_value,
            current_value + items[next_idx].value,
            current_weight + items[next_idx].weight,
            remaining_value - items[next_idx].value,
            next_idx + 1,
        )
    } else {
        (Vec::new(), None, 1)
    };
    let ghost f1 = views(items@);
    let best2 = raise(best_value, v1);
    // Leave the item out, and block what it dominates.
    let list = items[next_idx].block_list.clone();
    let id = items[next_idx].id;
    proof {
        lemma_views_index(items@);
        assert(same_but_selection(f1, s));
        assert forall|k: int| 0 <= k < next_idx implies f1[k] == s[k] by {
            if s1 != s {
                assert(f1.take(next_idx + 1)[k] == s1.take(next_idx + 1)[k]);
                assert(s1.take(next_idx as int)[k] == s.take(next_idx as int)[k]);
            }
        }
        assert(s[next_idx as int].id == next_idx);
        assert(list@ == s[next_idx as int].block_list);
        assert(s[next_idx as int].block_list == dominated_list(g, next_idx as int, n as int));
        lemma_dominated_list(g, next_idx as int, n as int);
    }
    let ghost fi = items@;
    mark_all(items, &list, id);
    let ghost m = items@;
    items[next_idx].selected = false;
    let ghost s2 = views(items@);
    proof {
        lemma_views_index(items@);
        lemma_views_index(fi);
        assert forall|k: int| 0 <= k < n implies {
            let a = #[trigger] s2[k];
            let b = f1[k];
            &&& a.id == b.id
            &&& a.value == b.value
            &&& a.weight == b.weight
            &&& a.block_list == b.block_list
            &&& (k != next_idx ==> a.selected == b.selected)
            &&& a.blocked_by == if list@.contains(k as usize) && b.blocked_by is None {
                Some(next_idx)
            } else {
                b.blocked_by
            }
        } by {
            assert(agrees_but_mark(m[k]@, fi[k]@));
            if k != next_idx {
                assert(items@[k] == m[k]);
            }
        }
        lemma_marked(s, f1, s2, list@, next_idx as int);
    }
    let (sol2, v2, c2) = do_rod(
        items,
        allowed_weight,
        best2,
        current_value,
        current_weight,
        remaining_value - items[next_idx].value,
        next_idx + 1,
    );
    let ghost f2 = views(items@);
    proof {
        assert forall|k: int| 0 <= k <= next_idx implies f2[k] == s2[k] by {
            assert(f2.take(next_idx + 1)[k] == s2.take(next_idx + 1)[k]);
        }
        lemma_views_index(items@);
    }
    unmark_all(items, &list, id);
    proof {
        lemma_views_index(items@);
        lemma_unmarked(s, f1, s2, f2, views(items@), list@, next_idx as int);
        assert forall|j: int| 0 <= j < next_idx implies #[trigger] s2[j].selected == s[j].selected
            && s1[j].selected == s[j].selected by {
            assert(f1[j] == s[j]);
            if s1 != s {
                assert(s1.take(next_idx as int)[j] == s.take(next_idx as int)[j]);
            }
        }
        assert forall|k: int| next_idx < k < n && (#[trigger] s[k]).blocked_by is Some implies s2[k].blocked_by is Some
            && s1[k].blocked_by is Some by {
            assert(f1[k].blocked_by == s[k].blocked_by);
        }
        if v1 is Some {
            assert(s1 != s || s[next_idx as int].blocked_by is None);
        }
    }
    if first_is_better(v1, v2) {
        (sol1, v1, c1.saturating_add(c2).saturating_add(1))
    } else {
        (sol2, v2, c1.saturating_add(c2).saturating_add(1))
    }
}

} // verus!
