use rand::rngs::SmallRng;
use rand::Rng;
use vstd::prelude::*;

verus! {

/// rand's small, fast generator, carried through as an opaque value.
#[verifier::external_type_specification]
#[verifier::external_body]
pub struct ExSmallRng(SmallRng);

/// Relies on rand's `Rng::gen_range`: a value drawn from the half-open range
/// `lo..hi`, which must not be empty.
#[verifier::external_body]
fn draw_in_range(rng: &mut SmallRng, lo: usize, hi: usize) -> (r: usize)
    requires
        lo < hi,
    ensures
        lo <= r < hi,
{
    rng.gen_range(lo..hi)
}

/// An item that may be placed into a knapsack.
///
/// `id` is the item's position in its collection. `block_list` holds the ids
/// of the items that this one dominates; `blocked_by` is the transient mark
/// that the dominance-pruned search sets along its current path.
#[derive(Clone, Debug, Default, PartialEq)]
pub struct Item {
    pub id: usize,
    pub value: usize,
    pub weight: usize,
    pub selected: bool,
    pub blocked_by: Option<usize>,
    pub block_list: Vec<usize>,
}

/// The mathematical value of an [`Item`].
pub struct ItemView {
    pub id: usize,
    pub value: usize,
    pub weight: usize,
    pub selected: bool,
    pub blocked_by: Option<usize>,
    pub block_list: Seq<usize>,
}

impl View for Item {
    type V = ItemView;

    open spec fn view(&self) -> ItemView {
        ItemView {
            id: self.id,
            value: self.value,
            weight: self.weight,
            selected: self.selected,
            blocked_by: self.blocked_by,
            block_list: self.block_list@,
        }
    }
}

/// A collection of items, for display.
pub struct Items(pub Vec<Item>);

/// The views of a sequence of items.
pub open spec fn views(s: Seq<Item>) -> Seq<ItemView> {
    s.map_values(|it: Item| it@)
}

/// The items of `s` whose `selected` flag is set, in order.
pub open spec fn selected_of(s: Seq<ItemView>) -> Seq<ItemView>
    decreases s.len(),
{
    if s.len() == 0 {
        Seq::empty()
    } else if s.last().selected {
        selected_of(s.drop_last()).push(s.last())
    } else {
        selected_of(s.drop_last())
    }
}

/// The sum of the values of the items of `s`.
pub open spec fn value_sum(s: Seq<ItemView>) -> nat
    decreases s.len(),
{
    if s.len() == 0 {
        0
    } else {
        value_sum(s.drop_last()) + s.last().value as nat
    }
}

/// The sum of the weights of the items of `s`.
pub open spec fn weight_sum(s: Seq<ItemView>) -> nat
    decreases s.len(),
{
    if s.len() == 0 {
        0
    } else {
        weight_sum(s.drop_last()) + s.last().weight as nat
    }
}

/// The total value of the selected items of `s`.
pub open spec fn chosen_value(s: Seq<ItemView>) -> nat {
    value_sum(selected_of(s))
}

/// The total weight of the selected items of `s`.
pub open spec fn chosen_weight(s: Seq<ItemView>) -> nat {
    weight_sum(selected_of(s))
}

/// `a` and `b` are the same item, whatever their selection flags.
pub open spec fn agrees_but_selection(a: ItemView, b: ItemView) -> bool {
    a.id == b.id && a.value == b.value && a.weight == b.weight && a.blocked_by == b.blocked_by
        && a.block_list == b.block_list
}

/// `a` and `b` hold the same items in the same order, whatever their
/// selection flags.
pub open spec fn same_but_selection(a: Seq<ItemView>, b: Seq<ItemView>) -> bool {
    a.len() == b.len() && forall|k: int| 0 <= k < a.len() ==> agrees_but_selection(a[k], b[k])
}

/// `a` and `b` hold items with the same ids, values and weights, in the same
/// order.
pub open spec fn same_goods_and_ids(a: Seq<ItemView>, b: Seq<ItemView>) -> bool {
    a.len() == b.len() && forall|k: int|
        0 <= k < a.len() ==> a[k].id == b[k].id && a[k].value == b[k].value && a[k].weight
            == b[k].weight
}

/// `sol` keeps the selection flags of the first `k` items of `items`.
pub open spec fn keeps_decided(sol: Seq<ItemView>, items: Seq<ItemView>, k: int) -> bool {
    forall|j: int| 0 <= j < k ==> #[trigger] sol[j].selected == items[j].selected
}

/// `sol` is a choice among the items of `items` that weighs at most `cap`.
pub open spec fn is_solution(sol: Seq<ItemView>, items: Seq<ItemView>, cap: int) -> bool {
    same_goods_and_ids(sol, items) && chosen_weight(sol) <= cap
}

/// Errors of the item aggregates.
#[derive(Debug, PartialEq, Eq)]
pub enum KnapsackError {
    /// The selected items weigh more than the capacity allows.
    Overweight,
}

pub proof fn lemma_sums_concat(a: Seq<ItemView>, b: Seq<ItemView>)
    ensures
        value_sum(a + b) == value_sum(a) + value_sum(b),
        weight_sum(a + b) == weight_sum(a) + weight_sum(b),
        selected_of(a + b) == selected_of(a) + selected_of(b),
    decreases b.len(),
{
    if b.len() == 0 {
        assert(a + b =~= a);
        assert(selected_of(a) + selected_of(b) =~= selected_of(a));
    } else {
        lemma_sums_concat(a, b.drop_last());
        assert((a + b).drop_last() =~= a + b.drop_last());
        assert((a + b).last() == b.last());
        if b.last().selected {
            assert(selected_of(a) + selected_of(b) =~= (selected_of(a) + selected_of(
                b.drop_last(),
            )).push(b.last()));
        }
    }
}

pub proof fn lemma_selected_sums_bounded(s: Seq<ItemView>)
    ensures
        chosen_value(s) <= value_sum(s),
        chosen_weight(s) <= weight_sum(s),
    decreases s.len(),
{
    if s.len() > 0 {
        lemma_selected_sums_bounded(s.drop_last());
        let p = selected_of(s.drop_last());
        assert(p.push(s.last()).drop_last() =~= p);
    }
}

pub proof fn lemma_views_index(s: Seq<Item>)
    ensures
        views(s).len() == s.len(),
        forall|k: int| 0 <= k < s.len() ==> #[trigger] views(s)[k] == s[k]@,
{
}

pub proof fn lemma_views_push(s: Seq<Item>, x: Item)
    ensures
        views(s.push(x)) == views(s).push(x@),
{
    assert(views(s.push(x)) =~= views(s).push(x@));
}

pub proof fn lemma_views_take_one_more(s: Seq<Item>, i: int)
    requires
        0 <= i < s.len(),
    ensures
        views(s.take(i + 1)) == views(s.take(i)).push(s[i]@),
{
    assert(views(s.take(i + 1)) =~= views(s.take(i)).push(s[i]@));
}

pub proof fn lemma_same_value_sum(a: Seq<ItemView>, b: Seq<ItemView>)
    requires
        a.len() == b.len(),
        forall|k: int| 0 <= k < a.len() ==> a[k].value == b[k].value && a[k].weight == b[k].weight,
    ensures
        value_sum(a) == value_sum(b),
        weight_sum(a) == weight_sum(b),
    decreases a.len(),
{
    if a.len() > 0 {
        lemma_same_value_sum(a.drop_last(), b.drop_last());
    }
}

pub proof fn lemma_same_chosen_sums(a: Seq<ItemView>, b: Seq<ItemView>)
    requires
        a.len() == b.len(),
        forall|k: int|
            0 <= k < a.len() ==> a[k].value == b[k].value && a[k].weight == b[k].weight
                && a[k].selected == b[k].selected,
    ensures
        chosen_value(a) == chosen_value(b),
        chosen_weight(a) == chosen_weight(b),
    decreases a.len(),
{
    if a.len() > 0 {
        lemma_same_chosen_sums(a.drop_last(), b.drop_last());
        if a.last().selected {
            let pa = selected_of(a.drop_last());
            let pb = selected_of(b.drop_last());
            assert(pa.push(a.last()).drop_last() =~= pa);
            assert(pb.push(b.last()).drop_last() =~= pb);
        }
    }
}

/// Extends prefix sums by one item.
pub proof fn lemma_take_one_more(s: Seq<ItemView>, i: int)
    requires
        0 <= i < s.len(),
    ensures
        value_sum(s.take(i + 1)) == value_sum(s.take(i)) + s[i].value,
        weight_sum(s.take(i + 1)) == weight_sum(s.take(i)) + s[i].weight,
        chosen_value(s.take(i + 1)) == chosen_value(s.take(i)) + (if s[i].selected {
            s[i].value as nat
        } else {
            0
        }),
        chosen_weight(s.take(i + 1)) == chosen_weight(s.take(i)) + (if s[i].selected {
            s[i].weight as nat
        } else {
            0
        }),
{
    let t = s.take(i + 1);
    assert(t.drop_last() =~= s.take(i));
    assert(t.last() == s[i]);
    if s[i].selected {
        let p = selected_of(s.take(i));
        assert(selected_of(t) == p.push(s[i]));
        assert(p.push(s[i]).drop_last() =~= p);
    }
}

/// No two items of `s` share an id.
pub open spec fn ids_distinct(s: Seq<ItemView>) -> bool {
    forall|a: int, b: int| 0 <= a < b < s.len() ==> s[a].id != s[b].id
}

proof fn lemma_selected_ids(s: Seq<ItemView>)
    ensures
        forall|a: int|
            #![trigger selected_of(s)[a]]
            0 <= a < selected_of(s).len() ==> exists|k: int|
                0 <= k < s.len() && #[trigger] s[k].id == selected_of(s)[a].id,
        ids_distinct(s) ==> ids_distinct(selected_of(s)),
    decreases s.len(),
{
    if s.len() > 0 {
        let p = s.drop_last();
        lemma_selected_ids(p);
        let q = selected_of(p);
        assert forall|a: int|
            #![trigger selected_of(s)[a]]
            0 <= a < selected_of(s).len() implies exists|k: int|
                0 <= k < s.len() && #[trigger] s[k].id == selected_of(s)[a].id by {
            if a < q.len() {
                assert(selected_of(s)[a] == q[a]);
                let k = choose|k: int| 0 <= k < p.len() && #[trigger] p[k].id == q[a].id;
                assert(s[k] == p[k]);
            } else {
                assert(s[s.len() - 1] == selected_of(s)[a]);
            }
        }
        if ids_distinct(s) {
            assert(ids_distinct(p)) by {
                assert forall|a: int, b: int| 0 <= a < b < p.len() implies p[a].id != p[b].id by {
                    assert(p[a] == s[a] && p[b] == s[b]);
                }
            }
            if s.last().selected {
                assert forall|a: int, b: int|
                    0 <= a < b < selected_of(s).len() implies selected_of(s)[a].id != selected_of(
                        s,
                    )[b].id by {
                    if b == q.len() {
                        let k = choose|k: int| 0 <= k < p.len() && #[trigger] p[k].id == q[a].id;
                        assert(s[k] == p[k]);
                    } else {
                        assert(selected_of(s)[a] == q[a] && selected_of(s)[b] == q[b]);
                    }
                }
            }
        }
    }
}

/// A solution never selects an item twice: when the collection's ids are
/// distinct, so are the ids of the selected items of a choice among them.
pub proof fn lemma_solution_ids_distinct(sol: Seq<ItemView>, items: Seq<ItemView>, cap: int)
    requires
        is_solution(sol, items, cap),
        ids_distinct(items),
    ensures
        weight_sum(selected_of(sol)) <= cap,
        ids_distinct(selected_of(sol)),
{
    assert(ids_distinct(sol)) by {
        assert forall|a: int, b: int| 0 <= a < b < sol.len() implies sol[a].id != sol[b].id by {
            assert(items[a].id != items[b].id);
        }
    }
    lemma_selected_ids(sol);
}

/// Copies one item, field by field.
pub fn copy_item(it: &Item) -> (r: Item)
    ensures
        r@ == it@,
{
    Item {
        id: it.id,
        value: it.value,
        weight: it.weight,
        selected: it.selected,
        blocked_by: it.blocked_by,
        block_list: it.block_list.clone(),
    }
}

/// Returns an independent copy of the collection.
pub fn duplicate(items: &[Item]) -> (r: Vec<Item>)
    ensures
        views(r@) == views(items@),
{
    let mut r: Vec<Item> = Vec::with_capacity(items.len());
    let mut i: usize = 0;
    while i < items.len()
        invariant
            i <= items@.len(),
            views(r@) == views(items@.take(i as int)),
        decreases items@.len() - i,
    {
        let ghost before = r@;
        r.push(copy_item(&items[i]));
        proof {
            lemma_views_push(before, items@[i as int]);
            lemma_views_take_one_more(items@, i as int);
        }
        i += 1;
    }
    assert(items@.take(i as int) =~= items@);
    r
}

/// Sum of the values of all items.
pub fn sum_values(items: &[Item]) -> (r: usize)
    requires
        value_sum(views(items@)) <= usize::MAX,
    ensures
        r == value_sum(views(items@)),
{
    let ghost s = views(items@);
    let mut total: usize = 0;
    let mut i: usize = 0;
    while i < items.len()
        invariant
            i <= s.len(),
            s == views(items@),
            value_sum(s) <= usize::MAX,
            total == value_sum(s.take(i as int)),
        decreases s.len() - i,
    {
        proof {
            lemma_take_one_more(s, i as int);
            lemma_sums_concat(s.take(i + 1), s.skip(i + 1));
            assert(s.take(i + 1) + s.skip(i + 1) =~= s);
        }
        total = total + items[i].value;
        i += 1;
    }
    assert(s.take(i as int) =~= s);
    total
}

/// Sum of the weights of all items.
pub fn sum_weights(items: &[Item]) -> (r: usize)
    requires
        weight_sum(views(items@)) <= usize::MAX,
    ensures
        r == weight_sum(views(items@)),
{
    let ghost s = views(items@);
    let mut total: usize = 0;
    let mut i: usize = 0;
    while i < items.len()
        invariant
            i <= s.len(),
            s == views(items@),
            weight_sum(s) <= usize::MAX,
            total == weight_sum(s.take(i as int)),
        decreases s.len() - i,
    {
        proof {
            lemma_take_one_more(s, i as int);
            lemma_sums_concat(s.take(i + 1), s.skip(i + 1));
            assert(s.take(i + 1) + s.skip(i + 1) =~= s);
        }
        total = total + items[i].weight;
        i += 1;
    }
    assert(s.take(i as int) =~= s);
    total
}

/// The selected items, in order.
pub fn selected_items(items: &[Item]) -> (r: Vec<Item>)
    ensures
        views(r@) == selected_of(views(items@)),
{
    let ghost s = views(items@);
    let mut r: Vec<Item> = Vec::new();
    let mut i: usize = 0;
    while i < items.len()
        invariant
            i <= s.len(),
            s == views(items@),
            views(r@) == selected_of(s.take(i as int)),
        decreases s.len() - i,
    {
        assert(s.take(i + 1).drop_last() =~= s.take(i as int));
        if items[i].selected {
            r.push(copy_item(&items[i]));
            assert(views(r@) =~= selected_of(s.take(i as int)).push(s[i as int]));
        }
        i += 1;
    }
    assert(s.take(i as int) =~= s);
    r
}

/// Total value of the selected items, or `Overweight` when they weigh more
/// than `max_weight`.
pub fn solution_value(items: &[Item], max_weight: usize) -> (r: Result<usize, KnapsackError>)
    requires
        chosen_value(views(items@)) <= usize::MAX,
    ensures
        chosen_weight(views(items@)) <= max_weight ==> r == Ok::<usize, KnapsackError>(
            chosen_value(views(items@)) as usize,
        ),
        chosen_weight(views(items@)) > max_weight ==> r == Err::<usize, KnapsackError>(
            KnapsackError::Overweight,
        ),
{
    let ghost s = views(items@);
    let mut value: usize = 0;
    let mut weight: usize = 0;
    let mut i: usize = 0;
    while i < items.len()
        invariant
            i <= s.len(),
            s == views(items@),
            chosen_value(s) <= usize::MAX,
            value == chosen_value(s.take(i as int)),
            weight == chosen_weight(s.take(i as int)),
            weight <= max_weight,
        decreases s.len() - i,
    {
        proof {
            lemma_take_one_more(s, i as int);
            lemma_sums_concat(s.take(i + 1), s.skip(i + 1));
            assert(s.take(i + 1) + s.skip(i + 1) =~= s);
            lemma_sums_concat(selected_of(s.take(i + 1)), selected_of(s.skip(i + 1)));
        }
        if items[i].selected {
            if items[i].weight > max_weight - weight {
                proof {
                    // the remaining items only add weight
                    assert(chosen_weight(s) >= chosen_weight(s.take(i + 1)));
                }
                return Err(KnapsackError::Overweight);
            }
            weight = weight + items[i].weight;
            value = value + items[i].value;
        }
        i += 1;
    }
    assert(s.take(i as int) =~= s);
    Ok(value)
}

/// Makes `num_items` items whose values and weights are drawn from the closed
/// ranges `min_val..=max_val` and `min_weight..=max_weight`. Each item's id is
/// its position; none is selected or blocked.
pub fn make_items(
    rng: &mut SmallRng,
    num_items: usize,
    min_val: usize,
    max_val: usize,
    min_weight: usize,
    max_weight: usize,
) -> (r: Vec<Item>)
    requires
        min_val <= max_val < usize::MAX,
        min_weight <= max_weight < usize::MAX,
    ensures
        r@.len() == num_items,
        forall|k: int|
            0 <= k < num_items ==> {
                let it = #[trigger] r@[k];
                &&& it.id == k
                &&& min_val <= it.value <= max_val
                &&& min_weight <= it.weight <= max_weight
                &&& !it.selected
                &&& it.blocked_by is None
                &&& it.block_list@.len() == 0
            },
{
    let mut items: Vec<Item> = Vec::with_capacity(num_items);
    let mut i: usize = 0;
    while i < num_items
        invariant
            i <= num_items,
            items@.len() == i,
            min_val <= max_val < usize::MAX,
            min_weight <= max_weight < usize::MAX,
            forall|k: int|
                0 <= k < i ==> {
                    let it = #[trigger] items@[k];
                    &&& it.id == k
                    &&& min_val <= it.value <= max_val
                    &&& min_weight <= it.weight <= max_weight
                    &&& !it.selected
                    &&& it.blocked_by is None
                    &&& it.block_list@.len() == 0
                },
        decreases num_items - i,
    {
        let value = draw_in_range(rng, min_val, max_val + 1);
        let weight = draw_in_range(rng, min_weight, max_weight + 1);
        items.push(
            Item { id: i, value, weight, selected: false, blocked_by: None, block_list: Vec::new() },
        );
        i += 1;
    }
    items
}

} // verus!
