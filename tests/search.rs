use dynprog::item::{duplicate, make_items, selected_items, sum_values, sum_weights, Item};
use dynprog::{
    branch_and_bound, exhaustive_search, make_block_lists, rods_technique, rods_technique_sorted,
};
use rand::rngs::SmallRng;
use rand::SeedableRng;

fn item(id: usize, value: usize, weight: usize) -> Item {
    Item {
        id,
        value,
        weight,
        ..Default::default()
    }
}

fn textbook_items() -> Vec<Item> {
    vec![item(0, 60, 10), item(1, 100, 20), item(2, 120, 30)]
}

fn selected_ids(sol: &[Item]) -> Vec<usize> {
    selected_items(sol).iter().map(|it| it.id).collect()
}

#[test]
fn textbook_instance_all_strategies() {
    let mut items = textbook_items();
    let (sol, value, calls) = exhaustive_search(&mut items, 50).unwrap();
    assert_eq!(value, 220);
    assert_eq!(calls, 15);
    assert_eq!(selected_ids(&sol), vec![1, 2]);
    assert_eq!(sum_weights(&selected_items(&sol)), 50);

    let mut items = textbook_items();
    let (sol, value, _) = branch_and_bound(&mut items, 50).unwrap();
    assert_eq!(value, 220);
    assert_eq!(selected_ids(&sol), vec![1, 2]);

    let mut items = textbook_items();
    let (sol, value, _) = rods_technique(&mut items, 50).unwrap();
    assert_eq!(value, 220);
    assert_eq!(selected_ids(&sol), vec![1, 2]);

    let mut items = textbook_items();
    let (sol, value, _) = rods_technique_sorted(&mut items, 50).unwrap();
    assert_eq!(value, 220);
    assert_eq!(sum_values(&selected_items(&sol)), 220);
    assert_eq!(sum_weights(&selected_items(&sol)), 50);
}

#[test]
fn empty_collection() {
    for cap in [0, 1, 100] {
        let mut items: Vec<Item> = vec![];
        let (sol, value, calls) = exhaustive_search(&mut items, cap).unwrap();
        assert_eq!((value, calls), (0, 1));
        assert!(selected_items(&sol).is_empty());

        let (sol, value, calls) = branch_and_bound(&mut items, cap).unwrap();
        assert_eq!((value, calls), (0, 1));
        assert!(selected_items(&sol).is_empty());

        let (sol, value, calls) = rods_technique(&mut items, cap).unwrap();
        assert_eq!((value, calls), (0, 1));
        assert!(selected_items(&sol).is_empty());

        let (sol, value, calls) = rods_technique_sorted(&mut items, cap).unwrap();
        assert_eq!((value, calls), (0, 1));
        assert!(selected_items(&sol).is_empty());
    }
}

#[test]
fn nothing_fits() {
    let mut items = vec![item(0, 5, 10), item(1, 7, 11)];
    let (sol, value, calls) = exhaustive_search(&mut items, 9).unwrap();
    assert_eq!((value, calls), (0, 7));
    assert_eq!(sol.len(), 2);
    assert!(selected_items(&sol).is_empty());
    let (_, value, _) = branch_and_bound(&mut items, 9).unwrap();
    assert_eq!(value, 0);
    let (_, value, _) = rods_technique(&mut items, 9).unwrap();
    assert_eq!(value, 0);
}

#[test]
fn zero_value_items_still_give_a_solution() {
    let mut items = vec![item(0, 0, 1), item(1, 0, 2)];
    let (sol, value, _) = branch_and_bound(&mut items, 5).unwrap();
    assert_eq!(value, 0);
    assert_eq!(sol.len(), 2);
    let (sol, value, _) = rods_technique(&mut items, 5).unwrap();
    assert_eq!(value, 0);
    assert_eq!(sol.len(), 2);
}

/// Brute force over all subsets, independent of the library's searches.
fn brute_force(items: &[Item], cap: usize) -> usize {
    let n = items.len();
    let mut best = 0;
    for mask in 0..(1usize << n) {
        let mut v = 0;
        let mut w = 0;
        for (k, it) in items.iter().enumerate() {
            if mask & (1 << k) != 0 {
                v += it.value;
                w += it.weight;
            }
        }
        if w <= cap && v > best {
            best = v;
        }
    }
    best
}

#[test]
fn strategies_agree_on_random_instances() {
    for seed in 0..40u64 {
        let mut rng = SmallRng::seed_from_u64(seed);
        let n = (seed % 11) as usize + 1;
        let items = make_items(&mut rng, n, 1, 20, 1, 15);
        let cap = sum_weights(&items) / 2;
        let want = brute_force(&items, cap);

        let mut a = duplicate(&items);
        let (sol_e, value_e, calls_e) = exhaustive_search(&mut a, cap).unwrap();
        let mut b = duplicate(&items);
        let (sol_b, value_b, calls_b) = branch_and_bound(&mut b, cap).unwrap();
        let mut c = duplicate(&items);
        let (sol_r, value_r, calls_r) = rods_technique(&mut c, cap).unwrap();
        let mut d = duplicate(&items);
        let (sol_s, value_s, calls_s) = rods_technique_sorted(&mut d, cap).unwrap();

        assert_eq!(value_e, want);
        assert_eq!(value_b, want);
        assert_eq!(value_r, want);
        assert_eq!(value_s, want);

        assert_eq!(calls_e, (1usize << (n + 1)) - 1);
        assert!(calls_b <= calls_e);
        assert!(calls_r <= calls_e);
        assert!(calls_s <= calls_e);

        for sol in [&sol_e, &sol_b, &sol_r, &sol_s] {
            let chosen = selected_items(sol);
            assert!(sum_weights(&chosen) <= cap);
            assert_eq!(sum_values(&chosen), want);
            let mut ids: Vec<usize> = chosen.iter().map(|it| it.id).collect();
            let len = ids.len();
            ids.sort();
            ids.dedup();
            assert_eq!(ids.len(), len);
        }

        // The marks are all cleared again.
        assert!(c.iter().all(|it| it.blocked_by.is_none()));
        assert!(d.iter().all(|it| it.blocked_by.is_none()));
    }
}

#[test]
fn block_lists_name_dominated_items() {
    let mut items = vec![
        item(0, 10, 9),
        item(1, 1, 9),
        item(2, 5, 7),
        item(3, 5, 7),
        item(4, 12, 3),
    ];
    make_block_lists(&mut items);
    for i in 0..items.len() {
        for j in 0..items.len() {
            let dominated =
                i != j && items[i].value >= items[j].value && items[i].weight <= items[j].weight;
            assert_eq!(items[i].block_list.contains(&items[j].id), dominated);
        }
    }
    assert_eq!(items[4].block_list, vec![0, 1, 2, 3]);
    assert_eq!(items[2].block_list, vec![1, 3]);
    assert_eq!(items[3].block_list, vec![1, 2]);
}

#[test]
fn sorted_variant_reorders_by_block_list_size() {
    let mut items = vec![item(0, 1, 9), item(1, 10, 9), item(2, 12, 3)];
    let (_, value, _) = rods_technique_sorted(&mut items, 10).unwrap();
    assert_eq!(value, 12);
    let order: Vec<(usize, usize)> = items.iter().map(|it| (it.value, it.weight)).collect();
    assert_eq!(order, vec![(12, 3), (10, 9), (1, 9)]);
    for (k, it) in items.iter().enumerate() {
        assert_eq!(it.id, k);
    }
    assert_eq!(items[0].block_list, vec![1, 2]);
}

#[test]
fn exhaustive_search_keeps_the_include_first_choice_on_ties() {
    let mut items = vec![item(0, 5, 1), item(1, 5, 1)];
    let (sol, value, calls) = exhaustive_search(&mut items, 1).unwrap();
    assert_eq!((value, calls), (5, 7));
    let flags: Vec<bool> = sol.iter().map(|x| x.selected).collect();
    assert_eq!(flags, vec![true, false]);
}

#[test]
fn rods_technique_runs_past_sixty_three_items() {
    let mut items: Vec<Item> = (0..70).map(|i| item(i, 1, 1)).collect();
    let (sol, value, calls) = rods_technique(&mut items, 3).unwrap();
    assert_eq!(value, 3);
    assert!(calls >= 1);
    assert_eq!(sum_weights(&selected_items(&sol)), 3);
    assert!(items.iter().all(|it| it.blocked_by.is_none()));
}

#[test]
fn sorted_variant_orders_block_lists() {
    let mut rng = SmallRng::seed_from_u64(99);
    let mut items = make_items(&mut rng, 12, 1, 10, 1, 10);
    let cap = sum_weights(&items) / 2;
    rods_technique_sorted(&mut items, cap).unwrap();
    for k in 1..items.len() {
        assert!(items[k - 1].block_list.len() >= items[k].block_list.len());
    }
}
