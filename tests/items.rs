use dynprog::item::{
    duplicate, make_items, selected_items, solution_value, sum_values, sum_weights, Item,
    KnapsackError,
};
use dynprog::make_block_lists;
use rand::rngs::SmallRng;
use rand::{Rng, SeedableRng};

fn make_test_items() -> Vec<Item> {
    let mut items = Vec::with_capacity(10);
    for i in 0..10 {
        items.push(Item {
            value: i + 1,
            weight: i + 1,
            // 1, 3, 5, 7, 9 are selected.
            selected: i % 2 == 0,
            ..Default::default()
        })
    }

    items
}

#[test]
fn test_deterministic_make_items() {
    let num_items = 10;
    let min_val = 1;
    let max_val = 5;
    let min_weight = 2;
    let max_weight = 10;

    let mut rng = SmallRng::seed_from_u64(1337);
    let mut want = Vec::with_capacity(num_items);

    for i in 0..num_items {
        want.push(Item {
            id: i,
            value: rng.gen_range(min_val..max_val + 1),
            weight: rng.gen_range(min_weight..max_weight + 1),
            ..Default::default()
        });
    }

    // Restart the RNG.
    let mut rng = SmallRng::seed_from_u64(1337);

    let got = make_items(&mut rng, num_items, min_val, max_val, min_weight, max_weight);

    assert_eq!(got, want);
}

#[test]
fn test_copy_items() {
    let want = make_test_items();
    assert_eq!(duplicate(&want), want);
}

#[test]
fn test_sums() {
    let items = make_test_items();
    assert_eq!(sum_values(&items), 55);
    assert_eq!(sum_weights(&items), 55);
}

#[test]
fn test_selected_items() {
    assert_eq!(selected_items(&make_test_items()).len(), 5);
}

#[test]
fn test_solution_value() {
    let items = make_test_items();
    let max_weight = sum_weights(&items) / 2;
    assert_eq!(
        solution_value(&items, max_weight).expect("failed to calculate value"),
        25
    );
}

#[test]
fn solution_value_rejects_overweight_selection() {
    let items = make_test_items();
    // The selected items weigh 25.
    assert_eq!(solution_value(&items, 24), Err(KnapsackError::Overweight));
    assert_eq!(solution_value(&items, 25), Ok(25));
}

#[test]
fn selected_items_keep_order() {
    let got = selected_items(&make_test_items());
    let values: Vec<usize> = got.iter().map(|it| it.value).collect();
    assert_eq!(values, vec![1, 3, 5, 7, 9]);
    assert!(got.iter().all(|it| it.selected));
}

#[test]
fn make_items_draws_within_ranges() {
    let mut rng = SmallRng::seed_from_u64(7);
    let items = make_items(&mut rng, 50, 1, 1000, 5, 900);
    assert_eq!(items.len(), 50);
    for (i, it) in items.iter().enumerate() {
        assert_eq!(it.id, i);
        assert!(1 <= it.value && it.value <= 1000);
        assert!(5 <= it.weight && it.weight <= 900);
        assert!(!it.selected);
        assert_eq!(it.blocked_by, None);
        assert!(it.block_list.is_empty());
    }
    // The draws are not all the lower bound.
    assert!(items.iter().any(|it| it.value != 1));
    assert!(items.iter().any(|it| it.weight != 5));
}

#[test]
fn test_make_block_items() {
    let mut rng = SmallRng::seed_from_u64(1337);
    let mut items = make_items(&mut rng, 3, 1, 10, 4, 10);

    make_block_lists(&mut items);

    assert_eq!(
        items[0],
        Item {
            id: 0,
            value: 10,
            weight: 9,
            selected: false,
            blocked_by: None,
            block_list: vec![1],
        }
    );

    assert_eq!(
        items[1],
        Item {
            id: 1,
            value: 1,
            weight: 9,
            selected: false,
            blocked_by: None,
            block_list: vec![],
        }
    );
    assert_eq!(
        items[2],
        Item {
            id: 2,
            value: 5,
            weight: 7,
            selected: false,
            blocked_by: None,
            block_list: vec![1],
        }
    );
}
