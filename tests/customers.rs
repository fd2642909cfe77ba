use dynprog::customers::{counting_sort, sorted_customers, Customer, Customers};

fn customer(i: usize, num_purchases: i32) -> Customer {
    Customer {
        id: format!("C{i}"),
        num_purchases,
    }
}

#[test]
fn counting_sort_orders_customers_stably() {
    let input = Customers(vec![
        customer(0, 3),
        customer(1, 0),
        customer(2, 3),
        customer(3, 1),
        customer(4, 0),
    ]);
    assert_eq!(input.len(), 5);
    assert!(!sorted_customers(&input));
    let got = counting_sort(input);
    assert!(sorted_customers(&got));
    let order: Vec<(String, i32)> = got
        .iter()
        .map(|c| (c.id.clone(), c.num_purchases))
        .collect();
    assert_eq!(
        order,
        vec![
            ("C1".to_string(), 0),
            ("C4".to_string(), 0),
            ("C3".to_string(), 1),
            ("C0".to_string(), 3),
            ("C2".to_string(), 3),
        ]
    );
    let ids: Vec<String> = got.into_iter().map(|c| c.id).collect();
    assert_eq!(ids.len(), 5);
}

#[test]
fn sorted_customers_edge_cases() {
    assert!(sorted_customers(&Customers(vec![])));
    assert!(sorted_customers(&Customers(vec![customer(0, -1), customer(1, 2)])));
    assert!(!sorted_customers(&Customers(vec![customer(0, -2)])));
    assert!(!sorted_customers(&Customers(vec![customer(0, 2), customer(1, 1)])));
    let empty = counting_sort(Customers(vec![]));
    assert_eq!(empty.len(), 0);
}
