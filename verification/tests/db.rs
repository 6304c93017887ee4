use notivlaai::db::{NewOrder, NewVlaaiToOrder, Order, OrderRow, OrderState, PendingOrder};
use notivlaai::seed::{insert_customer, insert_order, insert_vlaai};
use notivlaai::listing::{highest_number, insert_by_number, pending_sorted};
use notivlaai::store::{
    all_pending_orders, find_order, get_vlaai_name, max_order_number, orders_for_customer,
    to_pending, update_order_in_transit, update_order_new, update_order_retrieved, Database,
    DbError,
};

/// The store as it is seeded: five pie varieties, two customers, and one
/// order for each of them, the second of which is in transit under number 1.
fn seeded() -> Database {
    let mut conn = Database::new();
    insert_vlaai(&mut conn, "Abrikoos").expect("Could not insert vlaai");
    insert_vlaai(&mut conn, "HalfHalf").expect("Could not insert vlaai");
    insert_vlaai(&mut conn, "Kers").expect("Could not insert vlaai");
    insert_vlaai(&mut conn, "Appel").expect("Could not insert vlaai");
    insert_vlaai(&mut conn, "Kruimelpudding").expect("Could not insert vlaai");
    insert_customer(&mut conn, "Peter Bergmans", "peter@peter.nl").expect("Could not insert customer");
    insert_customer(&mut conn, "Piet Pokerface", "pokeren@pokerface.nl")
        .expect("Could not insert customer");
    insert_order(&mut conn, false, None, "Peter Bergmans", &[("Abrikoos", 1), ("Kers", 1)])
        .expect("Could not insert order");
    insert_order(&mut conn, true, Some(1), "Piet Pokerface", &[("Abrikoos", 1), ("Kers", 1)])
        .expect("Could not insert order");
    conn
}

fn row(vlaai: &str, amount: u32) -> OrderRow {
    OrderRow { vlaai: vlaai.to_string(), amount }
}

#[test]
pub fn order_for_customer() {
    let conn = seeded();
    let results =
        orders_for_customer(&conn, 1).expect("Could not find orders for customer with this id");
    assert!(results.len() > 0)
}

#[test]
pub fn pending_orders() {
    let conn = seeded();
    let pending_orders = all_pending_orders(&conn).expect("Could not retreive pending orders");
    assert!(pending_orders.len() > 0);
}

#[test]
pub fn updating_order() {
    let mut conn = seeded();

    assert_eq!(max_order_number(&conn).unwrap(), 1);
    // Change to new
    assert!(update_order_new(&mut conn, 1).expect("Could not update order to be new") > 0);
    // Set to retrieved
    assert!(update_order_retrieved(&mut conn, 1).expect("Could not update order to retrieved") > 0);

    let pending_orders = all_pending_orders(&conn).expect("Could not retreive pending orders");
    println!("{:?}", pending_orders);
    assert_eq!(pending_orders.len(), 1);

    // Set to status as in seed and return
    let order = update_order_in_transit(&mut conn, 1, 2);
    assert!(order.is_ok());

    if let Ok(order) = order {
        assert_eq!(order.picked_up, false);
        assert_eq!(order.in_transit, true);
    }

    assert_eq!(max_order_number(&conn).unwrap(), 2);

    update_order_in_transit(&mut conn, 1, 1).unwrap();
}

#[test]
pub fn pending() {
    let conn = seeded();
    assert!(to_pending(&conn, conn.get_order(1).expect("Could not find order")).is_ok())
}

#[test]
fn seeded_store_holds_what_was_inserted() {
    let conn = seeded();
    assert_eq!(conn.order_count(), 2);
    assert_eq!(conn.row_count(), 4);
    assert_eq!(
        conn.get_order(1),
        Some(Order { id: 1, customer_id: 1, in_transit: false, picked_up: false, order_number: None })
    );
    assert_eq!(
        conn.get_order(2),
        Some(Order {
            id: 2,
            customer_id: 2,
            in_transit: true,
            picked_up: false,
            order_number: Some(1)
        })
    );
    assert_eq!(conn.get_order(3), None);
    assert_eq!(conn.get_order(0), None);
    assert_eq!(conn.get_order(-1), None);
    assert_eq!(conn.find_customer_named("Piet Pokerface"), Some(2));
    assert_eq!(conn.find_customer_named("Piet"), None);
    assert_eq!(conn.find_vlaai_named("Kers"), Some(3));
    assert_eq!(conn.find_vlaai_named("Rijst"), None);
    assert_eq!(conn.find_first_order_of(2), Some(2));
    assert_eq!(conn.find_first_order_of(3), None);
}

#[test]
fn vlaai_name_by_key() {
    let conn = seeded();
    assert_eq!(get_vlaai_name(&conn, 1), Ok("Abrikoos".to_string()));
    assert_eq!(get_vlaai_name(&conn, 5), Ok("Kruimelpudding".to_string()));
    assert_eq!(get_vlaai_name(&conn, 6), Err(DbError::NotFound));
    assert_eq!(get_vlaai_name(&conn, 0), Err(DbError::NotFound));
}

#[test]
fn to_pending_joins_customer_and_lines() {
    let conn = seeded();
    let order = conn.get_order(2).unwrap();
    assert_eq!(
        to_pending(&conn, order),
        Ok(PendingOrder {
            id: 2,
            in_transit: true,
            picked_up: false,
            customer_name: "Piet Pokerface".to_string(),
            rows: vec![row("Abrikoos", 1), row("Kers", 1)],
        })
    );
}

#[test]
fn to_pending_copies_the_flags_of_the_order() {
    let conn = seeded();
    let order = conn.get_order(1).unwrap();
    let pending = to_pending(&conn, order).unwrap();
    assert_eq!(pending.in_transit, false);
    assert_eq!(pending.picked_up, false);
    assert_eq!(pending.customer_name, "Peter Bergmans");
    let pending = to_pending(&conn, order.mark_retrieved()).unwrap();
    assert_eq!(pending.in_transit, false);
    assert_eq!(pending.picked_up, true);
}

#[test]
fn to_pending_fails_without_customer() {
    let conn = seeded();
    let order =
        Order { id: 1, customer_id: 7, in_transit: true, picked_up: false, order_number: Some(4) };
    assert_eq!(to_pending(&conn, order), Err(DbError::NotFound));
}

#[test]
fn to_pending_fails_on_a_line_without_variety() {
    let mut conn = seeded();
    assert_eq!(conn.add_row(NewVlaaiToOrder { order_id: 2, vlaai_id: 99, amount: 3 }), Ok(5));
    let order = conn.get_order(2).unwrap();
    assert_eq!(to_pending(&conn, order), Err(DbError::NotFound));
    // The other order is not touched by the dangling line.
    assert!(to_pending(&conn, conn.get_order(1).unwrap()).is_ok());
    // The board cannot be listed while a pending order cannot be shown.
    assert_eq!(all_pending_orders(&conn), Err(DbError::NotFound));
}

#[test]
fn an_order_without_lines_has_no_rows() {
    let mut conn = seeded();
    let id = conn
        .add_order(NewOrder { customer_id: 1, in_transit: false, picked_up: false, order_number: None })
        .unwrap();
    assert_eq!(id, 3);
    let pending = to_pending(&conn, conn.get_order(3).unwrap()).unwrap();
    assert_eq!(pending.rows, vec![]);
}

#[test]
fn pending_orders_are_sorted_by_order_number() {
    let mut conn = seeded();
    insert_customer(&mut conn, "Jan Jansen", "jan@jansen.nl").unwrap();
    insert_order(&mut conn, true, Some(0), "Jan Jansen", &[("Appel", 2)]).unwrap();
    update_order_in_transit(&mut conn, 1, 7).unwrap();
    let list = all_pending_orders(&conn).unwrap();
    let ids: Vec<u32> = list.iter().map(|p| p.id).collect();
    assert_eq!(ids, vec![3, 2, 1]);
    assert_eq!(list[0].customer_name, "Jan Jansen");
    assert_eq!(list[0].rows, vec![row("Appel", 2)]);
    assert!(list.iter().all(|p| p.in_transit && !p.picked_up));
}

#[test]
fn pending_orders_of_an_empty_store() {
    let conn = Database::new();
    assert_eq!(all_pending_orders(&conn), Ok(vec![]));
    assert_eq!(max_order_number(&conn), Ok(0));
}

#[test]
fn picked_up_and_new_orders_are_not_pending() {
    let mut conn = seeded();
    assert_eq!(update_order_retrieved(&mut conn, 2), Ok(1));
    assert_eq!(all_pending_orders(&conn), Ok(vec![]));
    assert_eq!(max_order_number(&conn), Ok(0));
    assert_eq!(
        conn.get_order(2),
        Some(Order { id: 2, customer_id: 2, in_transit: false, picked_up: true, order_number: None })
    );
}

#[test]
fn updates_of_an_unknown_order_change_nothing() {
    let mut conn = seeded();
    assert_eq!(update_order_in_transit(&mut conn, 3, 9), Err(DbError::NotFound));
    assert_eq!(update_order_in_transit(&mut conn, 0, 9), Err(DbError::NotFound));
    assert_eq!(update_order_retrieved(&mut conn, 3), Ok(0));
    assert_eq!(update_order_new(&mut conn, -4), Ok(0));
    assert_eq!(max_order_number(&conn), Ok(1));
    assert_eq!(all_pending_orders(&conn).unwrap().len(), 1);
}

#[test]
fn update_in_transit_returns_the_order_as_stored() {
    let mut conn = seeded();
    let order = update_order_in_transit(&mut conn, 1, 5).unwrap();
    assert_eq!(
        order,
        Order { id: 1, customer_id: 1, in_transit: true, picked_up: false, order_number: Some(5) }
    );
    assert_eq!(conn.get_order(1), Some(order));
}

#[test]
fn orders_for_customer_lists_in_stored_order() {
    let mut conn = seeded();
    insert_order(&mut conn, false, None, "Peter Bergmans", &[]).unwrap();
    let orders = orders_for_customer(&conn, 1).unwrap();
    let ids: Vec<i32> = orders.iter().map(|o| o.id).collect();
    assert_eq!(ids, vec![1, 3]);
    assert_eq!(orders_for_customer(&conn, 2).unwrap().len(), 1);
    assert_eq!(orders_for_customer(&conn, 3), Err(DbError::NotFound));
}

#[test]
fn max_order_number_is_the_highest() {
    let mut conn = seeded();
    update_order_in_transit(&mut conn, 1, -3).unwrap();
    assert_eq!(max_order_number(&conn), Ok(1));
    update_order_retrieved(&mut conn, 2).unwrap();
    assert_eq!(max_order_number(&conn), Ok(-3));
}

#[test]
fn store_refuses_rows_that_break_its_rules() {
    let mut conn = seeded();
    assert_eq!(
        conn.add_order(NewOrder {
            customer_id: 1,
            in_transit: true,
            picked_up: true,
            order_number: Some(3)
        }),
        Err(DbError::Constraint)
    );
    assert_eq!(
        conn.add_order(NewOrder {
            customer_id: 1,
            in_transit: true,
            picked_up: false,
            order_number: None
        }),
        Err(DbError::Constraint)
    );
    assert_eq!(
        conn.add_order(NewOrder {
            customer_id: 1,
            in_transit: false,
            picked_up: false,
            order_number: Some(3)
        }),
        Err(DbError::Constraint)
    );
    assert_eq!(
        conn.add_row(NewVlaaiToOrder { order_id: 1, vlaai_id: 1, amount: -1 }),
        Err(DbError::Constraint)
    );
    assert_eq!(conn.order_count(), 2);
    assert_eq!(conn.row_count(), 4);
}

#[test]
fn insert_order_fails_without_changing_the_store() {
    let mut conn = seeded();
    assert_eq!(
        insert_order(&mut conn, false, None, "Nobody", &[("Kers", 1)]),
        Err(DbError::NotFound)
    );
    assert_eq!(
        insert_order(&mut conn, false, None, "Peter Bergmans", &[("Kers", 1), ("Rijst", 1)]),
        Err(DbError::NotFound)
    );
    assert_eq!(
        insert_order(&mut conn, true, None, "Peter Bergmans", &[("Kers", 1)]),
        Err(DbError::Constraint)
    );
    assert_eq!(
        insert_order(&mut conn, false, None, "Peter Bergmans", &[("Kers", -2)]),
        Err(DbError::Constraint)
    );
    // An unknown name counts before an order that does not fit.
    assert_eq!(
        insert_order(&mut conn, true, None, "Peter Bergmans", &[("Rijst", -2)]),
        Err(DbError::NotFound)
    );
    assert_eq!(conn.order_count(), 2);
    assert_eq!(conn.row_count(), 4);
}

#[test]
fn insert_order_puts_the_lines_on_the_first_order_of_the_customer() {
    let mut conn = seeded();
    insert_order(&mut conn, false, None, "Piet Pokerface", &[("Appel", 4)]).unwrap();
    assert_eq!(conn.order_count(), 3);
    let first = to_pending(&conn, conn.get_order(2).unwrap()).unwrap();
    assert_eq!(first.rows, vec![row("Abrikoos", 1), row("Kers", 1), row("Appel", 4)]);
    let new = to_pending(&conn, conn.get_order(3).unwrap()).unwrap();
    assert_eq!(new.rows, vec![]);
    assert_eq!(new.customer_name, "Piet Pokerface");
}

#[test]
fn order_transitions_reach_the_three_states() {
    let new = Order { id: 4, customer_id: 2, in_transit: false, picked_up: false, order_number: None };
    assert_eq!(new.state(), Some(OrderState::New));
    assert!(!new.is_pending());
    let moving = new.mark_in_transit(12);
    assert_eq!(
        moving,
        Order { id: 4, customer_id: 2, in_transit: true, picked_up: false, order_number: Some(12) }
    );
    assert_eq!(moving.state(), Some(OrderState::InTransit));
    assert!(moving.is_pending());
    let gone = moving.mark_retrieved();
    assert_eq!(
        gone,
        Order { id: 4, customer_id: 2, in_transit: false, picked_up: true, order_number: None }
    );
    assert_eq!(gone.state(), Some(OrderState::PickedUp));
    assert!(!gone.is_pending());
    assert_eq!(gone.mark_in_transit(13).state(), Some(OrderState::InTransit));
    assert_eq!(moving.mark_new(), new);
    assert_eq!(gone.mark_new(), new);
}

#[test]
fn an_order_outside_the_three_states_has_no_state() {
    let both = Order { id: 1, customer_id: 1, in_transit: true, picked_up: true, order_number: Some(1) };
    assert_eq!(both.state(), None);
    let numbered =
        Order { id: 1, customer_id: 1, in_transit: false, picked_up: false, order_number: Some(1) };
    assert_eq!(numbered.state(), None);
    let unnumbered =
        Order { id: 1, customer_id: 1, in_transit: true, picked_up: false, order_number: None };
    assert_eq!(unnumbered.state(), None);
}

#[test]
fn find_order_shows_the_orders_of_a_customer() {
    let mut conn = seeded();
    insert_order(&mut conn, false, None, "Piet Pokerface", &[]).unwrap();
    let shown = find_order(&conn, 2).unwrap();
    let ids: Vec<u32> = shown.iter().map(|p| p.id).collect();
    assert_eq!(ids, vec![2, 3]);
    assert_eq!(shown[0].rows, vec![row("Abrikoos", 1), row("Kers", 1)]);
    assert_eq!(shown[0].in_transit, true);
    assert_eq!(shown[1].in_transit, false);
    assert_eq!(find_order(&conn, 3), Err(DbError::NotFound));
    assert_eq!(find_order(&conn, 0), Err(DbError::NotFound));
    assert_eq!(find_order(&conn, u32::MAX), Err(DbError::NotFound));
}

#[test]
fn find_order_leaves_out_what_cannot_be_shown() {
    let mut conn = seeded();
    conn.add_row(NewVlaaiToOrder { order_id: 1, vlaai_id: 42, amount: 1 }).unwrap();
    assert_eq!(find_order(&conn, 1), Ok(vec![]));
    assert_eq!(find_order(&conn, 2).unwrap().len(), 1);
}

#[test]
fn insert_by_number_keeps_the_list_sorted() {
    let order = |id: i32, number: Option<i32>| Order {
        id,
        customer_id: 1,
        in_transit: number.is_some(),
        picked_up: false,
        order_number: number,
    };
    let mut list = Vec::new();
    assert_eq!(insert_by_number(&mut list, order(1, Some(5))), 0);
    assert_eq!(insert_by_number(&mut list, order(2, Some(3))), 0);
    assert_eq!(insert_by_number(&mut list, order(3, Some(9))), 2);
    // Behind the orders with the same number.
    assert_eq!(insert_by_number(&mut list, order(4, Some(5))), 2);
    // An order without a number comes first.
    assert_eq!(insert_by_number(&mut list, order(5, None)), 0);
    let ids: Vec<i32> = list.iter().map(|o| o.id).collect();
    assert_eq!(ids, vec![5, 2, 1, 4, 3]);
}

#[test]
fn pending_sorted_lists_the_pending_orders_by_number() {
    let order = |id: i32, in_transit: bool, picked_up: bool, number: Option<i32>| Order {
        id,
        customer_id: 1,
        in_transit,
        picked_up,
        order_number: number,
    };
    let orders = vec![
        order(1, true, false, Some(7)),
        order(2, false, false, None),
        order(3, true, false, Some(2)),
        order(4, false, true, None),
        order(5, true, false, Some(7)),
        order(6, true, false, Some(-1)),
    ];
    let ids: Vec<i32> = pending_sorted(&orders).iter().map(|o| o.id).collect();
    assert_eq!(ids, vec![6, 3, 1, 5]);
    assert_eq!(pending_sorted(&vec![]), vec![]);
    assert_eq!(highest_number(&orders), 7);
    assert_eq!(highest_number(&vec![order(1, true, false, Some(-4))]), -4);
    assert_eq!(highest_number(&vec![order(1, false, false, None)]), 0);
    assert_eq!(highest_number(&vec![]), 0);
}
