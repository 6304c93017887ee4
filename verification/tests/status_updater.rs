use notivlaai::api::reply_status;
use notivlaai::backend::{Backend, BackendError, BackendView};
use notivlaai::db::{Order, PendingOrder};
use notivlaai::db_backend::{key_error, view_error, DBBackend, Store, StoreView};
use notivlaai::seed::{insert_customer, insert_order, insert_vlaai};
use notivlaai::status_updater::{
    apply_command, in_transit_event, retrieved_event, OrderPublish, OrderRunner,
    OrderStatusUpdater, UpdateOrder, HUB_CAPACITY,
};
use notivlaai::store::{Database, DbError};
use std::cell::Cell;
use notivlaai::test_backend::TestBackend;
use std::collections::BTreeMap;
use tokio::sync::broadcast::TryRecvError;

/// A backend that knows the new orders `1..=n`.
fn backend_with(n: u32) -> TestBackend {
    let mut backend = TestBackend::new();
    for id in 1..=n {
        assert!(backend.add_order(id, id as i32));
    }
    backend
}

/// A runner over `backend` with its command queue and one subscription.
fn runner_over<T: Backend>(
    backend: T,
) -> (
    tokio::sync::mpsc::Sender<UpdateOrder>,
    OrderRunner<T>,
    tokio::sync::broadcast::Receiver<OrderPublish>,
) {
    let (sender, receiver) = tokio::sync::mpsc::channel(100);
    let order_updater = OrderStatusUpdater::new(receiver, backend);
    let (subscriber, runner) = order_updater.order_mutator();
    let subscription = subscriber.subscribe();
    (sender, runner, subscription)
}

/// The board that the events give, by key.
fn board_after(events: &[OrderPublish]) -> BTreeMap<u32, PendingOrder> {
    let mut board = BTreeMap::new();
    for event in events {
        match event {
            OrderPublish::AddOrder(pending) => {
                board.insert(pending.id, pending.clone());
            }
            OrderPublish::RemoveOrder(id) => {
                board.remove(id);
            }
        }
    }
    board
}

fn board_of(list: Vec<PendingOrder>) -> BTreeMap<u32, PendingOrder> {
    list.into_iter().map(|pending| (pending.id, pending)).collect()
}

fn piet(id: u32) -> PendingOrder {
    PendingOrder {
        id,
        in_transit: true,
        picked_up: false,
        customer_name: "Piet".to_string(),
        rows: vec![],
    }
}

#[test]
fn test_update() {
    let mut runtime = tokio::runtime::Runtime::new().expect("Could not construct runtime");
    runtime.block_on(async {
        let (mut sender, mut runner, mut receiver) = runner_over(TestBackend::default());

        // Run the runner
        tokio::spawn(async move {
            while let Some(value) = runner.commands().recv().await {
                let _ = runner.handle(value);
            }
        });

        // Set that the order is in transit
        assert!(sender.send(UpdateOrder::OrderInTransit(1)).await.is_ok());

        // Expect to get an update
        let publish_update = receiver.recv().await.unwrap();

        if let OrderPublish::AddOrder(o) = publish_update {
            assert_eq!(o.id, 1);
        } else {
            panic!("Did not get the correct response")
        }

        // Set that the order has been picked up
        assert!(sender.send(UpdateOrder::OrderRetrieved(1)).await.is_ok());

        // Expect to get an update
        let publish_update = receiver.recv().await.unwrap();

        if let OrderPublish::RemoveOrder(id) = publish_update {
            assert_eq!(id, 1)
        } else {
            panic!("Did not get the correct response")
        }

        assert!(receiver.try_recv().is_err())
    });
}

#[test]
fn two_in_transit_one_retrieved() {
    let (_sender, mut runner, mut subscription) = runner_over(backend_with(2));
    let commands = vec![
        UpdateOrder::OrderInTransit(1),
        UpdateOrder::OrderInTransit(2),
        UpdateOrder::OrderRetrieved(1),
    ];
    let results = runner.handle_all(&commands);
    assert_eq!(
        results,
        vec![
            Ok(OrderPublish::AddOrder(piet(1))),
            Ok(OrderPublish::AddOrder(piet(2))),
            Ok(OrderPublish::RemoveOrder(1)),
        ]
    );
    // The subscriber got the same events in the same order.
    assert_eq!(subscription.try_recv(), Ok(OrderPublish::AddOrder(piet(1))));
    assert_eq!(subscription.try_recv(), Ok(OrderPublish::AddOrder(piet(2))));
    assert_eq!(subscription.try_recv(), Ok(OrderPublish::RemoveOrder(1)));
    assert_eq!(subscription.try_recv(), Err(TryRecvError::Empty));
    // The final pending set is {2}.
    let pending = runner.store().all_pending_orders().unwrap();
    assert_eq!(pending, vec![piet(2)]);
}

#[test]
fn unknown_order_publishes_nothing() {
    let (_sender, mut runner, mut subscription) = runner_over(backend_with(2));
    assert_eq!(runner.handle(UpdateOrder::OrderRetrieved(99)), Err(BackendError::NotFound(99)));
    assert_eq!(subscription.try_recv(), Err(TryRecvError::Empty));
    assert_eq!(runner.store().all_pending_orders(), Ok(vec![]));
    // A following valid command still succeeds.
    assert_eq!(runner.handle(UpdateOrder::OrderInTransit(2)), Ok(OrderPublish::AddOrder(piet(2))));
    assert_eq!(subscription.try_recv(), Ok(OrderPublish::AddOrder(piet(2))));
    assert_eq!(subscription.try_recv(), Err(TryRecvError::Empty));
}

#[test]
fn unknown_order_in_transit_changes_nothing() {
    let (_sender, mut runner, mut subscription) = runner_over(backend_with(1));
    assert_eq!(runner.handle(UpdateOrder::OrderInTransit(7)), Err(BackendError::NotFound(7)));
    assert_eq!(subscription.try_recv(), Err(TryRecvError::Empty));
    // No order changed and no number was used up.
    assert_eq!(runner.store().last_order_number(), 0);
    assert_eq!(runner.store().order(1).unwrap().order_number, None);
    assert_eq!(runner.store().order(7), None);
    assert_eq!(runner.handle(UpdateOrder::OrderInTransit(1)), Ok(OrderPublish::AddOrder(piet(1))));
    assert_eq!(runner.store().order(1).unwrap().order_number, Some(1));
    assert_eq!(runner.store().last_order_number(), 1);
}

#[test]
fn failed_calls_use_up_no_number() {
    let mut backend = backend_with(3);
    assert_eq!(backend.order_in_transit(9), Err(BackendError::NotFound(9)));
    assert_eq!(backend.order_in_transit(1).unwrap().order_number, Some(1));
    assert_eq!(backend.order_in_transit(0), Err(BackendError::NotFound(0)));
    assert_eq!(backend.order_retrieved(8), Err(BackendError::NotFound(8)));
    assert_eq!(backend.order_in_transit(3).unwrap().order_number, Some(2));
    assert_eq!(backend.order_in_transit(2).unwrap().order_number, Some(3));
    assert_eq!(backend.last_order_number(), 3);
}

#[test]
fn fifty_producers_get_fifty_numbers() {
    let mut runtime = tokio::runtime::Runtime::new().expect("Could not construct runtime");
    runtime.block_on(async {
        let (sender, mut runner, mut subscription) = runner_over(backend_with(50));
        let running = tokio::spawn(async move {
            while let Some(value) = runner.commands().recv().await {
                let _ = runner.handle(value);
            }
            runner
        });
        let mut producers = Vec::new();
        for id in 1..=50u32 {
            let mut sender = sender.clone();
            producers.push(tokio::spawn(async move {
                assert!(sender.send(UpdateOrder::OrderInTransit(id)).await.is_ok());
            }));
        }
        drop(sender);
        for producer in producers {
            producer.await.unwrap();
        }
        let mut added = Vec::new();
        for _ in 0..50 {
            match subscription.recv().await.unwrap() {
                OrderPublish::AddOrder(pending) => added.push(pending.id),
                OrderPublish::RemoveOrder(_) => panic!("Did not get the correct response"),
            }
        }
        // Exactly 50 events, one for each order.
        let runner = running.await.unwrap();
        assert!(subscription.try_recv().is_err());
        added.sort();
        assert_eq!(added, (1..=50).collect::<Vec<u32>>());
        // Each order number is handed out once, and they are contiguous.
        let mut numbers = Vec::new();
        for id in 1..=50u32 {
            numbers.push(runner.store().order(id).unwrap().order_number.unwrap());
        }
        numbers.sort();
        assert_eq!(numbers, (1..=50).collect::<Vec<i32>>());
        assert_eq!(runner.store().last_order_number(), 50);
    });
}

#[test]
fn order_numbers_go_up_with_each_command() {
    let mut backend = backend_with(3);
    let first = backend.order_in_transit(2).unwrap();
    let second = backend.order_in_transit(3).unwrap();
    backend.order_retrieved(2).unwrap();
    let third = backend.order_in_transit(2).unwrap();
    let fourth = backend.order_in_transit(2).unwrap();
    assert_eq!(first.order_number, Some(1));
    assert_eq!(second.order_number, Some(2));
    assert_eq!(third.order_number, Some(3));
    assert_eq!(fourth.order_number, Some(4));
    assert_eq!(backend.max_order_number(), Ok(4));
}

#[test]
fn events_give_the_pending_orders() {
    let mut backend = backend_with(5);
    let before = backend.all_pending_orders().unwrap();
    let commands = [
        UpdateOrder::OrderInTransit(3),
        UpdateOrder::OrderInTransit(1),
        UpdateOrder::OrderRetrieved(4),
        UpdateOrder::OrderInTransit(9),
        UpdateOrder::OrderRetrieved(3),
        UpdateOrder::OrderInTransit(5),
        UpdateOrder::OrderInTransit(3),
        UpdateOrder::OrderRetrieved(9),
        UpdateOrder::OrderInTransit(1),
    ];
    let mut events: Vec<OrderPublish> =
        before.iter().map(|pending| OrderPublish::AddOrder(pending.clone())).collect();
    for command in commands.iter() {
        if let Ok(event) = apply_command(&mut backend, *command) {
            events.push(event);
        }
        // After each command the events so far give the pending orders.
        assert_eq!(board_after(&events), board_of(backend.all_pending_orders().unwrap()));
    }
    let ids: Vec<u32> = backend.all_pending_orders().unwrap().iter().map(|p| p.id).collect();
    assert_eq!(ids, vec![5, 3, 1]);
}

/// The store as it is seeded, behind a backend.
fn seeded_backend() -> DBBackend<Database> {
    let mut conn = Database::new();
    insert_vlaai(&mut conn, "Abrikoos").unwrap();
    insert_vlaai(&mut conn, "Kers").unwrap();
    insert_customer(&mut conn, "Peter Bergmans", "peter@peter.nl").unwrap();
    insert_customer(&mut conn, "Piet Pokerface", "pokeren@pokerface.nl").unwrap();
    insert_order(&mut conn, false, None, "Peter Bergmans", &[("Abrikoos", 1), ("Kers", 1)]).unwrap();
    insert_order(&mut conn, true, Some(1), "Piet Pokerface", &[("Abrikoos", 1), ("Kers", 1)])
        .unwrap();
    DBBackend::new(conn).unwrap()
}

#[test]
fn db_backend_continues_the_numbering_of_the_store() {
    let mut backend = seeded_backend();
    assert_eq!(backend.last_order_number(), 1);
    assert_eq!(backend.max_order_number(), Ok(1));
    let order = backend.order_in_transit(1).unwrap();
    assert_eq!(
        order,
        Order { id: 1, customer_id: 1, in_transit: true, picked_up: false, order_number: Some(2) }
    );
    assert_eq!(backend.database().get_order(1), Some(order));
    assert_eq!(backend.max_order_number(), Ok(2));
    let ids: Vec<u32> = backend.all_pending_orders().unwrap().iter().map(|p| p.id).collect();
    assert_eq!(ids, vec![2, 1]);
}

#[test]
fn db_backend_round_trip_shows_the_order_in_transit() {
    let mut backend = seeded_backend();
    let order = backend.order_in_transit(1).unwrap();
    let pending = backend.to_pending(order).unwrap();
    assert_eq!(pending.id, 1);
    assert_eq!(pending.in_transit, true);
    assert_eq!(pending.picked_up, false);
    assert_eq!(pending.customer_name, "Peter Bergmans");
    let rows: Vec<(String, u32)> = pending.rows.iter().map(|r| (r.vlaai.clone(), r.amount)).collect();
    assert_eq!(rows, vec![("Abrikoos".to_string(), 1), ("Kers".to_string(), 1)]);
}

#[test]
fn db_backend_fails_on_unknown_orders() {
    let mut backend = seeded_backend();
    assert_eq!(backend.order_in_transit(3), Err(BackendError::NotFound(3)));
    assert_eq!(backend.order_in_transit(0), Err(BackendError::NotFound(0)));
    assert_eq!(backend.order_in_transit(u32::MAX), Err(BackendError::NotFound(u32::MAX)));
    assert_eq!(backend.order_retrieved(3), Err(BackendError::NotFound(3)));
    assert_eq!(backend.order_retrieved(u32::MAX), Err(BackendError::NotFound(u32::MAX)));
    // No number was used up: the next order gets the number after the stored one.
    assert_eq!(backend.last_order_number(), 1);
    assert_eq!(backend.all_pending_orders().unwrap().len(), 1);
    assert_eq!(backend.order_in_transit(1).unwrap().order_number, Some(2));
}

#[test]
fn db_backend_reports_an_order_that_cannot_be_shown() {
    let mut conn = Database::new();
    let id = conn
        .add_order(notivlaai::db::NewOrder {
            customer_id: 5,
            in_transit: false,
            picked_up: false,
            order_number: None,
        })
        .unwrap();
    assert_eq!(id, 1);
    let mut backend = DBBackend::new(conn).unwrap();
    // The order goes in transit, but nothing is published for it.
    assert_eq!(
        apply_command(&mut backend, UpdateOrder::OrderInTransit(1)),
        Err(BackendError::Malformed)
    );
    assert_eq!(backend.database().get_order(1).unwrap().order_number, Some(1));
    assert_eq!(backend.all_pending_orders(), Err(BackendError::Malformed));
    let order = backend.database().get_order(1).unwrap();
    assert_eq!(backend.to_pending(order), Err(BackendError::Malformed));
}

#[test]
fn db_backend_events_give_the_pending_orders() {
    let mut backend = seeded_backend();
    let before = backend.all_pending_orders().unwrap();
    let mut events: Vec<OrderPublish> =
        before.iter().map(|pending| OrderPublish::AddOrder(pending.clone())).collect();
    let commands = [
        UpdateOrder::OrderInTransit(1),
        UpdateOrder::OrderRetrieved(2),
        UpdateOrder::OrderRetrieved(3),
        UpdateOrder::OrderInTransit(2),
        UpdateOrder::OrderRetrieved(1),
    ];
    for command in commands.iter() {
        if let Ok(event) = apply_command(&mut backend, *command) {
            events.push(event);
        }
        assert_eq!(board_after(&events), board_of(backend.all_pending_orders().unwrap()));
    }
    assert_eq!(backend.all_pending_orders().unwrap().len(), 1);
}

#[test]
fn default_backends() {
    let backend = TestBackend::default();
    assert_eq!(
        backend.order(1),
        Some(Order { id: 1, customer_id: 1, in_transit: false, picked_up: false, order_number: None })
    );
    assert_eq!(backend.order(2), None);
    assert_eq!(backend.last_order_number(), 0);
    assert_eq!(backend.max_order_number(), Ok(0));
    let backend = DBBackend::<Database>::default();
    assert_eq!(backend.last_order_number(), 0);
    assert_eq!(backend.database().order_count(), 0);
    assert_eq!(backend.all_pending_orders(), Ok(vec![]));
}

#[test]
fn test_backend_refuses_keys_that_are_no_order_keys() {
    let mut backend = TestBackend::new();
    assert!(backend.add_order(i32::MAX as u32, 1));
    assert!(!backend.add_order(i32::MAX as u32 + 1, 1));
    assert_eq!(backend.order(i32::MAX as u32).unwrap().id, i32::MAX);
    assert_eq!(backend.order(i32::MAX as u32 + 1), None);
}

#[test]
fn publishing_without_subscribers_is_no_error() {
    let (sender, receiver) = tokio::sync::mpsc::channel(100);
    drop(sender);
    let (subscriber, mut runner) =
        OrderStatusUpdater::new(receiver, TestBackend::default()).order_mutator();
    assert_eq!(runner.handle(UpdateOrder::OrderInTransit(1)), Ok(OrderPublish::AddOrder(piet(1))));
    // A subscription gets what is published after it, nothing from before.
    let mut subscription = subscriber.subscribe();
    assert_eq!(subscription.try_recv(), Err(TryRecvError::Empty));
    assert_eq!(runner.handle(UpdateOrder::OrderRetrieved(1)), Ok(OrderPublish::RemoveOrder(1)));
    assert_eq!(subscription.try_recv(), Ok(OrderPublish::RemoveOrder(1)));
}

#[test]
fn a_subscriber_that_falls_behind_is_told_so() {
    let (_sender, mut runner, mut subscription) = runner_over(backend_with(1));
    // The hub keeps a power of two of events: the next one above its capacity.
    let kept = HUB_CAPACITY.next_power_of_two();
    for _ in 0..kept + 1 {
        runner.handle(UpdateOrder::OrderInTransit(1)).unwrap();
    }
    assert_eq!(subscription.try_recv(), Err(TryRecvError::Lagged(1)));
    assert_eq!(subscription.try_recv(), Ok(OrderPublish::AddOrder(piet(1))));
}

#[test]
fn runner_tells_whether_a_number_is_left() {
    let (_sender, runner, _subscription) = runner_over(TestBackend::default());
    assert!(runner.ready());
}

#[test]
fn events_for_what_the_backend_answered() {
    assert_eq!(retrieved_event(4, Ok(())), Ok(OrderPublish::RemoveOrder(4)));
    assert_eq!(
        retrieved_event(4, Err(BackendError::StoreUnavailable)),
        Err(BackendError::StoreUnavailable)
    );
    assert_eq!(retrieved_event(4, Err(BackendError::NotFound(4))), Err(BackendError::NotFound(4)));
    assert_eq!(in_transit_event(Ok(piet(6))), Ok(OrderPublish::AddOrder(piet(6))));
    assert_eq!(in_transit_event(Err(BackendError::Malformed)), Err(BackendError::Malformed));
}

#[test]
fn requests_are_answered_by_whether_the_command_was_queued() {
    assert_eq!(reply_status(true), 200);
    assert_eq!(reply_status(false), 500);
}

/// A backend whose store goes away when told to.
struct Flaky {
    inner: TestBackend,
    reachable: bool,
    views_reachable: bool,
}

impl Backend for Flaky {
    fn state(&self) -> BackendView {
        unreachable!()
    }

    fn inv(&self) -> bool {
        unreachable!()
    }

    fn inv_gives_valid(&self) {}

    fn last_order_number(&self) -> i32 {
        self.inner.last_order_number()
    }

    fn order_in_transit(&mut self, id: u32) -> Result<Order, BackendError> {
        if self.reachable {
            self.inner.order_in_transit(id)
        } else {
            Err(BackendError::StoreUnavailable)
        }
    }

    fn order_retrieved(&mut self, id: u32) -> Result<(), BackendError> {
        if self.reachable {
            self.inner.order_retrieved(id)
        } else {
            Err(BackendError::StoreUnavailable)
        }
    }

    fn to_pending(&self, order: Order) -> Result<PendingOrder, BackendError> {
        if self.views_reachable {
            self.inner.to_pending(order)
        } else {
            Err(BackendError::StoreUnavailable)
        }
    }

    fn all_pending_orders(&self) -> Result<Vec<PendingOrder>, BackendError> {
        self.inner.all_pending_orders()
    }

    fn max_order_number(&self) -> Result<i32, BackendError> {
        if self.reachable {
            self.inner.max_order_number()
        } else {
            Err(BackendError::StoreUnavailable)
        }
    }
}

#[test]
fn a_store_that_is_away_fails_the_command_only() {
    let flaky = Flaky { inner: backend_with(2), reachable: false, views_reachable: true };
    let (_sender, mut runner, mut subscription) = runner_over(flaky);
    let commands = vec![UpdateOrder::OrderInTransit(1), UpdateOrder::OrderRetrieved(2)];
    assert_eq!(
        runner.handle_all(&commands),
        vec![Err(BackendError::StoreUnavailable), Err(BackendError::StoreUnavailable)]
    );
    assert_eq!(subscription.try_recv(), Err(TryRecvError::Empty));
    assert_eq!(runner.store().all_pending_orders(), Ok(vec![]));
    assert_eq!(runner.store().last_order_number(), 0);
}

#[test]
fn an_event_is_lost_when_the_store_goes_away_in_between() {
    // The order goes in transit, but it cannot be read back: nothing is
    // published, and the board in the store is ahead of the events.
    let flaky = Flaky { inner: backend_with(2), reachable: true, views_reachable: false };
    let (_sender, mut runner, mut subscription) = runner_over(flaky);
    assert_eq!(
        runner.handle(UpdateOrder::OrderInTransit(1)),
        Err(BackendError::StoreUnavailable)
    );
    assert_eq!(subscription.try_recv(), Err(TryRecvError::Empty));
    assert_eq!(runner.store().all_pending_orders(), Ok(vec![piet(1)]));
    // The runner goes on with the next command.
    assert_eq!(runner.handle(UpdateOrder::OrderRetrieved(1)), Ok(OrderPublish::RemoveOrder(1)));
    assert_eq!(subscription.try_recv(), Ok(OrderPublish::RemoveOrder(1)));
    assert_eq!(runner.store().all_pending_orders(), Ok(vec![]));
}

/// A store on top of the one in memory that can be switched off.
struct Switched {
    inner: Database,
    on: Cell<bool>,
}

impl Store for Switched {
    fn model(&self) -> StoreView {
        unreachable!()
    }

    fn inv(&self) -> bool {
        unreachable!()
    }

    fn inv_gives_valid(&self) {}

    fn update_order_in_transit(&mut self, order_id: i32, order_number: i32) -> Result<Order, DbError> {
        if self.on.get() {
            self.inner.update_order_in_transit(order_id, order_number)
        } else {
            Err(DbError::Unavailable)
        }
    }

    fn update_order_retrieved(&mut self, order_id: i32) -> Result<usize, DbError> {
        if self.on.get() {
            self.inner.update_order_retrieved(order_id)
        } else {
            Err(DbError::Unavailable)
        }
    }

    fn to_pending(&self, order: Order) -> Result<PendingOrder, DbError> {
        if self.on.get() {
            self.inner.to_pending(order)
        } else {
            Err(DbError::Unavailable)
        }
    }

    fn all_pending_orders(&self) -> Result<Vec<PendingOrder>, DbError> {
        if self.on.get() {
            self.inner.all_pending_orders()
        } else {
            Err(DbError::Unavailable)
        }
    }

    fn max_order_number(&self) -> Result<i32, DbError> {
        if self.on.get() {
            self.inner.max_order_number()
        } else {
            Err(DbError::Unavailable)
        }
    }
}

/// The seeded store behind a switch.
fn switched(on: bool) -> Switched {
    let mut conn = Database::new();
    insert_vlaai(&mut conn, "Kers").unwrap();
    insert_customer(&mut conn, "Peter Bergmans", "peter@peter.nl").unwrap();
    insert_order(&mut conn, false, None, "Peter Bergmans", &[("Kers", 1)]).unwrap();
    insert_order(&mut conn, true, Some(4), "Peter Bergmans", &[]).unwrap();
    Switched { inner: conn, on: Cell::new(on) }
}

#[test]
fn db_backend_needs_the_store_to_start_numbering() {
    assert!(matches!(DBBackend::new(switched(false)), Err(BackendError::StoreUnavailable)));
    let backend = DBBackend::new(switched(true)).unwrap();
    assert_eq!(backend.last_order_number(), 4);
}

#[test]
fn db_backend_over_a_store_that_went_away() {
    let mut backend = DBBackend::new(switched(true)).unwrap();
    backend.database().on.set(false);
    assert_eq!(backend.order_in_transit(1), Err(BackendError::StoreUnavailable));
    assert_eq!(backend.order_retrieved(2), Err(BackendError::StoreUnavailable));
    // A key that is no order key is unknown whether or not the store is there.
    assert_eq!(backend.order_in_transit(u32::MAX), Err(BackendError::NotFound(u32::MAX)));
    assert_eq!(
        backend.order_retrieved(i32::MAX as u32 + 1),
        Err(BackendError::NotFound(i32::MAX as u32 + 1))
    );
    assert_eq!(backend.all_pending_orders(), Err(BackendError::StoreUnavailable));
    assert_eq!(backend.max_order_number(), Err(BackendError::StoreUnavailable));
    let order = backend.database().inner.get_order(1).unwrap();
    assert_eq!(backend.to_pending(order), Err(BackendError::StoreUnavailable));
    // Nothing changed, and no number was used up.
    assert_eq!(backend.last_order_number(), 4);
    backend.database().on.set(true);
    assert_eq!(backend.all_pending_orders().unwrap().len(), 1);
    assert_eq!(backend.order_in_transit(1).unwrap().order_number, Some(5));
    assert_eq!(backend.order_in_transit(3), Err(BackendError::NotFound(3)));
    assert_eq!(backend.order_retrieved(2), Ok(()));
    assert_eq!(backend.order_retrieved(3), Err(BackendError::NotFound(3)));
    assert_eq!(backend.last_order_number(), 5);
}

#[test]
fn what_a_failure_of_the_store_means() {
    assert_eq!(view_error(DbError::NotFound), BackendError::Malformed);
    assert_eq!(view_error(DbError::Unavailable), BackendError::StoreUnavailable);
    assert_eq!(view_error(DbError::Constraint), BackendError::StoreUnavailable);
    assert_eq!(key_error(6, DbError::NotFound), BackendError::NotFound(6));
    assert_eq!(key_error(6, DbError::Unavailable), BackendError::StoreUnavailable);
    assert_eq!(key_error(6, DbError::Constraint), BackendError::StoreUnavailable);
}

#[test]
fn the_store_in_memory_behind_the_store_trait() {
    let mut store = switched(true).inner;
    assert_eq!(store.max_order_number(), Ok(4));
    assert_eq!(store.update_order_retrieved(2), Ok(1));
    assert_eq!(store.update_order_retrieved(9), Ok(0));
    assert_eq!(store.update_order_in_transit(9, 1), Err(DbError::NotFound));
    let order = store.update_order_in_transit(1, 8).unwrap();
    assert_eq!(order.order_number, Some(8));
    assert_eq!(Store::to_pending(&store, order).unwrap().customer_name, "Peter Bergmans");
    assert_eq!(Store::all_pending_orders(&store).unwrap().len(), 1);
}

#[test]
fn subscriptions_listen_to_the_hub_of_the_runner() {
    let (sender, receiver) = tokio::sync::mpsc::channel(100);
    drop(sender);
    let (subscriber, mut runner) = OrderStatusUpdater::new(receiver, backend_with(2)).order_mutator();
    let mut one = subscriber.subscribe();
    let mut other = subscriber.subscribe();
    assert_eq!(runner.handle(UpdateOrder::OrderInTransit(2)), Ok(OrderPublish::AddOrder(piet(2))));
    // Every subscription gets what the runner published.
    assert_eq!(one.try_recv(), Ok(OrderPublish::AddOrder(piet(2))));
    assert_eq!(other.try_recv(), Ok(OrderPublish::AddOrder(piet(2))));
    assert_eq!(one.try_recv(), Err(TryRecvError::Empty));
    // A runner of its own has a hub of its own.
    let (_sender, mut stranger, mut elsewhere) = runner_over(backend_with(2));
    assert_eq!(stranger.handle(UpdateOrder::OrderInTransit(1)), Ok(OrderPublish::AddOrder(piet(1))));
    assert_eq!(one.try_recv(), Err(TryRecvError::Empty));
    assert_eq!(elsewhere.try_recv(), Ok(OrderPublish::AddOrder(piet(1))));
}
