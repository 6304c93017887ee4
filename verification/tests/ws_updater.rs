use notivlaai::backend::{Backend, BackendError};
use notivlaai::db::PendingOrder;
use notivlaai::status_updater::{apply_command, OrderPublish, UpdateOrder};
use notivlaai::test_backend::TestBackend;
use notivlaai::ws_updater::{
    HubSignal, OrderNotification, Session, SessionAction, SessionEvent, SessionState, WsUpdater,
};
use std::collections::BTreeMap;

fn piet(id: u32) -> PendingOrder {
    PendingOrder {
        id,
        in_transit: true,
        picked_up: false,
        customer_name: "Piet".to_string(),
        rows: vec![],
    }
}

/// A session that subscribed and was sent `snapshot`.
fn live_session(snapshot: Vec<PendingOrder>) -> Session {
    let (mut session, first) = Session::new();
    assert_eq!(first, SessionAction::Subscribe);
    assert_eq!(session.step(SessionEvent::Subscribed), SessionAction::FetchSnapshot);
    assert_eq!(
        session.step(SessionEvent::Snapshot(Ok(snapshot.clone()))),
        SessionAction::Send(OrderNotification::Initialize(snapshot))
    );
    assert_eq!(session.state(), SessionState::Live);
    assert_eq!(session.step(SessionEvent::Sent), SessionAction::Wait);
    assert_eq!(session.state(), SessionState::Live);
    session
}

/// What a client shows that got these notifications.
fn client_board(notifications: &[OrderNotification]) -> BTreeMap<u32, PendingOrder> {
    let mut board = BTreeMap::new();
    for notification in notifications {
        match notification {
            OrderNotification::Initialize(list) => {
                board.clear();
                for pending in list {
                    board.insert(pending.id, pending.clone());
                }
            }
            OrderNotification::AddOrder(pending) => {
                board.insert(pending.id, pending.clone());
            }
            OrderNotification::RemoveOrder(id) => {
                board.remove(id);
            }
        }
    }
    board
}

#[test]
fn updater_keeps_its_port() {
    let handler = WsUpdater::new(9001);
    assert_eq!(handler.port(), 9001);
    assert_eq!(handler.address(), "localhost:9001");
}

#[test]
fn address_is_written_in_decimal() {
    assert_eq!(WsUpdater::new(0).address(), "localhost:0");
    assert_eq!(WsUpdater::new(7).address(), "localhost:7");
    assert_eq!(WsUpdater::new(10).address(), "localhost:10");
    assert_eq!(WsUpdater::new(65535).address(), "localhost:65535");
    assert_eq!(WsUpdater::new(1234567890).address(), "localhost:1234567890");
    assert_eq!(WsUpdater::new(u32::MAX).address(), "localhost:4294967295");
}

#[test]
fn notification_from_event() {
    assert_eq!(
        OrderNotification::from(OrderPublish::AddOrder(piet(3))),
        OrderNotification::AddOrder(piet(3))
    );
    assert_eq!(
        OrderNotification::from(OrderPublish::RemoveOrder(8)),
        OrderNotification::RemoveOrder(8)
    );
}

#[test]
fn notifications_can_be_copied() {
    let whole = OrderNotification::Initialize(vec![piet(1), piet(2)]);
    assert_eq!(whole.clone(), whole);
    let one = OrderNotification::AddOrder(piet(1));
    assert_eq!(one.clone(), one);
    assert_eq!(OrderPublish::AddOrder(piet(1)).clone(), OrderPublish::AddOrder(piet(1)));
}

#[test]
fn session_subscribes_before_it_takes_the_snapshot() {
    let (mut session, first) = Session::new();
    assert_eq!(first, SessionAction::Subscribe);
    assert_eq!(session.state(), SessionState::Connected);
    // A snapshot from before the subscription is not sent.
    assert_eq!(session.step(SessionEvent::Snapshot(Ok(vec![piet(1)]))), SessionAction::Subscribe);
    assert_eq!(session.state(), SessionState::Connected);
    assert_eq!(session.step(SessionEvent::Subscribed), SessionAction::FetchSnapshot);
    assert_eq!(session.state(), SessionState::AwaitingSnapshot);
    assert_eq!(
        session.step(SessionEvent::Snapshot(Ok(vec![piet(1)]))),
        SessionAction::Send(OrderNotification::Initialize(vec![piet(1)]))
    );
    assert_eq!(session.state(), SessionState::Live);
}

#[test]
fn session_forwards_each_event() {
    let mut session = live_session(vec![]);
    assert_eq!(
        session.step(SessionEvent::Hub(HubSignal::Event(OrderPublish::AddOrder(piet(4))))),
        SessionAction::Send(OrderNotification::AddOrder(piet(4)))
    );
    assert_eq!(
        session.step(SessionEvent::Hub(HubSignal::Event(OrderPublish::RemoveOrder(4)))),
        SessionAction::Send(OrderNotification::RemoveOrder(4))
    );
    assert_eq!(session.state(), SessionState::Live);
}

#[test]
fn session_takes_a_new_snapshot_when_it_fell_behind() {
    let mut session = live_session(vec![piet(1)]);
    assert_eq!(session.step(SessionEvent::Hub(HubSignal::Lagged(3))), SessionAction::FetchSnapshot);
    assert_eq!(session.state(), SessionState::AwaitingSnapshot);
    // An event that comes before the snapshot is covered by a new one.
    assert_eq!(
        session.step(SessionEvent::Hub(HubSignal::Event(OrderPublish::RemoveOrder(1)))),
        SessionAction::FetchSnapshot
    );
    assert_eq!(
        session.step(SessionEvent::Snapshot(Ok(vec![piet(2)]))),
        SessionAction::Send(OrderNotification::Initialize(vec![piet(2)]))
    );
    assert_eq!(session.state(), SessionState::Live);
}

#[test]
fn session_ignores_what_the_client_sends() {
    let mut session = live_session(vec![]);
    assert_eq!(session.step(SessionEvent::ClientMessage), SessionAction::Wait);
    assert_eq!(session.state(), SessionState::Live);
    assert_eq!(session.step(SessionEvent::Subscribed), SessionAction::Wait);
    let (mut session, _) = Session::new();
    assert_eq!(session.step(SessionEvent::ClientMessage), SessionAction::Subscribe);
    session.step(SessionEvent::Subscribed);
    assert_eq!(session.step(SessionEvent::ClientMessage), SessionAction::Wait);
    assert_eq!(session.state(), SessionState::AwaitingSnapshot);
}

#[test]
fn session_ends_with_the_socket_or_the_hub() {
    let mut session = live_session(vec![]);
    assert_eq!(session.step(SessionEvent::SocketClosed), SessionAction::Close);
    assert_eq!(session.state(), SessionState::Closed);

    let mut session = live_session(vec![]);
    assert_eq!(session.step(SessionEvent::Hub(HubSignal::Closed)), SessionAction::Close);
    assert_eq!(session.state(), SessionState::Closed);

    let (mut session, _) = Session::new();
    assert_eq!(session.step(SessionEvent::SocketClosed), SessionAction::Close);
    assert_eq!(session.state(), SessionState::Closed);

    let (mut session, _) = Session::new();
    session.step(SessionEvent::Subscribed);
    assert_eq!(session.step(SessionEvent::Hub(HubSignal::Closed)), SessionAction::Close);
    assert_eq!(session.state(), SessionState::Closed);
}

#[test]
fn session_ends_when_the_orders_cannot_be_read() {
    let (mut session, _) = Session::new();
    session.step(SessionEvent::Subscribed);
    assert_eq!(
        session.step(SessionEvent::Snapshot(Err(BackendError::StoreUnavailable))),
        SessionAction::Close
    );
    assert_eq!(session.state(), SessionState::Closed);
    let mut session = live_session(vec![]);
    assert_eq!(
        session.step(SessionEvent::Snapshot(Err(BackendError::Malformed))),
        SessionAction::Close
    );
}

#[test]
fn a_closed_session_stays_closed() {
    let mut session = live_session(vec![]);
    session.step(SessionEvent::SocketClosed);
    assert_eq!(session.step(SessionEvent::Subscribed), SessionAction::Close);
    assert_eq!(session.step(SessionEvent::Snapshot(Ok(vec![piet(1)]))), SessionAction::Close);
    assert_eq!(
        session.step(SessionEvent::Hub(HubSignal::Event(OrderPublish::RemoveOrder(1)))),
        SessionAction::Close
    );
    assert_eq!(session.step(SessionEvent::ClientMessage), SessionAction::Close);
    assert_eq!(session.state(), SessionState::Closed);
}

#[test]
fn a_late_client_ends_up_with_the_board() {
    let mut backend = TestBackend::new();
    for id in 1..=6u32 {
        assert!(backend.add_order(id, 1));
    }
    let commands = [
        UpdateOrder::OrderInTransit(1),
        UpdateOrder::OrderInTransit(2),
        UpdateOrder::OrderRetrieved(1),
        UpdateOrder::OrderInTransit(3),
        UpdateOrder::OrderInTransit(8),
        UpdateOrder::OrderRetrieved(2),
        UpdateOrder::OrderInTransit(4),
        UpdateOrder::OrderInTransit(1),
        UpdateOrder::OrderRetrieved(4),
    ];
    // Every way to subscribe after some commands and to take the snapshot
    // at that moment or later.
    for subscribed in 0..=commands.len() {
        for snapped in subscribed..=commands.len() {
            let mut backend = TestBackend::new();
            for id in 1..=6u32 {
                assert!(backend.add_order(id, 1));
            }
            let (mut session, _) = Session::new();
            let mut queue = Vec::new();
            let mut sent = Vec::new();
            for (at, command) in commands.iter().enumerate() {
                if at == subscribed {
                    assert_eq!(session.step(SessionEvent::Subscribed), SessionAction::FetchSnapshot);
                }
                if at == snapped {
                    let snapshot = backend.all_pending_orders();
                    match session.step(SessionEvent::Snapshot(snapshot)) {
                        SessionAction::Send(notification) => sent.push(notification),
                        _ => panic!("Did not get the correct response"),
                    }
                }
                if let Ok(event) = apply_command(&mut backend, *command) {
                    if at >= subscribed {
                        queue.push(event);
                    }
                }
            }
            if subscribed == commands.len() {
                assert_eq!(session.step(SessionEvent::Subscribed), SessionAction::FetchSnapshot);
            }
            if snapped == commands.len() {
                let snapshot = backend.all_pending_orders();
                match session.step(SessionEvent::Snapshot(snapshot)) {
                    SessionAction::Send(notification) => sent.push(notification),
                    _ => panic!("Did not get the correct response"),
                }
            }
            for event in queue {
                match session.step(SessionEvent::Hub(HubSignal::Event(event))) {
                    SessionAction::Send(notification) => sent.push(notification),
                    _ => panic!("Did not get the correct response"),
                }
            }
            let board: BTreeMap<u32, PendingOrder> = backend
                .all_pending_orders()
                .unwrap()
                .into_iter()
                .map(|pending| (pending.id, pending))
                .collect();
            assert_eq!(client_board(&sent), board);
            assert!(matches!(sent[0], OrderNotification::Initialize(_)));
        }
    }
    // The snapshot after four commands is the effect of exactly those four.
    let mut fresh = TestBackend::new();
    for id in 1..=6u32 {
        assert!(fresh.add_order(id, 1));
    }
    for command in commands[..4].iter() {
        let _ = apply_command(&mut fresh, *command);
    }
    assert_eq!(fresh.all_pending_orders(), Ok(vec![piet(2), piet(3)]));
    let _ = backend;
}

#[test]
fn session_waits_after_each_write() {
    let mut session = live_session(vec![piet(1)]);
    assert_eq!(
        session.step(SessionEvent::Hub(HubSignal::Event(OrderPublish::RemoveOrder(1)))),
        SessionAction::Send(OrderNotification::RemoveOrder(1))
    );
    assert_eq!(session.step(SessionEvent::Sent), SessionAction::Wait);
    assert_eq!(session.state(), SessionState::Live);
    // Before it has subscribed, and while it has no snapshot, a session
    // goes on asking for what it lacks.
    let (mut session, _) = Session::new();
    assert_eq!(session.step(SessionEvent::Sent), SessionAction::Subscribe);
    assert_eq!(session.step(SessionEvent::Subscribed), SessionAction::FetchSnapshot);
    assert_eq!(session.step(SessionEvent::Sent), SessionAction::FetchSnapshot);
    assert_eq!(session.state(), SessionState::AwaitingSnapshot);
    // A closed session stays closed.
    assert_eq!(session.step(SessionEvent::SocketClosed), SessionAction::Close);
    assert_eq!(session.step(SessionEvent::Sent), SessionAction::Close);
}
