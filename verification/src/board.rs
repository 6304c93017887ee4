//! The board as a client sees it, and what holds between the events that
//! the runner publishes and the pending orders in the backend.

use crate::backend::{BackendError, BackendView};
use crate::db::{Order, PendingOrderView};
use crate::status_updater::{step, trace, OrderPublishView, UpdateOrder};
use crate::ws_updater::{notification_of, OrderNotificationView};
use vstd::prelude::*;

verus! {

/// A board: the orders shown, by key.
pub type Board = Map<u32, PendingOrderView>;

/// The board after one event: an added order is shown under its key, in
/// place of what was there; a removed order is not shown.
pub open spec fn apply(board: Board, event: OrderPublishView) -> Board {
    match event {
        OrderPublishView::AddOrder(pending) => board.insert(pending.id, pending),
        OrderPublishView::RemoveOrder(id) => board.remove(id),
    }
}

/// The board after a sequence of events.
pub open spec fn replay(board: Board, events: Seq<OrderPublishView>) -> Board
    decreases events.len(),
{
    if events.len() == 0 {
        board
    } else {
        apply(replay(board, events.drop_last()), events.last())
    }
}

/// The board that shows the orders of `list`.
pub open spec fn board_of(list: Seq<PendingOrderView>) -> Board
    decreases list.len(),
{
    if list.len() == 0 {
        Map::empty()
    } else {
        board_of(list.drop_last()).insert(list.last().id, list.last())
    }
}

/// The board of a client after one notification: a snapshot replaces the
/// board, an event changes it.
pub open spec fn receive(board: Board, notification: OrderNotificationView) -> Board {
    match notification {
        OrderNotificationView::Initialize(list) => board_of(list),
        OrderNotificationView::AddOrder(pending) => board.insert(pending.id, pending),
        OrderNotificationView::RemoveOrder(id) => board.remove(id),
    }
}

/// The board of a client after a sequence of notifications.
pub open spec fn client_board(board: Board, notifications: Seq<OrderNotificationView>) -> Board
    decreases notifications.len(),
{
    if notifications.len() == 0 {
        board
    } else {
        receive(client_board(board, notifications.drop_last()), notifications.last())
    }
}

/// The events among the outcomes of a sequence of commands, in order.
pub open spec fn published(results: Seq<Result<OrderPublishView, BackendError>>) -> Seq<
    OrderPublishView,
>
    decreases results.len(),
{
    if results.len() == 0 {
        Seq::empty()
    } else {
        match results.last() {
            Ok(event) => published(results.drop_last()).push(event),
            Err(_) => published(results.drop_last()),
        }
    }
}

/// No two orders have the same order number.
pub open spec fn distinct_numbers(view: BackendView) -> bool {
    forall|a: u32, b: u32|
        #![trigger view.orders[a], view.orders[b]]
        view.orders.contains_key(a) && view.orders.contains_key(b) && a != b
            && view.orders[a].order_number is Some ==> view.orders[a].order_number
            != view.orders[b].order_number
}

/// An event was lost: an order went in transit and can be shown, yet the
/// command failed, because the store went away before the order was read
/// back.
pub open spec fn event_lost(
    before: BackendView,
    command: UpdateOrder,
    after: BackendView,
    result: Result<OrderPublishView, BackendError>,
) -> bool {
    &&& command matches UpdateOrder::OrderInTransit(id)
    &&& result is Err
    &&& after.orders != before.orders
    &&& after.shown(after.orders[id]) is Some
}

/// No event was lost while the runner carried out the commands of a record.
pub open spec fn faithful(
    states: Seq<BackendView>,
    commands: Seq<UpdateOrder>,
    results: Seq<Result<OrderPublishView, BackendError>>,
) -> bool {
    forall|i: int|
        0 <= i < commands.len() ==> !#[trigger] event_lost(
            states[i],
            commands[i],
            states[i + 1],
            results[i],
        )
}

/// A dependable backend loses no event.
pub proof fn lemma_dependable_is_faithful(
    states: Seq<BackendView>,
    commands: Seq<UpdateOrder>,
    results: Seq<Result<OrderPublishView, BackendError>>,
)
    requires
        trace(states, commands, results),
        states.first().dependable,
    ensures
        faithful(states, commands, results),
{
    assert forall|i: int| 0 <= i < commands.len() implies !#[trigger] event_lost(
        states[i],
        commands[i],
        states[i + 1],
        results[i],
    ) by {
        lemma_dependable_trace(states, commands, results, i);
        assert(step(states[i], commands[i], states[i + 1], results[i]));
    }
}

/// The runner keeps a valid backend valid.
pub proof fn lemma_step_keeps_valid(
    before: BackendView,
    command: UpdateOrder,
    after: BackendView,
    result: Result<OrderPublishView, BackendError>,
)
    requires
        before.valid(),
        step(before, command, after, result),
    ensures
        after.valid(),
        before.last_number <= after.last_number,
        after.orders.dom() == before.orders.dom(),
{
    assert forall|id: u32| #[trigger] after.orders.contains_key(id) implies {
        &&& after.orders[id].id == id
        &&& after.orders[id].valid()
        &&& after.orders[id].order_number matches Some(n) ==> n <= after.last_number
    } by {
        let target = match command {
            UpdateOrder::OrderRetrieved(target) => target,
            UpdateOrder::OrderInTransit(target) => target,
        };
        if after.orders == before.orders {
            assert(before.orders.contains_key(id));
        } else {
            assert(before.orders.contains_key(target));
            if id != target {
                assert(before.orders.contains_key(id));
                assert(after.orders[id] == before.orders[id]);
            } else {
                match command {
                    UpdateOrder::OrderRetrieved(_) => {
                        assert(after.orders[id] == before.orders[id].marked_retrieved());
                    },
                    UpdateOrder::OrderInTransit(_) => {
                        assert(after.orders[id] == before.orders[id].marked_in_transit(
                            (before.last_number + 1) as i32,
                        ));
                    },
                }
            }
        }
    }
    assert(after.orders.dom() =~= before.orders.dom()) by {
        let target = match command {
            UpdateOrder::OrderRetrieved(target) => target,
            UpdateOrder::OrderInTransit(target) => target,
        };
        if after.orders != before.orders {
            assert(before.orders.contains_key(target));
        }
    }
}

/// The board follows the events: after a command that lost no event the
/// board of the backend is the board from before with the published event
/// applied, and unchanged if nothing was published.
pub proof fn lemma_step_board(
    before: BackendView,
    command: UpdateOrder,
    after: BackendView,
    result: Result<OrderPublishView, BackendError>,
)
    requires
        before.valid(),
        step(before, command, after, result),
        !event_lost(before, command, after, result),
    ensures
        after.board() == match result {
            Ok(event) => apply(before.board(), event),
            Err(_) => before.board(),
        },
{
    let expected = match result {
        Ok(event) => apply(before.board(), event),
        Err(_) => before.board(),
    };
    assert forall|id: u32| after.on_board(id) == expected.contains_key(id) && (after.on_board(id)
        ==> after.shown(after.orders[id])->0 == expected[id]) by {
        if after.orders.contains_key(id) {
            assert(before.orders.contains_key(id));
        }
        if before.orders.contains_key(id) {
            assert(after.orders.contains_key(id));
            assert(before.orders[id].id == id);
        }
    }
    assert(after.board() =~= expected);
}

/// Replaying one more event applies it to what was replayed before.
pub proof fn lemma_replay_push(board: Board, events: Seq<OrderPublishView>, event: OrderPublishView)
    ensures
        replay(board, events.push(event)) == apply(replay(board, events), event),
{
    assert(events.push(event).drop_last() =~= events);
}

/// Replaying two sequences one after the other is replaying their
/// concatenation.
pub proof fn lemma_replay_concat(
    board: Board,
    first: Seq<OrderPublishView>,
    second: Seq<OrderPublishView>,
)
    ensures
        replay(board, first + second) == replay(replay(board, first), second),
    decreases second.len(),
{
    if second.len() == 0 {
        assert(first + second =~= first);
    } else {
        lemma_replay_concat(board, first, second.drop_last());
        assert((first + second).drop_last() =~= first + second.drop_last());
    }
}

/// The events of two sequences of outcomes, one after the other.
pub proof fn lemma_published_concat(
    first: Seq<Result<OrderPublishView, BackendError>>,
    second: Seq<Result<OrderPublishView, BackendError>>,
)
    ensures
        published(first + second) == published(first) + published(second),
    decreases second.len(),
{
    if second.len() == 0 {
        assert(first + second =~= first);
        assert(published(first) + published(second) =~= published(first));
    } else {
        lemma_published_concat(first, second.drop_last());
        assert((first + second).drop_last() =~= first + second.drop_last());
        match second.last() {
            Ok(event) => {
                assert((published(first) + published(second.drop_last())).push(event)
                    =~= published(first) + published(second.drop_last()).push(event));
            },
            Err(_) => {},
        }
    }
}

/// A record cut off after `n` commands is a record.
pub proof fn lemma_trace_take(
    states: Seq<BackendView>,
    commands: Seq<UpdateOrder>,
    results: Seq<Result<OrderPublishView, BackendError>>,
    n: int,
)
    requires
        trace(states, commands, results),
        0 <= n <= commands.len(),
    ensures
        trace(states.take(n + 1), commands.take(n), results.take(n)),
        faithful(states, commands, results) ==> faithful(
            states.take(n + 1),
            commands.take(n),
            results.take(n),
        ),
{
    let s = states.take(n + 1);
    let c = commands.take(n);
    let r = results.take(n);
    assert forall|i: int| 0 <= i < c.len() implies #[trigger] step(s[i], c[i], s[i + 1], r[i]) by {
        assert(step(states[i], commands[i], states[i + 1], results[i]));
    }
    if faithful(states, commands, results) {
        assert forall|i: int| 0 <= i < c.len() implies !#[trigger] event_lost(
            s[i],
            c[i],
            s[i + 1],
            r[i],
        ) by {
            assert(!event_lost(states[i], commands[i], states[i + 1], results[i]));
        }
    }
}

/// A record from the `n`-th command on is a record.
pub proof fn lemma_trace_skip(
    states: Seq<BackendView>,
    commands: Seq<UpdateOrder>,
    results: Seq<Result<OrderPublishView, BackendError>>,
    n: int,
)
    requires
        trace(states, commands, results),
        0 <= n <= commands.len(),
    ensures
        trace(states.skip(n), commands.skip(n), results.skip(n)),
        faithful(states, commands, results) ==> faithful(
            states.skip(n),
            commands.skip(n),
            results.skip(n),
        ),
{
    let s = states.skip(n);
    let c = commands.skip(n);
    let r = results.skip(n);
    assert forall|i: int| 0 <= i < c.len() implies #[trigger] step(s[i], c[i], s[i + 1], r[i]) by {
        assert(step(states[n + i], commands[n + i], states[n + i + 1], results[n + i]));
    }
    if faithful(states, commands, results) {
        assert forall|i: int| 0 <= i < c.len() implies !#[trigger] event_lost(
            s[i],
            c[i],
            s[i + 1],
            r[i],
        ) by {
            assert(!event_lost(states[n + i], commands[n + i], states[n + i + 1], results[n + i]));
        }
    }
}

/// A record extended by one command is a record.
pub proof fn lemma_trace_push(
    states: Seq<BackendView>,
    commands: Seq<UpdateOrder>,
    results: Seq<Result<OrderPublishView, BackendError>>,
    command: UpdateOrder,
    after: BackendView,
    result: Result<OrderPublishView, BackendError>,
)
    requires
        trace(states, commands, results),
        step(states.last(), command, after, result),
    ensures
        trace(states.push(after), commands.push(command), results.push(result)),
{
    let s = states.push(after);
    let c = commands.push(command);
    let r = results.push(result);
    assert forall|i: int| 0 <= i < c.len() implies #[trigger] step(s[i], c[i], s[i + 1], r[i]) by {
        if i < commands.len() {
            assert(step(states[i], commands[i], states[i + 1], results[i]));
        }
    }
}

/// For any sequence of commands that the runner carried out on a valid
/// backend without losing an event, the board of the backend afterwards is
/// the board from before with the published events applied in order. The
/// backend stays valid, knows the same orders, and its order numbers never
/// go down.
pub proof fn lemma_run_board(
    states: Seq<BackendView>,
    commands: Seq<UpdateOrder>,
    results: Seq<Result<OrderPublishView, BackendError>>,
)
    requires
        trace(states, commands, results),
        faithful(states, commands, results),
        states.first().valid(),
    ensures
        states.last().valid(),
        states.first().last_number <= states.last().last_number,
        states.last().orders.dom() == states.first().orders.dom(),
        states.last().board() == replay(states.first().board(), published(results)),
    decreases commands.len(),
{
    if commands.len() > 0 {
        let n = commands.len() - 1;
        lemma_trace_take(states, commands, results, n);
        lemma_run_board(states.take(n + 1), commands.take(n), results.take(n));
        assert(step(states[n], commands[n], states[n + 1], results[n]));
        assert(!event_lost(states[n], commands[n], states[n + 1], results[n]));
        lemma_step_keeps_valid(states[n], commands[n], states[n + 1], results[n]);
        lemma_step_board(states[n], commands[n], states[n + 1], results[n]);
        assert(results.take(n) =~= results.drop_last());
        match results.last() {
            Ok(event) => {
                lemma_replay_push(states.first().board(), published(results.drop_last()), event);
            },
            Err(_) => {},
        }
    }
}

/// The board of a list shows the orders of the list, and for a list without
/// a repeated key each as it stands in the list.
pub proof fn lemma_board_of(list: Seq<PendingOrderView>)
    ensures
        forall|id: u32|
            board_of(list).contains_key(id) <==> exists|k: int|
                0 <= k < list.len() && (#[trigger] list[k]).id == id,
        (forall|a: int, b: int|
            0 <= a < b < list.len() ==> (#[trigger] list[a]).id != (#[trigger] list[b]).id)
            ==> forall|k: int|
            0 <= k < list.len() ==> board_of(list)[(#[trigger] list[k]).id] == list[k],
    decreases list.len(),
{
    if list.len() > 0 {
        let front = list.drop_last();
        lemma_board_of(front);
        assert(board_of(list) == board_of(front).insert(list.last().id, list.last()));
        assert forall|id: u32| board_of(list).contains_key(id) <==> exists|k: int|
            0 <= k < list.len() && (#[trigger] list[k]).id == id by {
            if board_of(list).contains_key(id) {
                if id == list.last().id {
                    assert(list[list.len() - 1].id == id);
                } else {
                    assert(board_of(front).contains_key(id));
                    let k = choose|k: int| 0 <= k < front.len() && (#[trigger] front[k]).id == id;
                    assert(list[k].id == id);
                }
            }
            if exists|k: int| 0 <= k < list.len() && (#[trigger] list[k]).id == id {
                let k = choose|k: int| 0 <= k < list.len() && (#[trigger] list[k]).id == id;
                if k < front.len() {
                    assert(front[k].id == id);
                }
            }
        }
        if forall|a: int, b: int|
            0 <= a < b < list.len() ==> (#[trigger] list[a]).id != (#[trigger] list[b]).id {
            assert forall|a: int, b: int| 0 <= a < b < front.len() implies (#[trigger] front[a]).id
                != (#[trigger] front[b]).id by {
                assert(list[a].id != list[b].id);
            }
            assert forall|k: int| 0 <= k < list.len() implies board_of(list)[(
            #[trigger] list[k]).id] == list[k] by {
                if k < front.len() {
                    assert(list[k].id != list[list.len() - 1].id);
                    assert(front[k] == list[k]);
                }
            }
        }
    }
}

/// A snapshot of a valid backend shows the backend's board.
pub proof fn lemma_snapshot_board(view: BackendView, list: Seq<PendingOrderView>)
    requires
        view.valid(),
        view.is_snapshot(list),
    ensures
        board_of(list) == view.board(),
        view.presentable(),
{
    lemma_board_of(list);
    assert forall|id: u32| #[trigger]
        view.orders.contains_key(id) && view.orders[id].pending() implies view.shown(
        view.orders[id],
    ) is Some by {
        let k = choose|k: int| 0 <= k < list.len() && (#[trigger] list[k]).id == id;
    }
    assert forall|id: u32| board_of(list).contains_key(id) == view.on_board(id) && (view.on_board(
        id,
    ) ==> board_of(list)[id] == view.shown(view.orders[id])->0) by {
        if board_of(list).contains_key(id) {
            let k = choose|k: int| 0 <= k < list.len() && (#[trigger] list[k]).id == id;
            assert(board_of(list)[list[k].id] == list[k]);
        }
        if view.on_board(id) {
            let k = choose|k: int| 0 <= k < list.len() && (#[trigger] list[k]).id == id;
            assert(board_of(list)[list[k].id] == list[k]);
        }
    }
    assert(board_of(list) =~= view.board());
}

/// The pending set implied by the events is the pending set in the
/// backend: if the runner carried out any sequence of commands on a valid
/// backend without losing an event, then a snapshot taken afterwards shows
/// the board of a snapshot taken before with the published events applied
/// in order.
pub proof fn lemma_events_give_snapshot(
    states: Seq<BackendView>,
    first: Seq<PendingOrderView>,
    commands: Seq<UpdateOrder>,
    results: Seq<Result<OrderPublishView, BackendError>>,
    last: Seq<PendingOrderView>,
)
    requires
        trace(states, commands, results),
        faithful(states, commands, results),
        states.first().valid(),
        states.first().is_snapshot(first),
        states.last().is_snapshot(last),
    ensures
        board_of(last) == replay(board_of(first), published(results)),
{
    lemma_run_board(states, commands, results);
    lemma_snapshot_board(states.first(), first);
    lemma_snapshot_board(states.last(), last);
}

/// The key of the order that an event is about.
pub open spec fn key_of(event: OrderPublishView) -> u32 {
    match event {
        OrderPublishView::AddOrder(pending) => pending.id,
        OrderPublishView::RemoveOrder(id) => id,
    }
}

/// Two boards show the same but for the order under `key`.
pub open spec fn same_but(a: Board, b: Board, key: u32) -> bool {
    forall|id: u32|
        id != key ==> (#[trigger] a.contains_key(id) == b.contains_key(id)) && (a.contains_key(id)
            ==> a[id] == b[id])
}

/// Boards that differ under one key at most still do so after the same
/// events.
pub proof fn lemma_replay_same_but(a: Board, b: Board, key: u32, events: Seq<OrderPublishView>)
    requires
        same_but(a, b, key),
    ensures
        same_but(replay(a, events), replay(b, events), key),
    decreases events.len(),
{
    if events.len() > 0 {
        lemma_replay_same_but(a, b, key, events.drop_last());
        let x = replay(a, events.drop_last());
        let y = replay(b, events.drop_last());
        assert forall|id: u32| id != key implies (#[trigger] apply(x, events.last()).contains_key(
            id,
        ) == apply(y, events.last()).contains_key(id)) && (apply(x, events.last()).contains_key(id)
            ==> apply(x, events.last())[id] == apply(y, events.last())[id]) by {
            assert(x.contains_key(id) == y.contains_key(id));
        }
    }
}

/// Events that a board already contains may be applied to it again: the
/// board stays as it is. So a client may get a snapshot together with
/// events from before the snapshot was taken.
pub proof fn lemma_replay_again(board: Board, events: Seq<OrderPublishView>)
    ensures
        replay(replay(board, events), events) == replay(board, events),
    decreases events.len(),
{
    if events.len() > 0 {
        let front = events.drop_last();
        let event = events.last();
        let once = replay(board, front);
        lemma_replay_again(board, front);
        // Applying `event` first changes the board under its key only, and
        // applying it last settles what stands under that key.
        assert(same_but(apply(once, event), once, key_of(event))) by {
            assert forall|id: u32| id != key_of(event) implies (#[trigger] apply(
                once,
                event,
            ).contains_key(id) == once.contains_key(id)) && (apply(once, event).contains_key(id)
                ==> apply(once, event)[id] == once[id]) by {}
        }
        lemma_replay_same_but(apply(once, event), once, key_of(event), front);
        let x = replay(apply(once, event), front);
        let y = replay(once, front);
        assert(y == once);
        assert forall|id: u32|
            apply(x, event).contains_key(id) == apply(y, event).contains_key(id) && (apply(
                x,
                event,
            ).contains_key(id) ==> apply(x, event)[id] == apply(y, event)[id]) by {
            if id != key_of(event) {
                assert(x.contains_key(id) == y.contains_key(id));
            }
        }
        assert(apply(x, event) =~= apply(y, event));
    }
}

/// The notifications that carry `events`, one for one.
pub open spec fn notifications_of(events: Seq<OrderPublishView>) -> Seq<OrderNotificationView> {
    events.map_values(|event: OrderPublishView| notification_of(event))
}

/// A client that gets the events as notifications has the board that the
/// events give.
pub proof fn lemma_client_follows(board: Board, events: Seq<OrderPublishView>)
    ensures
        client_board(board, notifications_of(events)) == replay(board, events),
    decreases events.len(),
{
    if events.len() > 0 {
        lemma_client_follows(board, events.drop_last());
        assert(notifications_of(events).drop_last() =~= notifications_of(events.drop_last()));
    }
}

/// What a client has got that was sent a snapshot and then `events`.
pub open spec fn session_board(snapshot: Seq<PendingOrderView>, events: Seq<OrderPublishView>) -> Board {
    client_board(
        Map::empty(),
        seq![OrderNotificationView::Initialize(snapshot)] + notifications_of(events),
    )
}

/// A client that is sent a snapshot and then events has the snapshot's
/// board with the events applied.
pub proof fn lemma_session_board(snapshot: Seq<PendingOrderView>, events: Seq<OrderPublishView>)
    ensures
        session_board(snapshot, events) == replay(board_of(snapshot), events),
    decreases events.len(),
{
    let first = seq![OrderNotificationView::Initialize(snapshot)];
    if events.len() == 0 {
        assert(first + notifications_of(events) =~= first);
        assert(first.drop_last() =~= Seq::<OrderNotificationView>::empty());
        assert(client_board(Map::empty(), first) == receive(
            client_board(Map::empty(), first.drop_last()),
            first.last(),
        ));
    } else {
        lemma_session_board(snapshot, events.drop_last());
        assert((first + notifications_of(events)).drop_last() =~= first + notifications_of(
            events.drop_last(),
        ));
    }
}

/// A client that connects late misses nothing. Let the runner carry out
/// any sequence of commands on a valid backend without losing an event, and
/// let a session subscribe after `subscribed` of them and take its snapshot after
/// `snapped` of them, not before it subscribed. The snapshot shows the
/// effect of exactly the first `snapped` events. And the client, which is
/// sent the snapshot and then every event since it subscribed, ends up with
/// the board of the backend.
pub proof fn lemma_late_subscriber(
    states: Seq<BackendView>,
    commands: Seq<UpdateOrder>,
    results: Seq<Result<OrderPublishView, BackendError>>,
    subscribed: int,
    snapped: int,
    snapshot: Seq<PendingOrderView>,
)
    requires
        trace(states, commands, results),
        faithful(states, commands, results),
        states.first().valid(),
        0 <= subscribed <= snapped <= commands.len(),
        states[snapped].is_snapshot(snapshot),
    ensures
        board_of(snapshot) == replay(states.first().board(), published(results.take(snapped))),
        session_board(snapshot, published(results.skip(subscribed))) == states.last().board(),
{
    // Up to the subscription, from there to the snapshot, and the rest.
    lemma_trace_take(states, commands, results, subscribed);
    lemma_run_board(
        states.take(subscribed + 1),
        commands.take(subscribed),
        results.take(subscribed),
    );
    lemma_trace_take(states, commands, results, snapped);
    lemma_run_board(states.take(snapped + 1), commands.take(snapped), results.take(snapped));
    lemma_snapshot_board(states[snapped], snapshot);

    let head_states = states.take(snapped + 1).skip(subscribed);
    let head_commands = commands.take(snapped).skip(subscribed);
    let head = results.take(snapped).skip(subscribed);
    lemma_trace_skip(
        states.take(snapped + 1),
        commands.take(snapped),
        results.take(snapped),
        subscribed,
    );
    assert(head_states.first() == states[subscribed]);
    assert(head_states.last() == states[snapped]);
    lemma_run_board(head_states, head_commands, head);

    let rest = results.skip(snapped);
    lemma_trace_skip(states, commands, results, snapped);
    assert(states.skip(snapped).first() == states[snapped]);
    assert(states.skip(snapped).last() == states.last());
    lemma_run_board(states.skip(snapped), commands.skip(snapped), rest);

    // The events between subscription and snapshot are in the snapshot.
    lemma_replay_again(states[subscribed].board(), published(head));
    assert(results.skip(subscribed) =~= head + rest);
    lemma_published_concat(head, rest);
    lemma_replay_concat(board_of(snapshot), published(head), published(rest));
    lemma_session_board(snapshot, published(results.skip(subscribed)));
}

/// Order numbers go up: of two orders that the runner put in transit one
/// after the other, with any commands in between, the later one has the
/// higher number.
pub proof fn lemma_numbers_increase(
    states: Seq<BackendView>,
    commands: Seq<UpdateOrder>,
    results: Seq<Result<OrderPublishView, BackendError>>,
    earlier: int,
    later: int,
)
    requires
        trace(states, commands, results),
        states.first().valid(),
        0 <= earlier < later < commands.len(),
        commands[earlier] is OrderInTransit,
        commands[later] is OrderInTransit,
        results[earlier] is Ok,
        results[later] is Ok,
    ensures
        ({
            let a = states[earlier + 1].orders[commands[earlier]->OrderInTransit_0].order_number;
            let b = states[later + 1].orders[commands[later]->OrderInTransit_0].order_number;
            &&& a == Some((states[earlier].last_number + 1) as i32)
            &&& b == Some((states[later].last_number + 1) as i32)
            &&& a->0 < b->0
        }),
{
    lemma_counter(states, commands, results, earlier, earlier + 1);
    lemma_counter(states, commands, results, earlier + 1, later);
    lemma_counter(states, commands, results, 0, earlier);
    lemma_counter(states, commands, results, later, later + 1);
    assert(step(states[earlier], commands[earlier], states[earlier + 1], results[earlier]));
    assert(step(states[later], commands[later], states[later + 1], results[later]));
}

/// The last order number handed out never goes down, stays within its
/// type, and goes up with each command that puts an order in transit.
pub proof fn lemma_counter(
    states: Seq<BackendView>,
    commands: Seq<UpdateOrder>,
    results: Seq<Result<OrderPublishView, BackendError>>,
    from: int,
    to: int,
)
    requires
        trace(states, commands, results),
        0 <= from <= to <= commands.len(),
    ensures
        states[from].last_number <= states[to].last_number,
        to < commands.len() && commands[to] is OrderInTransit && results[to] is Ok ==> states[to].last_number
            < i32::MAX,
        from < to && commands[from] is OrderInTransit && results[from] is Ok
            ==> states[from].last_number < states[to].last_number,
    decreases to - from,
{
    if to < commands.len() {
        assert(step(states[to], commands[to], states[to + 1], results[to]));
    }
    if from < to {
        lemma_counter(states, commands, results, from + 1, to);
        assert(step(states[from], commands[from], states[from + 1], results[from]));
    }
}

/// Order numbers stay unique: if no two orders of a valid backend have the
/// same number, that is still so after any sequence of commands.
pub proof fn lemma_numbers_stay_distinct(
    states: Seq<BackendView>,
    commands: Seq<UpdateOrder>,
    results: Seq<Result<OrderPublishView, BackendError>>,
)
    requires
        trace(states, commands, results),
        states.first().valid(),
        distinct_numbers(states.first()),
    ensures
        states.last().valid(),
        distinct_numbers(states.last()),
    decreases commands.len(),
{
    if commands.len() > 0 {
        let n = commands.len() - 1;
        lemma_trace_take(states, commands, results, n);
        lemma_numbers_stay_distinct(states.take(n + 1), commands.take(n), results.take(n));
        assert(step(states[n], commands[n], states[n + 1], results[n]));
        lemma_step_keeps_valid(states[n], commands[n], states[n + 1], results[n]);
        let before = states[n];
        let after = states[n + 1];
        assert forall|a: u32, b: u32|
            #![trigger after.orders[a], after.orders[b]]
            after.orders.contains_key(a) && after.orders.contains_key(b) && a != b
                && after.orders[a].order_number is Some implies after.orders[a].order_number
            != after.orders[b].order_number by {
            assert(before.orders.contains_key(a));
            assert(before.orders.contains_key(b));
            let x = before.orders[a];
            let y = before.orders[b];
            if after.orders[b].order_number is Some && before.orders != after.orders {
                match commands[n] {
                    UpdateOrder::OrderRetrieved(id) => {},
                    UpdateOrder::OrderInTransit(id) => {
                        if a == id {
                            assert(after.orders[b] == y);
                        } else if b == id {
                            assert(after.orders[a] == x);
                        }
                    },
                }
            }
        }
    }
}

/// Round trip: an order that a valid backend put in transit is shown as in
/// transit and not picked up, under its key, with the lines that the
/// backend holds for it, and the command changed none of those lines.
pub proof fn lemma_round_trip(
    before: BackendView,
    id: u32,
    after: BackendView,
    order: Order,
    pending: PendingOrderView,
)
    requires
        before.valid(),
        before.last_number < i32::MAX,
        before.transit_outcome(id, after, Ok(order)),
        after.shown(order) == Some(pending),
    ensures
        pending.id == id,
        pending.in_transit,
        !pending.picked_up,
        pending.rows == after.lines[order.id],
        pending.customer_name == after.customers[order.customer_id],
        after.lines == before.lines,
        after.customers == before.customers,
        order.order_number == Some((before.last_number + 1) as i32),
        after.on_board(id),
        after.board()[id] == pending,
{
    assert(before.orders.contains_key(id));
    assert(after.orders[id] == order);
}

/// With a dependable backend every command of a record has the one outcome
/// that is expected of it.
pub proof fn lemma_dependable_trace(
    states: Seq<BackendView>,
    commands: Seq<UpdateOrder>,
    results: Seq<Result<OrderPublishView, BackendError>>,
    at: int,
)
    requires
        trace(states, commands, results),
        states.first().dependable,
        0 <= at < commands.len(),
    ensures
        states[at].dependable,
        (states[at + 1], results[at]) == crate::status_updater::expected(states[at], commands[at]),
    decreases at,
{
    assert(step(states[at], commands[at], states[at + 1], results[at]));
    if at > 0 {
        let before = at - 1;
        lemma_dependable_trace(states, commands, results, before);
        assert(step(states[before], commands[before], states[before + 1], results[before]));
    }
    crate::status_updater::lemma_dependable_step(
        states[at],
        commands[at],
        states[at + 1],
        results[at],
    );
}

/// A command for an unknown order publishes nothing and changes nothing,
/// and the runner carries out the command after it like any other.
pub proof fn lemma_unknown_order_is_skipped(
    states: Seq<BackendView>,
    commands: Seq<UpdateOrder>,
    results: Seq<Result<OrderPublishView, BackendError>>,
    at: int,
)
    requires
        trace(states, commands, results),
        states.first().valid(),
        0 <= at < commands.len(),
        !states[at].orders.contains_key(
            match commands[at] {
                UpdateOrder::OrderRetrieved(id) => id,
                UpdateOrder::OrderInTransit(id) => id,
            },
        ),
    ensures
        results[at] is Err,
        states[at + 1] == states[at],
        states[at].dependable ==> results[at] == Err::<OrderPublishView, BackendError>(
            BackendError::NotFound(
                match commands[at] {
                    UpdateOrder::OrderRetrieved(id) => id,
                    UpdateOrder::OrderInTransit(id) => id,
                },
            ),
        ),
        published(results.take(at + 1)) == published(results.take(at)),
        at + 1 < commands.len() ==> step(
            states[at + 1],
            commands[at + 1],
            states[at + 2],
            results[at + 1],
        ),
{
    assert(step(states[at], commands[at], states[at + 1], results[at]));
    assert(results.take(at + 1).drop_last() =~= results.take(at));
    if at + 1 < commands.len() {
        let following = at + 1;
        assert(step(
            states[following],
            commands[following],
            states[following + 1],
            results[following],
        ));
    }
}

/// A backend without the order under `id`.
pub open spec fn without(view: BackendView, id: u32) -> BackendView {
    BackendView { orders: view.orders.remove(id), ..view }
}

/// What is left of a snapshot behind its first order is a snapshot of the
/// backend without that order.
proof fn lemma_snapshot_rest(view: BackendView, list: Seq<PendingOrderView>)
    requires
        view.valid(),
        distinct_numbers(view),
        view.is_snapshot(list),
        list.len() > 0,
    ensures
        without(view, list[0].id).valid(),
        distinct_numbers(without(view, list[0].id)),
        without(view, list[0].id).is_snapshot(list.skip(1)),
{
    let first = list[0].id;
    let rest = list.skip(1);
    let less = without(view, first);
    assert forall|k: int| 0 <= k < rest.len() implies {
        let id = (#[trigger] rest[k]).id;
        &&& less.orders.contains_key(id)
        &&& less.orders[id].pending()
        &&& less.shown(less.orders[id]) == Some(rest[k])
    } by {
        assert(rest[k] == list[k + 1]);
        assert(list[0].id != list[k + 1].id);
    }
    assert forall|a: int, b: int| 0 <= a < b < rest.len() implies (#[trigger] rest[a]).id != (
    #[trigger] rest[b]).id by {
        assert(list[a + 1].id != list[b + 1].id);
    }
    assert forall|id: u32| #[trigger]
        less.orders.contains_key(id) && less.orders[id].pending() implies exists|k: int|
        0 <= k < rest.len() && (#[trigger] rest[k]).id == id by {
        assert(view.orders.contains_key(id));
        let k = choose|k: int| 0 <= k < list.len() && (#[trigger] list[k]).id == id;
        assert(rest[k - 1].id == id);
    }
    assert forall|a: int, b: int| 0 <= a < b < rest.len() implies crate::listing::number_key(
        less.orders[(#[trigger] rest[a]).id],
    ) <= crate::listing::number_key(less.orders[(#[trigger] rest[b]).id]) by {
        assert(list[a + 1].id != list[0].id);
        assert(list[b + 1].id != list[0].id);
        assert(crate::listing::number_key(view.orders[list[a + 1].id]) <= crate::listing::number_key(
            view.orders[list[b + 1].id],
        ));
    }
    assert forall|id: u32| #[trigger] less.orders.contains_key(id) implies {
        &&& less.orders[id].id == id
        &&& less.orders[id].valid()
        &&& less.orders[id].order_number matches Some(n) ==> n <= less.last_number
    } by {
        assert(view.orders.contains_key(id));
    }
    assert forall|a: u32, b: u32|
        #![trigger less.orders[a], less.orders[b]]
        less.orders.contains_key(a) && less.orders.contains_key(b) && a != b
            && less.orders[a].order_number is Some implies less.orders[a].order_number
        != less.orders[b].order_number by {
        assert(view.orders.contains_key(a) && view.orders.contains_key(b));
        assert(view.orders[a].order_number != view.orders[b].order_number);
    }
}

/// A snapshot begins with the pending order of the lowest number.
proof fn lemma_snapshot_first(
    view: BackendView,
    a: Seq<PendingOrderView>,
    b: Seq<PendingOrderView>,
)
    requires
        view.valid(),
        distinct_numbers(view),
        view.is_snapshot(a),
        view.is_snapshot(b),
        a.len() > 0,
    ensures
        b.len() > 0,
        a[0] == b[0],
{
    let x = a[0].id;
    assert(view.orders.contains_key(x) && view.orders[x].pending());
    let at = choose|k: int| 0 <= k < b.len() && (#[trigger] b[k]).id == x;
    let y = b[0].id;
    assert(view.orders.contains_key(y) && view.orders[y].pending());
    let back = choose|k: int| 0 <= k < a.len() && (#[trigger] a[k]).id == y;
    if x != y {
        assert(crate::listing::number_key(view.orders[b[0].id]) <= crate::listing::number_key(
            view.orders[b[at].id],
        ));
        assert(crate::listing::number_key(view.orders[a[0].id]) <= crate::listing::number_key(
            view.orders[a[back].id],
        ));
        assert(view.orders[x].order_number != view.orders[y].order_number);
    }
}

/// The snapshot is one: while no two orders have the same number, a valid
/// backend has exactly one snapshot, so what a session sends to a client
/// that connects is fixed by the orders in the backend.
pub proof fn lemma_snapshot_is_one(
    view: BackendView,
    a: Seq<PendingOrderView>,
    b: Seq<PendingOrderView>,
)
    requires
        view.valid(),
        distinct_numbers(view),
        view.is_snapshot(a),
        view.is_snapshot(b),
    ensures
        a == b,
    decreases a.len(),
{
    if a.len() == 0 {
        if b.len() > 0 {
            lemma_snapshot_first(view, b, a);
        }
        assert(a =~= b);
    } else {
        lemma_snapshot_first(view, a, b);
        lemma_snapshot_rest(view, a);
        lemma_snapshot_rest(view, b);
        lemma_snapshot_is_one(without(view, a[0].id), a.skip(1), b.skip(1));
        assert(a =~= seq![a[0]] + a.skip(1));
        assert(b =~= seq![b[0]] + b.skip(1));
    }
}

/// The key of the order that a command is about.
pub open spec fn target(command: UpdateOrder) -> u32 {
    match command {
        UpdateOrder::OrderRetrieved(id) => id,
        UpdateOrder::OrderInTransit(id) => id,
    }
}

/// Whether the order under `id` is known and can be shown.
pub open spec fn can_be_shown(view: BackendView, id: u32) -> bool {
    view.orders.contains_key(id) && view.shown(view.orders[id]) is Some
}

/// On a dependable backend every command to put in transit an order that
/// is known and can be shown succeeds, whatever commands of that kind went
/// before it.
pub proof fn lemma_all_go_in_transit(
    states: Seq<BackendView>,
    commands: Seq<UpdateOrder>,
    results: Seq<Result<OrderPublishView, BackendError>>,
)
    requires
        trace(states, commands, results),
        states.first().valid(),
        states.first().dependable,
        forall|i: int|
            0 <= i < commands.len() ==> (#[trigger] commands[i]) is OrderInTransit && can_be_shown(
                states.first(),
                target(commands[i]),
            ),
    ensures
        forall|i: int| 0 <= i < commands.len() ==> (#[trigger] results[i]) is Ok,
{
    assert forall|i: int| 0 <= i < commands.len() implies (#[trigger] results[i]) is Ok by {
        lemma_stays_shown(states, commands, results, i, target(commands[i]));
        lemma_dependable_trace(states, commands, results, i);
    }
}

/// An order that is known and can be shown stays so, whatever the runner
/// does.
pub proof fn lemma_stays_shown(
    states: Seq<BackendView>,
    commands: Seq<UpdateOrder>,
    results: Seq<Result<OrderPublishView, BackendError>>,
    n: int,
    id: u32,
)
    requires
        trace(states, commands, results),
        states.first().valid(),
        0 <= n <= commands.len(),
        can_be_shown(states.first(), id),
    ensures
        states[n].valid(),
        can_be_shown(states[n], id),
        states[n].orders[id].customer_id == states.first().orders[id].customer_id,
        states[n].customers == states.first().customers,
        states[n].lines == states.first().lines,
    decreases n,
{
    if n > 0 {
        let before = n - 1;
        lemma_stays_shown(states, commands, results, before, id);
        assert(step(states[before], commands[before], states[before + 1], results[before]));
        lemma_step_keeps_valid(states[before], commands[before], states[before + 1], results[before]);
        assert(states[before].orders.contains_key(id));
        assert(states[n].orders.contains_key(id));
    }
}

/// Order numbers are contiguous: when the runner put `n` orders in transit
/// one after the other, it published `n` added orders, one for each command
/// and in their order, and command `i` gave its order the number `i + 1`
/// after the last one handed out before. If the orders are `n` different
/// ones, each of them still has that number at the end: the numbers are
/// the `n` that follow the last one from before, each handed out once.
pub proof fn lemma_numbers_contiguous(
    states: Seq<BackendView>,
    commands: Seq<UpdateOrder>,
    results: Seq<Result<OrderPublishView, BackendError>>,
)
    requires
        trace(states, commands, results),
        states.first().valid(),
        forall|i: int|
            0 <= i < commands.len() ==> (#[trigger] commands[i]) is OrderInTransit && results[i] is Ok,
    ensures
        states.last().valid(),
        states.last().last_number == states.first().last_number + commands.len(),
        published(results).len() == commands.len(),
        forall|i: int|
            0 <= i < commands.len() ==> {
                &&& (#[trigger] published(results)[i]) matches OrderPublishView::AddOrder(pending)
                &&& pending.id == target(commands[i])
            },
        forall|i: int|
            0 <= i < commands.len() ==> states[i + 1].orders[target(
                #[trigger] commands[i],
            )].order_number == Some((states.first().last_number + i + 1) as i32),
        (forall|i: int, j: int|
            0 <= i < j < commands.len() ==> target(#[trigger] commands[i]) != target(
                #[trigger] commands[j],
            )) ==> forall|i: int|
            0 <= i < commands.len() ==> states.last().orders[target(
                #[trigger] commands[i],
            )].order_number == Some((states.first().last_number + i + 1) as i32),
    decreases commands.len(),
{
    if commands.len() > 0 {
        let n = commands.len() - 1;
        let front_states = states.take(n + 1);
        let front_commands = commands.take(n);
        let front_results = results.take(n);
        lemma_trace_take(states, commands, results, n);
        assert forall|i: int| 0 <= i < front_commands.len() implies (
        #[trigger] front_commands[i]) is OrderInTransit && front_results[i] is Ok by {
            assert(commands[i] is OrderInTransit && results[i] is Ok);
        }
        lemma_numbers_contiguous(front_states, front_commands, front_results);
        assert(front_states.last() == states[n]);
        assert(front_states.first() == states.first());
        assert(step(states[n], commands[n], states[n + 1], results[n]));
        assert(commands[n] is OrderInTransit && results[n] is Ok);
        lemma_step_keeps_valid(states[n], commands[n], states[n + 1], results[n]);
        assert(results.take(n) =~= results.drop_last());
        let events = published(results);
        let front_events = published(front_results);
        assert(events == front_events.push(results[n]->Ok_0));
        let last_key = target(commands[n]);
        assert(states[n].orders.contains_key(last_key));
        assert(states[n].orders[last_key].id == last_key);
        assert forall|i: int| 0 <= i < commands.len() implies {
            &&& (#[trigger] events[i]) matches OrderPublishView::AddOrder(pending)
            &&& pending.id == target(commands[i])
        } by {
            if i < n {
                assert(events[i] == front_events[i]);
                assert(front_commands[i] == commands[i]);
            }
        }
        assert forall|i: int| 0 <= i < commands.len() implies states[i + 1].orders[target(
            #[trigger] commands[i],
        )].order_number == Some((states.first().last_number + i + 1) as i32) by {
            if i < n {
                assert(front_commands[i] == commands[i]);
                assert(front_states[i + 1] == states[i + 1]);
            }
        }
        if forall|i: int, j: int|
            0 <= i < j < commands.len() ==> target(#[trigger] commands[i]) != target(
                #[trigger] commands[j],
            ) {
            assert forall|i: int, j: int| 0 <= i < j < front_commands.len() implies target(
                #[trigger] front_commands[i],
            ) != target(#[trigger] front_commands[j]) by {
                assert(target(commands[i]) != target(commands[j]));
            }
            assert forall|i: int| 0 <= i < commands.len() implies states.last().orders[target(
                #[trigger] commands[i],
            )].order_number == Some((states.first().last_number + i + 1) as i32) by {
                if i < n {
                    assert(front_commands[i] == commands[i]);
                    assert(target(commands[i]) != target(commands[n]));
                    assert(states[n].orders.contains_key(target(commands[i]))) by {
                        lemma_known_in_transit(states, commands, results, i, n);
                    }
                }
            }
        }
    }
}

/// An order that the runner put in transit is known from then on.
proof fn lemma_known_in_transit(
    states: Seq<BackendView>,
    commands: Seq<UpdateOrder>,
    results: Seq<Result<OrderPublishView, BackendError>>,
    at: int,
    n: int,
)
    requires
        trace(states, commands, results),
        states.first().valid(),
        0 <= at < n <= commands.len(),
        commands[at] is OrderInTransit,
        results[at] is Ok,
    ensures
        states[n].orders.contains_key(target(commands[at])),
{
    assert(step(states[at], commands[at], states[at + 1], results[at]));
    lemma_trace_take(states, commands, results, at);
    lemma_run_valid(states.take(at + 1), commands.take(at), results.take(at));
    assert(states.take(at + 1).last() == states[at]);
    lemma_trace_take(states, commands, results, n);
    lemma_run_valid(states.take(n + 1), commands.take(n), results.take(n));
    assert(states.take(n + 1).last() == states[n]);
    assert(states[at].orders.dom().contains(target(commands[at])));
}

/// The runner keeps a valid backend valid and knows the same orders
/// throughout.
pub proof fn lemma_run_valid(
    states: Seq<BackendView>,
    commands: Seq<UpdateOrder>,
    results: Seq<Result<OrderPublishView, BackendError>>,
)
    requires
        trace(states, commands, results),
        states.first().valid(),
    ensures
        states.last().valid(),
        states.last().orders.dom() == states.first().orders.dom(),
    decreases commands.len(),
{
    if commands.len() > 0 {
        let n = commands.len() - 1;
        lemma_trace_take(states, commands, results, n);
        lemma_run_valid(states.take(n + 1), commands.take(n), results.take(n));
        assert(step(states[n], commands[n], states[n + 1], results[n]));
        lemma_step_keeps_valid(states[n], commands[n], states[n + 1], results[n]);
    }
}

/// How many of the first `n` commands put an order in transit and
/// succeeded.
pub open spec fn successes(
    commands: Seq<UpdateOrder>,
    results: Seq<Result<OrderPublishView, BackendError>>,
    n: int,
) -> int
    decreases n,
{
    if n <= 0 {
        0
    } else if commands[n - 1] is OrderInTransit && results[n - 1] is Ok {
        successes(commands, results, n - 1) + 1
    } else {
        successes(commands, results, n - 1)
    }
}

/// Only success uses up a number: while every command that failed left the
/// backend as it was, the last number handed out after `n` commands is the
/// one from the start plus the number of orders that were put in transit,
/// and the order of the next such command gets the number after it. So the
/// `j`-th order put in transit has the `j`-th number after the one from the
/// start, whatever failed in between.
pub proof fn lemma_number_counts_successes(
    states: Seq<BackendView>,
    commands: Seq<UpdateOrder>,
    results: Seq<Result<OrderPublishView, BackendError>>,
    n: int,
)
    requires
        trace(states, commands, results),
        states.first().valid(),
        0 <= n <= commands.len(),
        forall|i: int|
            0 <= i < commands.len() && (#[trigger] results[i]) is Err ==> states[i + 1]
                == states[i],
    ensures
        states[n].last_number == states.first().last_number + successes(commands, results, n),
        n < commands.len() && commands[n] is OrderInTransit && results[n] is Ok ==> states[n
            + 1].orders[target(commands[n])].order_number == Some(
            (states.first().last_number + successes(commands, results, n) + 1) as i32,
        ),
    decreases n,
{
    if n > 0 {
        let before = n - 1;
        lemma_number_counts_successes(states, commands, results, before);
        assert(step(states[before], commands[before], states[before + 1], results[before]));
        if results[before] is Err {
            assert(states[before + 1] == states[before]);
        }
    }
    if n < commands.len() {
        assert(step(states[n], commands[n], states[n + 1], results[n]));
        lemma_trace_take(states, commands, results, n);
        lemma_run_valid(states.take(n + 1), commands.take(n), results.take(n));
        assert(states.take(n + 1).last() == states[n]);
    }
}

/// Taking a failed command out of the outcomes takes no event away.
pub proof fn lemma_published_without(
    results: Seq<Result<OrderPublishView, BackendError>>,
    at: int,
)
    requires
        0 <= at < results.len(),
        results[at] is Err,
    ensures
        published(results.remove(at)) == published(results),
    decreases results.len(),
{
    if at == results.len() - 1 {
        assert(results.remove(at) =~= results.drop_last());
    } else {
        lemma_published_without(results.drop_last(), at);
        assert(results.remove(at).drop_last() =~= results.drop_last().remove(at));
        assert(results.remove(at).last() == results.last());
    }
}

/// A command for an unknown order might as well never have been queued:
/// the record without it is a record of the runner too, from the same
/// backend to the same backend, and with the same events published.
pub proof fn lemma_as_if_never_queued(
    states: Seq<BackendView>,
    commands: Seq<UpdateOrder>,
    results: Seq<Result<OrderPublishView, BackendError>>,
    at: int,
)
    requires
        trace(states, commands, results),
        states.first().valid(),
        0 <= at < commands.len(),
        !states[at].orders.contains_key(target(commands[at])),
    ensures
        trace(states.remove(at + 1), commands.remove(at), results.remove(at)),
        states.remove(at + 1).first() == states.first(),
        states.remove(at + 1).last() == states.last(),
        published(results.remove(at)) == published(results),
{
    lemma_unknown_order_is_skipped(states, commands, results, at);
    lemma_published_without(results, at);
    let s = states.remove(at + 1);
    let c = commands.remove(at);
    let r = results.remove(at);
    assert forall|i: int| 0 <= i < c.len() implies #[trigger] step(s[i], c[i], s[i + 1], r[i]) by {
        if i < at {
            assert(step(states[i], commands[i], states[i + 1], results[i]));
        } else {
            let j = i + 1;
            assert(step(states[j], commands[j], states[j + 1], results[j]));
            assert(s[i + 1] == states[j + 1]);
            if i == at {
                assert(s[i] == states[at]);
            } else {
                assert(s[i] == states[j]);
            }
        }
    }
    if at + 1 == commands.len() {
        assert(s.last() == states[at]);
    }
}

/// Two orders in, one out. On a valid, dependable backend on which nothing
/// is pending, let the runner put two different orders in transit that can
/// be shown, and then have the first picked up. It publishes the first as
/// added, the second as added, and the first as removed; and the board is
/// then the second order alone, in transit and not picked up.
pub proof fn lemma_two_in_one_out(
    states: Seq<BackendView>,
    commands: Seq<UpdateOrder>,
    results: Seq<Result<OrderPublishView, BackendError>>,
    first: u32,
    second: u32,
    snapshot: Seq<PendingOrderView>,
)
    requires
        trace(states, commands, results),
        states.first().valid(),
        states.first().dependable,
        forall|id: u32| #[trigger]
            states.first().orders.contains_key(id) ==> !states.first().orders[id].pending(),
        first != second,
        can_be_shown(states.first(), first),
        can_be_shown(states.first(), second),
        commands == seq![
            UpdateOrder::OrderInTransit(first),
            UpdateOrder::OrderInTransit(second),
            UpdateOrder::OrderRetrieved(first),
        ],
        states.last().is_snapshot(snapshot),
    ensures
        results[0] matches Ok(OrderPublishView::AddOrder(pending)) && pending.id == first,
        results[1] matches Ok(OrderPublishView::AddOrder(pending)) && pending.id == second,
        results[2] == Ok::<OrderPublishView, BackendError>(OrderPublishView::RemoveOrder(first)),
        snapshot.len() == 1,
        snapshot[0].id == second,
        snapshot[0].in_transit,
        !snapshot[0].picked_up,
{
    lemma_dependable_trace(states, commands, results, 0);
    lemma_dependable_trace(states, commands, results, 1);
    lemma_dependable_trace(states, commands, results, 2);
    lemma_stays_shown(states, commands, results, 1, second);
    lemma_stays_shown(states, commands, results, 2, first);
    lemma_stays_shown(states, commands, results, 0, first);
    let start = states[0];
    let end = states[3];
    assert(states.last() == end);
    assert(start.orders[first].id == first);
    assert(start.orders[second].id == second);
    assert(states[1].orders.contains_key(second));
    assert(states[2].orders.contains_key(first));
    assert forall|id: u32| #[trigger] end.orders.contains_key(id) && end.orders[id].pending() implies id
        == second by {
        if id != second && id != first {
            assert(states[2].orders.contains_key(id));
            assert(states[1].orders.contains_key(id));
            assert(start.orders.contains_key(id));
            assert(end.orders[id] == start.orders[id]);
        }
    }
    assert(end.orders.contains_key(second) && end.orders[second].pending());
    let k = choose|k: int| 0 <= k < snapshot.len() && (#[trigger] snapshot[k]).id == second;
    assert forall|j: int| 0 <= j < snapshot.len() implies (#[trigger] snapshot[j]).id == second by {
        assert(end.orders.contains_key(snapshot[j].id) && end.orders[snapshot[j].id].pending());
    }
    if snapshot.len() > 1 {
        assert(snapshot[0].id != snapshot[1].id);
    }
    assert(end.shown(end.orders[second]) == Some(snapshot[0]));
}

} // verus!
