//! The runner: it takes one command at a time, drives the backend, and
//! publishes what changed on the board.

use crate::backend::{Backend, BackendError, BackendView};
use crate::db::{PendingOrder, PendingOrderView};
use crate::hub::{another_handle, hub_of, source_of, subscribe_to};
use tokio::sync::broadcast::{channel, Receiver, Sender};
use tokio::sync::mpsc;
use vstd::prelude::*;

verus! {

/// A command to change the state of an order.
#[derive(Clone, Copy, Debug, PartialEq, Eq)]
pub enum UpdateOrder {
    /// The order was picked up: take it off the board.
    OrderRetrieved(u32),
    /// The order is in transit: put it on the board.
    OrderInTransit(u32),
}

/// A change of the board.
#[derive(Debug, PartialEq)]
pub enum OrderPublish {
    /// Add an order to the board.
    AddOrder(PendingOrder),
    /// Remove an order from the board.
    RemoveOrder(u32),
}

/// What an [`OrderPublish`] holds.
pub enum OrderPublishView {
    AddOrder(PendingOrderView),
    RemoveOrder(u32),
}

impl View for OrderPublish {
    type V = OrderPublishView;

    open spec fn view(&self) -> OrderPublishView {
        match self {
            OrderPublish::AddOrder(pending) => OrderPublishView::AddOrder(pending@),
            OrderPublish::RemoveOrder(id) => OrderPublishView::RemoveOrder(*id),
        }
    }
}

impl Clone for OrderPublish {
    fn clone(&self) -> (copy: Self)
        ensures
            copy@ == self@,
    {
        match self {
            OrderPublish::AddOrder(pending) => OrderPublish::AddOrder(pending.clone()),
            OrderPublish::RemoveOrder(id) => OrderPublish::RemoveOrder(*id),
        }
    }
}

/// How many events the hub is asked to keep for a subscriber that falls
/// behind. A subscriber that falls behind by more loses the oldest ones and
/// is told so; the runner is never held up.
pub const HUB_CAPACITY: usize = 100;

/// What the runner returns for a command, seen through the views.
pub open spec fn result_view(result: Result<OrderPublish, BackendError>) -> Result<
    OrderPublishView,
    BackendError,
> {
    match result {
        Ok(event) => Ok(event@),
        Err(e) => Err(e),
    }
}

/// The backend with order `id` put in transit under the next number.
pub open spec fn moved_in_transit(before: BackendView, id: u32) -> BackendView {
    BackendView {
        orders: before.orders.insert(
            id,
            before.orders[id].marked_in_transit((before.last_number + 1) as i32),
        ),
        last_number: before.last_number + 1,
        ..before
    }
}

/// The backend with order `id` marked as picked up.
pub open spec fn moved_retrieved(before: BackendView, id: u32) -> BackendView {
    BackendView { orders: before.orders.insert(id, before.orders[id].marked_retrieved()), ..before }
}

/// What the runner does with one command when the backend is dependable:
/// the backend afterwards, and the event or the error.
///
/// A command for an unknown order changes nothing and gives `NotFound`. An
/// order put in transit uses up an order number and is published as it is
/// then shown; if it cannot be shown, it stays in transit and `Malformed` is
/// given. An order that was picked up is published as removed.
pub open spec fn expected(before: BackendView, command: UpdateOrder) -> (
    BackendView,
    Result<OrderPublishView, BackendError>,
) {
    match command {
        UpdateOrder::OrderRetrieved(id) => if before.orders.contains_key(id) {
            (moved_retrieved(before, id), Ok(OrderPublishView::RemoveOrder(id)))
        } else {
            (before, Err(BackendError::NotFound(id)))
        },
        UpdateOrder::OrderInTransit(id) => if before.orders.contains_key(id) {
            let after = moved_in_transit(before, id);
            match after.shown(after.orders[id]) {
                Some(pending) => (after, Ok(OrderPublishView::AddOrder(pending))),
                None => (after, Err(BackendError::Malformed)),
            }
        } else {
            (before, Err(BackendError::NotFound(id)))
        },
    }
}

/// What holds of one command whatever the backend did. An event is
/// published only for a change that took place; a failure leaves the
/// backend as it was, but for an order that went in transit and could then
/// not be shown.
pub open spec fn step(
    before: BackendView,
    command: UpdateOrder,
    after: BackendView,
    result: Result<OrderPublishView, BackendError>,
) -> bool {
    &&& after.customers == before.customers
    &&& after.lines == before.lines
    &&& after.dependable == before.dependable
    &&& match command {
        UpdateOrder::OrderRetrieved(id) => {
            &&& after.last_number == before.last_number
            &&& match result {
                Ok(event) => {
                    &&& before.orders.contains_key(id)
                    &&& after.orders == moved_retrieved(before, id).orders
                    &&& event == OrderPublishView::RemoveOrder(id)
                },
                Err(e) => {
                    &&& after.orders == before.orders
                    &&& e !is Malformed
                    &&& before.dependable ==> e is NotFound
                    &&& e matches BackendError::NotFound(missing) ==> missing == id
                        && !before.orders.contains_key(id)
                },
            }
        },
        UpdateOrder::OrderInTransit(id) => {
            match result {
                Ok(event) => {
                    &&& before.orders.contains_key(id)
                    &&& before.last_number < i32::MAX
                    &&& after.last_number == before.last_number + 1
                    &&& after.orders == moved_in_transit(before, id).orders
                    &&& event matches OrderPublishView::AddOrder(pending)
                    &&& after.shown(after.orders[id]) == Some(pending)
                },
                Err(e) => {
                    ||| {
                        &&& after.orders == before.orders
                        &&& after.last_number == before.last_number
                        &&& e !is Malformed
                        &&& before.dependable ==> e is NotFound
                        &&& e matches BackendError::NotFound(missing) ==> missing == id
                            && !before.orders.contains_key(id)
                    }
                    ||| {
                        &&& before.orders.contains_key(id)
                        &&& before.last_number < i32::MAX
                        &&& after.last_number == before.last_number + 1
                        &&& after.orders == moved_in_transit(before, id).orders
                        &&& e !is NotFound
                        &&& before.dependable ==> e is Malformed
                        &&& e is Malformed ==> after.shown(after.orders[id]) is None
                    }
                },
            }
        },
    }
}

/// A record of the runner at work: `states[i]` is the backend before the
/// command `commands[i]`, `results[i]` is the outcome of that command, and
/// `states[i + 1]` is the backend after it.
pub open spec fn trace(
    states: Seq<BackendView>,
    commands: Seq<UpdateOrder>,
    results: Seq<Result<OrderPublishView, BackendError>>,
) -> bool {
    &&& states.len() == commands.len() + 1
    &&& results.len() == commands.len()
    &&& forall|i: int|
        0 <= i < commands.len() ==> #[trigger] step(
            states[i],
            commands[i],
            states[i + 1],
            results[i],
        )
}

/// The runner took the backend from `before` to `after` by carrying out
/// `commands` one after the other, with `results` as their outcomes.
pub open spec fn runs(
    before: BackendView,
    commands: Seq<UpdateOrder>,
    after: BackendView,
    results: Seq<Result<OrderPublishView, BackendError>>,
) -> bool {
    exists|states: Seq<BackendView>|
        {
            &&& #[trigger] trace(states, commands, results)
            &&& states.first() == before
            &&& states.last() == after
        }
}

/// How many order numbers a sequence of commands can use up: one for each
/// command that puts an order in transit.
pub open spec fn numbers_needed(commands: Seq<UpdateOrder>) -> nat
    decreases commands.len(),
{
    if commands.len() == 0 {
        0
    } else if commands.last() is OrderInTransit {
        numbers_needed(commands.drop_last()) + 1
    } else {
        numbers_needed(commands.drop_last())
    }
}

/// A longer sequence of commands needs no fewer order numbers.
pub proof fn lemma_numbers_needed(commands: Seq<UpdateOrder>, n: int)
    requires
        0 <= n < commands.len(),
    ensures
        numbers_needed(commands.take(n + 1)) == numbers_needed(commands.take(n)) + if commands[n] is OrderInTransit {
            1nat
        } else {
            0nat
        },
        numbers_needed(commands.take(n + 1)) <= numbers_needed(commands),
    decreases commands.len() - n,
{
    assert(commands.take(n + 1).drop_last() =~= commands.take(n));
    if n + 1 < commands.len() {
        lemma_numbers_needed(commands, n + 1);
        assert(commands.take(n + 2).drop_last() =~= commands.take(n + 1));
    } else {
        assert(commands.take(n + 1) =~= commands);
    }
}

/// The outcomes of a sequence of commands, seen through the views.
pub open spec fn result_views(results: Seq<Result<OrderPublish, BackendError>>) -> Seq<
    Result<OrderPublishView, BackendError>,
> {
    Seq::new(results.len(), |i: int| result_view(results[i]))
}

/// With a dependable backend a command has one outcome.
pub proof fn lemma_dependable_step(
    before: BackendView,
    command: UpdateOrder,
    after: BackendView,
    result: Result<OrderPublishView, BackendError>,
)
    requires
        before.dependable,
        step(before, command, after, result),
    ensures
        (after, result) == expected(before, command),
{
    let (state, outcome) = expected(before, command);
    assert(after.orders == state.orders);
    assert(after.last_number == state.last_number);
    assert(after == state);
}

/// The event for a command to mark order `id` as picked up, given what the
/// backend answered.
pub fn retrieved_event(id: u32, answer: Result<(), BackendError>) -> (r: Result<
    OrderPublish,
    BackendError,
>)
    ensures
        match answer {
            Ok(_) => r == Ok::<OrderPublish, BackendError>(OrderPublish::RemoveOrder(id)),
            Err(e) => r == Err::<OrderPublish, BackendError>(e),
        },
{
    match answer {
        Ok(_) => Ok(OrderPublish::RemoveOrder(id)),
        Err(e) => Err(e),
    }
}

/// The event for a command to put an order in transit, given the view that
/// the backend built of it.
pub fn in_transit_event(answer: Result<PendingOrder, BackendError>) -> (r: Result<
    OrderPublish,
    BackendError,
>)
    ensures
        match answer {
            Ok(pending) => r == Ok::<OrderPublish, BackendError>(OrderPublish::AddOrder(pending)),
            Err(e) => r == Err::<OrderPublish, BackendError>(e),
        },
{
    match answer {
        Ok(pending) => Ok(OrderPublish::AddOrder(pending)),
        Err(e) => Err(e),
    }
}

/// Carries out one command on `backend` and returns the event to publish.
pub fn apply_command<T: Backend>(backend: &mut T, command: UpdateOrder) -> (r: Result<
    OrderPublish,
    BackendError,
>)
    requires
        old(backend).inv(),
        command matches UpdateOrder::OrderInTransit(id) ==> (old(backend).state().orders.contains_key(
            id,
        ) ==> old(backend).state().last_number < i32::MAX),
    ensures
        final(backend).inv(),
        step(old(backend).state(), command, final(backend).state(), result_view(r)),
        old(backend).state().dependable ==> (final(backend).state(), result_view(r)) == expected(
            old(backend).state(),
            command,
        ),
{
    let r = match command {
        UpdateOrder::OrderRetrieved(id) => {
            let answer = backend.order_retrieved(id);
            retrieved_event(id, answer)
        },
        UpdateOrder::OrderInTransit(id) => {
            match backend.order_in_transit(id) {
                Ok(order) => {
                    let answer = backend.to_pending(order);
                    in_transit_event(answer)
                },
                Err(e) => Err(e),
            }
        },
    };
    proof {
        if old(backend).state().dependable {
            lemma_dependable_step(
                old(backend).state(),
                command,
                backend.state(),
                result_view(r),
            );
        }
    }
    r
}

/// The runner before it is split in its two halves.
pub struct OrderStatusUpdater<T> {
    /// Publishes the changes of the board.
    publisher: Sender<OrderPublish>,
    /// The queue of commands.
    receiver: mpsc::Receiver<UpdateOrder>,
    /// What carries the commands out.
    backend: T,
}

/// Takes commands and publishes what they changed.
pub struct OrderRunner<T> {
    /// The queue of commands.
    receiver: mpsc::Receiver<UpdateOrder>,
    /// Publishes the changes of the board.
    publisher: Sender<OrderPublish>,
    /// What carries the commands out.
    backend: T,
}

/// Hands out subscriptions to the changes of the board.
pub struct OrderSubscriber {
    publisher: Sender<OrderPublish>,
}

impl OrderSubscriber {
    /// The handle from which the subscriptions are made.
    pub closed spec fn hub(self) -> Sender<OrderPublish> {
        self.publisher
    }

    /// A new subscription to the hub of this subscriber. It gets the events
    /// published there after this call, none from before.
    pub fn subscribe(&self) -> (receiver: Receiver<OrderPublish>)
        ensures
            source_of(receiver) == hub_of(self.hub()),
    {
        subscribe_to(&self.publisher)
    }
}

impl<T: Backend> OrderStatusUpdater<T> {
    /// The backend.
    pub closed spec fn backend(self) -> T {
        self.backend
    }

    /// The queue of commands.
    pub closed spec fn queue(self) -> mpsc::Receiver<UpdateOrder> {
        self.receiver
    }

    /// The handle over which the changes of the board are published.
    pub closed spec fn hub(self) -> Sender<OrderPublish> {
        self.publisher
    }

    /// A runner that takes its commands from `receiver` and carries them
    /// out on `backend`. Nobody is subscribed yet.
    pub fn new(receiver: mpsc::Receiver<UpdateOrder>, backend: T) -> (updater: OrderStatusUpdater<T>)
        ensures
            updater.backend() == backend,
            updater.queue() == receiver,
    {
        let (sender, _) = channel(HUB_CAPACITY);
        OrderStatusUpdater { publisher: sender, receiver, backend }
    }

    /// Splits the runner: one half hands out subscriptions, the other takes
    /// the commands. Both stand on the one hub, so that what the runner
    /// publishes is what the subscriptions listen to.
    pub fn order_mutator(self) -> (halves: (OrderSubscriber, OrderRunner<T>))
        ensures
            halves.1.backend() == self.backend(),
            halves.1.queue() == self.queue(),
            halves.1.hub() == self.hub(),
            hub_of(halves.0.hub()) == hub_of(halves.1.hub()),
    {
        let sub = OrderSubscriber { publisher: another_handle(&self.publisher) };
        let runner = OrderRunner {
            receiver: self.receiver,
            publisher: self.publisher,
            backend: self.backend,
        };
        (sub, runner)
    }
}

impl<T: Backend> OrderRunner<T> {
    /// The backend.
    pub closed spec fn backend(self) -> T {
        self.backend
    }

    /// The queue of commands.
    pub closed spec fn queue(self) -> mpsc::Receiver<UpdateOrder> {
        self.receiver
    }

    /// The handle over which the changes of the board are published.
    pub closed spec fn hub(self) -> Sender<OrderPublish> {
        self.publisher
    }

    /// The queue to take the next command from: the runner's own queue,
    /// lent out. What the borrower leaves of it is the runner's queue from
    /// then on; the backend and the hub are not touched.
    pub fn commands(&mut self) -> (queue: &mut mpsc::Receiver<UpdateOrder>)
        ensures
            *queue == old(self).queue(),
            final(self).queue() == *final(queue),
            final(self).backend() == old(self).backend(),
            final(self).hub() == old(self).hub(),
    {
        &mut self.receiver
    }

    /// The backend, to read from.
    pub fn store(&self) -> (backend: &T)
        ensures
            *backend == self.backend(),
    {
        &self.backend
    }

    /// Whether an order number is left to put an order in transit.
    pub fn ready(&self) -> (ready: bool)
        requires
            self.backend().inv(),
        ensures
            ready == (self.backend().state().last_number < i32::MAX),
    {
        self.backend.last_order_number() < i32::MAX
    }

    /// Carries out one command and publishes what it changed. A command
    /// that fails publishes nothing, and the runner is ready for the next
    /// one. Returns what was published.
    pub fn handle(&mut self, command: UpdateOrder) -> (r: Result<OrderPublish, BackendError>)
        requires
            old(self).backend().inv(),
            command matches UpdateOrder::OrderInTransit(id) ==> (old(
                self,
            ).backend().state().orders.contains_key(id) ==> old(self).backend().state().last_number
                < i32::MAX),
        ensures
            final(self).backend().inv(),
            step(
                old(self).backend().state(),
                command,
                final(self).backend().state(),
                result_view(r),
            ),
            old(self).backend().state().dependable ==> (
                final(self).backend().state(),
                result_view(r),
            ) == expected(old(self).backend().state(), command),
            final(self).queue() == old(self).queue(),
            final(self).hub() == old(self).hub(),
    {
        let r = apply_command(&mut self.backend, command);
        match &r {
            Ok(event) => {
                let _ = self.publisher.send(event.clone());
            },
            Err(_) => {},
        }
        r
    }

    /// Carries out `commands` one after the other, as [`OrderRunner::handle`]
    /// does, and returns the outcome of each. A command that fails does not
    /// keep the following ones from being carried out.
    pub fn handle_all(&mut self, commands: &Vec<UpdateOrder>) -> (results: Vec<
        Result<OrderPublish, BackendError>,
    >)
        requires
            old(self).backend().inv(),
            old(self).backend().state().last_number + numbers_needed(commands@) <= i32::MAX,
        ensures
            final(self).backend().inv(),
            results.len() == commands.len(),
            runs(
                old(self).backend().state(),
                commands@,
                final(self).backend().state(),
                result_views(results@),
            ),
            final(self).queue() == old(self).queue(),
            final(self).hub() == old(self).hub(),
    {
        let mut results: Vec<Result<OrderPublish, BackendError>> = Vec::new();
        let ghost mut states: Seq<BackendView> = seq![self.backend.state()];
        let mut i: usize = 0;
        assert(trace(states, commands@.take(0), result_views(results@)));
        while i < commands.len()
            invariant
                i <= commands.len(),
                results.len() == i,
                self.backend().inv(),
                self.queue() == old(self).queue(),
                self.hub() == old(self).hub(),
                self.backend().state().last_number + numbers_needed(commands@) - numbers_needed(
                    commands@.take(i as int),
                ) <= i32::MAX,
                trace(states, commands@.take(i as int), result_views(results@)),
                states.first() == old(self).backend().state(),
                states.last() == self.backend().state(),
            decreases commands.len() - i,
        {
            let ghost before_results = result_views(results@);
            proof {
                lemma_numbers_needed(commands@, i as int);
            }
            let r = self.handle(commands[i]);
            proof {
                crate::board::lemma_trace_push(
                    states,
                    commands@.take(i as int),
                    before_results,
                    commands[i as int],
                    self.backend.state(),
                    result_view(r),
                );
                assert(commands@.take(i + 1) =~= commands@.take(i as int).push(commands[i as int]));
                states = states.push(self.backend.state());
            }
            results.push(r);
            proof {
                assert(result_views(results@) =~= before_results.push(result_view(r)));
            }
            i += 1;
        }
        proof {
            assert(commands@.take(i as int) =~= commands@);
        }
        results
    }
}

} // verus!
