//! What a session sends to its client, and the decisions of a session: when
//! to subscribe, when to take a snapshot, what to forward, when to end.

use crate::backend::BackendError;
use crate::db::{clone_pending, pending_views, PendingOrder, PendingOrderView};
use crate::status_updater::{OrderPublish, OrderPublishView};
use vstd::prelude::*;
use vstd::std_specs::convert::FromSpecImpl;
use vstd::string::StringExecFns;

verus! {

/// The character for a decimal digit.
pub open spec fn digit(d: int) -> char {
    if d == 0 {
        '0'
    } else if d == 1 {
        '1'
    } else if d == 2 {
        '2'
    } else if d == 3 {
        '3'
    } else if d == 4 {
        '4'
    } else if d == 5 {
        '5'
    } else if d == 6 {
        '6'
    } else if d == 7 {
        '7'
    } else if d == 8 {
        '8'
    } else {
        '9'
    }
}

/// A number written in decimal, without leading zeros.
pub open spec fn decimal(n: nat) -> Seq<char>
    decreases n,
{
    if n < 10 {
        seq![digit(n as int)]
    } else {
        decimal(n / 10).push(digit((n % 10) as int))
    }
}

/// The digits of `low`, which holds them lowest first, written highest
/// first.
pub open spec fn written(low: Seq<u32>) -> Seq<char> {
    Seq::new(low.len(), |i: int| digit(low[low.len() - 1 - i] as int))
}

/// The text of one decimal digit.
fn digit_text(d: u32) -> (text: &'static str)
    requires
        d < 10,
    ensures
        text@ == seq![digit(d as int)],
{
    proof {
        reveal_strlit("0");
        reveal_strlit("1");
        reveal_strlit("2");
        reveal_strlit("3");
        reveal_strlit("4");
        reveal_strlit("5");
        reveal_strlit("6");
        reveal_strlit("7");
        reveal_strlit("8");
        reveal_strlit("9");
    }
    let text = if d == 0 {
        "0"
    } else if d == 1 {
        "1"
    } else if d == 2 {
        "2"
    } else if d == 3 {
        "3"
    } else if d == 4 {
        "4"
    } else if d == 5 {
        "5"
    } else if d == 6 {
        "6"
    } else if d == 7 {
        "7"
    } else if d == 8 {
        "8"
    } else {
        "9"
    };
    assert(text@ =~= seq![digit(d as int)]);
    text
}

/// Updates the order screens over websockets.
pub struct WsUpdater {
    port: u32,
}

impl WsUpdater {
    /// The port on which the sessions are served.
    pub closed spec fn serves_on(self) -> u32 {
        self.port
    }

    /// An updater that serves its sessions on `port`.
    pub fn new(port: u32) -> (updater: WsUpdater)
        ensures
            updater.serves_on() == port,
    {
        WsUpdater { port }
    }

    /// The port on which the sessions are served.
    pub fn port(&self) -> (port: u32)
        ensures
            port == self.serves_on(),
    {
        self.port
    }

    /// The address on which the sessions are served: this machine, and the
    /// port in decimal.
    pub fn address(&self) -> (address: String)
        ensures
            address@ == "localhost:"@ + decimal(self.serves_on() as nat),
    {
        let mut low: Vec<u32> = Vec::new();
        let mut rest: u32 = self.port;
        while rest >= 10
            invariant
                decimal(self.port as nat) == decimal(rest as nat) + written(low@),
                forall|i: int| 0 <= i < low.len() ==> low[i] < 10,
            decreases rest,
        {
            let ghost before = low@;
            low.push(rest % 10);
            proof {
                assert(decimal(rest as nat) == decimal((rest / 10) as nat).push(
                    digit((rest % 10) as int),
                ));
                assert(decimal((rest / 10) as nat).push(digit((rest % 10) as int)) + written(before)
                    =~= decimal((rest / 10) as nat) + written(low@));
            }
            rest = rest / 10;
        }
        let mut address = "localhost:".to_owned();
        address.append(digit_text(rest));
        let ghost head = address@;
        assert(head =~= "localhost:"@ + decimal(rest as nat));
        let mut k: usize = low.len();
        while k > 0
            invariant
                k <= low.len(),
                forall|i: int| 0 <= i < low.len() ==> low[i] < 10,
                address@ == head + written(low@).take(low.len() - k),
            decreases k,
        {
            k -= 1;
            let ghost before = address@;
            address.append(digit_text(low[k]));
            proof {
                let done = low.len() - k - 1;
                assert(written(low@)[done] == digit(low[k as int] as int));
                assert(written(low@).take(done + 1) =~= written(low@).take(done).push(
                    written(low@)[done],
                ));
                assert(address@ =~= head + written(low@).take(done + 1));
            }
        }
        proof {
            assert(written(low@).take(low.len() as int) =~= written(low@));
            assert(address@ =~= "localhost:"@ + (decimal(rest as nat) + written(low@)));
        }
        address
    }
}

/// What a session sends to its client.
#[derive(Debug, PartialEq)]
pub enum OrderNotification {
    /// The whole board: every pending order.
    Initialize(Vec<PendingOrder>),
    /// Add an order.
    AddOrder(PendingOrder),
    /// Remove an order.
    RemoveOrder(u32),
}

/// What an [`OrderNotification`] holds.
pub enum OrderNotificationView {
    Initialize(Seq<PendingOrderView>),
    AddOrder(PendingOrderView),
    RemoveOrder(u32),
}

impl View for OrderNotification {
    type V = OrderNotificationView;

    open spec fn view(&self) -> OrderNotificationView {
        match self {
            OrderNotification::Initialize(list) => OrderNotificationView::Initialize(
                pending_views(list@),
            ),
            OrderNotification::AddOrder(pending) => OrderNotificationView::AddOrder(pending@),
            OrderNotification::RemoveOrder(id) => OrderNotificationView::RemoveOrder(*id),
        }
    }
}

impl Clone for OrderNotification {
    fn clone(&self) -> (copy: Self)
        ensures
            copy@ == self@,
    {
        match self {
            OrderNotification::Initialize(list) => OrderNotification::Initialize(
                clone_pending(list),
            ),
            OrderNotification::AddOrder(pending) => OrderNotification::AddOrder(pending.clone()),
            OrderNotification::RemoveOrder(id) => OrderNotification::RemoveOrder(*id),
        }
    }
}

/// The notification that carries an event to the client: the same change,
/// one for one.
pub open spec fn notification_of(event: OrderPublishView) -> OrderNotificationView {
    match event {
        OrderPublishView::AddOrder(pending) => OrderNotificationView::AddOrder(pending),
        OrderPublishView::RemoveOrder(id) => OrderNotificationView::RemoveOrder(id),
    }
}

/// The notification that carries `publish` to the client.
pub open spec fn notify(publish: OrderPublish) -> OrderNotification {
    match publish {
        OrderPublish::AddOrder(p) => OrderNotification::AddOrder(p),
        OrderPublish::RemoveOrder(idx) => OrderNotification::RemoveOrder(idx),
    }
}

impl From<OrderPublish> for OrderNotification {
    fn from(publish: OrderPublish) -> (notification: OrderNotification) {
        match publish {
            OrderPublish::AddOrder(p) => OrderNotification::AddOrder(p),
            OrderPublish::RemoveOrder(idx) => OrderNotification::RemoveOrder(idx),
        }
    }
}

impl FromSpecImpl<OrderPublish> for OrderNotification {
    open spec fn obeys_from_spec() -> bool {
        true
    }

    open spec fn from_spec(publish: OrderPublish) -> OrderNotification {
        notify(publish)
    }
}

/// A notification made from an event shows what the event shows.
pub proof fn lemma_from_keeps_view(publish: OrderPublish)
    ensures
        notify(publish)@ == notification_of(publish@),
{
}

/// What a subscription to the hub hands out.
#[derive(Debug, PartialEq)]
pub enum HubSignal {
    /// The next event.
    Event(OrderPublish),
    /// The subscriber fell behind, and this many events are lost to it.
    Lagged(u64),
    /// No event will come any more.
    Closed,
}

/// Where a session is.
#[derive(Clone, Copy, Debug, PartialEq, Eq)]
pub enum SessionState {
    /// Connected, not subscribed to the hub yet.
    Connected,
    /// Subscribed; the client has no up-to-date board yet.
    AwaitingSnapshot,
    /// The client has the board and gets each event.
    Live,
    /// Ended.
    Closed,
}

/// What happened to a session.
#[derive(Debug, PartialEq)]
pub enum SessionEvent {
    /// The session was subscribed to the hub.
    Subscribed,
    /// The pending orders were read, or could not be.
    Snapshot(Result<Vec<PendingOrder>, BackendError>),
    /// The subscription handed something out.
    Hub(HubSignal),
    /// What was to be sent has been written to the socket.
    Sent,
    /// The client sent a message. It carries no meaning.
    ClientMessage,
    /// The socket was closed, or a write to it failed.
    SocketClosed,
}

/// What a session has to do next.
#[derive(Debug, PartialEq)]
pub enum SessionAction {
    /// Subscribe to the hub.
    Subscribe,
    /// Read the pending orders.
    FetchSnapshot,
    /// Send this to the client.
    Send(OrderNotification),
    /// Nothing: wait for what happens next.
    Wait,
    /// End the session.
    Close,
}

/// The decisions of a session.
///
/// A session subscribes first and takes its snapshot afterwards, so that no
/// event falls between the two. It sends the whole board once it has the
/// snapshot and then forwards each event, one for one; after each write it
/// waits for what happens next. When it fell behind,
/// or an event reached it while it had no snapshot yet, it takes a new
/// snapshot: the events it missed are in it. It ends when the socket is
/// closed, when the hub is closed, or when the orders cannot be read.
pub open spec fn next(state: SessionState, event: SessionEvent) -> (SessionState, SessionAction) {
    match state {
        SessionState::Closed => (SessionState::Closed, SessionAction::Close),
        SessionState::Connected => match event {
            SessionEvent::SocketClosed => (SessionState::Closed, SessionAction::Close),
            SessionEvent::Subscribed => (
                SessionState::AwaitingSnapshot,
                SessionAction::FetchSnapshot,
            ),
            _ => (SessionState::Connected, SessionAction::Subscribe),
        },
        SessionState::AwaitingSnapshot => match event {
            SessionEvent::SocketClosed => (SessionState::Closed, SessionAction::Close),
            SessionEvent::Snapshot(Ok(list)) => (
                SessionState::Live,
                SessionAction::Send(OrderNotification::Initialize(list)),
            ),
            SessionEvent::Snapshot(Err(_)) => (SessionState::Closed, SessionAction::Close),
            SessionEvent::Hub(HubSignal::Closed) => (SessionState::Closed, SessionAction::Close),
            SessionEvent::Hub(_) => (SessionState::AwaitingSnapshot, SessionAction::FetchSnapshot),
            SessionEvent::Subscribed => (
                SessionState::AwaitingSnapshot,
                SessionAction::FetchSnapshot,
            ),
            SessionEvent::Sent => (SessionState::AwaitingSnapshot, SessionAction::FetchSnapshot),
            SessionEvent::ClientMessage => (SessionState::AwaitingSnapshot, SessionAction::Wait),
        },
        SessionState::Live => match event {
            SessionEvent::SocketClosed => (SessionState::Closed, SessionAction::Close),
            SessionEvent::Snapshot(Ok(list)) => (
                SessionState::Live,
                SessionAction::Send(OrderNotification::Initialize(list)),
            ),
            SessionEvent::Snapshot(Err(_)) => (SessionState::Closed, SessionAction::Close),
            SessionEvent::Hub(HubSignal::Event(publish)) => (
                SessionState::Live,
                SessionAction::Send(notify(publish)),
            ),
            SessionEvent::Hub(HubSignal::Lagged(_)) => (
                SessionState::AwaitingSnapshot,
                SessionAction::FetchSnapshot,
            ),
            SessionEvent::Hub(HubSignal::Closed) => (SessionState::Closed, SessionAction::Close),
            SessionEvent::Subscribed => (SessionState::Live, SessionAction::Wait),
            SessionEvent::Sent => (SessionState::Live, SessionAction::Wait),
            SessionEvent::ClientMessage => (SessionState::Live, SessionAction::Wait),
        },
    }
}

/// One session with a client.
pub struct Session {
    state: SessionState,
}

impl Session {
    /// Where the session is.
    pub closed spec fn at(self) -> SessionState {
        self.state
    }

    /// A session for a client that just connected. The first thing to do is
    /// to subscribe.
    pub fn new() -> (start: (Session, SessionAction))
        ensures
            start.0.at() == SessionState::Connected,
            start.1 == SessionAction::Subscribe,
    {
        (Session { state: SessionState::Connected }, SessionAction::Subscribe)
    }

    /// Where the session is.
    pub fn state(&self) -> (state: SessionState)
        ensures
            state == self.at(),
    {
        self.state
    }

    /// Takes in what happened and says what to do next.
    pub fn step(&mut self, event: SessionEvent) -> (action: SessionAction)
        ensures
            (final(self).at(), action) == next(old(self).at(), event),
    {
        let (state, action) = match self.state {
            SessionState::Closed => (SessionState::Closed, SessionAction::Close),
            SessionState::Connected => match event {
                SessionEvent::SocketClosed => (SessionState::Closed, SessionAction::Close),
                SessionEvent::Subscribed => (
                    SessionState::AwaitingSnapshot,
                    SessionAction::FetchSnapshot,
                ),
                _ => (SessionState::Connected, SessionAction::Subscribe),
            },
            SessionState::AwaitingSnapshot => match event {
                SessionEvent::SocketClosed => (SessionState::Closed, SessionAction::Close),
                SessionEvent::Snapshot(Ok(list)) => (
                    SessionState::Live,
                    SessionAction::Send(OrderNotification::Initialize(list)),
                ),
                SessionEvent::Snapshot(Err(_)) => (SessionState::Closed, SessionAction::Close),
                SessionEvent::Hub(HubSignal::Closed) => (
                    SessionState::Closed,
                    SessionAction::Close,
                ),
                SessionEvent::Hub(_) => (
                    SessionState::AwaitingSnapshot,
                    SessionAction::FetchSnapshot,
                ),
                SessionEvent::Subscribed => (
                    SessionState::AwaitingSnapshot,
                    SessionAction::FetchSnapshot,
                ),
                SessionEvent::Sent => (
                    SessionState::AwaitingSnapshot,
                    SessionAction::FetchSnapshot,
                ),
                SessionEvent::ClientMessage => (
                    SessionState::AwaitingSnapshot,
                    SessionAction::Wait,
                ),
            },
            SessionState::Live => match event {
                SessionEvent::SocketClosed => (SessionState::Closed, SessionAction::Close),
                SessionEvent::Snapshot(Ok(list)) => (
                    SessionState::Live,
                    SessionAction::Send(OrderNotification::Initialize(list)),
                ),
                SessionEvent::Snapshot(Err(_)) => (SessionState::Closed, SessionAction::Close),
                SessionEvent::Hub(HubSignal::Event(publish)) => (
                    SessionState::Live,
                    SessionAction::Send(OrderNotification::from(publish)),
                ),
                SessionEvent::Hub(HubSignal::Lagged(_)) => (
                    SessionState::AwaitingSnapshot,
                    SessionAction::FetchSnapshot,
                ),
                SessionEvent::Hub(HubSignal::Closed) => (
                    SessionState::Closed,
                    SessionAction::Close,
                ),
                SessionEvent::Subscribed => (SessionState::Live, SessionAction::Wait),
                SessionEvent::Sent => (SessionState::Live, SessionAction::Wait),
                SessionEvent::ClientMessage => (SessionState::Live, SessionAction::Wait),
            },
        };
        self.state = state;
        action
    }
}

/// A record of a session from its start: `states[i]` is where the session
/// was when `events[i]` happened, `actions[i]` is what it then had to do,
/// and `states[i + 1]` is where it was afterwards.
pub open spec fn session_trace(
    states: Seq<SessionState>,
    events: Seq<SessionEvent>,
    actions: Seq<SessionAction>,
) -> bool {
    &&& states.len() == events.len() + 1
    &&& actions.len() == events.len()
    &&& states[0] == SessionState::Connected
    &&& forall|i: int|
        0 <= i < events.len() ==> (states[i + 1], #[trigger] actions[i]) == next(
            states[i],
            events[i],
        )
}

/// Whether the action is to send the whole board.
pub open spec fn sends_board(action: SessionAction) -> bool {
    action matches SessionAction::Send(OrderNotification::Initialize(_))
}

/// Whether the action is to send a change of the board.
pub open spec fn sends_change(action: SessionAction) -> bool {
    action is Send && !sends_board(action)
}

/// Whether the event says that the session fell behind.
pub open spec fn fell_behind(event: SessionEvent) -> bool {
    event matches SessionEvent::Hub(HubSignal::Lagged(_))
}

/// A session that ended stays ended.
pub proof fn lemma_closed_stays(event: SessionEvent)
    ensures
        next(SessionState::Closed, event) == (SessionState::Closed, SessionAction::Close),
{
}

/// A session that has not ended and is past its start has subscribed.
pub proof fn lemma_subscribed_first(
    states: Seq<SessionState>,
    events: Seq<SessionEvent>,
    actions: Seq<SessionAction>,
    n: int,
)
    requires
        session_trace(states, events, actions),
        0 <= n <= events.len(),
        states[n] == SessionState::AwaitingSnapshot || states[n] == SessionState::Live,
    ensures
        exists|s: int| 0 <= s < n && #[trigger] events[s] == SessionEvent::Subscribed,
    decreases n,
{
    assert(n > 0);
    let before = n - 1;
    assert((states[before + 1], actions[before]) == next(states[before], events[before]));
    if states[before] == SessionState::Connected {
        assert(events[before] == SessionEvent::Subscribed);
    } else {
        lemma_subscribed_first(states, events, actions, before);
    }
}

/// A live session was sent the whole board and has been live ever since.
pub proof fn lemma_live_has_board(
    states: Seq<SessionState>,
    events: Seq<SessionEvent>,
    actions: Seq<SessionAction>,
    n: int,
)
    requires
        session_trace(states, events, actions),
        0 <= n <= events.len(),
        states[n] == SessionState::Live,
    ensures
        exists|j: int|
            0 <= j < n && sends_board(#[trigger] actions[j]) && forall|k: int|
                j < k <= n ==> states[k] == SessionState::Live,
    decreases n,
{
    assert(n > 0);
    let before = n - 1;
    assert((states[before + 1], actions[before]) == next(states[before], events[before]));
    if sends_board(actions[before]) {
        assert(forall|k: int| before < k <= n ==> states[k] == SessionState::Live);
    } else {
        assert(states[before] == SessionState::Live);
        lemma_live_has_board(states, events, actions, before);
        let j = choose|j: int|
            0 <= j < before && sends_board(#[trigger] actions[j]) && forall|k: int|
                j < k <= before ==> states[k] == SessionState::Live;
        assert(forall|k: int| j < k <= n ==> states[k] == SessionState::Live);
    }
}

/// The order in which a session does things. Whatever happens to it:
/// it sends nothing before it has subscribed; it sends no change of the
/// board before it has sent the whole board; and once it fell behind, it
/// sends the whole board again before it sends another change.
pub proof fn lemma_session_order(
    states: Seq<SessionState>,
    events: Seq<SessionEvent>,
    actions: Seq<SessionAction>,
    at: int,
)
    requires
        session_trace(states, events, actions),
        0 <= at < events.len(),
        actions[at] is Send,
    ensures
        exists|s: int| 0 <= s < at && #[trigger] events[s] == SessionEvent::Subscribed,
        sends_change(actions[at]) ==> exists|j: int| 0 <= j < at && sends_board(#[trigger] actions[j]),
        sends_change(actions[at]) ==> forall|lag: int|
            0 <= lag < at && fell_behind(#[trigger] events[lag]) ==> exists|j: int|
                lag < j < at && sends_board(#[trigger] actions[j]),
{
    assert((states[at + 1], actions[at]) == next(states[at], events[at]));
    lemma_subscribed_first(states, events, actions, at);
    if sends_change(actions[at]) {
        assert(states[at] == SessionState::Live);
        lemma_live_has_board(states, events, actions, at);
        let j = choose|j: int|
            0 <= j < at && sends_board(#[trigger] actions[j]) && forall|k: int|
                j < k <= at ==> states[k] == SessionState::Live;
        assert forall|lag: int|
            0 <= lag < at && fell_behind(#[trigger] events[lag]) implies exists|j: int|
            lag < j < at && sends_board(#[trigger] actions[j]) by {
            assert((states[lag + 1], actions[lag]) == next(states[lag], events[lag]));
            assert(states[lag + 1] != SessionState::Live);
            assert(!sends_board(actions[lag]));
            assert(lag < j);
        }
    }
}

} // verus!
