//! What a store of orders must offer to drive the board, and the
//! mathematical model of such a store.

use crate::db::{Order, OrderRowView, PendingOrder, PendingOrderView};
use crate::listing::number_key;
use vstd::prelude::*;

verus! {

/// Why a backend could not do what was asked.
#[derive(Clone, Copy, Debug, PartialEq, Eq)]
pub enum BackendError {
    /// No order has this key.
    NotFound(u32),
    /// The store could not be reached.
    StoreUnavailable,
    /// The order cannot be shown, because rows it refers to are missing.
    Malformed,
}

/// The model of a backend: its orders by key, the last order number it
/// handed out, the names of its customers by key, for each order key the
/// lines of that order, as far as they can be shown, and whether the store
/// behind it can always be reached.
pub struct BackendView {
    pub orders: Map<u32, Order>,
    pub last_number: int,
    pub customers: Map<i32, Seq<char>>,
    pub lines: Map<i32, Seq<OrderRowView>>,
    pub dependable: bool,
}

impl BackendView {
    /// Every order is stored under its own key and is in one of its three
    /// states, and no order has a number above the last one handed out.
    pub open spec fn valid(self) -> bool {
        &&& i32::MIN <= self.last_number <= i32::MAX
        &&& forall|id: u32| #[trigger]
            self.orders.contains_key(id) ==> {
                &&& self.orders[id].id == id
                &&& self.orders[id].valid()
                &&& self.orders[id].order_number matches Some(n) ==> n <= self.last_number
            }
    }

    /// An order as the board shows it, if its customer and its lines are
    /// there.
    pub open spec fn shown(self, order: Order) -> Option<PendingOrderView> {
        if self.customers.contains_key(order.customer_id) && self.lines.contains_key(order.id) {
            Some(
                PendingOrderView {
                    id: order.id as u32,
                    in_transit: order.in_transit,
                    picked_up: order.picked_up,
                    customer_name: self.customers[order.customer_id],
                    rows: self.lines[order.id],
                },
            )
        } else {
            None
        }
    }

    /// Whether the order under `id` is on the board: it is pending and can
    /// be shown.
    pub open spec fn on_board(self, id: u32) -> bool {
        &&& self.orders.contains_key(id)
        &&& self.orders[id].pending()
        &&& self.shown(self.orders[id]) is Some
    }

    /// The board: each pending order that can be shown, by key.
    pub open spec fn board(self) -> Map<u32, PendingOrderView> {
        Map::new(|id: u32| self.on_board(id), |id: u32| self.shown(self.orders[id])->0)
    }

    /// Whether every pending order can be shown.
    pub open spec fn presentable(self) -> bool {
        forall|id: u32| #[trigger]
            self.orders.contains_key(id) && self.orders[id].pending() ==> self.shown(
                self.orders[id],
            ) is Some
    }

    /// `list` is a snapshot of the board: the view of each pending order
    /// once, and nothing else, sorted by order number.
    pub open spec fn is_snapshot(self, list: Seq<PendingOrderView>) -> bool {
        &&& forall|k: int|
            0 <= k < list.len() ==> {
                let id = (#[trigger] list[k]).id;
                &&& self.orders.contains_key(id)
                &&& self.orders[id].pending()
                &&& self.shown(self.orders[id]) == Some(list[k])
            }
        &&& forall|a: int, b: int|
            0 <= a < b < list.len() ==> (#[trigger] list[a]).id != (#[trigger] list[b]).id
        &&& forall|id: u32| #[trigger]
            self.orders.contains_key(id) && self.orders[id].pending() ==> exists|k: int|
                0 <= k < list.len() && (#[trigger] list[k]).id == id
        &&& forall|a: int, b: int|
            0 <= a < b < list.len() ==> number_key(self.orders[(#[trigger] list[a]).id])
                <= number_key(self.orders[(#[trigger] list[b]).id])
    }

    /// `m` is the highest order number of any order, or 0 if no order has a
    /// number.
    pub open spec fn is_max_number(self, m: i32) -> bool {
        &&& forall|id: u32| #[trigger]
            self.orders.contains_key(id) ==> (self.orders[id].order_number matches Some(n) ==> n
                <= m)
        &&& {
            ||| exists|id: u32| #[trigger]
                self.orders.contains_key(id) && self.orders[id].order_number == Some(m)
            ||| m == 0 && forall|id: u32| #[trigger]
                self.orders.contains_key(id) ==> self.orders[id].order_number is None
        }
    }

    /// What came of asking to put order `id` in transit. On success the
    /// order has the number after the last one handed out, and that number
    /// is used up. On failure nothing changed: no order, and no number is
    /// used up. A dependable backend fails only on an unknown key.
    pub open spec fn transit_outcome(
        self,
        id: u32,
        after: BackendView,
        result: Result<Order, BackendError>,
    ) -> bool {
        &&& after.customers == self.customers
        &&& after.lines == self.lines
        &&& after.dependable == self.dependable
        &&& match result {
            Ok(order) => {
                &&& self.orders.contains_key(id)
                &&& order == self.orders[id].marked_in_transit((self.last_number + 1) as i32)
                &&& after.orders == self.orders.insert(id, order)
                &&& after.last_number == self.last_number + 1
            },
            Err(e) => {
                &&& after.orders == self.orders
                &&& after.last_number == self.last_number
                &&& e !is Malformed
                &&& self.dependable ==> e is NotFound
                &&& e matches BackendError::NotFound(missing) ==> missing == id
                    && !self.orders.contains_key(id)
            },
        }
    }

    /// What came of asking to mark order `id` as picked up. On success the
    /// order is picked up and has no number; on failure no order changed. A
    /// dependable backend fails only on an unknown key.
    pub open spec fn retrieve_outcome(
        self,
        id: u32,
        after: BackendView,
        result: Result<(), BackendError>,
    ) -> bool {
        &&& after.last_number == self.last_number
        &&& after.customers == self.customers
        &&& after.lines == self.lines
        &&& after.dependable == self.dependable
        &&& match result {
            Ok(_) => {
                &&& self.orders.contains_key(id)
                &&& after.orders == self.orders.insert(id, self.orders[id].marked_retrieved())
            },
            Err(e) => {
                &&& after.orders == self.orders
                &&& e !is Malformed
                &&& self.dependable ==> e is NotFound
                &&& e matches BackendError::NotFound(missing) ==> missing == id
                    && !self.orders.contains_key(id)
            },
        }
    }

    /// What came of asking for the board's view of `order`. A dependable
    /// backend fails only on an order that cannot be shown.
    pub open spec fn view_outcome(
        self,
        order: Order,
        result: Result<PendingOrder, BackendError>,
    ) -> bool {
        match result {
            Ok(pending) => self.shown(order) == Some(pending@),
            Err(e) => {
                &&& e !is NotFound
                &&& self.dependable ==> e is Malformed
                &&& e is Malformed ==> self.shown(order) is None
            },
        }
    }

    /// What came of asking for all pending orders. A dependable backend
    /// fails only if a pending order cannot be shown.
    pub open spec fn snapshot_outcome(
        self,
        result: Result<Vec<PendingOrder>, BackendError>,
    ) -> bool {
        match result {
            Ok(list) => self.is_snapshot(crate::db::pending_views(list@)),
            Err(e) => {
                &&& e !is NotFound
                &&& self.dependable ==> e is Malformed
                &&& e is Malformed ==> !self.presentable()
            },
        }
    }

    /// What came of asking for the highest order number. A dependable
    /// backend does not fail.
    pub open spec fn max_outcome(self, result: Result<i32, BackendError>) -> bool {
        match result {
            Ok(m) => self.is_max_number(m),
            Err(e) => e is StoreUnavailable && !self.dependable,
        }
    }
}

/// A store of orders that the runner can drive. A backend may fail for
/// reasons of its own, so these contracts say what holds of each outcome;
/// the stores of this library say of themselves when they succeed.
pub trait Backend {
    /// The model of this backend.
    spec fn state(&self) -> BackendView;

    /// What the backend keeps true of itself.
    spec fn inv(&self) -> bool;

    /// The model of a backend that keeps its invariant is valid.
    proof fn inv_gives_valid(&self)
        requires
            self.inv(),
        ensures
            self.state().valid(),
    ;

    /// The last order number handed out.
    fn last_order_number(&self) -> (n: i32)
        requires
            self.inv(),
        ensures
            n == self.state().last_number,
    ;

    /// Puts order `id` in transit under the next order number. For a known
    /// order a number must be left.
    fn order_in_transit(&mut self, id: u32) -> (r: Result<Order, BackendError>)
        requires
            old(self).inv(),
            old(self).state().orders.contains_key(id) ==> old(self).state().last_number
                < i32::MAX,
        ensures
            final(self).inv(),
            old(self).state().transit_outcome(id, final(self).state(), r),
    ;

    /// Marks order `id` as picked up.
    fn order_retrieved(&mut self, id: u32) -> (r: Result<(), BackendError>)
        requires
            old(self).inv(),
        ensures
            final(self).inv(),
            old(self).state().retrieve_outcome(id, final(self).state(), r),
    ;

    /// Builds the board's view of `order`.
    fn to_pending(&self, order: Order) -> (r: Result<PendingOrder, BackendError>)
        requires
            self.inv(),
        ensures
            self.state().view_outcome(order, r),
    ;

    /// Every pending order as the board shows it, sorted by order number.
    fn all_pending_orders(&self) -> (r: Result<Vec<PendingOrder>, BackendError>)
        requires
            self.inv(),
        ensures
            self.state().snapshot_outcome(r),
    ;

    /// The highest order number of any order, or 0 if there is none.
    fn max_order_number(&self) -> (r: Result<i32, BackendError>)
        requires
            self.inv(),
        ensures
            self.state().max_outcome(r),
    ;
}

} // verus!
