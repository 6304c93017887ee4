//! A backend that keeps its orders in memory, for deterministic tests. Every
//! customer has the same name and no order has lines.

use crate::backend::{Backend, BackendError, BackendView};
use crate::db::{pending_views, Order, OrderRow, OrderRowView, PendingOrder};
use crate::listing::{
    distinct_ids, highest_number, is_pending_listing, lists, number_key, pending_sorted,
};
use std::collections::HashMap;
use vstd::std_specs::iter::IteratorSpec;
use vstd::prelude::*;

verus! {

broadcast use vstd::std_specs::hash::group_hash_axioms;

/// The orders by key, and the last order number handed out.
pub struct TestBackend {
    orders: HashMap<u32, Order>,
    last_number: i32,
}

/// Every order of `map` with its key, each once.
fn entries(map: &HashMap<u32, Order>) -> (list: Vec<(u32, Order)>)
    ensures
        forall|k: int|
            0 <= k < list.len() ==> map@.contains_key((#[trigger] list[k]).0) && map@[list[k].0]
                == list[k].1,
        forall|id: u32| #[trigger]
            map@.contains_key(id) ==> exists|k: int| 0 <= k < list.len() && (#[trigger] list[k]).0 == id,
        forall|a: int, b: int|
            0 <= a < b < list.len() ==> (#[trigger] list[a]).0 != (#[trigger] list[b]).0,
{
    let mut list: Vec<(u32, Order)> = Vec::new();
    let ghost all = map.iter().remaining();
    for pair in it: map.iter()
        invariant
            it.seq() == all,
            list.len() == it.index(),
            forall|k: int|
                0 <= k < list.len() ==> (#[trigger] list[k]).0 == *all[k].0 && list[k].1
                    == *all[k].1,
    {
        let (key, order) = pair;
        list.push((*key, *order));
    }
    proof {
        assert(list.len() == all.len());
        assert(all.no_duplicates());
        assert forall|id: u32| #[trigger] map@.contains_key(id) implies exists|k: int|
            0 <= k < list.len() && (#[trigger] list[k]).0 == id by {
            assert(all.contains((&id, &map@[id])));
            let k = choose|k: int| 0 <= k < all.len() && all[k] == (&id, &map@[id]);
            assert(list[k].0 == id);
        }
        assert forall|a: int, b: int| 0 <= a < b < list.len() implies (#[trigger] list[a]).0 != (
        #[trigger] list[b]).0 by {
            if list[a].0 == list[b].0 {
                assert(map@[*all[a].0] == *all[a].1);
                assert(map@[*all[b].0] == *all[b].1);
                assert(all[a] == all[b]);
            }
        }
    }
    list
}

/// The name every customer of a [`TestBackend`] has.
pub open spec fn fixed_name() -> Seq<char> {
    "Piet"@
}

impl TestBackend {
    /// The orders by key.
    pub closed spec fn orders(self) -> Map<u32, Order> {
        self.orders@
    }

    /// The last order number handed out.
    pub closed spec fn last_number(self) -> int {
        self.last_number as int
    }

    /// The model: every customer is called the same and every order has no
    /// lines.
    pub open spec fn model(self) -> BackendView {
        BackendView {
            orders: self.orders(),
            last_number: self.last_number(),
            customers: Map::total(|id: i32| fixed_name()),
            lines: Map::total(|id: i32| Seq::<OrderRowView>::empty()),
            dependable: true,
        }
    }

    /// A backend without orders that has handed out no number yet.
    pub fn new() -> (backend: TestBackend)
        ensures
            backend.inv(),
            backend.orders() == Map::<u32, Order>::empty(),
            backend.last_number() == 0,
    {
        TestBackend { orders: HashMap::new(), last_number: 0 }
    }

    /// Adds a new order under `id` for customer `customer_id`, replacing what
    /// was stored under `id`. A key that is no valid order key is refused.
    pub fn add_order(&mut self, id: u32, customer_id: i32) -> (added: bool)
        requires
            old(self).inv(),
        ensures
            final(self).inv(),
            final(self).last_number() == old(self).last_number(),
            added <==> id <= i32::MAX,
            added ==> final(self).orders() == old(self).orders().insert(
                id,
                Order {
                    id: id as i32,
                    customer_id,
                    in_transit: false,
                    picked_up: false,
                    order_number: None,
                },
            ),
            !added ==> final(self).orders() == old(self).orders(),
    {
        if id > i32::MAX as u32 {
            return false;
        }
        let order = Order {
            id: id as i32,
            customer_id,
            in_transit: false,
            picked_up: false,
            order_number: None,
        };
        self.orders.insert(id, order);
        true
    }

    /// The stored orders, each once, in no particular order.
    fn stored(&self) -> (list: Vec<Order>)
        requires
            self.inv(),
        ensures
            distinct_ids(list@),
            forall|k: int|
                0 <= k < list.len() ==> self.orders().contains_key((#[trigger] list[k]).id as u32)
                    && self.orders()[list[k].id as u32] == list[k],
            forall|id: u32| #[trigger]
                self.orders().contains_key(id) ==> list@.contains(self.orders()[id]),
    {
        let all = entries(&self.orders);
        let mut list: Vec<Order> = Vec::new();
        let mut i: usize = 0;
        while i < all.len()
            invariant
                i <= all.len(),
                list.len() == i,
                forall|k: int| 0 <= k < i ==> (#[trigger] list[k]) == all[k].1,
            decreases all.len() - i,
        {
            list.push(all[i].1);
            i += 1;
        }
        proof {
            assert forall|k: int| 0 <= k < list.len() implies self.orders().contains_key(
                (#[trigger] list[k]).id as u32,
            ) && self.orders()[list[k].id as u32] == list[k] by {
                assert(self.orders@.contains_key(all[k].0));
                assert(self.orders@[all[k].0].id == all[k].0);
            }
            assert forall|a: int, b: int| 0 <= a < b < list.len() implies (#[trigger] list[a]).id
                != (#[trigger] list[b]).id by {
                assert(all[a].0 != all[b].0);
                assert(self.orders@[all[a].0].id == all[a].0);
                assert(self.orders@[all[b].0].id == all[b].0);
            }
            assert forall|id: u32| #[trigger] self.orders().contains_key(id) implies list@.contains(
                self.orders()[id],
            ) by {
                let k = choose|k: int| 0 <= k < all.len() && (#[trigger] all[k]).0 == id;
                assert(list@[k] == self.orders()[id]);
            }
        }
        list
    }

    /// The order stored under `id`, if there is one.
    pub fn order(&self, id: u32) -> (found: Option<Order>)
        ensures
            match found {
                Some(order) => self.orders().contains_key(id) && order == self.orders()[id],
                None => !self.orders().contains_key(id),
            },
    {
        match self.orders.get(&id) {
            Some(order) => Some(*order),
            None => None,
        }
    }
}

impl Default for TestBackend {
    /// A backend that knows one new order, with key 1, of customer 1.
    fn default() -> (backend: TestBackend)
        ensures
            backend.inv(),
            backend.last_number() == 0,
            backend.orders() == Map::<u32, Order>::empty().insert(
                1,
                Order {
                    id: 1,
                    customer_id: 1,
                    in_transit: false,
                    picked_up: false,
                    order_number: None,
                },
            ),
    {
        let mut map = HashMap::new();
        map.insert(
            1,
            Order { id: 1, customer_id: 1, in_transit: false, picked_up: false, order_number: None },
        );
        TestBackend { orders: map, last_number: 0 }
    }
}

impl Backend for TestBackend {
    open spec fn state(&self) -> BackendView {
        self.model()
    }

    closed spec fn inv(&self) -> bool {
        self.model().valid()
    }

    proof fn inv_gives_valid(&self) {
    }

    fn last_order_number(&self) -> (n: i32) {
        self.last_number
    }

    /// Succeeds exactly if order `id` is known. A call that fails changes
    /// nothing.
    fn order_in_transit(&mut self, id: u32) -> (r: Result<Order, BackendError>)
        ensures
            r is Ok <==> old(self).state().orders.contains_key(id),
            r matches Err(e) ==> e == BackendError::NotFound(id),
            r is Err ==> final(self).state() == old(self).state(),
    {
        let found = match self.orders.get(&id) {
            Some(order) => Some(*order),
            None => None,
        };
        match found {
            Some(order) => {
                self.last_number = self.last_number + 1;
                let next = order.mark_in_transit(self.last_number);
                self.orders.insert(id, next);
                Ok(next)
            },
            None => Err(BackendError::NotFound(id)),
        }
    }

    /// Succeeds exactly if order `id` is known. A call that fails changes
    /// nothing.
    fn order_retrieved(&mut self, id: u32) -> (r: Result<(), BackendError>)
        ensures
            r is Ok <==> old(self).state().orders.contains_key(id),
            r matches Err(e) ==> e == BackendError::NotFound(id),
            r is Err ==> final(self).state() == old(self).state(),
    {
        let found = match self.orders.get(&id) {
            Some(order) => Some(*order),
            None => None,
        };
        match found {
            Some(order) => {
                let next = order.mark_retrieved();
                self.orders.insert(id, next);
                Ok(())
            },
            None => Err(BackendError::NotFound(id)),
        }
    }

    /// Always succeeds.
    fn to_pending(&self, order: Order) -> (r: Result<PendingOrder, BackendError>)
        ensures
            r is Ok,
    {
        let rows: Vec<OrderRow> = Vec::new();
        let pending = PendingOrder {
            id: order.id as u32,
            in_transit: order.in_transit,
            picked_up: order.picked_up,
            customer_name: "Piet".to_owned(),
            rows,
        };
        assert(pending@.rows =~= Seq::<OrderRowView>::empty());
        Ok(pending)
    }

    /// Always succeeds.
    fn all_pending_orders(&self) -> (r: Result<Vec<PendingOrder>, BackendError>)
        ensures
            r is Ok,
    {
        let all = self.stored();
        let sorted = pending_sorted(&all);
        proof {
            assert forall|j: int| 0 <= j < sorted.len() implies self.orders@.contains_key(
                (#[trigger] sorted@[j]).id as u32,
            ) && self.orders@[sorted@[j].id as u32] == sorted@[j] by {
                let at = choose|at: int| 0 <= at < all.len() && all@[at] == sorted@[j];
            }
        }
        let mut list: Vec<PendingOrder> = Vec::new();
        let mut k: usize = 0;
        while k < sorted.len()
            invariant
                self.inv(),
                k <= sorted.len(),
                list.len() == k,
                forall|j: int|
                    0 <= j < k ==> self.state().shown(sorted[j]) == Some((#[trigger] list[j])@),
            decreases sorted.len() - k,
        {
            match self.to_pending(sorted[k]) {
                Ok(pending) => {
                    list.push(pending);
                },
                Err(e) => {
                    return Err(e);
                },
            }
            k += 1;
        }
        proof {
            let views = pending_views(list@);
            let model = self.state();
            assert forall|j: int| 0 <= j < views.len() implies {
                let id = (#[trigger] views[j]).id;
                &&& id == sorted[j].id
                &&& model.orders.contains_key(id)
                &&& model.orders[id] == sorted[j]
            } by {
                assert(model.shown(sorted[j]) == Some(list[j]@));
                assert(model.orders.contains_key(sorted@[j].id as u32));
                assert(model.orders[sorted@[j].id as u32].id == sorted@[j].id as u32);
            }
            assert forall|id: u32| #[trigger]
                model.orders.contains_key(id) && model.orders[id].pending() implies exists|j: int|
                0 <= j < views.len() && (#[trigger] views[j]).id == id by {
                assert(all@.contains(model.orders[id]));
                let at = choose|at: int| 0 <= at < all.len() && all@[at] == model.orders[id];
                assert(all@[at].pending());
                assert(lists(sorted@, all@[at].id));
                let j = choose|j: int| 0 <= j < sorted.len() && (#[trigger] sorted@[j]).id == id as i32;
                assert(views[j].id == id);
            }
            assert forall|a: int, b: int| 0 <= a < b < views.len() implies (#[trigger] views[a]).id
                != (#[trigger] views[b]).id by {
                assert(sorted@[a].id != sorted@[b].id);
            }
            assert forall|a: int, b: int| 0 <= a < b < views.len() implies number_key(
                model.orders[(#[trigger] views[a]).id],
            ) <= number_key(model.orders[(#[trigger] views[b]).id]) by {
                assert(number_key(sorted@[a]) <= number_key(sorted@[b]));
            }
        }
        Ok(list)
    }

    /// Always succeeds.
    fn max_order_number(&self) -> (r: Result<i32, BackendError>)
        ensures
            r is Ok,
    {
        let all = self.stored();
        let m = highest_number(&all);
        proof {
            let model = self.state();
            assert forall|id: u32| #[trigger] model.orders.contains_key(id) implies (
            model.orders[id].order_number matches Some(n) ==> n <= m) && ((forall|i: int|
                0 <= i < all.len() ==> (#[trigger] all@[i]).order_number is None)
                ==> model.orders[id].order_number is None) by {
                assert(all@.contains(model.orders[id]));
                let at = choose|at: int| 0 <= at < all.len() && all@[at] == model.orders[id];
                assert(all@[at].order_number == model.orders[id].order_number);
            }
            if exists|i: int| 0 <= i < all.len() && (#[trigger] all@[i]).order_number == Some(m) {
                let i = choose|i: int| 0 <= i < all.len() && (#[trigger] all@[i]).order_number == Some(m);
                assert(model.orders.contains_key(all@[i].id as u32));
            }
        }
        Ok(m)
    }
}

} // verus!
