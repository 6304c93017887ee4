//! An in-memory relational store of customers, pie varieties, orders and
//! order lines, with the queries the order board needs.

use crate::db::{
    Customer, NewCustomer, NewOrder, NewVlaai, NewVlaaiToOrder, Order, OrderRow, OrderRowView,
    PendingOrder, PendingOrderView, Vlaai, VlaaiToOrder,
};
use crate::listing::{
    distinct_ids, highest_number, is_highest_number, lists, number_key, pending_sorted,
};
use vstd::prelude::*;

verus! {

/// Why a query or an insert failed.
#[derive(Clone, Copy, Debug, PartialEq, Eq)]
pub enum DbError {
    /// No row has the key that was asked for.
    NotFound,
    /// The row would break a rule of the store.
    Constraint,
    /// The store could not be reached. A store in memory never says so.
    Unavailable,
}

/// Four tables. Rows are never deleted, and each table hands out its keys in
/// order: the row at position `i` has key `i + 1`.
pub struct Database {
    customers: Vec<Customer>,
    vlaaien: Vec<Vlaai>,
    orders: Vec<Order>,
    rows: Vec<VlaaiToOrder>,
}

impl Database {
    /// The customers, in the order of their keys.
    pub closed spec fn customers(self) -> Seq<Customer> {
        self.customers@
    }

    /// The pie varieties, in the order of their keys.
    pub closed spec fn vlaaien(self) -> Seq<Vlaai> {
        self.vlaaien@
    }

    /// The orders, in the order of their keys.
    pub closed spec fn orders(self) -> Seq<Order> {
        self.orders@
    }

    /// The order lines, in the order of their keys.
    pub closed spec fn rows(self) -> Seq<VlaaiToOrder> {
        self.rows@
    }

    /// Keys are dense and fit their type, every order is in one of its three
    /// states, and no line has a negative amount.
    pub open spec fn wf(self) -> bool {
        &&& self.customers().len() <= i32::MAX
        &&& self.vlaaien().len() <= i32::MAX
        &&& self.orders().len() <= i32::MAX
        &&& self.rows().len() <= i32::MAX
        &&& forall|i: int| 0 <= i < self.customers().len() ==> (#[trigger] self.customers()[i]).id == i + 1
        &&& forall|i: int| 0 <= i < self.vlaaien().len() ==> (#[trigger] self.vlaaien()[i]).id == i + 1
        &&& forall|i: int|
            0 <= i < self.orders().len() ==> (#[trigger] self.orders()[i]).id == i + 1
                && self.orders()[i].valid()
        &&& forall|i: int|
            0 <= i < self.rows().len() ==> (#[trigger] self.rows()[i]).id == i + 1
                && self.rows()[i].amount >= 0
    }

    /// Whether a customer is stored under `id`.
    pub open spec fn has_customer(self, id: i32) -> bool {
        1 <= id <= self.customers().len()
    }

    /// Whether a pie variety is stored under `id`.
    pub open spec fn has_vlaai(self, id: i32) -> bool {
        1 <= id <= self.vlaaien().len()
    }

    /// Whether an order is stored under `id`.
    pub open spec fn has_order(self, id: i32) -> bool {
        1 <= id <= self.orders().len()
    }

    /// The order stored under `id`.
    pub open spec fn order(self, id: i32) -> Order
        recommends
            self.has_order(id),
    {
        self.orders()[id - 1]
    }

    /// The name of the customer stored under `id`.
    pub open spec fn customer_name(self, id: i32) -> Option<Seq<char>> {
        if self.has_customer(id) {
            Some(self.customers()[id - 1].name@)
        } else {
            None
        }
    }

    /// The name of the pie variety stored under `id`.
    pub open spec fn vlaai_name(self, id: i32) -> Option<Seq<char>> {
        if self.has_vlaai(id) {
            Some(self.vlaaien()[id - 1].name@)
        } else {
            None
        }
    }

    /// An empty store.
    pub fn new() -> (db: Database)
        ensures
            db.wf(),
            db.customers().len() == 0,
            db.vlaaien().len() == 0,
            db.orders().len() == 0,
            db.rows().len() == 0,
    {
        Database { customers: Vec::new(), vlaaien: Vec::new(), orders: Vec::new(), rows: Vec::new() }
    }

    /// Stores a customer and returns its key.
    pub fn add_customer(&mut self, customer: NewCustomer<'_>) -> (r: Result<i32, DbError>)
        requires
            old(self).wf(),
        ensures
            final(self).wf(),
            final(self).vlaaien() == old(self).vlaaien(),
            final(self).orders() == old(self).orders(),
            final(self).rows() == old(self).rows(),
            match r {
                Ok(id) => {
                    &&& id == old(self).customers().len() + 1
                    &&& final(self).customers().len() == id
                    &&& final(self).customers().drop_last() == old(self).customers()
                    &&& final(self).customers()[id - 1].id == id
                    &&& final(self).customers()[id - 1].name@ == customer.name@
                    &&& final(self).customers()[id - 1].email matches Some(e) && e@
                        == customer.email@
                },
                Err(e) => {
                    &&& e == DbError::Constraint
                    &&& old(self).customers().len() == i32::MAX
                    &&& final(self).customers() == old(self).customers()
                },
            },
    {
        let n = self.customers.len();
        if n >= i32::MAX as usize {
            return Err(DbError::Constraint);
        }
        let id = (n + 1) as i32;
        self.customers.push(
            Customer { id, name: customer.name.to_owned(), email: Some(customer.email.to_owned()) },
        );
        assert(self.customers@.drop_last() =~= old(self).customers@);
        Ok(id)
    }

    /// Stores a pie variety and returns its key.
    pub fn add_vlaai(&mut self, vlaai: NewVlaai<'_>) -> (r: Result<i32, DbError>)
        requires
            old(self).wf(),
        ensures
            final(self).wf(),
            final(self).customers() == old(self).customers(),
            final(self).orders() == old(self).orders(),
            final(self).rows() == old(self).rows(),
            match r {
                Ok(id) => {
                    &&& id == old(self).vlaaien().len() + 1
                    &&& final(self).vlaaien().len() == id
                    &&& final(self).vlaaien().drop_last() == old(self).vlaaien()
                    &&& final(self).vlaaien()[id - 1].id == id
                    &&& final(self).vlaaien()[id - 1].name@ == vlaai.name@
                },
                Err(e) => {
                    &&& e == DbError::Constraint
                    &&& old(self).vlaaien().len() == i32::MAX
                    &&& final(self).vlaaien() == old(self).vlaaien()
                },
            },
    {
        let n = self.vlaaien.len();
        if n >= i32::MAX as usize {
            return Err(DbError::Constraint);
        }
        let id = (n + 1) as i32;
        self.vlaaien.push(Vlaai { id, name: vlaai.name.to_owned() });
        assert(self.vlaaien@.drop_last() =~= old(self).vlaaien@);
        Ok(id)
    }

    /// Stores an order and returns its key. An order that is in none of the
    /// three states is refused.
    pub fn add_order(&mut self, order: NewOrder) -> (r: Result<i32, DbError>)
        requires
            old(self).wf(),
        ensures
            final(self).wf(),
            final(self).customers() == old(self).customers(),
            final(self).vlaaien() == old(self).vlaaien(),
            final(self).rows() == old(self).rows(),
            match r {
                Ok(id) => {
                    &&& order.stored(id).valid()
                    &&& id == old(self).orders().len() + 1
                    &&& final(self).orders() == old(self).orders().push(order.stored(id))
                },
                Err(e) => {
                    &&& e == DbError::Constraint
                    &&& !order.stored(0).valid() || old(self).orders().len() == i32::MAX
                    &&& final(self).orders() == old(self).orders()
                },
            },
    {
        let n = self.orders.len();
        if n >= i32::MAX as usize {
            return Err(DbError::Constraint);
        }
        let id = (n + 1) as i32;
        let stored = Order {
            id,
            customer_id: order.customer_id,
            in_transit: order.in_transit,
            picked_up: order.picked_up,
            order_number: order.order_number,
        };
        if stored.state().is_none() {
            return Err(DbError::Constraint);
        }
        self.orders.push(stored);
        Ok(id)
    }

    /// Stores an order line and returns its key. A negative amount is
    /// refused. Neither the order nor the variety has to exist.
    pub fn add_row(&mut self, row: NewVlaaiToOrder) -> (r: Result<i32, DbError>)
        requires
            old(self).wf(),
        ensures
            final(self).wf(),
            final(self).customers() == old(self).customers(),
            final(self).vlaaien() == old(self).vlaaien(),
            final(self).orders() == old(self).orders(),
            match r {
                Ok(id) => {
                    &&& row.amount >= 0
                    &&& id == old(self).rows().len() + 1
                    &&& final(self).rows() == old(self).rows().push(
                        VlaaiToOrder {
                            id,
                            order_id: row.order_id,
                            vlaai_id: row.vlaai_id,
                            amount: row.amount,
                        },
                    )
                },
                Err(e) => {
                    &&& e == DbError::Constraint
                    &&& row.amount < 0 || old(self).rows().len() == i32::MAX
                    &&& final(self).rows() == old(self).rows()
                },
            },
    {
        let n = self.rows.len();
        if n >= i32::MAX as usize || row.amount < 0 {
            return Err(DbError::Constraint);
        }
        let id = (n + 1) as i32;
        self.rows.push(
            VlaaiToOrder { id, order_id: row.order_id, vlaai_id: row.vlaai_id, amount: row.amount },
        );
        Ok(id)
    }

    /// The lines of order `order_id`, in the order in which they were stored.
    pub open spec fn rows_of(self, order_id: i32) -> Seq<VlaaiToOrder> {
        self.rows().filter(|row: VlaaiToOrder| row.order_id == order_id)
    }

    /// An order line as the board shows it.
    pub open spec fn line(self, row: VlaaiToOrder) -> OrderRowView {
        OrderRowView { vlaai: self.vlaai_name(row.vlaai_id).unwrap(), amount: row.amount as u32 }
    }

    /// The lines of order `order_id` as the board shows them, if the variety
    /// of each is stored.
    pub open spec fn lines(self, order_id: i32) -> Option<Seq<OrderRowView>> {
        let rows = self.rows_of(order_id);
        if forall|i: int| 0 <= i < rows.len() ==> self.has_vlaai((#[trigger] rows[i]).vlaai_id) {
            Some(rows.map_values(|row: VlaaiToOrder| self.line(row)))
        } else {
            None
        }
    }

    /// An order as the board shows it, if its customer and the variety of
    /// each of its lines are stored.
    pub open spec fn pending_of(self, order: Order) -> Option<PendingOrderView> {
        match (self.customer_name(order.customer_id), self.lines(order.id)) {
            (Some(name), Some(rows)) => Some(
                PendingOrderView {
                    id: order.id as u32,
                    in_transit: order.in_transit,
                    picked_up: order.picked_up,
                    customer_name: name,
                    rows,
                },
            ),
            _ => None,
        }
    }

    /// The number of stored orders.
    pub fn order_count(&self) -> (n: usize)
        ensures
            n == self.orders().len(),
    {
        self.orders.len()
    }

    /// The order stored under `id`, if there is one.
    pub fn get_order(&self, id: i32) -> (found: Option<Order>)
        requires
            self.wf(),
        ensures
            match found {
                Some(order) => self.has_order(id) && order == self.order(id) && order.id == id,
                None => !self.has_order(id),
            },
    {
        if id >= 1 && id as usize <= self.orders.len() {
            Some(self.orders[(id - 1) as usize])
        } else {
            None
        }
    }
}

/// Filtering one more element either appends it or changes nothing.
proof fn lemma_filter_step<A>(s: Seq<A>, pred: spec_fn(A) -> bool, i: int)
    requires
        0 <= i < s.len(),
    ensures
        s.take(i + 1).filter(pred) == if pred(s[i]) {
            s.take(i).filter(pred).push(s[i])
        } else {
            s.take(i).filter(pred)
        },
{
    reveal(Seq::filter);
    assert(s.take(i + 1).drop_last() =~= s.take(i));
}

/// The name of the pie variety stored under `vlaai_id`.
pub fn get_vlaai_name(db: &Database, vlaai_id: i32) -> (r: Result<String, DbError>)
    requires
        db.wf(),
    ensures
        match r {
            Ok(name) => db.vlaai_name(vlaai_id) == Some(name@),
            Err(e) => e == DbError::NotFound && db.vlaai_name(vlaai_id) is None,
        },
{
    if vlaai_id >= 1 && vlaai_id as usize <= db.vlaaien.len() {
        Ok(db.vlaaien[(vlaai_id - 1) as usize].name.clone())
    } else {
        Err(DbError::NotFound)
    }
}

/// Builds the board's view of `order`: joins its customer and its lines.
/// Fails if the customer, or the variety of one of the lines, is not stored.
pub fn to_pending(db: &Database, order: Order) -> (r: Result<PendingOrder, DbError>)
    requires
        db.wf(),
    ensures
        match r {
            Ok(pending) => db.pending_of(order) == Some(pending@),
            Err(e) => e == DbError::NotFound && db.pending_of(order) is None,
        },
{
    if !(order.customer_id >= 1 && order.customer_id as usize <= db.customers.len()) {
        return Err(DbError::NotFound);
    }
    let customer_name = db.customers[(order.customer_id - 1) as usize].name.clone();
    let ghost wanted = |row: VlaaiToOrder| row.order_id == order.id;
    let mut rows: Vec<OrderRow> = Vec::new();
    let mut i: usize = 0;
    while i < db.rows.len()
        invariant
            db.wf(),
            i <= db.rows.len(),
            wanted == (|row: VlaaiToOrder| row.order_id == order.id),
            rows.len() == db.rows().take(i as int).filter(wanted).len(),
            forall|k: int|
                0 <= k < rows.len() ==> db.has_vlaai(
                    (#[trigger] db.rows().take(i as int).filter(wanted)[k]).vlaai_id,
                ) && rows[k]@ == db.line(db.rows().take(i as int).filter(wanted)[k]),
        decreases db.rows.len() - i,
    {
        let row = db.rows[i];
        proof {
            lemma_filter_step(db.rows(), wanted, i as int);
        }
        if row.order_id == order.id {
            match get_vlaai_name(db, row.vlaai_id) {
                Ok(name) => {
                    rows.push(OrderRow { vlaai: name, amount: row.amount as u32 });
                },
                Err(_) => {
                    proof {
                        let all = db.rows_of(order.id);
                        broadcast use vstd::seq_lib::group_filter_ensures;
                        assert(all.contains(db.rows()[i as int]));
                        let j = choose|j: int| 0 <= j < all.len() && all[j] == db.rows()[i as int];
                        assert(!db.has_vlaai(all[j].vlaai_id));
                    }
                    return Err(DbError::NotFound);
                },
            }
        }
        i += 1;
    }
    proof {
        assert(db.rows().take(i as int) =~= db.rows());
        let all = db.rows_of(order.id);
        assert(crate::db::rows_view(rows@) =~= all.map_values(|row: VlaaiToOrder| db.line(row)));
    }
    Ok(
        PendingOrder {
            id: order.id as u32,
            in_transit: order.in_transit,
            picked_up: order.picked_up,
            customer_name,
            rows,
        },
    )
}

impl Database {
    /// `list` is the board: the view of each pending order once, and nothing
    /// else, sorted by order number.
    pub open spec fn is_listing(self, list: Seq<PendingOrderView>) -> bool {
        &&& forall|k: int|
            0 <= k < list.len() ==> {
                let id = (#[trigger] list[k]).id;
                &&& 1 <= id <= self.orders().len()
                &&& self.order(id as i32).pending()
                &&& self.pending_of(self.order(id as i32)) == Some(list[k])
            }
        &&& forall|a: int, b: int|
            0 <= a < b < list.len() ==> (#[trigger] list[a]).id != (#[trigger] list[b]).id
        &&& forall|id: i32|
            self.has_order(id) && (#[trigger] self.order(id)).pending() ==> exists|k: int|
                0 <= k < list.len() && (#[trigger] list[k]).id == id
        &&& forall|a: int, b: int|
            0 <= a < b < list.len() ==> number_key(self.order((#[trigger] list[a]).id as i32))
                <= number_key(self.order((#[trigger] list[b]).id as i32))
    }

    /// `m` is the highest order number in the store, or 0 if no order has a
    /// number.
    pub open spec fn is_max_number(self, m: i32) -> bool {
        is_highest_number(self.orders(), m)
    }
}

/// Retrieves all pending orders: every order that is in transit and not
/// picked up, as the board shows it, sorted by order number. Fails if one
/// of them cannot be shown.
pub fn all_pending_orders(db: &Database) -> (r: Result<Vec<PendingOrder>, DbError>)
    requires
        db.wf(),
    ensures
        match r {
            Ok(list) => db.is_listing(crate::db::pending_views(list@)),
            Err(e) => e == DbError::NotFound && exists|id: i32|
                db.has_order(id) && (#[trigger] db.order(id)).pending() && db.pending_of(
                    db.order(id),
                ) is None,
        },
{
    let orders = pending_sorted(&db.orders);
    proof {
        assert(distinct_ids(db.orders())) by {
            assert forall|a: int, b: int| 0 <= a < b < db.orders().len() implies (
            #[trigger] db.orders()[a]).id != (#[trigger] db.orders()[b]).id by {}
        }
        assert forall|j: int| 0 <= j < orders.len() implies 1 <= (#[trigger] orders@[j]).id
            <= db.orders().len() && db.order(orders@[j].id) == orders@[j] by {
            let at = choose|at: int| 0 <= at < db.orders().len() && db.orders()[at] == orders@[j];
        }
    }
    let mut list: Vec<PendingOrder> = Vec::new();
    let mut k: usize = 0;
    while k < orders.len()
        invariant
            db.wf(),
            k <= orders.len(),
            list.len() == k,
            forall|j: int|
                0 <= j < orders.len() ==> 1 <= (#[trigger] orders@[j]).id <= db.orders().len()
                    && db.order(orders@[j].id) == orders@[j] && orders@[j].pending(),
            forall|j: int| 0 <= j < k ==> db.pending_of(orders[j]) == Some((#[trigger] list[j])@),
        decreases orders.len() - k,
    {
        let order = orders[k];
        match to_pending(db, order) {
            Ok(pending) => {
                list.push(pending);
            },
            Err(_) => {
                proof {
                    assert(orders@[k as int] == db.order(order.id));
                }
                return Err(DbError::NotFound);
            },
        }
        k += 1;
    }
    proof {
        let views = crate::db::pending_views(list@);
        assert forall|j: int| 0 <= j < views.len() implies {
            let id = (#[trigger] views[j]).id;
            &&& id == orders[j].id
            &&& 1 <= id <= db.orders().len()
            &&& db.order(id as i32) == orders[j]
            &&& db.order(id as i32).pending()
            &&& db.pending_of(db.order(id as i32)) == Some(views[j])
        } by {
            assert(db.pending_of(orders[j]) == Some(list[j]@));
            assert(1 <= orders@[j].id <= db.orders().len());
        }
        assert forall|id: i32|
            db.has_order(id) && (#[trigger] db.order(id)).pending() implies exists|j: int|
            0 <= j < views.len() && (#[trigger] views[j]).id == id by {
            assert(db.orders()[id - 1].pending());
            assert(lists(orders@, db.orders()[id - 1].id));
            let j = choose|j: int| 0 <= j < orders.len() && (#[trigger] orders@[j]).id == id;
            assert(views[j].id == id);
        }
        assert forall|a: int, b: int| 0 <= a < b < views.len() implies (#[trigger] views[a]).id != (
        #[trigger] views[b]).id by {
            assert(orders@[a].id != orders@[b].id);
        }
        assert forall|a: int, b: int| 0 <= a < b < views.len() implies number_key(
            db.order((#[trigger] views[a]).id as i32),
        ) <= number_key(db.order((#[trigger] views[b]).id as i32)) by {
            assert(number_key(orders@[a]) <= number_key(orders@[b]));
        }
    }
    Ok(list)
}

/// The orders of customer `id`, in the order in which they were stored.
/// Fails if no such customer is stored.
pub fn orders_for_customer(db: &Database, id: i32) -> (r: Result<Vec<Order>, DbError>)
    requires
        db.wf(),
    ensures
        match r {
            Ok(list) => db.has_customer(id) && list@ == db.orders().filter(
                |order: Order| order.customer_id == id,
            ),
            Err(e) => e == DbError::NotFound && !db.has_customer(id),
        },
{
    if !(id >= 1 && id as usize <= db.customers.len()) {
        return Err(DbError::NotFound);
    }
    let ghost wanted = |order: Order| order.customer_id == id;
    let mut list: Vec<Order> = Vec::new();
    let mut i: usize = 0;
    while i < db.orders.len()
        invariant
            i <= db.orders.len(),
            wanted == (|order: Order| order.customer_id == id),
            list@ == db.orders().take(i as int).filter(wanted),
        decreases db.orders.len() - i,
    {
        proof {
            lemma_filter_step(db.orders(), wanted, i as int);
        }
        if db.orders[i].customer_id == id {
            list.push(db.orders[i]);
        }
        i += 1;
    }
    proof {
        assert(db.orders().take(i as int) =~= db.orders());
    }
    Ok(list)
}

/// Puts order `order_id` in transit under `order_number` and returns it as
/// it then is. Fails, changing nothing, if no such order is stored.
pub fn update_order_in_transit(db: &mut Database, order_id: i32, order_number: i32) -> (r: Result<
    Order,
    DbError,
>)
    requires
        old(db).wf(),
    ensures
        final(db).wf(),
        final(db).customers() == old(db).customers(),
        final(db).vlaaien() == old(db).vlaaien(),
        final(db).rows() == old(db).rows(),
        match r {
            Ok(order) => {
                &&& old(db).has_order(order_id)
                &&& order == old(db).order(order_id).marked_in_transit(order_number)
                &&& final(db).orders() == old(db).orders().update(order_id - 1, order)
            },
            Err(e) => {
                &&& e == DbError::NotFound
                &&& !old(db).has_order(order_id)
                &&& final(db).orders() == old(db).orders()
            },
        },
{
    if !(order_id >= 1 && order_id as usize <= db.orders.len()) {
        return Err(DbError::NotFound);
    }
    let at = (order_id - 1) as usize;
    let order = db.orders[at].mark_in_transit(order_number);
    db.orders.set(at, order);
    Ok(order)
}

/// Marks order `order_id` as picked up and returns how many orders changed:
/// one if it is stored, none otherwise. A store in memory cannot fail here.
pub fn update_order_retrieved(db: &mut Database, order_id: i32) -> (r: Result<usize, DbError>)
    requires
        old(db).wf(),
    ensures
        final(db).wf(),
        final(db).customers() == old(db).customers(),
        final(db).vlaaien() == old(db).vlaaien(),
        final(db).rows() == old(db).rows(),
        r is Ok,
        old(db).has_order(order_id) ==> r == Ok::<usize, DbError>(1) && final(db).orders() == old(
            db,
        ).orders().update(order_id - 1, old(db).order(order_id).marked_retrieved()),
        !old(db).has_order(order_id) ==> r == Ok::<usize, DbError>(0) && final(db).orders() == old(
            db,
        ).orders(),
{
    if !(order_id >= 1 && order_id as usize <= db.orders.len()) {
        return Ok(0);
    }
    let at = (order_id - 1) as usize;
    let order = db.orders[at].mark_retrieved();
    db.orders.set(at, order);
    Ok(1)
}

/// Resets order `order_id` to new and returns how many orders changed: one
/// if it is stored, none otherwise. A store in memory cannot fail here.
pub fn update_order_new(db: &mut Database, order_id: i32) -> (r: Result<usize, DbError>)
    requires
        old(db).wf(),
    ensures
        final(db).wf(),
        final(db).customers() == old(db).customers(),
        final(db).vlaaien() == old(db).vlaaien(),
        final(db).rows() == old(db).rows(),
        r is Ok,
        old(db).has_order(order_id) ==> r == Ok::<usize, DbError>(1) && final(db).orders() == old(
            db,
        ).orders().update(order_id - 1, old(db).order(order_id).marked_new()),
        !old(db).has_order(order_id) ==> r == Ok::<usize, DbError>(0) && final(db).orders() == old(
            db,
        ).orders(),
{
    if !(order_id >= 1 && order_id as usize <= db.orders.len()) {
        return Ok(0);
    }
    let at = (order_id - 1) as usize;
    let order = db.orders[at].mark_new();
    db.orders.set(at, order);
    Ok(1)
}

/// The highest order number in the store, or 0 if no order has one. A
/// store in memory cannot fail here.
pub fn max_order_number(db: &Database) -> (r: Result<i32, DbError>)
    requires
        db.wf(),
    ensures
        r matches Ok(m) && db.is_max_number(m),
{
    Ok(highest_number(&db.orders))
}

/// `at` is the first position at which `wanted` stands in `items`.
pub open spec fn is_first_at<A>(items: Seq<A>, wanted: A, at: int) -> bool {
    &&& 0 <= at < items.len()
    &&& items[at] == wanted
    &&& forall|j: int| 0 <= j < at ==> items[j] != wanted
}

/// The first position at which `wanted` stands in `items`, if it stands
/// there at all.
pub open spec fn first_at<A>(items: Seq<A>, wanted: A) -> Option<int> {
    if exists|at: int| is_first_at(items, wanted, at) {
        Some(choose|at: int| is_first_at(items, wanted, at))
    } else {
        None
    }
}

/// There is one first position at most.
pub proof fn lemma_first_at<A>(items: Seq<A>, wanted: A, at: int)
    requires
        is_first_at(items, wanted, at),
    ensures
        first_at(items, wanted) == Some(at),
{
    let chosen = choose|at: int| is_first_at(items, wanted, at);
    if chosen < at {
        assert(items[chosen] != wanted);
    } else if at < chosen {
        assert(items[at] != wanted);
    }
}

/// What is not in a sequence has no first position in it.
pub proof fn lemma_first_at_none<A>(items: Seq<A>, wanted: A)
    requires
        forall|j: int| 0 <= j < items.len() ==> items[j] != wanted,
    ensures
        first_at(items, wanted) is None,
{
}

impl Database {
    /// The names of the customers, in the order of their keys.
    pub open spec fn customer_names(self) -> Seq<Seq<char>> {
        self.customers().map_values(|customer: Customer| customer.name@)
    }

    /// The names of the pie varieties, in the order of their keys.
    pub open spec fn vlaai_names(self) -> Seq<Seq<char>> {
        self.vlaaien().map_values(|vlaai: Vlaai| vlaai.name@)
    }

    /// The customer of each order, in the order of the orders' keys.
    pub open spec fn order_customers(self) -> Seq<i32> {
        self.orders().map_values(|order: Order| order.customer_id)
    }

    /// The key of the first customer called `name`.
    pub open spec fn customer_named(self, name: Seq<char>) -> Option<i32> {
        match first_at(self.customer_names(), name) {
            Some(at) => Some((at + 1) as i32),
            None => None,
        }
    }

    /// The key of the first pie variety called `name`.
    pub open spec fn vlaai_named(self, name: Seq<char>) -> Option<i32> {
        match first_at(self.vlaai_names(), name) {
            Some(at) => Some((at + 1) as i32),
            None => None,
        }
    }

    /// The key of the first order of customer `customer_id`.
    pub open spec fn first_order_of(self, customer_id: i32) -> Option<i32> {
        match first_at(self.order_customers(), customer_id) {
            Some(at) => Some((at + 1) as i32),
            None => None,
        }
    }

    /// The key of the first customer called `name`.
    pub fn find_customer_named(&self, name: &str) -> (found: Option<i32>)
        requires
            self.wf(),
        ensures
            found == self.customer_named(name@),
            found matches Some(id) ==> self.has_customer(id),
    {
        let wanted = name.to_owned();
        let mut i: usize = 0;
        while i < self.customers.len()
            invariant
                self.wf(),
                i <= self.customers.len(),
                wanted@ == name@,
                forall|j: int| 0 <= j < i ==> self.customer_names()[j] != name@,
            decreases self.customers.len() - i,
        {
            if self.customers[i].name == wanted {
                proof {
                    lemma_first_at(self.customer_names(), name@, i as int);
                }
                return Some((i + 1) as i32);
            }
            i += 1;
        }
        proof {
            lemma_first_at_none(self.customer_names(), name@);
        }
        None
    }

    /// The key of the first pie variety called `name`.
    pub fn find_vlaai_named(&self, name: &str) -> (found: Option<i32>)
        requires
            self.wf(),
        ensures
            found == self.vlaai_named(name@),
            found matches Some(id) ==> self.has_vlaai(id),
    {
        let wanted = name.to_owned();
        let mut i: usize = 0;
        while i < self.vlaaien.len()
            invariant
                self.wf(),
                i <= self.vlaaien.len(),
                wanted@ == name@,
                forall|j: int| 0 <= j < i ==> self.vlaai_names()[j] != name@,
            decreases self.vlaaien.len() - i,
        {
            if self.vlaaien[i].name == wanted {
                proof {
                    lemma_first_at(self.vlaai_names(), name@, i as int);
                }
                return Some((i + 1) as i32);
            }
            i += 1;
        }
        proof {
            lemma_first_at_none(self.vlaai_names(), name@);
        }
        None
    }

    /// The key of the first order of customer `customer_id`.
    pub fn find_first_order_of(&self, customer_id: i32) -> (found: Option<i32>)
        requires
            self.wf(),
        ensures
            found == self.first_order_of(customer_id),
            found matches Some(id) ==> self.has_order(id),
    {
        let mut i: usize = 0;
        while i < self.orders.len()
            invariant
                self.wf(),
                i <= self.orders.len(),
                forall|j: int| 0 <= j < i ==> self.order_customers()[j] != customer_id,
            decreases self.orders.len() - i,
        {
            if self.orders[i].customer_id == customer_id {
                proof {
                    lemma_first_at(self.order_customers(), customer_id, i as int);
                }
                return Some((i + 1) as i32);
            }
            i += 1;
        }
        proof {
            lemma_first_at_none(self.order_customers(), customer_id);
        }
        None
    }

    /// The number of stored order lines.
    pub fn row_count(&self) -> (n: usize)
        ensures
            n == self.rows().len(),
    {
        self.rows.len()
    }
}

impl Database {
    /// The orders of customer `id` that can be shown, as the board shows
    /// them, in the order in which they were stored.
    pub open spec fn shown_for_customer(self, id: i32) -> Seq<PendingOrderView> {
        self.orders().filter(|order: Order| order.customer_id == id).filter(
            |order: Order| self.pending_of(order) is Some,
        ).map_values(|order: Order| self.pending_of(order)->0)
    }
}

/// Finds the orders of customer `id`, whatever their state, as the board
/// would show them. An order that cannot be shown is left out. Fails if no
/// such customer is stored.
pub fn find_order(db: &Database, id: u32) -> (r: Result<Vec<PendingOrder>, DbError>)
    requires
        db.wf(),
    ensures
        match r {
            Ok(list) => 1 <= id <= db.customers().len() && crate::db::pending_views(list@)
                == db.shown_for_customer(id as i32),
            Err(e) => e == DbError::NotFound && !(1 <= id <= db.customers().len()),
        },
{
    if id > i32::MAX as u32 {
        return Err(DbError::NotFound);
    }
    let orders = match orders_for_customer(db, id as i32) {
        Ok(orders) => orders,
        Err(e) => {
            return Err(e);
        },
    };
    let ghost showable = |order: Order| db.pending_of(order) is Some;
    let ghost show = |order: Order| db.pending_of(order)->0;
    let mut list: Vec<PendingOrder> = Vec::new();
    let mut i: usize = 0;
    while i < orders.len()
        invariant
            db.wf(),
            i <= orders.len(),
            showable == (|order: Order| db.pending_of(order) is Some),
            show == (|order: Order| db.pending_of(order)->0),
            crate::db::pending_views(list@) == orders@.take(i as int).filter(showable).map_values(
                show,
            ),
        decreases orders.len() - i,
    {
        proof {
            lemma_filter_step(orders@, showable, i as int);
        }
        let ghost before = crate::db::pending_views(list@);
        match to_pending(db, orders[i]) {
            Ok(pending) => {
                list.push(pending);
                assert(crate::db::pending_views(list@) =~= before.push(pending@));
                assert(orders@.take(i + 1).filter(showable).map_values(show) =~= orders@.take(
                    i as int,
                ).filter(showable).map_values(show).push(show(orders@[i as int])));
            },
            Err(_) => {},
        }
        i += 1;
    }
    proof {
        assert(orders@.take(i as int) =~= orders@);
    }
    Ok(list)
}

} // verus!
