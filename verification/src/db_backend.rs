//! The backend that keeps its orders in a store and numbers them from the
//! highest number it found there, and what it asks of such a store. The
//! store in memory is one; a store on disk is another.

use crate::backend::{Backend, BackendError, BackendView};
use crate::db::{pending_views, Order, OrderRowView, PendingOrder, PendingOrderView};
use crate::listing::number_key;
use crate::store::{Database, DbError};
use vstd::prelude::*;

verus! {

/// The model of a store: its orders by key, the names of its customers by
/// key, for each order key the lines of that order, as far as they can be
/// shown, and whether the store can always be reached.
pub struct StoreView {
    pub orders: Map<u32, Order>,
    pub customers: Map<i32, Seq<char>>,
    pub lines: Map<i32, Seq<OrderRowView>>,
    pub dependable: bool,
}

impl StoreView {
    /// The model of a backend over this store that handed out `last_number`
    /// last.
    pub open spec fn numbered(self, last_number: int) -> BackendView {
        BackendView {
            orders: self.orders,
            last_number,
            customers: self.customers,
            lines: self.lines,
            dependable: self.dependable,
        }
    }

    /// Every order is stored under its own key and is in one of its three
    /// states.
    pub open spec fn valid(self) -> bool {
        forall|id: u32| #[trigger]
            self.orders.contains_key(id) ==> self.orders[id].id == id && self.orders[id].valid()
    }

    /// Whether an order is stored under `order_id`.
    pub open spec fn knows(self, order_id: i32) -> bool {
        0 <= order_id && self.orders.contains_key(order_id as u32)
    }

    /// An order as the board shows it, if its customer and its lines are
    /// there.
    pub open spec fn shown(self, order: Order) -> Option<PendingOrderView> {
        self.numbered(0).shown(order)
    }

    /// What came of asking to put order `order_id` in transit under
    /// `order_number`. On failure nothing changed. A dependable store fails
    /// only on an unknown key.
    pub open spec fn in_transit_outcome(
        self,
        order_id: i32,
        order_number: i32,
        after: StoreView,
        result: Result<Order, DbError>,
    ) -> bool {
        &&& after.customers == self.customers
        &&& after.lines == self.lines
        &&& after.dependable == self.dependable
        &&& match result {
            Ok(order) => {
                &&& self.knows(order_id)
                &&& order == self.orders[order_id as u32].marked_in_transit(order_number)
                &&& after.orders == self.orders.insert(order_id as u32, order)
            },
            Err(e) => {
                &&& after.orders == self.orders
                &&& e !is Constraint
                &&& self.dependable ==> e is NotFound
                &&& e is NotFound ==> !self.knows(order_id)
            },
        }
    }

    /// What came of asking to mark order `order_id` as picked up: how many
    /// orders changed, which is one if the order is stored and none
    /// otherwise. A dependable store does not fail.
    pub open spec fn retrieved_outcome(
        self,
        order_id: i32,
        after: StoreView,
        result: Result<usize, DbError>,
    ) -> bool {
        &&& after.customers == self.customers
        &&& after.lines == self.lines
        &&& after.dependable == self.dependable
        &&& match result {
            Ok(changed) => if self.knows(order_id) {
                changed == 1 && after.orders == self.orders.insert(
                    order_id as u32,
                    self.orders[order_id as u32].marked_retrieved(),
                )
            } else {
                changed == 0 && after.orders == self.orders
            },
            Err(e) => after.orders == self.orders && e is Unavailable && !self.dependable,
        }
    }

    /// What came of asking for the board's view of `order`. A dependable
    /// store fails only on an order that cannot be shown.
    pub open spec fn view_outcome(self, order: Order, result: Result<PendingOrder, DbError>) -> bool {
        match result {
            Ok(pending) => self.shown(order) == Some(pending@),
            Err(e) => {
                &&& e !is Constraint
                &&& self.dependable ==> e is NotFound
                &&& e is NotFound ==> self.shown(order) is None
            },
        }
    }

    /// What came of asking for all pending orders. A dependable store fails
    /// only if a pending order cannot be shown.
    pub open spec fn snapshot_outcome(self, result: Result<Vec<PendingOrder>, DbError>) -> bool {
        match result {
            Ok(list) => self.numbered(0).is_snapshot(pending_views(list@)),
            Err(e) => {
                &&& e !is Constraint
                &&& self.dependable ==> e is NotFound
                &&& e is NotFound ==> !self.numbered(0).presentable()
            },
        }
    }

    /// What came of asking for the highest order number. A dependable store
    /// does not fail.
    pub open spec fn max_outcome(self, result: Result<i32, DbError>) -> bool {
        match result {
            Ok(m) => self.numbered(0).is_max_number(m),
            Err(e) => e is Unavailable && !self.dependable,
        }
    }
}

/// What the last number handed out is plays no part in what is shown, in
/// what a snapshot is, or in what the highest stored number is.
pub proof fn lemma_numbered(view: StoreView, a: int, b: int)
    ensures
        forall|order: Order| #[trigger] view.numbered(a).shown(order) == view.numbered(b).shown(order),
        forall|list: Seq<PendingOrderView>| #[trigger]
            view.numbered(a).is_snapshot(list) ==> view.numbered(b).is_snapshot(list),
        view.numbered(a).presentable() ==> view.numbered(b).presentable(),
        forall|m: i32| #[trigger] view.numbered(a).is_max_number(m) ==> view.numbered(b).is_max_number(m),
{
    let x = view.numbered(a);
    let y = view.numbered(b);
    assert forall|list: Seq<PendingOrderView>| #[trigger] x.is_snapshot(list) implies y.is_snapshot(
        list,
    ) by {
        assert forall|k: int| 0 <= k < list.len() implies {
            let id = (#[trigger] list[k]).id;
            &&& y.orders.contains_key(id)
            &&& y.orders[id].pending()
            &&& y.shown(y.orders[id]) == Some(list[k])
        } by {
            let id = list[k].id;
            assert(x.shown(x.orders[id]) == Some(list[k]));
        }
        assert forall|id: u32| #[trigger]
            y.orders.contains_key(id) && y.orders[id].pending() implies exists|k: int|
            0 <= k < list.len() && (#[trigger] list[k]).id == id by {
            assert(x.orders.contains_key(id) && x.orders[id].pending());
        }
    }
    if x.presentable() {
        assert forall|id: u32| #[trigger]
            y.orders.contains_key(id) && y.orders[id].pending() implies y.shown(y.orders[id]) is Some by {
            assert(x.orders.contains_key(id) && x.orders[id].pending());
            assert(x.shown(x.orders[id]) is Some);
        }
    }
    assert forall|m: i32| #[trigger] x.is_max_number(m) implies y.is_max_number(m) by {
        assert forall|id: u32| #[trigger] y.orders.contains_key(id) implies (
        y.orders[id].order_number matches Some(n) ==> n <= m) by {
            assert(x.orders.contains_key(id));
        }
        if exists|id: u32| #[trigger] x.orders.contains_key(id) && x.orders[id].order_number == Some(m) {
            let id = choose|id: u32| #[trigger]
                x.orders.contains_key(id) && x.orders[id].order_number == Some(m);
            assert(y.orders.contains_key(id) && y.orders[id].order_number == Some(m));
        } else {
            assert forall|id: u32| #[trigger] y.orders.contains_key(id) implies y.orders[id].order_number is None by {
                assert(x.orders.contains_key(id));
            }
        }
    }
}

/// A store of orders, customers and order lines that a [`DBBackend`] can
/// keep its orders in. A store may fail for reasons of its own, so these
/// contracts say what holds of each outcome.
pub trait Store {
    /// The model of this store.
    spec fn model(&self) -> StoreView;

    /// What the store keeps true of itself.
    spec fn inv(&self) -> bool;

    /// The model of a store that keeps its invariant is valid.
    proof fn inv_gives_valid(&self)
        requires
            self.inv(),
        ensures
            self.model().valid(),
    ;

    /// Puts order `order_id` in transit under `order_number` and returns
    /// it as it then is.
    fn update_order_in_transit(&mut self, order_id: i32, order_number: i32) -> (r: Result<
        Order,
        DbError,
    >)
        requires
            old(self).inv(),
        ensures
            final(self).inv(),
            old(self).model().in_transit_outcome(order_id, order_number, final(self).model(), r),
    ;

    /// Marks order `order_id` as picked up and returns how many orders
    /// changed.
    fn update_order_retrieved(&mut self, order_id: i32) -> (r: Result<usize, DbError>)
        requires
            old(self).inv(),
        ensures
            final(self).inv(),
            old(self).model().retrieved_outcome(order_id, final(self).model(), r),
    ;

    /// Builds the board's view of `order`.
    fn to_pending(&self, order: Order) -> (r: Result<PendingOrder, DbError>)
        requires
            self.inv(),
        ensures
            self.model().view_outcome(order, r),
    ;

    /// Every pending order as the board shows it, sorted by order number.
    fn all_pending_orders(&self) -> (r: Result<Vec<PendingOrder>, DbError>)
        requires
            self.inv(),
        ensures
            self.model().snapshot_outcome(r),
    ;

    /// The highest order number of any order, or 0 if there is none.
    fn max_order_number(&self) -> (r: Result<i32, DbError>)
        requires
            self.inv(),
        ensures
            self.model().max_outcome(r),
    ;
}

/// The model of the store in memory. It can always be reached.
pub open spec fn model_of(db: Database) -> StoreView {
    StoreView {
        orders: Map::new(
            |id: u32| 1 <= id <= db.orders().len(),
            |id: u32| db.orders()[id - 1],
        ),
        customers: Map::new(|id: i32| db.has_customer(id), |id: i32| db.customer_name(id)->0),
        lines: Map::new(|id: i32| db.lines(id) is Some, |id: i32| db.lines(id)->0),
        dependable: true,
    }
}

/// The model shows an order as the store does.
pub proof fn lemma_model_shows(db: Database, order: Order)
    ensures
        model_of(db).shown(order) == db.pending_of(order),
{
}

/// A board of the store is a snapshot of the model.
pub proof fn lemma_listing_is_snapshot(db: Database, list: Seq<PendingOrderView>)
    requires
        db.wf(),
        db.is_listing(list),
    ensures
        model_of(db).numbered(0).is_snapshot(list),
{
    let model = model_of(db).numbered(0);
    assert forall|k: int| 0 <= k < list.len() implies {
        let id = (#[trigger] list[k]).id;
        &&& model.orders.contains_key(id)
        &&& model.orders[id].pending()
        &&& model.shown(model.orders[id]) == Some(list[k])
    } by {
        let id = list[k].id;
        assert(model.orders[id] == db.order(id as i32));
        lemma_model_shows(db, db.order(id as i32));
    }
    assert forall|id: u32| #[trigger]
        model.orders.contains_key(id) && model.orders[id].pending() implies exists|k: int|
        0 <= k < list.len() && (#[trigger] list[k]).id == id by {
        assert(db.has_order(id as i32));
        assert(db.order(id as i32).pending());
        let k = choose|k: int| 0 <= k < list.len() && (#[trigger] list[k]).id == id as i32;
        assert(list[k].id == id);
    }
    assert forall|a: int, b: int| 0 <= a < b < list.len() implies number_key(
        model.orders[(#[trigger] list[a]).id],
    ) <= number_key(model.orders[(#[trigger] list[b]).id]) by {
        assert(model.orders[list[a].id] == db.order(list[a].id as i32));
        assert(model.orders[list[b].id] == db.order(list[b].id as i32));
    }
}

impl Store for Database {
    open spec fn model(&self) -> StoreView {
        model_of(*self)
    }

    open spec fn inv(&self) -> bool {
        self.wf()
    }

    proof fn inv_gives_valid(&self) {
        let model = self.model();
        assert forall|id: u32| #[trigger] model.orders.contains_key(id) implies model.orders[id].id
            == id && model.orders[id].valid() by {
            assert(model.orders[id] == self.orders()[id - 1]);
        }
    }

    /// Succeeds exactly if order `order_id` is stored.
    fn update_order_in_transit(&mut self, order_id: i32, order_number: i32) -> (r: Result<
        Order,
        DbError,
    >)
        ensures
            r is Ok <==> old(self).has_order(order_id),
    {
        let ghost before = *self;
        let r = crate::store::update_order_in_transit(self, order_id, order_number);
        proof {
            assert(self.model().customers =~= before.model().customers);
            assert forall|key: i32| self.lines(key) == before.lines(key) by {}
            assert(self.model().lines =~= before.model().lines);
            match r {
                Ok(order) => {
                    assert(self.model().orders =~= before.model().orders.insert(
                        order_id as u32,
                        order,
                    ));
                },
                Err(_) => {
                    assert(self.model().orders =~= before.model().orders);
                },
            }
        }
        r
    }

    /// Always succeeds.
    fn update_order_retrieved(&mut self, order_id: i32) -> (r: Result<usize, DbError>)
        ensures
            r is Ok,
    {
        let ghost before = *self;
        let r = crate::store::update_order_retrieved(self, order_id);
        proof {
            assert(self.model().customers =~= before.model().customers);
            assert forall|key: i32| self.lines(key) == before.lines(key) by {}
            assert(self.model().lines =~= before.model().lines);
            if before.has_order(order_id) {
                assert(self.model().orders =~= before.model().orders.insert(
                    order_id as u32,
                    before.model().orders[order_id as u32].marked_retrieved(),
                ));
            } else {
                assert(self.model().orders =~= before.model().orders);
            }
        }
        r
    }

    /// Succeeds exactly if the order can be shown.
    fn to_pending(&self, order: Order) -> (r: Result<PendingOrder, DbError>)
        ensures
            r is Ok <==> self.model().shown(order) is Some,
    {
        proof {
            lemma_model_shows(*self, order);
        }
        crate::store::to_pending(self, order)
    }

    /// Succeeds exactly if every pending order can be shown.
    fn all_pending_orders(&self) -> (r: Result<Vec<PendingOrder>, DbError>)
        ensures
            r is Ok <==> self.model().numbered(0).presentable(),
    {
        let r = crate::store::all_pending_orders(self);
        proof {
            let model = self.model().numbered(0);
            match &r {
                Ok(list) => {
                    let views = pending_views(list@);
                    lemma_listing_is_snapshot(*self, views);
                    assert forall|id: u32| #[trigger]
                        model.orders.contains_key(id) && model.orders[id].pending() implies model.shown(
                        model.orders[id],
                    ) is Some by {
                        let k = choose|k: int| 0 <= k < views.len() && (#[trigger] views[k]).id == id;
                    }
                },
                Err(_) => {
                    let id = choose|id: i32|
                        self.has_order(id) && (#[trigger] self.order(id)).pending()
                            && self.pending_of(self.order(id)) is None;
                    lemma_model_shows(*self, self.order(id));
                    assert(model.orders.contains_key(id as u32));
                    assert(model.orders[id as u32] == self.order(id));
                },
            }
        }
        r
    }

    /// Always succeeds.
    fn max_order_number(&self) -> (r: Result<i32, DbError>)
        ensures
            r is Ok,
    {
        let r = crate::store::max_order_number(self);
        proof {
            let m = r->Ok_0;
            let model = self.model().numbered(0);
            assert forall|id: u32| #[trigger] model.orders.contains_key(id) implies (
            model.orders[id].order_number matches Some(n) ==> n <= m) by {
                assert(model.orders[id] == self.orders()[id - 1]);
            }
            if exists|i: int|
                0 <= i < self.orders().len() && (#[trigger] self.orders()[i]).order_number == Some(
                    m,
                ) {
                let i = choose|i: int|
                    0 <= i < self.orders().len() && (#[trigger] self.orders()[i]).order_number
                        == Some(m);
                assert(model.orders.contains_key((i + 1) as u32));
                assert(model.orders[(i + 1) as u32] == self.orders()[i]);
            } else {
                assert forall|id: u32| #[trigger]
                    model.orders.contains_key(id) implies model.orders[id].order_number is None by {
                    assert(model.orders[id] == self.orders()[id - 1]);
                }
            }
        }
        r
    }
}

/// What a failure of the store to show an order means for the backend:
/// rows that are not found make the order one that cannot be shown, and
/// anything else means that the store could not be reached.
pub fn view_error(error: DbError) -> (e: BackendError)
    ensures
        e == if error is NotFound {
            BackendError::Malformed
        } else {
            BackendError::StoreUnavailable
        },
{
    match error {
        DbError::NotFound => BackendError::Malformed,
        _ => BackendError::StoreUnavailable,
    }
}

/// What a failure of the store to change order `id` means for the backend:
/// a key that is not found is an unknown order, and anything else means
/// that the store could not be reached.
pub fn key_error(id: u32, error: DbError) -> (e: BackendError)
    ensures
        e == if error is NotFound {
            BackendError::NotFound(id)
        } else {
            BackendError::StoreUnavailable
        },
{
    match error {
        DbError::NotFound => BackendError::NotFound(id),
        _ => BackendError::StoreUnavailable,
    }
}

/// A store and the last order number handed out.
pub struct DBBackend<S> {
    db: S,
    max_order: i32,
}

impl<S: Store> DBBackend<S> {
    /// The store.
    pub closed spec fn store(self) -> S {
        self.db
    }

    /// The last order number handed out.
    pub closed spec fn last_number(self) -> int {
        self.max_order as int
    }

    /// A backend over `db` that continues the numbering found there: the
    /// last number handed out is the highest one in the store. Fails if the
    /// store cannot be reached to read that number.
    pub fn new(db: S) -> (r: Result<DBBackend<S>, BackendError>)
        requires
            db.inv(),
        ensures
            match r {
                Ok(backend) => {
                    &&& backend.inv()
                    &&& backend.store() == db
                    &&& db.model().numbered(0).is_max_number(backend.last_number() as i32)
                },
                Err(e) => e == BackendError::StoreUnavailable && !db.model().dependable,
            },
    {
        match db.max_order_number() {
            Ok(max_order) => {
                proof {
                    lemma_numbered(db.model(), 0, max_order as int);
                }
                Ok(DBBackend { db, max_order })
            },
            Err(_) => Err(BackendError::StoreUnavailable),
        }
    }

    /// The store, to read from.
    pub fn database(&self) -> (db: &S)
        requires
            self.inv(),
        ensures
            *db == self.store(),
            db.inv(),
    {
        &self.db
    }
}

impl Default for DBBackend<Database> {
    /// A backend over an empty store in memory.
    fn default() -> (backend: DBBackend<Database>)
        ensures
            backend.inv(),
            backend.last_number() == 0,
            backend.store().orders().len() == 0,
    {
        let db = Database::new();
        proof {
            let model = db.model().numbered(0);
            assert forall|id: u32| #[trigger] model.orders.contains_key(id) implies false by {}
        }
        DBBackend { db, max_order: 0 }
    }
}

impl<S: Store> Backend for DBBackend<S> {
    open spec fn state(&self) -> BackendView {
        self.store().model().numbered(self.last_number())
    }

    closed spec fn inv(&self) -> bool {
        &&& self.db.inv()
        &&& forall|id: u32| #[trigger]
            self.db.model().orders.contains_key(id) ==> (
            self.db.model().orders[id].order_number matches Some(n) ==> n <= self.max_order)
    }

    proof fn inv_gives_valid(&self) {
        self.db.inv_gives_valid();
    }

    fn last_order_number(&self) -> (n: i32) {
        self.max_order
    }

    /// Hands the order to the store under the number after the last one
    /// handed out, and counts that number as handed out if the store took
    /// it. A key that is no order key, and any key once no number is left,
    /// is unknown without the store being asked. Over a dependable store
    /// the call succeeds exactly if order `id` is stored.
    fn order_in_transit(&mut self, id: u32) -> (r: Result<Order, BackendError>)
        ensures
            old(self).state().dependable ==> (r is Ok <==> old(self).state().orders.contains_key(id)),
            old(self).state().dependable ==> (r matches Err(e) ==> e == BackendError::NotFound(id)),
            id > i32::MAX ==> r == Err::<Order, BackendError>(BackendError::NotFound(id)),
            old(self).state().last_number == i32::MAX ==> r == Err::<Order, BackendError>(
                BackendError::NotFound(id),
            ),
            r is Err ==> final(self).state() == old(self).state(),
    {
        proof {
            self.db.inv_gives_valid();
        }
        if id > i32::MAX as u32 || self.max_order == i32::MAX {
            return Err(BackendError::NotFound(id));
        }
        let number = self.max_order + 1;
        match self.db.update_order_in_transit(id as i32, number) {
            Ok(order) => {
                self.max_order = number;
                proof {
                    let after = self.db.model();
                    assert forall|key: u32| #[trigger] after.orders.contains_key(key) implies (
                    after.orders[key].order_number matches Some(n) ==> n <= self.max_order) by {
                        if key != id {
                            assert(old(self).db.model().orders.contains_key(key));
                        }
                    }
                }
                Ok(order)
            },
            Err(e) => Err(key_error(id, e)),
        }
    }

    /// Asks the store to mark the order as picked up. An order is unknown
    /// if the store changed none; a key that is no order key is unknown
    /// without the store being asked. Over a dependable store the call
    /// succeeds exactly if order `id` is stored.
    fn order_retrieved(&mut self, id: u32) -> (r: Result<(), BackendError>)
        ensures
            old(self).state().dependable ==> (r is Ok <==> old(self).state().orders.contains_key(id)),
            old(self).state().dependable ==> (r matches Err(e) ==> e == BackendError::NotFound(id)),
            id > i32::MAX ==> r == Err::<(), BackendError>(BackendError::NotFound(id)),
            r is Err ==> final(self).state() == old(self).state(),
    {
        proof {
            self.db.inv_gives_valid();
        }
        if id > i32::MAX as u32 {
            return Err(BackendError::NotFound(id));
        }
        match self.db.update_order_retrieved(id as i32) {
            Ok(changed) => {
                if changed > 0 {
                    proof {
                        let after = self.db.model();
                        assert forall|key: u32| #[trigger] after.orders.contains_key(key) implies (
                        after.orders[key].order_number matches Some(n) ==> n <= self.max_order) by {
                            if key != id {
                                assert(old(self).db.model().orders.contains_key(key));
                            }
                        }
                    }
                    Ok(())
                } else {
                    Err(BackendError::NotFound(id))
                }
            },
            Err(_) => Err(BackendError::StoreUnavailable),
        }
    }

    /// An order that the store does not find the rows of cannot be shown.
    /// Over a dependable store it succeeds exactly if the order can be
    /// shown.
    fn to_pending(&self, order: Order) -> (r: Result<PendingOrder, BackendError>)
        ensures
            self.state().dependable ==> (r is Ok <==> self.state().shown(order) is Some),
    {
        proof {
            lemma_numbered(self.db.model(), 0, self.max_order as int);
        }
        match self.db.to_pending(order) {
            Ok(pending) => Ok(pending),
            Err(e) => Err(view_error(e)),
        }
    }

    /// Over a dependable store it succeeds exactly if every pending order
    /// can be shown.
    fn all_pending_orders(&self) -> (r: Result<Vec<PendingOrder>, BackendError>)
        ensures
            self.state().dependable ==> (r is Ok <==> self.state().presentable()),
    {
        proof {
            lemma_numbered(self.db.model(), 0, self.max_order as int);
            lemma_numbered(self.db.model(), self.max_order as int, 0);
        }
        match self.db.all_pending_orders() {
            Ok(list) => {
                proof {
                    self.inv_gives_valid();
                    crate::board::lemma_snapshot_board(self.state(), pending_views(list@));
                }
                Ok(list)
            },
            Err(e) => Err(view_error(e)),
        }
    }

    /// Over a dependable store it succeeds.
    fn max_order_number(&self) -> (r: Result<i32, BackendError>)
        ensures
            self.state().dependable ==> r is Ok,
    {
        proof {
            lemma_numbered(self.db.model(), 0, self.max_order as int);
        }
        match self.db.max_order_number() {
            Ok(m) => Ok(m),
            Err(_) => Err(BackendError::StoreUnavailable),
        }
    }
}

} // verus!
