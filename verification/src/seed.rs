//! Filling a store by names: pie varieties, customers, and the orders of a
//! customer with their lines.

use crate::db::{NewCustomer, NewOrder, NewVlaai, NewVlaaiToOrder, Order, VlaaiToOrder};
use crate::store::{Database, DbError};
use vstd::prelude::*;

verus! {

/// Stores a pie variety called `name`. Fails, changing nothing, if the
/// store can hold no more of them.
pub fn insert_vlaai(db: &mut Database, name: &str) -> (r: Result<(), DbError>)
    requires
        old(db).wf(),
    ensures
        final(db).wf(),
        final(db).customers() == old(db).customers(),
        final(db).orders() == old(db).orders(),
        final(db).rows() == old(db).rows(),
        match r {
            Ok(_) => {
                &&& final(db).vlaaien().len() == old(db).vlaaien().len() + 1
                &&& final(db).vlaaien().drop_last() == old(db).vlaaien()
                &&& final(db).vlaaien().last().name@ == name@
            },
            Err(e) => {
                &&& e == DbError::Constraint
                &&& old(db).vlaaien().len() == i32::MAX
                &&& final(db).vlaaien() == old(db).vlaaien()
            },
        },
{
    match db.add_vlaai(NewVlaai { name }) {
        Ok(_) => Ok(()),
        Err(e) => Err(e),
    }
}

/// Stores a customer called `name` with address `email`. Fails, changing
/// nothing, if the store can hold no more of them.
pub fn insert_customer(db: &mut Database, name: &str, email: &str) -> (r: Result<(), DbError>)
    requires
        old(db).wf(),
    ensures
        final(db).wf(),
        final(db).vlaaien() == old(db).vlaaien(),
        final(db).orders() == old(db).orders(),
        final(db).rows() == old(db).rows(),
        match r {
            Ok(_) => {
                &&& final(db).customers().len() == old(db).customers().len() + 1
                &&& final(db).customers().drop_last() == old(db).customers()
                &&& final(db).customers().last().name@ == name@
                &&& final(db).customers().last().email matches Some(stored) && stored@ == email@
            },
            Err(e) => {
                &&& e == DbError::Constraint
                &&& old(db).customers().len() == i32::MAX
                &&& final(db).customers() == old(db).customers()
            },
        },
{
    match db.add_customer(NewCustomer { name, email }) {
        Ok(_) => Ok(()),
        Err(e) => Err(e),
    }
}

/// Whether the customer and every pie variety of an order to insert are
/// stored.
pub open spec fn names_known(db: Database, name: Seq<char>, vlaaien: Seq<(&str, i32)>) -> bool {
    &&& db.customer_named(name) is Some
    &&& forall|k: int| 0 <= k < vlaaien.len() ==> db.vlaai_named((#[trigger] vlaaien[k]).0@) is Some
}

/// Whether an order to insert is in one of the three states, no line of it
/// has a negative amount, and the store has room for it.
pub open spec fn order_fits(
    db: Database,
    in_transit: bool,
    order_number: Option<i32>,
    vlaaien: Seq<(&str, i32)>,
) -> bool {
    &&& order_number is Some <==> in_transit
    &&& forall|k: int| 0 <= k < vlaaien.len() ==> (#[trigger] vlaaien[k]).1 >= 0
    &&& db.orders().len() < i32::MAX
    &&& db.rows().len() + vlaaien.len() <= i32::MAX
}

/// The lines that an inserted order brings: one for each pie variety, in
/// order, with keys from `first_key` on, all of order `order_id`.
pub open spec fn new_lines(
    db: Database,
    order_id: i32,
    vlaaien: Seq<(&str, i32)>,
    first_key: int,
) -> Seq<VlaaiToOrder> {
    Seq::new(
        vlaaien.len(),
        |k: int|
            VlaaiToOrder {
                id: (first_key + k) as i32,
                order_id,
                vlaai_id: db.vlaai_named(vlaaien[k].0@)->0,
                amount: vlaaien[k].1,
            },
    )
}

/// Stores a new order, not picked up, for the first customer called
/// `name`, with one line for each pie variety and amount in `vlaaien`. The
/// lines go to the first order of that customer, which is the new one only
/// if the customer had none.
///
/// Fails, changing nothing, with `NotFound` if the customer or one of the
/// varieties is not stored, and else with `Constraint` if the order does
/// not fit.
pub fn insert_order(
    db: &mut Database,
    in_transit: bool,
    order_number: Option<i32>,
    name: &str,
    vlaaien: &[(&str, i32)],
) -> (r: Result<(), DbError>)
    requires
        old(db).wf(),
    ensures
        final(db).wf(),
        final(db).customers() == old(db).customers(),
        final(db).vlaaien() == old(db).vlaaien(),
        match r {
            Ok(_) => {
                let customer = old(db).customer_named(name@)->0;
                &&& names_known(*old(db), name@, vlaaien@)
                &&& order_fits(*old(db), in_transit, order_number, vlaaien@)
                &&& final(db).orders() == old(db).orders().push(
                    Order {
                        id: (old(db).orders().len() + 1) as i32,
                        customer_id: customer,
                        in_transit,
                        picked_up: false,
                        order_number,
                    },
                )
                &&& final(db).first_order_of(customer) is Some
                &&& final(db).rows() == old(db).rows() + new_lines(
                    *old(db),
                    final(db).first_order_of(customer)->0,
                    vlaaien@,
                    (old(db).rows().len() + 1) as int,
                )
            },
            Err(e) => {
                &&& final(db).orders() == old(db).orders()
                &&& final(db).rows() == old(db).rows()
                &&& if names_known(*old(db), name@, vlaaien@) {
                    e == DbError::Constraint && !order_fits(
                        *old(db),
                        in_transit,
                        order_number,
                        vlaaien@,
                    )
                } else {
                    e == DbError::NotFound
                }
            },
        },
{
    let customer = match db.find_customer_named(name) {
        Some(id) => id,
        None => {
            return Err(DbError::NotFound);
        },
    };
    let mut vlaai_ids: Vec<i32> = Vec::new();
    let mut all_counted = true;
    let mut k: usize = 0;
    while k < vlaaien.len()
        invariant
            db.wf(),
            *db == *old(db),
            k <= vlaaien.len(),
            vlaai_ids.len() == k,
            forall|j: int| 0 <= j < k ==> db.vlaai_named((#[trigger] vlaaien[j]).0@) == Some(vlaai_ids[j]),
            all_counted <==> forall|j: int| 0 <= j < k ==> (#[trigger] vlaaien[j]).1 >= 0,
        decreases vlaaien.len() - k,
    {
        match db.find_vlaai_named(vlaaien[k].0) {
            Some(id) => {
                vlaai_ids.push(id);
            },
            None => {
                return Err(DbError::NotFound);
            },
        }
        if vlaaien[k].1 < 0 {
            all_counted = false;
        }
        k += 1;
    }
    let rows_before = db.row_count();
    if order_number.is_some() != in_transit || !all_counted || db.order_count() >= i32::MAX as usize
        || vlaaien.len() > i32::MAX as usize || rows_before > i32::MAX as usize - vlaaien.len() {
        return Err(DbError::Constraint);
    }
    let order = NewOrder { customer_id: customer, in_transit, picked_up: false, order_number };
    match db.add_order(order) {
        Ok(_) => {},
        Err(e) => {
            return Err(e);
        },
    }
    let order_id = match db.find_first_order_of(customer) {
        Some(id) => id,
        None => {
            proof {
                lemma_stands_first(db.order_customers(), customer, db.orders().len() - 1);
            }
            return Err(DbError::Constraint);
        },
    };
    let ghost lines = new_lines(*old(db), order_id, vlaaien@, (rows_before + 1) as int);
    let ghost orders_now = db.orders();
    let mut k: usize = 0;
    while k < vlaaien.len()
        invariant
            db.wf(),
            k <= vlaaien.len(),
            vlaai_ids.len() == vlaaien.len(),
            rows_before == old(db).rows().len(),
            rows_before + vlaaien.len() <= i32::MAX,
            db.customers() == old(db).customers(),
            db.vlaaien() == old(db).vlaaien(),
            db.orders() == orders_now,
            lines == new_lines(*old(db), order_id, vlaaien@, (rows_before + 1) as int),
            forall|j: int|
                0 <= j < vlaaien.len() ==> old(db).vlaai_named((#[trigger] vlaaien[j]).0@) == Some(
                    vlaai_ids[j],
                ) && vlaaien[j].1 >= 0,
            db.rows() == old(db).rows() + lines.take(k as int),
        decreases vlaaien.len() - k,
    {
        let row = NewVlaaiToOrder { order_id, vlaai_id: vlaai_ids[k], amount: vlaaien[k].1 };
        let ghost before = db.rows();
        match db.add_row(row) {
            Ok(_) => {},
            Err(e) => {
                return Err(e);
            },
        }
        proof {
            assert(lines.take(k + 1) =~= lines.take(k as int).push(lines[k as int]));
            assert(db.rows() =~= old(db).rows() + lines.take(k + 1));
        }
        k += 1;
    }
    proof {
        assert(lines.take(k as int) =~= lines);
    }
    Ok(())
}

/// What stands in a sequence has a first position in it.
proof fn lemma_stands_first<A>(items: Seq<A>, wanted: A, at: int)
    requires
        0 <= at < items.len(),
        items[at] == wanted,
    ensures
        crate::store::first_at(items, wanted) is Some,
    decreases at,
{
    if forall|j: int| 0 <= j < at ==> items[j] != wanted {
        assert(crate::store::is_first_at(items, wanted, at));
    } else {
        let j = choose|j: int| 0 <= j < at && items[j] == wanted;
        lemma_stands_first(items, wanted, j);
    }
}

} // verus!
