//! Reading orders from the records of an order sheet: one record is one
//! customer with the amount ordered of each pie variety.

use crate::db::Order;
use crate::seed::{insert_customer, insert_order, names_known, new_lines, order_fits};
use crate::store::{Database, DbError};
use vstd::prelude::*;
use vstd::string::StrSliceExecFns;

verus! {

/// One line of the order sheet.
#[derive(Debug)]
pub struct CSVRecord {
    pub name: String,
    pub abrikoos: Option<i32>,
    pub kers: Option<i32>,
    pub halfhalf: Option<i32>,
    pub rijst: Option<i32>,
    pub kruimelpudding: Option<i32>,
    pub appel: Option<i32>,
    pub email: Option<String>,
    pub speltak: Option<String>,
}

/// The order line for pie variety `name`, if an amount of it was ordered.
pub open spec fn line_for(name: &'static str, amount: Option<i32>) -> Seq<(&'static str, i32)> {
    match amount {
        Some(amount) => seq![(name, amount)],
        None => Seq::empty(),
    }
}

/// The order lines of a record: one for each pie variety of which an amount
/// was ordered, in the order in which the varieties were stored.
pub open spec fn lines_of(record: CSVRecord) -> Seq<(&'static str, i32)> {
    line_for("Abrikoos", record.abrikoos) + line_for("HalfHalf", record.halfhalf) + line_for(
        "Kers",
        record.kers,
    ) + line_for("Appel", record.appel) + line_for("Kruimelpudding", record.kruimelpudding)
        + line_for("Rijst", record.rijst)
}

/// The order lines of a record.
pub fn record_to_vlaai(record: &CSVRecord) -> (lines: Vec<(&'static str, i32)>)
    ensures
        lines@ == lines_of(*record),
{
    let mut slice: Vec<(&'static str, i32)> = Vec::new();
    if let Some(amount) = record.abrikoos {
        slice.push(("Abrikoos", amount));
    }
    assert(slice@ =~= line_for("Abrikoos", record.abrikoos));
    let ghost one = slice@;
    if let Some(amount) = record.halfhalf {
        slice.push(("HalfHalf", amount));
    }
    assert(slice@ =~= one + line_for("HalfHalf", record.halfhalf));
    let ghost two = slice@;
    if let Some(amount) = record.kers {
        slice.push(("Kers", amount));
    }
    assert(slice@ =~= two + line_for("Kers", record.kers));
    let ghost three = slice@;
    if let Some(amount) = record.appel {
        slice.push(("Appel", amount));
    }
    assert(slice@ =~= three + line_for("Appel", record.appel));
    let ghost four = slice@;
    if let Some(amount) = record.kruimelpudding {
        slice.push(("Kruimelpudding", amount));
    }
    assert(slice@ =~= four + line_for("Kruimelpudding", record.kruimelpudding));
    let ghost five = slice@;
    if let Some(amount) = record.rijst {
        slice.push(("Rijst", amount));
    }
    assert(slice@ =~= five + line_for("Rijst", record.rijst));
    slice
}

/// Whether `text` begins with `prefix`.
pub open spec fn begins_with(text: Seq<char>, prefix: Seq<char>) -> bool {
    prefix.len() <= text.len() && text.take(prefix.len() as int) == prefix
}

/// Whether a name stands for no customer: the sheet has empty lines, and
/// lines that hold totals.
pub open spec fn no_customer(name: Seq<char>) -> bool {
    name.len() == 0 || begins_with(name, "Totaal"@)
}

/// Whether the record is an order: its name stands for a customer.
pub fn is_order(record: &CSVRecord) -> (order: bool)
    ensures
        order == !no_customer(record.name@),
{
    let name = record.name.as_str();
    let marker = "Totaal";
    proof {
        reveal_strlit("Totaal");
    }
    let n = name.unicode_len();
    if n == 0 {
        return false;
    }
    if n < 6 {
        return true;
    }
    let mut i: usize = 0;
    while i < 6
        invariant
            i <= 6,
            n == name@.len(),
            n >= 6,
            name@ == record.name@,
            marker@ == "Totaal"@,
            marker@.len() == 6,
            forall|j: int| 0 <= j < i ==> name@[j] == marker@[j],
        decreases 6 - i,
    {
        if name.get_char(i) != marker.get_char(i) {
            proof {
                assert(name@.take(6)[i as int] == name@[i as int]);
                assert(name@.take(6)[i as int] != "Totaal"@[i as int]);
            }
            return true;
        }
        i += 1;
    }
    proof {
        assert(name@.take(6) =~= marker@);
    }
    false
}

/// The address of a record: the one it gives, or none.
pub open spec fn address_of(record: CSVRecord) -> Seq<char> {
    match record.email {
        Some(email) => email@,
        None => Seq::empty(),
    }
}

/// Whether `after` is `before` with one more customer, called `name` and
/// reached at `email`.
pub open spec fn customer_added(
    before: Database,
    after: Database,
    name: Seq<char>,
    email: Seq<char>,
) -> bool {
    &&& after.customers().len() == before.customers().len() + 1
    &&& after.customers().drop_last() == before.customers()
    &&& after.customers().last().name@ == name
    &&& after.customers().last().email matches Some(stored) && stored@ == email
}

/// Loads one record of the order sheet: a record that is an order becomes
/// a customer with one new order, which is not in transit, and the lines of
/// the record. Returns whether the record was an order.
///
/// Fails, with no order and no line stored, if the store can hold no more
/// customers; and, with the customer stored, if a pie variety of the
/// record is not stored or the order does not fit.
pub fn load_record(db: &mut Database, record: &CSVRecord) -> (r: Result<bool, DbError>)
    requires
        old(db).wf(),
    ensures
        final(db).wf(),
        final(db).vlaaien() == old(db).vlaaien(),
        match r {
            Ok(loaded) => {
                &&& loaded == !no_customer(record.name@)
                &&& !loaded ==> final(db).customers() == old(db).customers() && final(db).orders()
                    == old(db).orders() && final(db).rows() == old(db).rows()
                &&& loaded ==> {
                    let customer = final(db).customer_named(record.name@)->0;
                    &&& customer_added(*old(db), *final(db), record.name@, address_of(*record))
                    &&& final(db).customer_named(record.name@) is Some
                    &&& final(db).orders() == old(db).orders().push(
                        Order {
                            id: (old(db).orders().len() + 1) as i32,
                            customer_id: customer,
                            in_transit: false,
                            picked_up: false,
                            order_number: None,
                        },
                    )
                    &&& final(db).first_order_of(customer) is Some
                    &&& final(db).rows() == old(db).rows() + new_lines(
                        *old(db),
                        final(db).first_order_of(customer)->0,
                        lines_of(*record),
                        (old(db).rows().len() + 1) as int,
                    )
                }
            },
            Err(e) => {
                &&& !no_customer(record.name@)
                &&& final(db).orders() == old(db).orders()
                &&& final(db).rows() == old(db).rows()
                &&& {
                    ||| {
                        &&& final(db).customers() == old(db).customers()
                        &&& old(db).customers().len() == i32::MAX
                        &&& e == DbError::Constraint
                    }
                    ||| {
                        &&& customer_added(*old(db), *final(db), record.name@, address_of(*record))
                        &&& if names_known(*final(db), record.name@, lines_of(*record)) {
                            e == DbError::Constraint && !order_fits(
                                *old(db),
                                false,
                                None,
                                lines_of(*record),
                            )
                        } else {
                            e == DbError::NotFound
                        }
                    }
                }
            },
        },
{
    if !is_order(record) {
        return Ok(false);
    }
    let email = match &record.email {
        Some(email) => email.as_str(),
        None => "",
    };
    proof {
        reveal_strlit("");
        assert(email@ =~= address_of(*record));
    }
    match insert_customer(db, record.name.as_str(), email) {
        Ok(_) => {},
        Err(e) => {
            return Err(e);
        },
    }
    let ghost middle = *db;
    let lines = record_to_vlaai(record);
    proof {
        assert(middle.vlaai_names() == old(db).vlaai_names());
        assert(new_lines(middle, 0, lines@, 1) =~= new_lines(*old(db), 0, lines@, 1));
    }
    match insert_order(db, false, None, record.name.as_str(), lines.as_slice()) {
        Ok(_) => {
            proof {
                let customer = middle.customer_named(record.name@)->0;
                let to = db.first_order_of(customer)->0;
                let first = (middle.rows().len() + 1) as int;
                assert(db.customer_names() == middle.customer_names());
                assert(new_lines(middle, to, lines@, first) =~= new_lines(
                    *old(db),
                    to,
                    lines@,
                    first,
                ));
            }
            Ok(true)
        },
        Err(e) => {
            proof {
                assert(db.customer_names() == middle.customer_names());
                assert(db.vlaai_names() == middle.vlaai_names());
            }
            Err(e)
        },
    }
}

} // verus!
