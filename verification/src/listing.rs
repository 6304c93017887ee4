//! Lists of orders: the pending ones sorted by order number, and the
//! highest order number.

use crate::db::Order;
use vstd::prelude::*;

verus! {

/// The key by which pending orders are sorted: the order number, with an
/// order that has none before all others.
pub open spec fn number_key(order: Order) -> int {
    match order.order_number {
        Some(n) => n as int,
        None => i32::MIN - 1,
    }
}

/// Whether `list` holds an order with key `id`.
pub open spec fn lists(list: Seq<Order>, id: i32) -> bool {
    exists|k: int| 0 <= k < list.len() && (#[trigger] list[k]).id == id
}

/// No two orders of the list have the same key.
pub open spec fn distinct_ids(orders: Seq<Order>) -> bool {
    forall|a: int, b: int|
        0 <= a < b < orders.len() ==> (#[trigger] orders[a]).id != (#[trigger] orders[b]).id
}

/// Whether `a` may stand before `b` on the board.
fn may_precede(a: &Order, b: &Order) -> (r: bool)
    ensures
        r == (number_key(*a) <= number_key(*b)),
{
    match a.order_number {
        None => true,
        Some(x) => match b.order_number {
            None => false,
            Some(y) => x <= y,
        },
    }
}

/// Whether `list` is sorted by order number.
pub open spec fn sorted_by_number(list: Seq<Order>) -> bool {
    forall|a: int, b: int|
        0 <= a < b < list.len() ==> number_key(#[trigger] list[a]) <= number_key(#[trigger] list[b])
}

/// Inserting keeps what was listed and lists the new order.
pub proof fn lemma_insert_lists(list: Seq<Order>, p: int, order: Order)
    requires
        0 <= p <= list.len(),
    ensures
        lists(list.insert(p, order), order.id),
        forall|id: i32| lists(list, id) ==> lists(list.insert(p, order), id),
{
    let next = list.insert(p, order);
    assert(next[p] == order);
    assert forall|id: i32| lists(list, id) implies lists(next, id) by {
        let k = choose|k: int| 0 <= k < list.len() && (#[trigger] list[k]).id == id;
        if k < p {
            assert(next[k] == list[k]);
        } else {
            assert(next[k + 1] == list[k]);
        }
    }
}

/// Puts `order` into a list that is sorted by order number, behind the
/// orders that may stand before it, and returns where it went.
pub fn insert_by_number(list: &mut Vec<Order>, order: Order) -> (at: usize)
    requires
        sorted_by_number(old(list)@),
    ensures
        at <= old(list).len(),
        final(list)@ == old(list)@.insert(at as int, order),
        sorted_by_number(final(list)@),
        forall|k: int| 0 <= k < at ==> number_key(#[trigger] old(list)[k]) <= number_key(order),
        forall|k: int|
            at <= k < old(list).len() ==> number_key(order) < number_key(#[trigger] old(list)[k]),
{
    let mut p: usize = 0;
    while p < list.len() && may_precede(&list[p], &order)
        invariant
            p <= list.len(),
            list@ == old(list)@,
            forall|k: int| 0 <= k < p ==> number_key(#[trigger] list[k]) <= number_key(order),
        decreases list.len() - p,
    {
        p += 1;
    }
    let ghost before = list@;
    list.insert(p, order);
    proof {
        let after = list@;
        assert forall|k: int| p <= k < before.len() implies number_key(order) < number_key(
            #[trigger] before[k],
        ) by {
            assert(number_key(before[p as int]) <= number_key(before[k]));
        }
        assert forall|a: int, b: int| 0 <= a < b < after.len() implies number_key(
            #[trigger] after[a],
        ) <= number_key(#[trigger] after[b]) by {
            if a < p {
                assert(after[a] == before[a]);
            } else if a > p {
                assert(after[a] == before[a - 1]);
            }
            if b < p {
                assert(after[b] == before[b]);
            } else if b > p {
                assert(after[b] == before[b - 1]);
            }
        }
    }
    p
}

/// `list` holds the pending orders of `orders`, each as it stands there,
/// and nothing else, sorted by order number. If no two of `orders` have the
/// same key, `list` holds each pending order once.
pub open spec fn is_pending_listing(orders: Seq<Order>, list: Seq<Order>) -> bool {
    &&& sorted_by_number(list)
    &&& forall|k: int|
        0 <= k < list.len() ==> (#[trigger] list[k]).pending() && orders.contains(list[k])
    &&& forall|j: int|
        0 <= j < orders.len() && (#[trigger] orders[j]).pending() ==> lists(list, orders[j].id)
    &&& distinct_ids(orders) ==> distinct_ids(list)
}

/// The pending orders among `orders`, sorted by order number. Orders with
/// the same number keep the order in which they stand in `orders`.
pub fn pending_sorted(orders: &Vec<Order>) -> (list: Vec<Order>)
    ensures
        is_pending_listing(orders@, list@),
{
    let mut list: Vec<Order> = Vec::new();
    let mut i: usize = 0;
    while i < orders.len()
        invariant
            i <= orders.len(),
            sorted_by_number(list@),
            forall|k: int|
                0 <= k < list.len() ==> (#[trigger] list[k]).pending() && exists|j: int|
                    0 <= j < i && (#[trigger] orders[j]) == list[k],
            forall|j: int| 0 <= j < i && (#[trigger] orders[j]).pending() ==> lists(list@, orders[j].id),
            distinct_ids(orders@) ==> distinct_ids(list@),
        decreases orders.len() - i,
    {
        let order = orders[i];
        if order.is_pending() {
            let ghost before = list@;
            let p = insert_by_number(&mut list, order);
            proof {
                let after = list@;
                assert forall|k: int| 0 <= k < after.len() implies (k < p ==> after[k] == before[k])
                    && (k == p ==> after[k] == order) && (k > p ==> after[k] == before[k - 1]) by {}
                lemma_insert_lists(before, p as int, order);
                assert forall|k: int| 0 <= k < after.len() implies (#[trigger] after[k]).pending()
                    && exists|j: int| 0 <= j < i + 1 && (#[trigger] orders[j]) == after[k] by {
                    if k < p {
                        let j = choose|j: int| 0 <= j < i && (#[trigger] orders[j]) == before[k];
                        assert(orders[j] == after[k]);
                    } else if k == p {
                        assert(orders[i as int] == after[k]);
                    } else {
                        let j = choose|j: int| 0 <= j < i && (#[trigger] orders[j]) == before[k - 1];
                        assert(orders[j] == after[k]);
                    }
                }
                if distinct_ids(orders@) {
                    assert forall|k: int| 0 <= k < before.len() implies (#[trigger] before[k]).id
                        != order.id by {
                        let j = choose|j: int| 0 <= j < i && (#[trigger] orders[j]) == before[k];
                        assert(orders[j].id != orders[i as int].id);
                    }
                    assert forall|a: int, b: int| 0 <= a < b < after.len() implies (
                    #[trigger] after[a]).id != (#[trigger] after[b]).id by {
                        if a != p && b != p {
                            let x = if a < p { a } else { a - 1 };
                            let y = if b < p { b } else { b - 1 };
                            assert(before[x].id != before[y].id);
                        }
                    }
                }
            }
        }
        i += 1;
    }
    proof {
        assert forall|k: int| 0 <= k < list.len() implies orders@.contains(#[trigger] list[k]) by {
            let j = choose|j: int| 0 <= j < i && (#[trigger] orders[j]) == list[k];
            assert(orders@[j] == list[k]);
        }
    }
    list
}

/// `m` is the highest order number among `orders`, or 0 if none of them has
/// a number.
pub open spec fn is_highest_number(orders: Seq<Order>, m: i32) -> bool {
    &&& forall|i: int|
        0 <= i < orders.len() ==> ((#[trigger] orders[i]).order_number matches Some(n) ==> n <= m)
    &&& {
        ||| exists|i: int| 0 <= i < orders.len() && (#[trigger] orders[i]).order_number == Some(m)
        ||| m == 0 && forall|i: int|
            0 <= i < orders.len() ==> (#[trigger] orders[i]).order_number is None
    }
}

/// The highest order number among `orders`, or 0 if none of them has a
/// number.
pub fn highest_number(orders: &Vec<Order>) -> (m: i32)
    ensures
        is_highest_number(orders@, m),
{
    let mut best: Option<i32> = None;
    let mut i: usize = 0;
    while i < orders.len()
        invariant
            i <= orders.len(),
            forall|k: int|
                0 <= k < i ==> ((#[trigger] orders[k]).order_number matches Some(n) ==> best
                    matches Some(b) && n <= b),
            match best {
                Some(b) => exists|k: int| 0 <= k < i && (#[trigger] orders[k]).order_number == Some(b),
                None => forall|k: int| 0 <= k < i ==> (#[trigger] orders[k]).order_number is None,
            },
        decreases orders.len() - i,
    {
        match orders[i].order_number {
            Some(n) => {
                match best {
                    Some(b) => {
                        if n > b {
                            best = Some(n);
                        }
                    },
                    None => {
                        best = Some(n);
                    },
                }
            },
            None => {},
        }
        i += 1;
    }
    match best {
        Some(b) => b,
        None => 0,
    }
}

} // verus!
