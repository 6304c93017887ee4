//! The data model: orders, their line items, and the view shown on the board.

use vstd::prelude::*;

verus! {

/// A customer who placed orders.
#[derive(Debug)]
pub struct Customer {
    pub id: i32,
    pub name: String,
    pub email: Option<String>,
}

/// A pie variety.
#[derive(Debug)]
pub struct Vlaai {
    pub id: i32,
    pub name: String,
}

/// An order and where it is in its life: new, in transit, or picked up.
#[derive(Clone, Copy, Debug, PartialEq, Eq)]
pub struct Order {
    pub id: i32,
    pub customer_id: i32,
    pub in_transit: bool,
    pub picked_up: bool,
    pub order_number: Option<i32>,
}

/// One line of an order: a pie variety and how many of it.
#[derive(Clone, Copy, Debug, PartialEq, Eq)]
pub struct VlaaiToOrder {
    pub id: i32,
    pub order_id: i32,
    pub vlaai_id: i32,
    pub amount: i32,
}

/// A customer that is not stored yet.
#[derive(Clone, Copy, Debug)]
pub struct NewCustomer<'a> {
    pub name: &'a str,
    pub email: &'a str,
}

/// A pie variety that is not stored yet.
#[derive(Clone, Copy, Debug)]
pub struct NewVlaai<'a> {
    pub name: &'a str,
}

/// An order that is not stored yet.
#[derive(Clone, Copy, Debug)]
pub struct NewOrder {
    pub customer_id: i32,
    pub in_transit: bool,
    pub picked_up: bool,
    pub order_number: Option<i32>,
}

/// An order line that is not stored yet.
#[derive(Clone, Copy, Debug)]
pub struct NewVlaaiToOrder {
    pub order_id: i32,
    pub vlaai_id: i32,
    pub amount: i32,
}

/// The three states an order can be in.
#[derive(Clone, Copy, Debug, PartialEq, Eq)]
pub enum OrderState {
    New,
    InTransit,
    PickedUp,
}

impl Order {
    /// The order is in exactly one of its three states: it is never both in
    /// transit and picked up, and it has a number exactly while in transit.
    pub open spec fn valid(self) -> bool {
        &&& !(self.in_transit && self.picked_up)
        &&& (self.order_number is Some <==> self.in_transit)
    }

    /// Shown on the board: in transit and not picked up.
    pub open spec fn pending(self) -> bool {
        self.in_transit && !self.picked_up
    }

    /// This order after it entered transit under `number`.
    pub open spec fn marked_in_transit(self, number: i32) -> Order {
        Order { in_transit: true, picked_up: false, order_number: Some(number), ..self }
    }

    /// This order after it was picked up.
    pub open spec fn marked_retrieved(self) -> Order {
        Order { in_transit: false, picked_up: true, order_number: None, ..self }
    }

    /// This order after it was reset to new.
    pub open spec fn marked_new(self) -> Order {
        Order { in_transit: false, picked_up: false, order_number: None, ..self }
    }

    /// The state of a valid order.
    pub open spec fn spec_state(self) -> OrderState {
        if self.in_transit {
            OrderState::InTransit
        } else if self.picked_up {
            OrderState::PickedUp
        } else {
            OrderState::New
        }
    }

    /// Puts the order in transit under `number`.
    pub fn mark_in_transit(self, number: i32) -> (next: Order)
        ensures
            next == self.marked_in_transit(number),
            next.valid(),
            next.pending(),
            next.spec_state() == OrderState::InTransit,
    {
        Order {
            id: self.id,
            customer_id: self.customer_id,
            in_transit: true,
            picked_up: false,
            order_number: Some(number),
        }
    }

    /// Marks the order as picked up; it loses its number.
    pub fn mark_retrieved(self) -> (next: Order)
        ensures
            next == self.marked_retrieved(),
            next.valid(),
            !next.pending(),
            next.spec_state() == OrderState::PickedUp,
    {
        Order {
            id: self.id,
            customer_id: self.customer_id,
            in_transit: false,
            picked_up: true,
            order_number: None,
        }
    }

    /// Resets the order to new; it loses its number.
    pub fn mark_new(self) -> (next: Order)
        ensures
            next == self.marked_new(),
            next.valid(),
            !next.pending(),
            next.spec_state() == OrderState::New,
    {
        Order {
            id: self.id,
            customer_id: self.customer_id,
            in_transit: false,
            picked_up: false,
            order_number: None,
        }
    }

    /// Whether the order is shown on the board.
    pub fn is_pending(&self) -> (shown: bool)
        ensures
            shown == self.pending(),
    {
        self.in_transit && !self.picked_up
    }

    /// The state of the order, if it is in one of the three.
    pub fn state(&self) -> (state: Option<OrderState>)
        ensures
            self.valid() <==> state is Some,
            state matches Some(s) ==> s == self.spec_state(),
    {
        if self.in_transit && self.picked_up {
            None
        } else if self.in_transit {
            if self.order_number.is_some() {
                Some(OrderState::InTransit)
            } else {
                None
            }
        } else if self.order_number.is_some() {
            None
        } else if self.picked_up {
            Some(OrderState::PickedUp)
        } else {
            Some(OrderState::New)
        }
    }
}

impl NewOrder {
    /// What the order will be once stored under `id`.
    pub open spec fn stored(self, id: i32) -> Order {
        Order {
            id,
            customer_id: self.customer_id,
            in_transit: self.in_transit,
            picked_up: self.picked_up,
            order_number: self.order_number,
        }
    }
}

/// One line of a pending order as the board shows it.
#[derive(Debug, PartialEq)]
pub struct OrderRow {
    pub vlaai: String,
    pub amount: u32,
}

/// What an [`OrderRow`] holds.
pub struct OrderRowView {
    pub vlaai: Seq<char>,
    pub amount: u32,
}

impl View for OrderRow {
    type V = OrderRowView;

    open spec fn view(&self) -> OrderRowView {
        OrderRowView { vlaai: self.vlaai@, amount: self.amount }
    }
}

impl Clone for OrderRow {
    fn clone(&self) -> (copy: Self)
        ensures
            copy@ == self@,
    {
        OrderRow { vlaai: self.vlaai.clone(), amount: self.amount }
    }
}

/// An order as the board shows it: who it is for and what is in it.
#[derive(Debug, PartialEq)]
pub struct PendingOrder {
    pub id: u32,
    pub in_transit: bool,
    pub picked_up: bool,
    pub customer_name: String,
    pub rows: Vec<OrderRow>,
}

/// What a [`PendingOrder`] holds.
pub struct PendingOrderView {
    pub id: u32,
    pub in_transit: bool,
    pub picked_up: bool,
    pub customer_name: Seq<char>,
    pub rows: Seq<OrderRowView>,
}

/// The views of a list of rows, in order.
pub open spec fn rows_view(rows: Seq<OrderRow>) -> Seq<OrderRowView> {
    Seq::new(rows.len(), |i: int| rows[i]@)
}

/// The views of a list of pending orders, in order.
pub open spec fn pending_views(list: Seq<PendingOrder>) -> Seq<PendingOrderView> {
    Seq::new(list.len(), |i: int| list[i]@)
}

impl View for PendingOrder {
    type V = PendingOrderView;

    open spec fn view(&self) -> PendingOrderView {
        PendingOrderView {
            id: self.id,
            in_transit: self.in_transit,
            picked_up: self.picked_up,
            customer_name: self.customer_name@,
            rows: rows_view(self.rows@),
        }
    }
}

/// Copies a list of rows.
pub fn clone_rows(rows: &Vec<OrderRow>) -> (copy: Vec<OrderRow>)
    ensures
        rows_view(copy@) == rows_view(rows@),
{
    let mut copy: Vec<OrderRow> = Vec::new();
    let mut i: usize = 0;
    while i < rows.len()
        invariant
            i <= rows.len(),
            copy.len() == i,
            forall|k: int| 0 <= k < i ==> copy[k]@ == rows[k]@,
        decreases rows.len() - i,
    {
        copy.push(rows[i].clone());
        i += 1;
    }
    assert(rows_view(copy@) =~= rows_view(rows@));
    copy
}

impl Clone for PendingOrder {
    fn clone(&self) -> (copy: Self)
        ensures
            copy@ == self@,
    {
        PendingOrder {
            id: self.id,
            in_transit: self.in_transit,
            picked_up: self.picked_up,
            customer_name: self.customer_name.clone(),
            rows: clone_rows(&self.rows),
        }
    }
}

/// Copies a list of pending orders.
pub fn clone_pending(list: &Vec<PendingOrder>) -> (copy: Vec<PendingOrder>)
    ensures
        pending_views(copy@) == pending_views(list@),
{
    let mut copy: Vec<PendingOrder> = Vec::new();
    let mut i: usize = 0;
    while i < list.len()
        invariant
            i <= list.len(),
            copy.len() == i,
            forall|k: int| 0 <= k < i ==> copy[k]@ == list[k]@,
        decreases list.len() - i,
    {
        copy.push(list[i].clone());
        i += 1;
    }
    assert(pending_views(copy@) =~= pending_views(list@));
    copy
}

} // verus!
