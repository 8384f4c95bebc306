//! The order-change rule of the adaptive-order controller.
//!
//! The controller smooths the Newton iteration counts into a history value;
//! whether that value calls for a raise or a lowering is decided by the
//! caller, who holds it. What is decided here is how the order moves: up or
//! down by one step of 4 (one more or one fewer pair of stages), never past
//! the configured bounds.

use vstd::prelude::*;

verus! {

/// What an update did to the method order.
#[derive(Debug, Clone, Copy, PartialEq, Eq, Structural)]
pub enum OrderChange {
    Raised,
    Lowered,
    Unchanged,
}

/// The order after one update, with the change made.
#[derive(Debug, Clone, Copy, PartialEq, Eq, Structural)]
pub struct OrderStep {
    pub order: usize,
    pub change: OrderChange,
}

/// The update rule: raise by 4 when asked to and below `max_order`;
/// otherwise lower by 4 when asked to and above `min_order`; otherwise keep.
pub open spec fn order_step(
    current_order: nat,
    min_order: nat,
    max_order: nat,
    raise_signal: bool,
    lower_signal: bool,
) -> (nat, OrderChange) {
    if raise_signal && current_order < max_order {
        (current_order + 4, OrderChange::Raised)
    } else if lower_signal && current_order > min_order {
        ((current_order - 4) as nat, OrderChange::Lowered)
    } else {
        (current_order, OrderChange::Unchanged)
    }
}

/// The orders the controller can visit: between the bounds, on the ladder of
/// steps of 4 that starts at `min_order` and ends at `max_order`.
pub open spec fn on_order_ladder(order: nat, min_order: nat, max_order: nat) -> bool {
    &&& min_order <= order <= max_order
    &&& (order - min_order) % 4 == 0
    &&& (max_order - min_order) % 4 == 0
}

/// One update of the method order. `raise_signal` says that the smoothed
/// Newton iteration count is low enough to afford a higher order,
/// `lower_signal` that it is high enough to need a lower one.
///
/// The arithmetic must not leave `usize`: a raise needs `current_order + 4`
/// to fit, a lowering needs `current_order >= 4`.
pub fn next_order(
    current_order: usize,
    min_order: usize,
    max_order: usize,
    raise_signal: bool,
    lower_signal: bool,
) -> (r: OrderStep)
    requires
        raise_signal && current_order < max_order ==> current_order + 4 <= usize::MAX,
        !(raise_signal && current_order < max_order) && lower_signal && current_order
            > min_order ==> current_order >= 4,
    ensures
        (r.order as nat, r.change) == order_step(
            current_order as nat,
            min_order as nat,
            max_order as nat,
            raise_signal,
            lower_signal,
        ),
        r.change == OrderChange::Raised <==> raise_signal && current_order < max_order,
        r.change == OrderChange::Lowered <==> !(raise_signal && current_order < max_order)
            && lower_signal && current_order > min_order,
        r.change == OrderChange::Raised ==> r.order == current_order + 4,
        r.change == OrderChange::Lowered ==> r.order + 4 == current_order,
        r.change == OrderChange::Unchanged ==> r.order == current_order,
{
    if raise_signal && current_order < max_order {
        OrderStep { order: current_order + 4, change: OrderChange::Raised }
    } else if lower_signal && current_order > min_order {
        OrderStep { order: current_order - 4, change: OrderChange::Lowered }
    } else {
        OrderStep { order: current_order, change: OrderChange::Unchanged }
    }
}

/// An order on the ladder between `min_order` and `max_order` stays on it
/// through any update: it never rises past `max_order` nor falls below
/// `min_order`, and the arithmetic of the update cannot overflow.
pub proof fn lemma_order_stays_on_ladder(
    current_order: nat,
    min_order: nat,
    max_order: nat,
    raise_signal: bool,
    lower_signal: bool,
)
    requires
        on_order_ladder(current_order, min_order, max_order),
    ensures
        on_order_ladder(
            order_step(current_order, min_order, max_order, raise_signal, lower_signal).0,
            min_order,
            max_order,
        ),
        raise_signal && current_order < max_order ==> current_order + 4 <= max_order,
        lower_signal && current_order > min_order ==> current_order >= min_order + 4,
{
}

/// An update changes the order by exactly one step of 4 in the direction it
/// reports: a raise (taken exactly when it is asked for and the order is
/// below `max_order`) adds 4, a lowering (taken exactly when it is asked for,
/// no raise applies, and the order is above `min_order`) subtracts 4, and
/// otherwise the order is kept.
pub proof fn lemma_order_moves_one_step(
    current_order: nat,
    min_order: nat,
    max_order: nat,
    raise_signal: bool,
    lower_signal: bool,
)
    ensures
        ({
            let (o, c) = order_step(current_order, min_order, max_order, raise_signal, lower_signal);
            &&& c == OrderChange::Raised <==> raise_signal && current_order < max_order
            &&& c == OrderChange::Lowered <==> !(raise_signal && current_order < max_order)
                && lower_signal && current_order > min_order
            &&& c == OrderChange::Raised ==> o == current_order + 4
            &&& c == OrderChange::Lowered && current_order >= 4 ==> o + 4 == current_order
            &&& c == OrderChange::Unchanged ==> o == current_order
        }),
{
}

} // verus!
