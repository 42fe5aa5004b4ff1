//! The book as a mathematical value, and price-time matching over it.
//!
//! A side of the book is a sequence of orders, best first. Everything the
//! executable book does is stated against the functions of this module.

use crate::order::{FillEvent, Order, OrderKey, OrderSide};
use vstd::prelude::*;

verus! {

/// The book as contracts see it: both sides, best order first, and the
/// logical clock that stamps arrivals and reveals.
pub struct BookView {
    pub buys: Seq<Order>,
    pub sells: Seq<Order>,
    pub clock: nat,
}

/// What crossing an incoming order against one side leaves: that side, the
/// rest of the incoming order, the clock, and the trades in the order they
/// happened.
pub struct Crossing {
    pub resting: Seq<Order>,
    pub taker: Order,
    pub clock: nat,
    pub fills: Seq<FillEvent>,
}

/// What a submission leaves: the book, the incoming order as it ended, and
/// the trades in the order they happened.
pub struct Outcome {
    pub book: BookView,
    pub taker: Order,
    pub fills: Seq<FillEvent>,
}

/// A well-formed side at time `clock`: every order is on `side`, shows a
/// quantity within its peak and was stamped no later than `clock`; each order
/// is matched strictly before all that follow it; no id occurs twice.
pub open spec fn queue_wf(queue: Seq<Order>, side: OrderSide, clock: nat) -> bool {
    &&& forall|i: int|
        0 <= i < queue.len() ==> {
            &&& (#[trigger] queue[i]).order_key.order_side == side
            &&& queue[i].can_rest()
            &&& queue[i].order_key.timestamp <= clock
        }
    &&& forall|i: int, j: int|
        0 <= i < j < queue.len() ==> {
            &&& (#[trigger] queue[i]).order_key.outranks(&(#[trigger] queue[j]).order_key)
            &&& queue[i].order_key.id != queue[j].order_key.id
        }
}

/// No id occurs on both sides.
pub open spec fn disjoint_ids(left: Seq<Order>, right: Seq<Order>) -> bool {
    forall|i: int, j: int|
        0 <= i < left.len() && 0 <= j < right.len() ==> (#[trigger] left[i]).order_key.id != (
        #[trigger] right[j]).order_key.id
}

/// Some order of `queue` has this id.
pub open spec fn queue_holds(queue: Seq<Order>, id: u64) -> bool {
    exists|i: int| 0 <= i < queue.len() && (#[trigger] queue[i]).order_key.id == id
}

/// Where an order with this key enters a side: in front of the first order
/// that it outranks, behind all others.
pub open spec fn entry_index(queue: Seq<Order>, key: OrderKey) -> int
    decreases queue.len(),
{
    if queue.len() == 0 || key.outranks(&queue[0].order_key) {
        0
    } else {
        1 + entry_index(queue.drop_first(), key)
    }
}

/// The side with `order` added at its place.
pub open spec fn enqueue(queue: Seq<Order>, order: Order) -> Seq<Order> {
    queue.insert(entry_index(queue, order.order_key), order)
}

/// The side and the clock after its best order traded `quantity`.
///
/// A maker with nothing left leaves the side. One whose visible quantity is
/// used up while some reserve remains reveals its next slice, takes the next
/// clock value as its timestamp and enters the side again. Any other maker
/// keeps its place.
pub open spec fn after_fill(resting: Seq<Order>, quantity: u64, clock: nat) -> (Seq<Order>, nat)
    recommends
        resting.len() > 0,
        quantity <= resting[0].quantity,
{
    let maker = resting[0].reduced(quantity);
    if maker.empty() {
        (resting.drop_first(), clock)
    } else if maker.quantity == 0 {
        (enqueue(resting.drop_first(), maker.revealed().stamped((clock + 1) as u64)), clock + 1)
    } else {
        (resting.update(0, maker), clock)
    }
}

/// The incoming order after it traded `quantity`: an iceberg order whose
/// visible quantity is used up reveals its next slice at once.
pub open spec fn taker_after_fill(taker: Order, quantity: u64) -> Order {
    taker.reduced(quantity).revealed()
}

/// Whether `taker` trades with the best order of `resting`: both show
/// something, and the resting price is within the taker's limit.
pub open spec fn can_fill(resting: Seq<Order>, taker: Order) -> bool {
    &&& taker.quantity > 0
    &&& resting.len() > 0
    &&& resting[0].quantity > 0
    &&& taker.order_key.crosses(&resting[0].order_key)
}

/// Crosses `taker` against `resting`: as long as something of the taker is
/// visible and the best resting order is at a price within its limit, the two
/// trade the lesser of their visible quantities at the resting order's price.
pub open spec fn cross(resting: Seq<Order>, taker: Order, clock: nat) -> Crossing
    decreases taker.total(),
{
    if can_fill(resting, taker) {
        let fill = taker.fill_against(resting[0]);
        let next = after_fill(resting, fill.quantity, clock);
        let rest = cross(next.0, taker_after_fill(taker, fill.quantity), next.1);
        Crossing { fills: seq![fill] + rest.fills, ..rest }
    } else {
        Crossing { resting, taker, clock, fills: Seq::empty() }
    }
}

impl BookView {
    /// The orders resting on `side`, best first.
    pub open spec fn side(self, side: OrderSide) -> Seq<Order> {
        match side {
            OrderSide::Buy => self.buys,
            OrderSide::Sell => self.sells,
        }
    }

    /// The book with `queue` in place of `side`.
    pub open spec fn with_side(self, side: OrderSide, queue: Seq<Order>) -> BookView {
        match side {
            OrderSide::Buy => BookView { buys: queue, ..self },
            OrderSide::Sell => BookView { sells: queue, ..self },
        }
    }

    /// An order with this id rests in the book.
    pub open spec fn holds(self, id: u64) -> bool {
        queue_holds(self.buys, id) || queue_holds(self.sells, id)
    }

    /// Both sides are well formed and share no id.
    pub open spec fn wf(self) -> bool {
        &&& queue_wf(self.buys, OrderSide::Buy, self.clock)
        &&& queue_wf(self.sells, OrderSide::Sell, self.clock)
        &&& disjoint_ids(self.buys, self.sells)
    }

    /// The book has a place for an order with this key: its timestamp is
    /// not in the future, its id is not in the book, and no order of its side
    /// has its price and timestamp.
    pub open spec fn has_room_for(self, key: OrderKey) -> bool {
        &&& key.timestamp <= self.clock
        &&& !self.holds(key.id)
        &&& forall|i: int|
            0 <= i < self.side(key.order_side).len() ==> !key.ties_with(
                &(#[trigger] self.side(key.order_side)[i]).order_key,
            )
    }

    /// `order` can be added to its side as it is: something of it is
    /// visible, within its peak, and the book has a place for its key.
    pub open spec fn admits(self, order: Order) -> bool {
        order.can_rest() && self.has_room_for(order.order_key)
    }

    /// The book with `order` resting on its side.
    pub open spec fn rest(self, order: Order) -> BookView {
        let side = order.order_key.order_side;
        self.with_side(side, enqueue(self.side(side), order))
    }

    /// Matches the stamped order `taker` against the opposite side and rests
    /// what is still visible of it.
    pub open spec fn settle(self, taker: Order) -> Outcome {
        let side = taker.order_key.order_side;
        let crossing = cross(self.side(side.opposite()), taker, self.clock);
        let crossed = BookView { clock: crossing.clock, ..self.with_side(side.opposite(), crossing.resting) };
        Outcome {
            book: if crossing.taker.quantity != 0 {
                crossed.rest(crossing.taker)
            } else {
                crossed
            },
            taker: crossing.taker,
            fills: crossing.fills,
        }
    }

    /// The clock can stamp the arrival of `order` and every reveal that its
    /// matching brings about. One tick for the arrival and one for each unit
    /// that the order asks for are always enough.
    pub open spec fn has_time_for(self, order: Order) -> bool {
        self.clock + 1 + order.total() <= u64::MAX || self.submit(order).book.clock <= u64::MAX
    }

    /// Advances the clock, stamps `order` with it and settles it.
    pub open spec fn submit(self, order: Order) -> Outcome
        recommends
            self.clock < u64::MAX,
    {
        let now = self.clock + 1;
        BookView { clock: now, ..self }.settle(order.stamped(now as u64))
    }
}

} // verus!
