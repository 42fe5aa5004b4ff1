//! Orders, their priority keys and the trades they produce.

use std::cmp::Ordering;
use vstd::prelude::*;
use vstd::std_specs::cmp::PartialEqSpecImpl;
use vstd::std_specs::cmp::PartialOrdSpecImpl;

verus! {

/// A trade between a buy order and a sell order.
#[derive(Debug, Copy, Clone, PartialEq, Eq, Structural)]
pub struct FillEvent {
    pub buy_order_id: u64,
    pub sell_order_id: u64,
    pub price: u64,
    pub quantity: u64,
}

/// Identity and priority of an order: what a queue of the book holds.
#[derive(Debug, Copy, Clone)]
pub struct OrderKey {
    pub id: u64,
    pub price: u64,
    pub timestamp: u64,
    pub order_side: OrderSide,
}

/// An order: its key, the quantity that can be matched now, and the hidden
/// reserve if it is an iceberg order.
#[derive(Debug, Copy, Clone, PartialEq, Eq)]
pub struct Order {
    pub order_key: OrderKey,
    pub quantity: u64,
    pub iceberg: Option<IcebergOrder>,
}

/// The reserve of an iceberg order.
#[derive(Debug, Copy, Clone, PartialEq, Eq, Structural)]
pub struct IcebergOrder {
    pub hidden_quantity: u64,
    pub peak_size: u64,
}

/// The side of the book that an order is on.
#[derive(Debug, Copy, Clone, PartialEq, Eq, Structural)]
pub enum OrderSide {
    Buy,
    Sell,
}

impl OrderSide {
    /// The other side.
    pub open spec fn spec_opposite(&self) -> OrderSide {
        match self {
            OrderSide::Buy => OrderSide::Sell,
            OrderSide::Sell => OrderSide::Buy,
        }
    }

    /// The side that an order of this side trades against.
    #[verifier::when_used_as_spec(spec_opposite)]
    pub fn opposite(&self) -> (other: OrderSide)
        ensures
            other == self.spec_opposite(),
    {
        match self {
            OrderSide::Buy => OrderSide::Sell,
            OrderSide::Sell => OrderSide::Buy,
        }
    }
}

impl FillEvent {
    /// The id of the resting order of a trade whose incoming order is on `taker_side`.
    pub open spec fn maker_id(self, taker_side: OrderSide) -> u64 {
        match taker_side {
            OrderSide::Buy => self.sell_order_id,
            OrderSide::Sell => self.buy_order_id,
        }
    }

    /// The id of the incoming order of a trade, which is on `taker_side`.
    pub open spec fn taker_id(self, taker_side: OrderSide) -> u64 {
        match taker_side {
            OrderSide::Buy => self.buy_order_id,
            OrderSide::Sell => self.sell_order_id,
        }
    }
}

/// `price` is no worse than `limit` for an order on `side`: no higher for a
/// buy order, no lower for a sell order.
pub open spec fn price_within(side: OrderSide, limit: u64, price: u64) -> bool {
    match side {
        OrderSide::Buy => price <= limit,
        OrderSide::Sell => price >= limit,
    }
}

impl OrderKey {
    /// `self` has the strictly better price, seen from its own side: the
    /// higher one for a buy order, the lower one for a sell order.
    pub open spec fn better_priced(&self, other: &OrderKey) -> bool {
        match self.order_side {
            OrderSide::Buy => self.price > other.price,
            OrderSide::Sell => self.price < other.price,
        }
    }

    /// `self` is matched strictly before `other`: it has the better price,
    /// or the same price and the earlier timestamp.
    pub open spec fn spec_outranks(&self, other: &OrderKey) -> bool {
        self.better_priced(other) || (self.price == other.price && self.timestamp
            < other.timestamp)
    }

    /// Neither key is matched before the other: price and timestamp agree.
    pub open spec fn ties_with(&self, other: &OrderKey) -> bool {
        self.price == other.price && self.timestamp == other.timestamp
    }

    /// An order with key `self` can trade with a resting order with key
    /// `maker`: its limit is at least as good as the maker's price.
    pub open spec fn spec_crosses(&self, maker: &OrderKey) -> bool {
        price_within(self.order_side, self.price, maker.price)
    }

    /// The key with another timestamp.
    pub open spec fn stamped(self, timestamp: u64) -> OrderKey {
        OrderKey { timestamp, ..self }
    }

    /// Whether `self` is matched strictly before `other`.
    #[verifier::when_used_as_spec(spec_outranks)]
    pub fn outranks(&self, other: &OrderKey) -> (r: bool)
        ensures
            r == self.spec_outranks(other),
    {
        let better = match self.order_side {
            OrderSide::Buy => self.price > other.price,
            OrderSide::Sell => self.price < other.price,
        };
        better || (self.price == other.price && self.timestamp < other.timestamp)
    }

    /// Whether an incoming order with key `self` can trade with the resting
    /// order with key `maker`.
    #[verifier::when_used_as_spec(spec_crosses)]
    pub fn crosses(&self, maker: &OrderKey) -> (r: bool)
        ensures
            r == self.spec_crosses(maker),
    {
        match self.order_side {
            OrderSide::Buy => self.price >= maker.price,
            OrderSide::Sell => self.price <= maker.price,
        }
    }

    /// Compares priorities: `Greater` means that `self` is matched first.
    /// The price decides, in the direction of `self`'s side; at one price the
    /// earlier timestamp wins.
    pub fn cmp(&self, other: &Self) -> (r: Ordering)
        ensures
            r == Ordering::Greater <==> self.spec_outranks(other),
            r == Ordering::Equal <==> self.ties_with(other),
            r == Ordering::Less <==> !self.spec_outranks(other) && !self.ties_with(other),
    {
        if self.price < other.price {
            match self.order_side {
                OrderSide::Buy => Ordering::Less,
                OrderSide::Sell => Ordering::Greater,
            }
        } else if self.price > other.price {
            match self.order_side {
                OrderSide::Buy => Ordering::Greater,
                OrderSide::Sell => Ordering::Less,
            }
        } else if self.timestamp < other.timestamp {
            Ordering::Greater
        } else if self.timestamp > other.timestamp {
            Ordering::Less
        } else {
            Ordering::Equal
        }
    }
}

/// Among the keys of one side, `outranks` is a strict order in which any two
/// keys that differ in price or timestamp are ordered. At one price the
/// earlier timestamp outranks the later; between prices the higher one
/// outranks on the buy side and the lower one on the sell side.
pub proof fn lemma_outranks_orders(a: OrderKey, b: OrderKey, c: OrderKey)
    requires
        a.order_side == b.order_side,
        b.order_side == c.order_side,
    ensures
        !a.outranks(&a),
        !(a.outranks(&b) && b.outranks(&a)),
        a.outranks(&b) && b.outranks(&c) ==> a.outranks(&c),
        a.outranks(&b) || b.outranks(&a) || a.ties_with(&b),
        a.price == b.price ==> (a.outranks(&b) <==> a.timestamp < b.timestamp),
        a.order_side == OrderSide::Buy && a.price != b.price ==> (a.outranks(&b) <==> a.price
            > b.price),
        a.order_side == OrderSide::Sell && a.price != b.price ==> (a.outranks(&b) <==> a.price
            < b.price),
{
}

/// Two keys are equal when neither is matched before the other: price and
/// timestamp agree. Id and side take no part.
impl PartialEq for OrderKey {
    fn eq(&self, other: &Self) -> (r: bool) {
        self.price == other.price && self.timestamp == other.timestamp
    }
}

impl PartialEqSpecImpl for OrderKey {
    open spec fn obeys_eq_spec() -> bool {
        true
    }

    open spec fn eq_spec(&self, other: &Self) -> bool {
        self.price == other.price && self.timestamp == other.timestamp
    }
}

impl Eq for OrderKey {

}

/// Keys compare as `cmp` orders them.

impl PartialOrd for OrderKey {
    fn partial_cmp(&self, other: &Self) -> (r: Option<Ordering>) {
        Some(self.cmp(other))
    }
}

impl PartialOrdSpecImpl for OrderKey {
    open spec fn obeys_partial_cmp_spec() -> bool {
        true
    }

    open spec fn partial_cmp_spec(&self, other: &Self) -> Option<Ordering> {
        if self.spec_outranks(other) {
            Some(Ordering::Greater)
        } else if self.ties_with(other) {
            Some(Ordering::Equal)
        } else {
            Some(Ordering::Less)
        }
    }
}

impl Order {
    /// The reserve that is not visible yet; none for a plain limit order.
    pub open spec fn hidden(self) -> nat {
        match self.iceberg {
            Some(iceberg) => iceberg.hidden_quantity as nat,
            None => 0,
        }
    }

    /// Everything the order still asks for: visible quantity and reserve.
    pub open spec fn total(self) -> nat {
        self.quantity as nat + self.hidden()
    }

    /// The visible quantity of an iceberg order does not exceed its peak.
    pub open spec fn within_peak(self) -> bool {
        match self.iceberg {
            Some(iceberg) => self.quantity <= iceberg.peak_size,
            None => true,
        }
    }

    /// What a resting order looks like: something is visible, within the peak.
    pub open spec fn can_rest(self) -> bool {
        self.quantity > 0 && self.within_peak()
    }

    /// The order has a reserve, used up or not.
    pub open spec fn spec_is_iceberg(&self) -> bool {
        self.iceberg is Some
    }

    /// Nothing is left of the order, visible or hidden.
    pub open spec fn spec_empty(&self) -> bool {
        self.total() == 0
    }

    /// The order with its next slice revealed. Only an iceberg order with
    /// nothing visible changes: the lesser of peak and reserve moves from the
    /// reserve to the visible quantity.
    pub open spec fn revealed(self) -> Order {
        match self.iceberg {
            Some(iceberg) if self.quantity == 0 => {
                let slice = if iceberg.peak_size <= iceberg.hidden_quantity {
                    iceberg.peak_size
                } else {
                    iceberg.hidden_quantity
                };
                Order {
                    quantity: slice,
                    iceberg: Some(
                        IcebergOrder {
                            hidden_quantity: (iceberg.hidden_quantity - slice) as u64,
                            peak_size: iceberg.peak_size,
                        },
                    ),
                    ..self
                }
            },
            _ => self,
        }
    }

    /// The quantity that trades when `self` meets `maker`.
    pub open spec fn fill_quantity(self, maker: Order) -> u64 {
        if self.quantity <= maker.quantity {
            self.quantity
        } else {
            maker.quantity
        }
    }

    /// The trade of the incoming order `self` with the resting order `maker`:
    /// at the maker's price, for the lesser visible quantity, each id in its role.
    pub open spec fn fill_against(self, maker: Order) -> FillEvent {
        FillEvent {
            buy_order_id: match self.order_key.order_side {
                OrderSide::Buy => self.order_key.id,
                OrderSide::Sell => maker.order_key.id,
            },
            sell_order_id: match self.order_key.order_side {
                OrderSide::Buy => maker.order_key.id,
                OrderSide::Sell => self.order_key.id,
            },
            price: maker.order_key.price,
            quantity: self.fill_quantity(maker),
        }
    }

    /// The order after `quantity` of its visible part has traded.
    pub open spec fn reduced(self, quantity: u64) -> Order {
        Order { quantity: (self.quantity - quantity) as u64, ..self }
    }

    /// The order with another timestamp.
    pub open spec fn stamped(self, timestamp: u64) -> Order {
        Order { order_key: self.order_key.stamped(timestamp), ..self }
    }

    /// Reveals the next slice of an iceberg order whose visible quantity is used up.
    /// Nothing is lost by it, and what it shows is within the peak.
    pub fn reload_iceberg_order(&mut self)
        ensures
            *final(self) == old(self).revealed(),
            final(self).total() == old(self).total(),
            final(self).order_key == old(self).order_key,
            old(self).within_peak() ==> final(self).within_peak(),
            old(self).quantity == 0 ==> final(self).within_peak(),
    {
        if self.quantity == 0 {
            if let Some(iceberg) = self.iceberg {
                let reload_quantity = if iceberg.peak_size <= iceberg.hidden_quantity {
                    iceberg.peak_size
                } else {
                    iceberg.hidden_quantity
                };
                self.quantity = reload_quantity;
                self.iceberg = Some(
                    IcebergOrder {
                        hidden_quantity: iceberg.hidden_quantity - reload_quantity,
                        peak_size: iceberg.peak_size,
                    },
                );
            }
        }
    }

    /// Whether the order is an iceberg order.
    #[verifier::when_used_as_spec(spec_is_iceberg)]
    pub fn is_iceberg(&self) -> (r: bool)
        ensures
            r == self.spec_is_iceberg(),
    {
        self.iceberg.is_some()
    }

    /// Whether nothing is left of the order, visible or hidden.
    #[verifier::when_used_as_spec(spec_empty)]
    pub fn empty(&self) -> (r: bool)
        ensures
            r == self.spec_empty(),
    {
        match self.iceberg {
            None => self.quantity == 0,
            Some(iceberg) => self.quantity == 0 && iceberg.hidden_quantity == 0,
        }
    }

    /// The trade between the incoming order `self` and the resting order `maker_order`.
    pub fn get_fill_event(&self, maker_order: &Self) -> (event: FillEvent)
        ensures
            event == self.fill_against(*maker_order),
    {
        let fill_quantity = if self.quantity <= maker_order.quantity {
            self.quantity
        } else {
            maker_order.quantity
        };
        let price = maker_order.order_key.price;
        let (buy_order_id, sell_order_id) = match self.order_key.order_side {
            OrderSide::Buy => (self.order_key.id, maker_order.order_key.id),
            OrderSide::Sell => (maker_order.order_key.id, self.order_key.id),
        };
        FillEvent { buy_order_id, sell_order_id, price, quantity: fill_quantity }
    }
}

} // verus!
