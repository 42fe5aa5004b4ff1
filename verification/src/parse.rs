//! From a decoded order message to an order that the book can take in.

use crate::order::{IcebergOrder, Order, OrderKey, OrderSide};
use vstd::prelude::*;

verus! {

/// What every order message carries.
#[derive(Debug)]
pub struct OrderCore {
    pub direction: OrderSide,
    pub id: u64,
    pub price: u64,
    pub quantity: u64,
}

/// A decoded order message.
#[derive(Debug)]
pub enum DeserializedOrder {
    Limit { order_core: OrderCore },
    Iceberg { order_core: OrderCore, peak: u64 },
}

impl DeserializedOrder {
    /// The body that both kinds of message carry.
    pub open spec fn body(self) -> OrderCore {
        match self {
            DeserializedOrder::Limit { order_core } => order_core,
            DeserializedOrder::Iceberg { order_core, .. } => order_core,
        }
    }

    /// What the order shows on arrival: all of a limit order, and of an
    /// iceberg order the lesser of its peak and its quantity.
    pub open spec fn visible(self) -> u64 {
        match self {
            DeserializedOrder::Limit { order_core } => order_core.quantity,
            DeserializedOrder::Iceberg { order_core, peak } => if peak <= order_core.quantity {
                peak
            } else {
                order_core.quantity
            },
        }
    }
}

/// Builds the order that a message asks for. Its timestamp is 0: the book
/// stamps it on arrival.
///
/// An iceberg order shows the lesser of its peak and its quantity and hides
/// the rest. A peak above the quantity therefore hides nothing: the order
/// then trades like a limit order of that quantity.
pub fn parse_order(deserialized_order: DeserializedOrder) -> (order: Order)
    ensures
        order.order_key == (OrderKey {
            id: deserialized_order.body().id,
            price: deserialized_order.body().price,
            timestamp: 0,
            order_side: deserialized_order.body().direction,
        }),
        order.quantity == deserialized_order.visible(),
        order.total() == deserialized_order.body().quantity,
        order.within_peak(),
        match deserialized_order {
            DeserializedOrder::Limit { .. } => order.iceberg is None,
            DeserializedOrder::Iceberg { peak, .. } => order.iceberg is Some
                && order.iceberg->Some_0.peak_size == peak,
        },
{
    match deserialized_order {
        DeserializedOrder::Limit { order_core } => Order {
            order_key: OrderKey {
                id: order_core.id,
                price: order_core.price,
                timestamp: 0,
                order_side: order_core.direction,
            },
            quantity: order_core.quantity,
            iceberg: None,
        },
        DeserializedOrder::Iceberg { order_core, peak } => {
            let visible = if peak <= order_core.quantity {
                peak
            } else {
                order_core.quantity
            };
            Order {
                order_key: OrderKey {
                    id: order_core.id,
                    price: order_core.price,
                    timestamp: 0,
                    order_side: order_core.direction,
                },
                quantity: visible,
                iceberg: Some(
                    IcebergOrder { peak_size: peak, hidden_quantity: order_core.quantity - visible },
                ),
            }
        },
    }
}

} // verus!
