use matching_engine::parse::{parse_order, DeserializedOrder, OrderCore};
use matching_engine::{IcebergOrder, Order, OrderKey, OrderSide};

fn number(value: &serde_json::Value, field: &str) -> u64 {
    value.get(field).and_then(|v| v.as_u64()).unwrap()
}

/// Reads a message of the wire format: a `type` tag beside an `order` body.
fn decode(text: &str) -> Result<DeserializedOrder, serde_json::Error> {
    let message: serde_json::Value = serde_json::from_str(text)?;
    let body = message.get("order").unwrap();
    let direction = match body.get("direction").and_then(|v| v.as_str()).unwrap() {
        "Buy" => OrderSide::Buy,
        "Sell" => OrderSide::Sell,
        other => panic!("unknown direction {}", other),
    };
    let order_core = OrderCore {
        direction,
        id: number(body, "id"),
        price: number(body, "price"),
        quantity: number(body, "quantity"),
    };
    Ok(match message.get("type").and_then(|v| v.as_str()).unwrap() {
        "Limit" => DeserializedOrder::Limit { order_core },
        "Iceberg" => DeserializedOrder::Iceberg { order_core, peak: number(body, "peak") },
        other => panic!("unknown type {}", other),
    })
}

fn same_order(left: &Order, right: &Order) -> bool {
    left == right
        && left.order_key.id == right.order_key.id
        && left.order_key.order_side == right.order_key.order_side
}

#[test]
pub fn parse_limit_order() {
    let serialized_iceberg_order = r#"{
            "type": "Limit",
            "order": {
                "direction": "Sell",
                "id": 99,
                "price": 100,
                "quantity": 500
            }
        }"#;

    match decode(serialized_iceberg_order) {
        Err(error) => {
            println!("{}", error);
            assert!(false);
        }
        Ok(deserialized_order) => {
            let order = parse_order(deserialized_order);
            let expected = Order {
                order_key: OrderKey { id: 99, price: 100, order_side: OrderSide::Sell, timestamp: 0 },
                quantity: 500,
                iceberg: None,
            };
            assert_eq!(order, expected);
            assert!(same_order(&order, &expected));
        }
    }
}

#[test]
pub fn parse_iceberg_order() {
    let serialized_iceberg_order = r#"{
            "type": "Iceberg",
            "order": {
                "direction": "Buy",
                "id": 4,
                "price": 100,
                "quantity": 500,
                "peak": 100
            }
        }"#;

    match decode(serialized_iceberg_order) {
        Err(error) => {
            println!("{}", error);
            assert!(false);
        }
        Ok(deserialized_order) => {
            let order = parse_order(deserialized_order);
            let expected = Order {
                order_key: OrderKey { id: 4, price: 100, order_side: OrderSide::Buy, timestamp: 0 },
                quantity: 100,
                iceberg: Some(IcebergOrder { peak_size: 100, hidden_quantity: 400 }),
            };
            assert_eq!(order, expected);
            assert!(same_order(&order, &expected));
        }
    }
}

#[test]
fn parse_iceberg_order_with_peak_above_quantity() {
    let order = parse_order(DeserializedOrder::Iceberg {
        order_core: OrderCore { direction: OrderSide::Sell, id: 7, price: 10, quantity: 30 },
        peak: 50,
    });
    assert_eq!(order.quantity, 30);
    assert_eq!(order.iceberg, Some(IcebergOrder { peak_size: 50, hidden_quantity: 0 }));
    assert_eq!(order.order_key.id, 7);
    assert_eq!(order.order_key.order_side, OrderSide::Sell);
    assert_eq!(order.order_key.timestamp, 0);
}

#[test]
fn parse_iceberg_order_with_peak_equal_to_quantity() {
    let order = parse_order(DeserializedOrder::Iceberg {
        order_core: OrderCore { direction: OrderSide::Buy, id: 8, price: 10, quantity: 50 },
        peak: 50,
    });
    assert_eq!(order.quantity, 50);
    assert_eq!(order.iceberg, Some(IcebergOrder { peak_size: 50, hidden_quantity: 0 }));
}
