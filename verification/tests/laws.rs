use matching_engine::{FillEvent, IcebergOrder, Order, OrderKey, OrderSide, Orderbook};

fn limit(id: u64, price: u64, quantity: u64, order_side: OrderSide) -> Order {
    Order { order_key: OrderKey { id, price, timestamp: 0, order_side }, quantity, iceberg: None }
}

fn iceberg(
    id: u64,
    price: u64,
    quantity: u64,
    hidden_quantity: u64,
    peak_size: u64,
    order_side: OrderSide,
) -> Order {
    Order {
        order_key: OrderKey { id, price, timestamp: 0, order_side },
        quantity,
        iceberg: Some(IcebergOrder { hidden_quantity, peak_size }),
    }
}

fn total(order: &Order) -> u64 {
    order.quantity + order.iceberg.map_or(0, |iceberg| iceberg.hidden_quantity)
}

fn traded(events: &[FillEvent]) -> u64 {
    events.iter().map(|event| event.quantity).sum()
}

fn ids(orders: &[Order]) -> Vec<u64> {
    orders.iter().map(|order| order.order_key.id).collect()
}

#[test]
fn traded_quantity_and_remainder_make_up_the_order() {
    let mut orderbook = Orderbook::new();
    for i in 0..4 {
        orderbook.process_order(&mut limit(i, 100 + i, 30, OrderSide::Buy));
    }
    let mut order = iceberg(5, 100, 25, 275, 25, OrderSide::Sell);
    let events = orderbook.process_order(&mut order);
    assert_eq!(traded(&events), 120);
    assert_eq!(total(&order), 180);
    assert_eq!(traded(&events) + total(&order), 300);
    assert_eq!(orderbook.get_sell_orders().iter().map(total).sum::<u64>(), 180);
}

#[test]
fn no_more_is_traded_than_is_offered_within_the_limit() {
    let mut orderbook = Orderbook::new();
    orderbook.process_order(&mut limit(1, 100, 10, OrderSide::Sell));
    orderbook.process_order(&mut limit(2, 101, 20, OrderSide::Sell));
    orderbook.process_order(&mut limit(3, 103, 40, OrderSide::Sell));
    let mut order = limit(4, 102, 100, OrderSide::Buy);
    let events = orderbook.process_order(&mut order);
    assert_eq!(
        events,
        vec![
            FillEvent { buy_order_id: 4, sell_order_id: 1, price: 100, quantity: 10 },
            FillEvent { buy_order_id: 4, sell_order_id: 2, price: 101, quantity: 20 },
        ]
    );
    assert_eq!(order.quantity, 70);
    assert_eq!(ids(&orderbook.get_sell_orders()), vec![3]);
    assert_eq!(orderbook.get_sell_orders()[0].quantity, 40);
    assert_eq!(ids(&orderbook.get_buy_orders()), vec![4]);
    assert_eq!(orderbook.get_buy_orders()[0].quantity, 70);
}

#[test]
fn trades_are_at_the_resting_price_within_the_limit() {
    let mut orderbook = Orderbook::new();
    orderbook.process_order(&mut limit(1, 95, 10, OrderSide::Sell));
    orderbook.process_order(&mut limit(2, 97, 10, OrderSide::Sell));
    let events = orderbook.process_order(&mut limit(3, 100, 15, OrderSide::Buy));
    assert_eq!(
        events,
        vec![
            FillEvent { buy_order_id: 3, sell_order_id: 1, price: 95, quantity: 10 },
            FillEvent { buy_order_id: 3, sell_order_id: 2, price: 97, quantity: 5 },
        ]
    );
    assert!(events.iter().all(|event| event.price <= 100 && event.quantity > 0));

    let mut orderbook = Orderbook::new();
    orderbook.process_order(&mut limit(1, 105, 10, OrderSide::Buy));
    let events = orderbook.process_order(&mut limit(2, 100, 4, OrderSide::Sell));
    assert_eq!(
        events,
        vec![FillEvent { buy_order_id: 1, sell_order_id: 2, price: 105, quantity: 4 }]
    );
}

#[test]
fn earlier_order_at_one_price_trades_first() {
    let mut orderbook = Orderbook::new();
    orderbook.process_order(&mut limit(1, 100, 10, OrderSide::Buy));
    orderbook.process_order(&mut limit(2, 100, 10, OrderSide::Buy));
    orderbook.process_order(&mut limit(3, 101, 10, OrderSide::Buy));
    let events = orderbook.process_order(&mut limit(4, 100, 25, OrderSide::Sell));
    assert_eq!(
        events,
        vec![
            FillEvent { buy_order_id: 3, sell_order_id: 4, price: 101, quantity: 10 },
            FillEvent { buy_order_id: 1, sell_order_id: 4, price: 100, quantity: 10 },
            FillEvent { buy_order_id: 2, sell_order_id: 4, price: 100, quantity: 5 },
        ]
    );
    assert_eq!(ids(&orderbook.get_buy_orders()), vec![2]);
    assert_eq!(orderbook.get_buy_orders()[0].quantity, 5);
}

#[test]
fn snapshots_list_the_best_order_first() {
    let mut orderbook = Orderbook::new();
    orderbook.process_order(&mut limit(1, 100, 10, OrderSide::Buy));
    orderbook.process_order(&mut limit(2, 102, 10, OrderSide::Buy));
    orderbook.process_order(&mut limit(3, 100, 10, OrderSide::Buy));
    orderbook.process_order(&mut limit(4, 110, 10, OrderSide::Sell));
    orderbook.process_order(&mut limit(5, 108, 10, OrderSide::Sell));
    orderbook.process_order(&mut limit(6, 110, 10, OrderSide::Sell));
    assert_eq!(ids(&orderbook.get_buy_orders()), vec![2, 1, 3]);
    assert_eq!(ids(&orderbook.get_sell_orders()), vec![5, 4, 6]);
    let buys = orderbook.get_buy_orders();
    assert!(buys[0].order_key.outranks(&buys[1].order_key));
    assert!(buys[1].order_key.outranks(&buys[2].order_key));
}

#[test]
fn an_iceberg_order_loses_what_was_traded_with_it() {
    let mut orderbook = Orderbook::new();
    orderbook.process_order(&mut iceberg(1, 100, 25, 275, 25, OrderSide::Sell));
    let events = orderbook.process_order(&mut limit(2, 100, 60, OrderSide::Buy));
    assert_eq!(
        events,
        vec![
            FillEvent { buy_order_id: 2, sell_order_id: 1, price: 100, quantity: 25 },
            FillEvent { buy_order_id: 2, sell_order_id: 1, price: 100, quantity: 25 },
            FillEvent { buy_order_id: 2, sell_order_id: 1, price: 100, quantity: 10 },
        ]
    );
    let sells = orderbook.get_sell_orders();
    assert_eq!(sells.len(), 1);
    assert_eq!(total(&sells[0]), 300 - 60);
    assert_eq!(sells[0].quantity, 15);
    assert_eq!(sells[0].iceberg, Some(IcebergOrder { hidden_quantity: 225, peak_size: 25 }));
    assert_eq!(sells[0].order_key.timestamp, 4);
    assert!(sells[0].quantity <= 25);
}

#[test]
fn snapshots_and_registry_name_the_same_orders() {
    let mut orderbook = Orderbook::new();
    orderbook.process_order(&mut limit(1, 100, 10, OrderSide::Buy));
    orderbook.process_order(&mut iceberg(2, 99, 5, 20, 5, OrderSide::Buy));
    orderbook.process_order(&mut limit(3, 105, 10, OrderSide::Sell));
    orderbook.process_order(&mut limit(4, 99, 12, OrderSide::Sell));
    let buys = orderbook.get_buy_orders();
    let sells = orderbook.get_sell_orders();
    assert_eq!(ids(&buys), vec![2]);
    assert_eq!(ids(&sells), vec![3]);
    assert!(buys.iter().chain(sells.iter()).all(|order| !order.empty() && order.quantity > 0));
    for id in 0..6 {
        let listed = buys.iter().chain(sells.iter()).filter(|o| o.order_key.id == id).count();
        assert_eq!(listed, if orderbook.has_order(id) { 1 } else { 0 });
    }
    assert!(orderbook.has_order(2) && orderbook.has_order(3));
    assert!(!orderbook.has_order(1) && !orderbook.has_order(4));
    assert_eq!(buys[0].quantity, 3);
    assert_eq!(buys[0].iceberg, Some(IcebergOrder { hidden_quantity: 20, peak_size: 5 }));
}
