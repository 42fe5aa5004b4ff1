//! The order book: a registry of resting orders by id and, for each side, a
//! queue of their keys with the best one in front.

use crate::laws::lemma_has_time;
use crate::matching::{after_fill, can_fill, cross, queue_holds, taker_after_fill, BookView};
use crate::order::{FillEvent, Order, OrderKey, OrderSide};
use crate::wellformed::{
    lemma_after_fill_wf, lemma_cross_clock, lemma_drop_first_holds, lemma_entry_index,
    lemma_insert_holds, lemma_later_wf, lemma_requeue_admitted, lemma_rest_wf,
    lemma_update_best_wf, lemma_update_head_holds, lemma_wf_by_sides, lemma_without_best_wf,
};
use std::collections::HashMap;
use vstd::prelude::*;

verus! {

/// A single-instrument order book.
///
/// The registry holds every resting order under its id. Each side has a
/// queue of keys, kept in priority order with the best key in front, so that
/// the key to match next is the first one. `time_counter` is the logical
/// clock: it stamps every arrival and every reveal of a resting iceberg order.
pub struct Orderbook {
    orders: HashMap<u64, Order>,
    best_sell_orders: Vec<OrderKey>,
    best_buy_orders: Vec<OrderKey>,
    time_counter: u64,
}

impl View for Orderbook {
    type V = BookView;

    /// Each side as the orders that its queue names, in the queue's order.
    open spec fn view(&self) -> BookView {
        BookView {
            buys: self.resting(OrderSide::Buy),
            sells: self.resting(OrderSide::Sell),
            clock: self.clock(),
        }
    }
}

/// Where `key` enters `queue`: behind the keys that it does not outrank.
fn entry_position(queue: &Vec<OrderKey>, key: &OrderKey) -> (at: usize)
    ensures
        at <= queue.len(),
        forall|j: int| 0 <= j < at ==> !key.outranks(&#[trigger] queue@[j]),
        at < queue.len() ==> key.outranks(&queue@[at as int]),
{
    let mut at: usize = 0;
    while at < queue.len() && !key.outranks(&queue[at])
        invariant
            at <= queue.len(),
            forall|j: int| 0 <= j < at ==> !key.outranks(&#[trigger] queue@[j]),
        decreases queue.len() - at,
    {
        at += 1;
    }
    at
}

impl Orderbook {
    /// The orders of the book by id.
    pub closed spec fn registry(&self) -> Map<u64, Order> {
        self.orders@
    }

    /// The keys queued on `side`, best first.
    pub closed spec fn queue(&self, side: OrderSide) -> Seq<OrderKey> {
        match side {
            OrderSide::Buy => self.best_buy_orders@,
            OrderSide::Sell => self.best_sell_orders@,
        }
    }

    /// The last timestamp that the book gave out.
    pub closed spec fn clock(&self) -> nat {
        self.time_counter as nat
    }

    /// The orders resting on `side`, best first: the registry's entry for
    /// each key of the queue.
    pub open spec fn resting(&self, side: OrderSide) -> Seq<Order> {
        Seq::new(self.queue(side).len(), |i: int| self.registry()[self.queue(side)[i].id])
    }

    /// Every key queued on `side` is the key of the registry's order of that id.
    pub open spec fn queue_in_step(&self, side: OrderSide) -> bool {
        forall|i: int|
            0 <= i < self.queue(side).len() ==> {
                &&& self.registry().contains_key((#[trigger] self.queue(side)[i]).id)
                &&& self.registry()[self.queue(side)[i].id].order_key == self.queue(side)[i]
            }
    }

    /// Registry and queues name the same orders.
    pub open spec fn lock_step(&self) -> bool {
        &&& self.queue_in_step(OrderSide::Buy)
        &&& self.queue_in_step(OrderSide::Sell)
        &&& forall|id: u64| #[trigger] self.registry().contains_key(id) ==> self@.holds(id)
    }

    /// The book's invariant: registry and queues agree, and the sides that
    /// they describe are well formed.
    pub open spec fn wf(&self) -> bool {
        self.lock_step() && self@.wf()
    }

    /// An empty book whose clock stands at 0.
    pub fn new() -> (book: Self)
        ensures
            book.wf(),
            book@ == (BookView { buys: Seq::empty(), sells: Seq::empty(), clock: 0 }),
    {
        let book = Orderbook {
            orders: HashMap::new(),
            best_sell_orders: Vec::new(),
            best_buy_orders: Vec::new(),
            time_counter: 0,
        };
        assert(book@.buys =~= Seq::empty());
        assert(book@.sells =~= Seq::empty());
        book
    }

    /// Rests `order` as it is: under its id in the registry, and with its key
    /// at its place in the queue of its side. Nothing is matched and the
    /// clock stands.
    pub fn add_order(&mut self, order: &Order)
        requires
            old(self).wf(),
            old(self)@.admits(*order),
        ensures
            final(self).wf(),
            final(self)@ == old(self)@.rest(*order),
    {
        self.orders.insert(order.order_key.id, *order);
        let at = match order.order_key.order_side {
            OrderSide::Buy => {
                let at = entry_position(&self.best_buy_orders, &order.order_key);
                self.best_buy_orders.insert(at, order.order_key);
                at
            },
            OrderSide::Sell => {
                let at = entry_position(&self.best_sell_orders, &order.order_key);
                self.best_sell_orders.insert(at, order.order_key);
                at
            },
        };
        proof {
            lemma_rested(old(self), self, *order, at as int);
        }
    }

    /// Whether an order with this id rests in the book.
    pub fn has_order(&self, id: u64) -> (held: bool)
        requires
            self.wf(),
        ensures
            held == self@.holds(id),
    {
        proof {
            lemma_held_is_registered(self, id);
        }
        self.orders.contains_key(&id)
    }

    /// Whether `process_order` can take `order`: it shows no more than its
    /// peak, its id is not in the book, and the clock has a tick left for
    /// its arrival and one for each unit that it asks for, which is more
    /// than it can use.
    pub fn accepts(&self, order: &Order) -> (ok: bool)
        requires
            self.wf(),
        ensures
            ok == (order.within_peak() && !self@.holds(order.order_key.id) && self@.clock + 1
                + order.total() <= u64::MAX),
            ok ==> self@.has_time_for(*order),
    {
        let (within_peak, hidden) = match order.iceberg {
            None => (true, 0),
            Some(iceberg) => (order.quantity <= iceberg.peak_size, iceberg.hidden_quantity),
        };
        let ticks = u64::MAX - self.time_counter;
        within_peak && !self.has_order(order.order_key.id) && ticks >= 1 && order.quantity <= ticks
            - 1 && hidden <= ticks - 1 - order.quantity
    }

    /// Registry, queues and snapshots name the same orders: on each side the
    /// snapshot has one order for each key of the queue, in the queue's
    /// order, which is the registry's order of that id and has that key; no
    /// id occurs twice, no order is empty, and the registry has no other id.
    pub proof fn lemma_snapshot_consistent(&self, side: OrderSide)
        requires
            self.wf(),
        ensures
            self@.side(side) == self.resting(side),
            self.resting(side).len() == self.queue(side).len(),
            forall|i: int|
                0 <= i < self.queue(side).len() ==> {
                    &&& (#[trigger] self.resting(side)[i]).order_key == self.queue(side)[i]
                    &&& self.registry().contains_key(self.queue(side)[i].id)
                    &&& self.registry()[self.queue(side)[i].id] == self.resting(side)[i]
                    &&& !self.resting(side)[i].empty()
                },
            forall|i: int, j: int|
                0 <= i < j < self.queue(side).len() ==> (#[trigger] self.queue(side)[i]).id != (
                #[trigger] self.queue(side)[j]).id,
            forall|i: int, j: int|
                0 <= i < self.queue(side).len() && 0 <= j < self.queue(side.opposite()).len() ==> (
                #[trigger] self.queue(side)[i]).id != (#[trigger] self.queue(side.opposite())[j]).id,
            forall|id: u64| self.registry().contains_key(id) <==> self@.holds(id),
    {
        let own = self.resting(side);
        let other = self.resting(side.opposite());
        lemma_wf_by_sides(self@, side);
        assert(self.queue_in_step(side) && self.queue_in_step(side.opposite()));
        assert(own == self@.side(side) && other == self@.side(side.opposite()));
        assert forall|i: int, j: int| 0 <= i < j < self.queue(side).len() implies (
        #[trigger] self.queue(side)[i]).id != (#[trigger] self.queue(side)[j]).id by {
            assert(own[i].order_key.id != own[j].order_key.id);
        }
        assert forall|i: int, j: int|
            0 <= i < self.queue(side).len() && 0 <= j < self.queue(
                side.opposite(),
            ).len() implies (#[trigger] self.queue(side)[i]).id != (#[trigger] self.queue(
            side.opposite(),
        )[j]).id by {
            assert(own[i].order_key.id != other[j].order_key.id);
        }
        assert forall|id: u64| self.registry().contains_key(id) <==> self@.holds(id) by {
            lemma_held_is_registered(self, id);
        }
    }

    /// The key in front of the queue of `side`.
    fn best_key(&self, side: OrderSide) -> (best: Option<OrderKey>)
        requires
            self.wf(),
        ensures
            match best {
                None => self@.side(side).len() == 0,
                Some(key) => self@.side(side).len() > 0 && key == self@.side(side)[0].order_key,
            },
    {
        let queue = match side {
            OrderSide::Buy => &self.best_buy_orders,
            OrderSide::Sell => &self.best_sell_orders,
        };
        if queue.len() == 0 {
            None
        } else {
            Some(queue[0])
        }
    }

    /// Takes the best order of `side` out of its queue and out of the registry.
    fn remove_best(&mut self, side: OrderSide)
        requires
            old(self).wf(),
            old(self)@.side(side).len() > 0,
        ensures
            final(self).wf(),
            final(self)@ == old(self)@.with_side(side, old(self)@.side(side).drop_first()),
    {
        let key = match side {
            OrderSide::Buy => self.best_buy_orders.remove(0),
            OrderSide::Sell => self.best_sell_orders.remove(0),
        };
        self.orders.remove(&key.id);
        proof {
            lemma_removed(old(self), self, side);
        }
    }

    /// Puts `maker` in the place of the best order of its side, whose key it has.
    fn update_best(&mut self, maker: Order)
        requires
            old(self).wf(),
            old(self)@.side(maker.order_key.order_side).len() > 0,
            maker.order_key == old(self)@.side(maker.order_key.order_side)[0].order_key,
            maker.can_rest(),
        ensures
            final(self).wf(),
            final(self)@ == old(self)@.with_side(
                maker.order_key.order_side,
                old(self)@.side(maker.order_key.order_side).update(0, maker),
            ),
    {
        self.orders.insert(maker.order_key.id, maker);
        proof {
            lemma_updated(old(self), self, maker);
        }
    }

    /// One trade: `order` against the best order of the opposite side.
    fn fill_best(&mut self, order: &mut Order) -> (event: FillEvent)
        requires
            old(self).wf(),
            can_fill(old(self)@.side(old(order).order_key.order_side.opposite()), *old(order)),
            after_fill(
                old(self)@.side(old(order).order_key.order_side.opposite()),
                old(order).fill_quantity(
                    old(self)@.side(old(order).order_key.order_side.opposite())[0],
                ),
                old(self)@.clock,
            ).1 <= u64::MAX,
        ensures
            final(self).wf(),
            event == old(order).fill_against(
                old(self)@.side(old(order).order_key.order_side.opposite())[0],
            ),
            *final(order) == taker_after_fill(*old(order), event.quantity),
            final(self)@ == ({
                let opposite = old(order).order_key.order_side.opposite();
                let next = after_fill(old(self)@.side(opposite), event.quantity, old(self)@.clock);
                BookView { clock: next.1, ..old(self)@.with_side(opposite, next.0) }
            }),
    {
        let opposite = order.order_key.order_side.opposite();
        let key = self.best_key(opposite).unwrap();
        proof {
            lemma_best_is_registered(self, opposite);
        }
        let mut maker = *self.orders.get(&key.id).unwrap();
        let event = order.get_fill_event(&maker);
        order.quantity -= event.quantity;
        maker.quantity -= event.quantity;
        if maker.empty() {
            self.remove_best(opposite);
        } else if maker.quantity == 0 {
            proof {
                lemma_requeue_admitted(old(self)@, opposite, event.quantity);
            }
            self.remove_best(opposite);
            maker.reload_iceberg_order();
            self.time_counter += 1;
            maker.order_key.timestamp = self.time_counter;
            self.add_order(&maker);
        } else {
            self.update_best(maker);
        }
        if order.is_iceberg() {
            order.reload_iceberg_order();
        }
        event
    }

    /// Matches `order`, which carries its timestamp, against the opposite
    /// side and rests what is still visible of it.
    fn process_order2(&mut self, order: &mut Order) -> (match_events: Vec<FillEvent>)
        requires
            old(self).wf(),
            old(order).within_peak(),
            old(self)@.has_room_for(old(order).order_key),
            old(self)@.settle(*old(order)).book.clock <= u64::MAX,
        ensures
            final(self).wf(),
            final(self)@ == old(self)@.settle(*old(order)).book,
            *final(order) == old(self)@.settle(*old(order)).taker,
            match_events@ == old(self)@.settle(*old(order)).fills,
    {
        let mut match_events: Vec<FillEvent> = Vec::new();
        let side = order.order_key.order_side;
        let opposite = side.opposite();
        let ghost start = self@;
        let ghost key = order.order_key;
        let ghost target = cross(start.side(opposite), *order, start.clock);
        proof {
            lemma_cross_clock(start.side(opposite), *order, start.clock);
        }
        loop
            invariant
                self.wf(),
                side == key.order_side,
                opposite == side.opposite(),
                order.order_key == key,
                order.within_peak(),
                self@.side(side) == start.side(side),
                start.clock <= self@.clock,
                !self@.holds(key.id),
                key.timestamp <= start.clock,
                target.clock <= u64::MAX,
                ({
                    let rest = cross(self@.side(opposite), *order, self@.clock);
                    &&& target.resting == rest.resting
                    &&& target.taker == rest.taker
                    &&& target.clock == rest.clock
                    &&& target.fills == match_events@ + rest.fills
                }),
            ensures
                !can_fill(self@.side(opposite), *order),
            decreases order.total(),
        {
            if order.quantity == 0 {
                break ;
            }
            match self.best_key(opposite) {
                None => {
                    break ;
                },
                Some(best) => {
                    if !order.order_key.crosses(&best) {
                        break ;
                    }
                    let ghost before = self@;
                    let ghost taker = *order;
                    let ghost made = match_events@;
                    proof {
                        let resting = before.side(opposite);
                        let fill = taker.fill_against(resting[0]);
                        let next = after_fill(resting, fill.quantity, before.clock);
                        assert(resting[0].can_rest());
                        assert(can_fill(resting, taker));
                        lemma_cross_clock(next.0, taker_after_fill(taker, fill.quantity), next.1);
                        lemma_after_fill_wf(before, opposite, fill.quantity);
                    }
                    let event = self.fill_best(order);
                    match_events.push(event);
                    proof {
                        let rest = cross(self@.side(opposite), *order, self@.clock);
                        assert(match_events@ + rest.fills =~= made + (seq![event] + rest.fills));
                    }
                },
            }
        }
        proof {
            assert(target.fills =~= match_events@);
        }
        if order.quantity != 0 {
            self.add_order(order);
        }
        match_events
    }

    /// Takes in `order`: the clock advances and stamps it, it trades with
    /// the opposite side by price-time priority, and what is still visible of
    /// it afterwards rests in the book. Returns the trades in the order in
    /// which they happened; `order` is left as it ended.
    pub fn process_order(&mut self, order: &mut Order) -> (match_events: Vec<FillEvent>)
        requires
            old(self).wf(),
            old(order).within_peak(),
            !old(self)@.holds(old(order).order_key.id),
            old(self)@.has_time_for(*old(order)),
        ensures
            final(self).wf(),
            final(self)@ == old(self)@.submit(*old(order)).book,
            *final(order) == old(self)@.submit(*old(order)).taker,
            match_events@ == old(self)@.submit(*old(order)).fills,
    {
        proof {
            lemma_has_time(old(self)@, *old(order));
            lemma_later_wf(old(self)@, old(self)@.clock + 1);
        }
        self.time_counter += 1;
        order.order_key.timestamp = self.time_counter;
        self.process_order2(order)
    }

    /// The orders resting on `side`, best first.
    fn snapshot(&self, side: OrderSide) -> (orders: Vec<Order>)
        requires
            self.wf(),
        ensures
            orders@ == self@.side(side),
    {
        let queue = match side {
            OrderSide::Buy => &self.best_buy_orders,
            OrderSide::Sell => &self.best_sell_orders,
        };
        let mut orders: Vec<Order> = Vec::new();
        let mut i: usize = 0;
        while i < queue.len()
            invariant
                i <= queue.len(),
                queue@ == self.queue(side),
                self.queue_in_step(side),
                orders@ == self.resting(side).take(i as int),
            decreases queue.len() - i,
        {
            let order = *self.orders.get(&queue[i].id).unwrap();
            orders.push(order);
            proof {
                assert(self.resting(side).take(i + 1) =~= self.resting(side).take(i as int).push(
                    order,
                ));
            }
            i += 1;
        }
        proof {
            assert(self.resting(side).take(i as int) =~= self.resting(side));
        }
        orders
    }

    /// The resting buy orders, the one that is matched first in front.
    pub fn get_buy_orders(&self) -> (orders: Vec<Order>)
        requires
            self.wf(),
        ensures
            orders@ == self@.buys,
    {
        self.snapshot(OrderSide::Buy)
    }

    /// The resting sell orders, the one that is matched first in front.
    pub fn get_sell_orders(&self) -> (orders: Vec<Order>)
        requires
            self.wf(),
        ensures
            orders@ == self@.sells,
    {
        self.snapshot(OrderSide::Sell)
    }
}

/// The registry holds exactly the ids that the sides show.
proof fn lemma_held_is_registered(book: &Orderbook, id: u64)
    requires
        book.lock_step(),
    ensures
        book.registry().contains_key(id) <==> book@.holds(id),
{
    if queue_holds(book@.buys, id) {
        let i = choose|i: int| 0 <= i < book@.buys.len() && (#[trigger] book@.buys[i]).order_key.id == id;
        assert(book.queue(OrderSide::Buy)[i].id == id);
    }
    if queue_holds(book@.sells, id) {
        let i = choose|i: int|
            0 <= i < book@.sells.len() && (#[trigger] book@.sells[i]).order_key.id == id;
        assert(book.queue(OrderSide::Sell)[i].id == id);
    }
}

/// The key in front of a queue names the best order of that side.
proof fn lemma_best_is_registered(book: &Orderbook, side: OrderSide)
    requires
        book.lock_step(),
        book.queue(side).len() > 0,
    ensures
        book.registry().contains_key(book.queue(side)[0].id),
        book.registry()[book.queue(side)[0].id] == book@.side(side)[0],
        book@.side(side)[0].order_key == book.queue(side)[0],
{
    assert(book.queue_in_step(side));
    assert(book.resting(side) == book@.side(side));
}

/// The ids of a well-formed book, as its queues hold them: the best key of
/// `side` shares its id with no other key.
proof fn lemma_best_id_is_unique(book: &Orderbook, side: OrderSide)
    requires
        book.wf(),
        book.queue(side).len() > 0,
    ensures
        forall|i: int|
            1 <= i < book.queue(side).len() ==> (#[trigger] book.queue(side)[i]).id != book.queue(
                side,
            )[0].id,
        forall|i: int|
            0 <= i < book.queue(side.opposite()).len() ==> (#[trigger] book.queue(
                side.opposite(),
            )[i]).id != book.queue(side)[0].id,
{
    let own = book@.side(side);
    let other = book@.side(side.opposite());
    lemma_wf_by_sides(book@, side);
    assert(book.queue_in_step(side) && book.queue_in_step(side.opposite()));
    assert(book.resting(side) == own && book.resting(side.opposite()) == other);
    assert forall|i: int| 1 <= i < book.queue(side).len() implies (#[trigger] book.queue(
        side,
    )[i]).id != book.queue(side)[0].id by {
        assert(own[0].order_key.id != own[i].order_key.id);
    }
    assert forall|i: int| 0 <= i < book.queue(side.opposite()).len() implies (#[trigger] book.queue(
        side.opposite(),
    )[i]).id != book.queue(side)[0].id by {
        assert(own[0].order_key.id != other[i].order_key.id);
    }
}

/// `post` is `pre` without the first key of `side` and without its registry
/// entry: then `post` is a well-formed book, and it shows `pre` without the
/// best order of `side`.
proof fn lemma_removed(pre: &Orderbook, post: &Orderbook, side: OrderSide)
    requires
        pre.wf(),
        pre.queue(side).len() > 0,
        post.queue(side) == pre.queue(side).remove(0),
        post.queue(side.opposite()) == pre.queue(side.opposite()),
        post.registry() == pre.registry().remove(pre.queue(side)[0].id),
        post.clock() == pre.clock(),
    ensures
        post.wf(),
        post@ == pre@.with_side(side, pre@.side(side).drop_first()),
{
    let other = side.opposite();
    let q0 = pre.queue(side);
    let q1 = post.queue(side);
    let r0 = pre.resting(side);
    let r1 = post.resting(side);
    lemma_best_id_is_unique(pre, side);
    assert(pre.queue_in_step(side) && pre.queue_in_step(other));
    assert forall|i: int| 0 <= i < q1.len() implies {
        &&& post.registry().contains_key((#[trigger] q1[i]).id)
        &&& post.registry()[q1[i].id].order_key == q1[i]
        &&& r1[i] == r0.drop_first()[i]
    } by {
        assert(q1[i] == q0[i + 1]);
    }
    assert(r1 =~= r0.drop_first());
    assert(post.resting(other) =~= pre.resting(other));
    assert(post.queue_in_step(side) && post.queue_in_step(other));
    assert(r0 == pre@.side(side));
    assert(post@ == pre@.with_side(side, pre@.side(side).drop_first()));
    lemma_without_best_wf(pre@, side);
    assert forall|id: u64| #[trigger] post.registry().contains_key(id) implies post@.holds(id) by {
        assert(pre.registry().contains_key(id));
        assert(pre@.holds(id));
        assert(r0[0].order_key == q0[0]);
        lemma_drop_first_holds(r0, id);
    }
}

/// `post` is `pre` with `maker` as the registry's entry for the first key of
/// its side, which is its key: then `post` is a well-formed book, and it
/// shows `pre` with `maker` as the best order of that side.
proof fn lemma_updated(pre: &Orderbook, post: &Orderbook, maker: Order)
    requires
        pre.wf(),
        pre.queue(maker.order_key.order_side).len() > 0,
        maker.order_key == pre.queue(maker.order_key.order_side)[0],
        maker.can_rest(),
        post.queue(OrderSide::Buy) == pre.queue(OrderSide::Buy),
        post.queue(OrderSide::Sell) == pre.queue(OrderSide::Sell),
        post.registry() == pre.registry().insert(maker.order_key.id, maker),
        post.clock() == pre.clock(),
    ensures
        post.wf(),
        post@ == pre@.with_side(
            maker.order_key.order_side,
            pre@.side(maker.order_key.order_side).update(0, maker),
        ),
{
    let side = maker.order_key.order_side;
    let other = side.opposite();
    let q0 = pre.queue(side);
    let r0 = pre.resting(side);
    let r1 = post.resting(side);
    lemma_best_id_is_unique(pre, side);
    assert(pre.queue_in_step(side) && pre.queue_in_step(other));
    assert(post.queue(side) == q0 && post.queue(other) == pre.queue(other));
    assert forall|i: int| 0 <= i < q0.len() implies {
        &&& post.registry().contains_key((#[trigger] q0[i]).id)
        &&& post.registry()[q0[i].id].order_key == q0[i]
        &&& r1[i] == r0.update(0, maker)[i]
    } by {}
    assert(r1 =~= r0.update(0, maker));
    assert(post.resting(other) =~= pre.resting(other));
    assert(post.queue_in_step(side) && post.queue_in_step(other));
    assert(r0 == pre@.side(side));
    assert(r0[0].order_key == q0[0]);
    assert(post@ == pre@.with_side(side, pre@.side(side).update(0, maker)));
    lemma_update_best_wf(pre@, side, maker);
    assert forall|id: u64| #[trigger] post.registry().contains_key(id) implies post@.holds(id) by {
        lemma_update_head_holds(r0, maker, id);
        if id != maker.order_key.id {
            assert(pre.registry().contains_key(id));
        }
        assert(pre@.holds(id));
    }
}

/// Registry and queue of `post` are those of `pre` with `order` added, its
/// key at `at`: then `post` is in step where `pre` was, and the sides that it
/// shows are those of `pre` with `order` at `at` on its side.
proof fn lemma_rested_sides(pre: &Orderbook, post: &Orderbook, order: Order, at: int)
    requires
        pre.queue_in_step(OrderSide::Buy),
        pre.queue_in_step(OrderSide::Sell),
        !pre@.holds(order.order_key.id),
        post.registry() == pre.registry().insert(order.order_key.id, order),
        0 <= at <= pre.queue(order.order_key.order_side).len(),
        post.queue(order.order_key.order_side) == pre.queue(order.order_key.order_side).insert(
            at,
            order.order_key,
        ),
        post.queue(order.order_key.order_side.opposite()) == pre.queue(
            order.order_key.order_side.opposite(),
        ),
    ensures
        post.queue_in_step(OrderSide::Buy),
        post.queue_in_step(OrderSide::Sell),
        post.resting(order.order_key.order_side) == pre.resting(order.order_key.order_side).insert(
            at,
            order,
        ),
        post.resting(order.order_key.order_side.opposite()) == pre.resting(
            order.order_key.order_side.opposite(),
        ),
{
    let side = order.order_key.order_side;
    let other = side.opposite();
    let key = order.order_key;
    let q0 = pre.queue(side);
    let q1 = post.queue(side);
    let r0 = pre.resting(side);
    let r1 = post.resting(side);
    assert(r0 == pre@.side(side));
    assert(pre.resting(other) == pre@.side(other));
    assert(pre.queue_in_step(side) && pre.queue_in_step(other));
    assert forall|i: int| 0 <= i < q0.len() implies (#[trigger] q0[i]).id != key.id by {
        assert(r0[i].order_key.id != key.id);
    }
    assert forall|i: int| 0 <= i < pre.queue(other).len() implies (#[trigger] pre.queue(
        other,
    )[i]).id != key.id by {
        assert(pre.resting(other)[i].order_key.id != key.id);
    }
    assert forall|i: int| 0 <= i < q1.len() implies {
        &&& post.registry().contains_key((#[trigger] q1[i]).id)
        &&& post.registry()[q1[i].id].order_key == q1[i]
        &&& r1[i] == r0.insert(at, order)[i]
    } by {
        if i < at {
            assert(q1[i] == q0[i]);
        } else if i > at {
            assert(q1[i] == q0[i - 1]);
        }
    }
    assert(r1 =~= r0.insert(at, order));
    assert(post.resting(other) =~= pre.resting(other));
    assert(post.queue_in_step(side) && post.queue_in_step(other));
}

/// Registry and queue of `post` are those of `pre` with `order` added, its
/// key at `at`, the place that `entry_position` finds: then `post` is a
/// well-formed book, and it shows `pre` with `order` resting.
proof fn lemma_rested(pre: &Orderbook, post: &Orderbook, order: Order, at: int)
    requires
        pre.wf(),
        pre@.admits(order),
        post.registry() == pre.registry().insert(order.order_key.id, order),
        0 <= at <= pre.queue(order.order_key.order_side).len(),
        post.queue(order.order_key.order_side) == pre.queue(order.order_key.order_side).insert(
            at,
            order.order_key,
        ),
        post.queue(order.order_key.order_side.opposite()) == pre.queue(
            order.order_key.order_side.opposite(),
        ),
        post.clock() == pre.clock(),
        forall|j: int|
            0 <= j < at ==> !order.order_key.outranks(
                &#[trigger] pre.queue(order.order_key.order_side)[j],
            ),
        at < pre.queue(order.order_key.order_side).len() ==> order.order_key.outranks(
            &pre.queue(order.order_key.order_side)[at],
        ),
    ensures
        post.wf(),
        post@ == pre@.rest(order),
{
    let side = order.order_key.order_side;
    let other = side.opposite();
    let key = order.order_key;
    let r0 = pre.resting(side);
    lemma_rested_sides(pre, post, order, at);
    assert(pre.queue_in_step(side));
    assert forall|j: int| 0 <= j < at implies !key.outranks(&(#[trigger] r0[j]).order_key) by {
        assert(r0[j].order_key == pre.queue(side)[j]);
    }
    if at < r0.len() {
        assert(r0[at].order_key == pre.queue(side)[at]);
    }
    lemma_entry_index(r0, key, at);
    assert(post@ == pre@.rest(order));
    lemma_rest_wf(pre@, order);
    assert forall|id: u64| #[trigger] post.registry().contains_key(id) implies post@.holds(id) by {
        lemma_insert_holds(r0, at, order, id);
        if id != key.id {
            assert(pre.registry().contains_key(id));
            assert(pre@.holds(id));
        }
    }
}

} // verus!
