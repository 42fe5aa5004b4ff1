//! What holds of every submission: quantities are conserved, trades happen
//! at the resting order's price, and resting orders trade in priority order.

use crate::matching::{
    after_fill, can_fill, cross, enqueue, entry_index, queue_wf, taker_after_fill, BookView,
};
use crate::wellformed::{
    lemma_after_fill_queue_wf, lemma_cross_clock, lemma_cross_wf, lemma_entry_index_place,
    lemma_later_wf, lemma_rest_wf, lemma_wf_by_sides,
};
use crate::order::{price_within, FillEvent, Order, OrderKey, OrderSide};
use vstd::prelude::*;

verus! {

/// The quantity traded in `fills`.
pub open spec fn filled(fills: Seq<FillEvent>) -> nat
    decreases fills.len(),
{
    if fills.len() == 0 {
        0
    } else {
        fills[0].quantity as nat + filled(fills.drop_first())
    }
}

/// The quantity that `fills` traded against the resting order `maker`, the
/// incoming order being on `taker_side`.
pub open spec fn filled_against(fills: Seq<FillEvent>, taker_side: OrderSide, maker: u64) -> nat
    decreases fills.len(),
{
    if fills.len() == 0 {
        0
    } else {
        (if fills[0].maker_id(taker_side) == maker {
            fills[0].quantity as nat
        } else {
            0
        }) + filled_against(fills.drop_first(), taker_side, maker)
    }
}

/// What the orders of `queue` whose key `pick` takes still ask for, visible
/// and hidden.
pub open spec fn volume_where(queue: Seq<Order>, pick: spec_fn(OrderKey) -> bool) -> nat
    decreases queue.len(),
{
    if queue.len() == 0 {
        0
    } else {
        (if pick(queue[0].order_key) {
            queue[0].total()
        } else {
            0
        }) + volume_where(queue.drop_first(), pick)
    }
}

/// What all orders of `queue` still ask for.
pub open spec fn volume(queue: Seq<Order>) -> nat {
    volume_where(queue, |key: OrderKey| true)
}

/// What the order `id` of `queue` still asks for; 0 if it is not there.
pub open spec fn volume_of(queue: Seq<Order>, id: u64) -> nat {
    volume_where(queue, |key: OrderKey| key.id == id)
}

/// What `queue` offers to an incoming order on `side` with limit `limit`:
/// what its orders at prices within that limit ask for.
pub open spec fn supply(queue: Seq<Order>, side: OrderSide, limit: u64) -> nat {
    volume_where(queue, |key: OrderKey| price_within(side, limit, key.price))
}

/// `queue` holds an order with this id at this price.
pub open spec fn quotes(queue: Seq<Order>, id: u64, price: u64) -> bool {
    exists|i: int|
        0 <= i < queue.len() && (#[trigger] queue[i]).order_key.id == id
            && queue[i].order_key.price == price
}

/// `pick` looks at id, price and side of a key only.
pub open spec fn ignores_time(pick: spec_fn(OrderKey) -> bool) -> bool {
    forall|a: OrderKey, b: OrderKey|
        a.id == b.id && a.price == b.price && a.order_side == b.order_side ==> #[trigger] pick(a)
            == #[trigger] pick(b)
}

/// The sums over trades, taken from the first trade on.
proof fn lemma_filled_first(first: FillEvent, rest: Seq<FillEvent>, taker_side: OrderSide, maker: u64)
    ensures
        filled(seq![first] + rest) == first.quantity + filled(rest),
        filled_against(seq![first] + rest, taker_side, maker) == (if first.maker_id(taker_side)
            == maker {
            first.quantity as nat
        } else {
            0
        }) + filled_against(rest, taker_side, maker),
{
    assert((seq![first] + rest).drop_first() =~= rest);
}

/// An order that joins a side adds what it asks for, if `pick` takes it.
proof fn lemma_volume_insert(
    queue: Seq<Order>,
    at: int,
    order: Order,
    pick: spec_fn(OrderKey) -> bool,
)
    requires
        0 <= at <= queue.len(),
    ensures
        volume_where(queue.insert(at, order), pick) == volume_where(queue, pick) + (if pick(
            order.order_key,
        ) {
            order.total()
        } else {
            0
        }),
    decreases queue.len(),
{
    let after = queue.insert(at, order);
    if at == 0 {
        assert(after.drop_first() =~= queue);
    } else {
        assert(after.drop_first() =~= queue.drop_first().insert(at - 1, order));
        lemma_volume_insert(queue.drop_first(), at - 1, order, pick);
    }
}

/// One trade takes its quantity from what the best order asks for, and
/// nothing from any other order.
proof fn lemma_after_fill_volume(
    resting: Seq<Order>,
    quantity: u64,
    clock: nat,
    pick: spec_fn(OrderKey) -> bool,
)
    requires
        resting.len() > 0,
        quantity <= resting[0].quantity,
        ignores_time(pick),
    ensures
        volume_where(after_fill(resting, quantity, clock).0, pick) + (if pick(
            resting[0].order_key,
        ) {
            quantity as nat
        } else {
            0
        }) == volume_where(resting, pick),
{
    let tail = resting.drop_first();
    let maker = resting[0].reduced(quantity);
    if maker.empty() {
    } else if maker.quantity == 0 {
        let renewed = maker.revealed().stamped((clock + 1) as u64);
        lemma_entry_index_place(tail, renewed.order_key);
        lemma_volume_insert(tail, entry_index(tail, renewed.order_key), renewed, pick);
        assert(pick(renewed.order_key) == pick(resting[0].order_key));
    } else {
        assert(resting.update(0, maker).drop_first() =~= tail);
    }
}

/// Crossing takes from the orders that `pick` takes what it traded with
/// them, where `pick` takes every order at a price within the taker's limit.
proof fn lemma_cross_volume(
    resting: Seq<Order>,
    taker: Order,
    clock: nat,
    pick: spec_fn(OrderKey) -> bool,
)
    requires
        ignores_time(pick),
        forall|key: OrderKey|
            price_within(taker.order_key.order_side, taker.order_key.price, key.price)
                ==> #[trigger] pick(key),
    ensures
        volume_where(cross(resting, taker, clock).resting, pick) + filled(
            cross(resting, taker, clock).fills,
        ) == volume_where(resting, pick),
    decreases taker.total(),
{
    if can_fill(resting, taker) {
        let fill = taker.fill_against(resting[0]);
        let next = after_fill(resting, fill.quantity, clock);
        let rest = cross(next.0, taker_after_fill(taker, fill.quantity), next.1);
        lemma_after_fill_volume(resting, fill.quantity, clock, pick);
        lemma_cross_volume(next.0, taker_after_fill(taker, fill.quantity), next.1, pick);
        lemma_filled_first(fill, rest.fills, taker.order_key.order_side, 0);
        assert(pick(resting[0].order_key));
    }
}

/// Crossing takes from each resting order what it traded with it.
proof fn lemma_cross_volume_of(resting: Seq<Order>, taker: Order, clock: nat, id: u64)
    ensures
        volume_of(cross(resting, taker, clock).resting, id) + filled_against(
            cross(resting, taker, clock).fills,
            taker.order_key.order_side,
            id,
        ) == volume_of(resting, id),
    decreases taker.total(),
{
    if can_fill(resting, taker) {
        let fill = taker.fill_against(resting[0]);
        let next = after_fill(resting, fill.quantity, clock);
        let rest = cross(next.0, taker_after_fill(taker, fill.quantity), next.1);
        lemma_after_fill_volume(resting, fill.quantity, clock, |key: OrderKey| key.id == id);
        lemma_cross_volume_of(next.0, taker_after_fill(taker, fill.quantity), next.1, id);
        lemma_filled_first(fill, rest.fills, taker.order_key.order_side, id);
    }
}

/// Crossing leaves of the taker what it did not trade, and leaves its key alone.
proof fn lemma_cross_taker(resting: Seq<Order>, taker: Order, clock: nat)
    ensures
        filled(cross(resting, taker, clock).fills) + cross(resting, taker, clock).taker.total()
            == taker.total(),
        cross(resting, taker, clock).taker.order_key == taker.order_key,
        taker.within_peak() ==> cross(resting, taker, clock).taker.within_peak(),
        taker.within_peak() && taker.quantity > 0 && cross(resting, taker, clock).taker.quantity
            == 0 ==> cross(resting, taker, clock).taker.empty(),
    decreases taker.total(),
{
    if can_fill(resting, taker) {
        let fill = taker.fill_against(resting[0]);
        let next = after_fill(resting, fill.quantity, clock);
        let rest = cross(next.0, taker_after_fill(taker, fill.quantity), next.1);
        lemma_cross_taker(next.0, taker_after_fill(taker, fill.quantity), next.1);
        lemma_filled_first(fill, rest.fills, taker.order_key.order_side, 0);
    }
}

/// Whatever a side quotes after one trade, it quoted before.
proof fn lemma_after_fill_quotes(resting: Seq<Order>, quantity: u64, clock: nat, id: u64, price: u64)
    requires
        resting.len() > 0,
        quotes(after_fill(resting, quantity, clock).0, id, price),
    ensures
        quotes(resting, id, price),
{
    let tail = resting.drop_first();
    let maker = resting[0].reduced(quantity);
    let after = after_fill(resting, quantity, clock).0;
    let i = choose|i: int|
        0 <= i < after.len() && (#[trigger] after[i]).order_key.id == id
            && after[i].order_key.price == price;
    if maker.empty() {
        assert(resting[i + 1] == after[i]);
    } else if maker.quantity == 0 {
        let renewed = maker.revealed().stamped((clock + 1) as u64);
        let at = entry_index(tail, renewed.order_key);
        lemma_entry_index_place(tail, renewed.order_key);
        if i < at {
            assert(resting[i + 1] == after[i]);
        } else if i == at {
            assert(resting[0].order_key.id == id);
        } else {
            assert(resting[i] == after[i]);
        }
    } else {
        assert(resting[i].order_key == after[i].order_key);
    }
}

/// Every trade of a crossing moves something, has the taker on its own side,
/// is at a price within the taker's limit, and is with a resting order at
/// that order's price.
proof fn lemma_cross_fill(resting: Seq<Order>, taker: Order, clock: nat, k: int)
    requires
        0 <= k < cross(resting, taker, clock).fills.len(),
    ensures
        ({
            let fill = cross(resting, taker, clock).fills[k];
            let side = taker.order_key.order_side;
            &&& fill.quantity > 0
            &&& fill.taker_id(side) == taker.order_key.id
            &&& price_within(side, taker.order_key.price, fill.price)
            &&& quotes(resting, fill.maker_id(side), fill.price)
        }),
    decreases taker.total(),
{
    if can_fill(resting, taker) {
        let fill = taker.fill_against(resting[0]);
        let next = after_fill(resting, fill.quantity, clock);
        let rest = cross(next.0, taker_after_fill(taker, fill.quantity), next.1);
        if k == 0 {
            assert(resting[0].order_key.id == fill.maker_id(taker.order_key.order_side));
        } else {
            lemma_cross_fill(next.0, taker_after_fill(taker, fill.quantity), next.1, k - 1);
            let later = rest.fills[k - 1];
            assert(cross(resting, taker, clock).fills[k] == later);
            lemma_after_fill_quotes(
                resting,
                fill.quantity,
                clock,
                later.maker_id(taker.order_key.order_side),
                later.price,
            );
        }
    }
}

/// Resting an order adds what it asks for to its side.
proof fn lemma_enqueue_volume(queue: Seq<Order>, order: Order)
    ensures
        volume(enqueue(queue, order)) == volume(queue) + order.total(),
{
    lemma_entry_index_place(queue, order.order_key);
    lemma_volume_insert(queue, entry_index(queue, order.order_key), order, |key: OrderKey| true);
}

/// In a submission, the quantity traded and what is left of
/// the incoming order make up what it asked for; no more is traded than the
/// opposite side offered at prices within the order's limit; the opposite
/// side loses exactly what was traded; and the order's own side gains what is
/// left of the order if it rests, and nothing otherwise.
pub proof fn lemma_submit_conserves(book: BookView, order: Order)
    ensures
        ({
            let after = book.submit(order);
            let side = order.order_key.order_side;
            &&& filled(after.fills) + after.taker.total() == order.total()
            &&& filled(after.fills) <= supply(
                book.side(side.opposite()),
                side,
                order.order_key.price,
            )
            &&& volume(after.book.side(side.opposite())) + filled(after.fills) == volume(
                book.side(side.opposite()),
            )
            &&& volume(after.book.side(side)) == volume(book.side(side)) + (if after.taker.quantity
                != 0 {
                after.taker.total()
            } else {
                0
            })
        }),
{
    let side = order.order_key.order_side;
    let now = book.clock + 1;
    let taker = order.stamped(now as u64);
    let resting = book.side(side.opposite());
    lemma_cross_taker(resting, taker, now);
    lemma_cross_volume(resting, taker, now, |key: OrderKey| true);
    lemma_cross_volume(
        resting,
        taker,
        now,
        |key: OrderKey| price_within(side, order.order_key.price, key.price),
    );
    lemma_enqueue_volume(book.side(side), cross(resting, taker, now).taker);
}

/// Each resting order of the opposite side loses exactly what the submission
/// traded with it, and the orders of the incoming order's own side keep what
/// they ask for; that side gains only the incoming order, if it rests. What a
/// resting order asks for, visible and hidden, therefore never grows.
pub proof fn lemma_submit_consumes(book: BookView, order: Order, id: u64)
    ensures
        ({
            let after = book.submit(order);
            let side = order.order_key.order_side;
            &&& volume_of(after.book.side(side.opposite()), id) + filled_against(
                after.fills,
                side,
                id,
            ) == volume_of(book.side(side.opposite()), id)
            &&& volume_of(after.book.side(side), id) == volume_of(book.side(side), id) + (
            if after.taker.quantity != 0 && order.order_key.id == id {
                after.taker.total()
            } else {
                0
            })
        }),
{
    let side = order.order_key.order_side;
    let now = book.clock + 1;
    let taker = order.stamped(now as u64);
    let left = cross(book.side(side.opposite()), taker, now).taker;
    lemma_cross_taker(book.side(side.opposite()), taker, now);
    lemma_cross_volume_of(book.side(side.opposite()), taker, now, id);
    lemma_entry_index_place(book.side(side), left.order_key);
    lemma_volume_insert(
        book.side(side),
        entry_index(book.side(side), left.order_key),
        left,
        |key: OrderKey| key.id == id,
    );
}

/// Every trade of a submission moves a quantity above 0,
/// names the incoming order on its own side, and is with an order that
/// rested on the opposite side, at that order's price, which is within the
/// incoming order's limit.
pub proof fn lemma_submit_prices(book: BookView, order: Order, k: int)
    requires
        0 <= k < book.submit(order).fills.len(),
    ensures
        ({
            let fill = book.submit(order).fills[k];
            let side = order.order_key.order_side;
            &&& fill.quantity > 0
            &&& fill.taker_id(side) == order.order_key.id
            &&& price_within(side, order.order_key.price, fill.price)
            &&& quotes(book.side(side.opposite()), fill.maker_id(side), fill.price)
        }),
{
    let side = order.order_key.order_side;
    let now = book.clock + 1;
    lemma_cross_fill(book.side(side.opposite()), order.stamped(now as u64), now, k);
}

/// Two orders behind the best one keep their order through one trade.
proof fn lemma_after_fill_places(
    resting: Seq<Order>,
    quantity: u64,
    clock: nat,
    i: int,
    j: int,
) -> (at: (int, int))
    requires
        1 <= i < j < resting.len(),
    ensures
        0 <= at.0 < at.1 < after_fill(resting, quantity, clock).0.len(),
        after_fill(resting, quantity, clock).0[at.0] == resting[i],
        after_fill(resting, quantity, clock).0[at.1] == resting[j],
{
    let tail = resting.drop_first();
    let maker = resting[0].reduced(quantity);
    if maker.empty() {
        (i - 1, j - 1)
    } else if maker.quantity == 0 {
        let renewed = maker.revealed().stamped((clock + 1) as u64);
        let enters = entry_index(tail, renewed.order_key);
        lemma_entry_index_place(tail, renewed.order_key);
        (
            if i - 1 < enters {
                i - 1
            } else {
                i
            },
            if j - 1 < enters {
                j - 1
            } else {
                j
            },
        )
    } else {
        (i, j)
    }
}

/// In a crossing, a resting order trades only after every order in front of
/// it has traded all that it showed.
proof fn lemma_cross_priority(
    resting: Seq<Order>,
    side: OrderSide,
    taker: Order,
    clock: nat,
    i: int,
    j: int,
    k: int,
)
    requires
        queue_wf(resting, side, clock),
        cross(resting, taker, clock).clock <= u64::MAX,
        0 <= i < j < resting.len(),
        0 <= k < cross(resting, taker, clock).fills.len(),
        cross(resting, taker, clock).fills[k].maker_id(taker.order_key.order_side)
            == resting[j].order_key.id,
    ensures
        filled_against(
            cross(resting, taker, clock).fills.take(k),
            taker.order_key.order_side,
            resting[i].order_key.id,
        ) >= resting[i].quantity,
    decreases taker.total(),
{
    let taker_side = taker.order_key.order_side;
    let fills = cross(resting, taker, clock).fills;
    let fill = taker.fill_against(resting[0]);
    let next = after_fill(resting, fill.quantity, clock);
    let later = taker_after_fill(taker, fill.quantity);
    let rest = cross(next.0, later, next.1);
    assert(can_fill(resting, taker));
    lemma_cross_clock(next.0, later, next.1);
    lemma_after_fill_queue_wf(resting, side, fill.quantity, clock);
    assert(fills[0] == fill);
    assert(resting[0].order_key.id != resting[j].order_key.id);
    assert(fills[k] == rest.fills[k - 1]);
    assert(fills.take(k) =~= seq![fill] + rest.fills.take(k - 1));
    lemma_filled_first(fill, rest.fills.take(k - 1), taker_side, resting[i].order_key.id);
    if i == 0 {
        if fill.quantity < resting[0].quantity {
            assert(next.0[j] == resting[j]);
            lemma_cross_priority(next.0, side, later, next.1, 0, j, k - 1);
        }
    } else {
        let at = lemma_after_fill_places(resting, fill.quantity, clock, i, j);
        assert(resting[0].order_key.id != resting[i].order_key.id);
        lemma_cross_priority(next.0, side, later, next.1, at.0, at.1, k - 1);
    }
}

/// When a submission trades with a resting order, every order that
/// outranked it on its side (a better price, or the same price and an earlier
/// timestamp) has by then traded all that it showed.
pub proof fn lemma_submit_priority(book: BookView, order: Order, i: int, j: int, k: int)
    requires
        book.wf(),
        book.has_time_for(order),
        0 <= i < book.side(order.order_key.order_side.opposite()).len(),
        0 <= j < book.side(order.order_key.order_side.opposite()).len(),
        book.side(order.order_key.order_side.opposite())[i].order_key.outranks(
            &book.side(order.order_key.order_side.opposite())[j].order_key,
        ),
        0 <= k < book.submit(order).fills.len(),
        book.submit(order).fills[k].maker_id(order.order_key.order_side) == book.side(
            order.order_key.order_side.opposite(),
        )[j].order_key.id,
    ensures
        filled_against(
            book.submit(order).fills.take(k),
            order.order_key.order_side,
            book.side(order.order_key.order_side.opposite())[i].order_key.id,
        ) >= book.side(order.order_key.order_side.opposite())[i].quantity,
{
    lemma_has_time(book, order);
    let side = order.order_key.order_side;
    let now = book.clock + 1;
    let taker = order.stamped(now as u64);
    let resting = book.side(side.opposite());
    lemma_wf_by_sides(book, side.opposite());
    lemma_cross_taker(resting, taker, now);
    if j < i {
        assert(resting[j].order_key.outranks(&resting[i].order_key));
    }
    lemma_cross_priority(resting, side.opposite(), taker, now, i, j, k);
}

/// A submission leaves a well-formed book well formed, provided that the
/// order shows no more than its peak, that its id is new to the book, and
/// that the clock does not run out.
pub proof fn lemma_submit_wf(book: BookView, order: Order)
    requires
        book.wf(),
        order.within_peak(),
        !book.holds(order.order_key.id),
        book.has_time_for(order),
    ensures
        book.submit(order).book.wf(),
{
    lemma_has_time(book, order);
    let side = order.order_key.order_side;
    let now = book.clock + 1;
    let taker = order.stamped(now as u64);
    let ticked = BookView { clock: now, ..book };
    let crossing = cross(ticked.side(side.opposite()), taker, now);
    let crossed = BookView {
        clock: crossing.clock,
        ..ticked.with_side(side.opposite(), crossing.resting)
    };
    lemma_later_wf(book, now);
    lemma_cross_clock(ticked.side(side.opposite()), taker, now);
    lemma_cross_taker(ticked.side(side.opposite()), taker, now);
    lemma_cross_wf(ticked, side.opposite(), taker);
    if crossing.taker.quantity != 0 {
        lemma_wf_by_sides(book, side);
        assert(crossed.side(side) == book.side(side));
        assert(crossed.admits(crossing.taker));
        lemma_rest_wf(crossed, crossing.taker);
    }
}

/// Crossing moves the clock by one tick at most for every trade, and every
/// trade takes at least one unit of the taker.
proof fn lemma_cross_ceiling(resting: Seq<Order>, taker: Order, clock: nat)
    ensures
        cross(resting, taker, clock).clock <= clock + cross(resting, taker, clock).fills.len(),
        cross(resting, taker, clock).fills.len() + cross(resting, taker, clock).taker.total()
            <= taker.total(),
    decreases taker.total(),
{
    if can_fill(resting, taker) {
        let fill = taker.fill_against(resting[0]);
        let next = after_fill(resting, fill.quantity, clock);
        lemma_cross_ceiling(next.0, taker_after_fill(taker, fill.quantity), next.1);
    }
}

/// A book that has time for an order ends the submission with its clock
/// within `u64`, so every timestamp that it gave out is the clock's value.
pub proof fn lemma_has_time(book: BookView, order: Order)
    requires
        book.has_time_for(order),
    ensures
        book.clock < book.submit(order).book.clock <= u64::MAX,
{
    let side = order.order_key.order_side;
    let now = book.clock + 1;
    let taker = order.stamped(now as u64);
    let resting = book.side(side.opposite());
    lemma_cross_clock(resting, taker, now);
    lemma_cross_ceiling(resting, taker, now);
    lemma_cross_taker(resting, taker, now);
}

/// A side without an order at a price within the limit offers nothing.
proof fn lemma_no_supply(queue: Seq<Order>, side: OrderSide, limit: u64)
    requires
        forall|i: int|
            0 <= i < queue.len() ==> !price_within(side, limit, (#[trigger] queue[i]).order_key.price),
    ensures
        supply(queue, side, limit) == 0,
    decreases queue.len(),
{
    if queue.len() > 0 {
        let tail = queue.drop_first();
        assert(!price_within(side, limit, queue[0].order_key.price));
        assert forall|i: int| 0 <= i < tail.len() implies !price_within(
            side,
            limit,
            (#[trigger] tail[i]).order_key.price,
        ) by {
            assert(tail[i] == queue[i + 1]);
        }
        lemma_no_supply(tail, side, limit);
    }
}

/// Crossing goes on until nothing is left of the taker or nothing is
/// offered to it any more.
proof fn lemma_cross_exhausts(resting: Seq<Order>, taker: Order, clock: nat)
    requires
        queue_wf(resting, taker.order_key.order_side.opposite(), clock),
        taker.within_peak(),
        taker.quantity > 0,
        cross(resting, taker, clock).clock <= u64::MAX,
    ensures
        cross(resting, taker, clock).taker.empty() || supply(
            cross(resting, taker, clock).resting,
            taker.order_key.order_side,
            taker.order_key.price,
        ) == 0,
    decreases taker.total(),
{
    let side = taker.order_key.order_side;
    if can_fill(resting, taker) {
        let fill = taker.fill_against(resting[0]);
        let next = after_fill(resting, fill.quantity, clock);
        let later = taker_after_fill(taker, fill.quantity);
        lemma_cross_clock(next.0, later, next.1);
        lemma_after_fill_queue_wf(resting, side.opposite(), fill.quantity, clock);
        if later.quantity > 0 {
            lemma_cross_exhausts(next.0, later, next.1);
        }
    } else if resting.len() > 0 {
        assert(resting[0].can_rest());
        assert forall|i: int| 0 <= i < resting.len() implies !price_within(
            side,
            taker.order_key.price,
            (#[trigger] resting[i]).order_key.price,
        ) by {
            if i > 0 {
                assert(resting[0].order_key.outranks(&resting[i].order_key));
            }
        }
        lemma_no_supply(resting, side, taker.order_key.price);
    }
}

/// Nothing that could trade is left behind. After a submission either the
/// incoming order is used up, or the opposite side holds no order at a price
/// within its limit; so the quantity traded is the lesser of what the order
/// asked for and what the opposite side offered within its limit.
pub proof fn lemma_submit_exhausts(book: BookView, order: Order)
    requires
        book.wf(),
        order.within_peak(),
        order.quantity > 0,
        book.has_time_for(order),
    ensures
        ({
            let after = book.submit(order);
            let side = order.order_key.order_side;
            let offered = supply(book.side(side.opposite()), side, order.order_key.price);
            &&& after.taker.empty() || supply(
                after.book.side(side.opposite()),
                side,
                order.order_key.price,
            ) == 0
            &&& filled(after.fills) == if order.total() <= offered {
                order.total()
            } else {
                offered
            }
        }),
{
    lemma_has_time(book, order);
    let side = order.order_key.order_side;
    let now = book.clock + 1;
    let taker = order.stamped(now as u64);
    let resting = book.side(side.opposite());
    lemma_wf_by_sides(book, side.opposite());
    lemma_cross_clock(resting, taker, now);
    lemma_cross_taker(resting, taker, now);
    lemma_cross_exhausts(resting, taker, now);
    lemma_cross_volume(
        resting,
        taker,
        now,
        |key: OrderKey| price_within(side, order.order_key.price, key.price),
    );
}

} // verus!
