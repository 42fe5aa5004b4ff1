//! Matching keeps the book well formed: the lemmas behind the book's invariant.

use crate::matching::{
    after_fill, can_fill, cross, disjoint_ids, enqueue, entry_index, queue_holds, queue_wf,
    taker_after_fill, BookView,
};
use crate::order::{Order, OrderKey, OrderSide};
use vstd::prelude::*;

verus! {

/// `entry_index` is the one index that has only orders in front that the key
/// does not outrank, and at it an order that the key outranks, or the end.
pub(crate) proof fn lemma_entry_index(queue: Seq<Order>, key: OrderKey, at: int)
    requires
        0 <= at <= queue.len(),
        forall|j: int| 0 <= j < at ==> !key.outranks(&(#[trigger] queue[j]).order_key),
        at < queue.len() ==> key.outranks(&queue[at].order_key),
    ensures
        entry_index(queue, key) == at,
    decreases queue.len(),
{
    if at > 0 {
        let tail = queue.drop_first();
        assert(!key.outranks(&queue[0].order_key));
        assert forall|j: int| 0 <= j < at - 1 implies !key.outranks(
            &(#[trigger] tail[j]).order_key,
        ) by {
            assert(tail[j] == queue[j + 1]);
        }
        lemma_entry_index(tail, key, at - 1);
    }
}

/// The converse: what holds at and in front of `entry_index`.
pub(crate) proof fn lemma_entry_index_place(queue: Seq<Order>, key: OrderKey)
    ensures
        0 <= entry_index(queue, key) <= queue.len(),
        forall|j: int|
            0 <= j < entry_index(queue, key) ==> !key.outranks(&(#[trigger] queue[j]).order_key),
        entry_index(queue, key) < queue.len() ==> key.outranks(
            &queue[entry_index(queue, key)].order_key,
        ),
    decreases queue.len(),
{
    if !(queue.len() == 0 || key.outranks(&queue[0].order_key)) {
        let tail = queue.drop_first();
        lemma_entry_index_place(tail, key);
        let at = entry_index(tail, key);
        assert forall|j: int| 0 <= j < at + 1 implies !key.outranks(
            &(#[trigger] queue[j]).order_key,
        ) by {
            if j > 0 {
                assert(queue[j] == tail[j - 1]);
            }
        }
        if at < tail.len() {
            assert(tail[at] == queue[at + 1]);
        }
    }
}

/// Adding an order that the side can take keeps the side well formed.
pub(crate) proof fn lemma_enqueue_wf(queue: Seq<Order>, order: Order, side: OrderSide, clock: nat)
    requires
        queue_wf(queue, side, clock),
        order.order_key.order_side == side,
        order.can_rest(),
        order.order_key.timestamp <= clock,
        forall|i: int|
            0 <= i < queue.len() ==> !order.order_key.ties_with(&(#[trigger] queue[i]).order_key)
                && queue[i].order_key.id != order.order_key.id,
    ensures
        queue_wf(enqueue(queue, order), side, clock),
{
    let at = entry_index(queue, order.order_key);
    let after = enqueue(queue, order);
    lemma_entry_index_place(queue, order.order_key);
    assert forall|i: int, j: int| 0 <= i < j < after.len() implies {
        &&& (#[trigger] after[i]).order_key.outranks(&(#[trigger] after[j]).order_key)
        &&& after[i].order_key.id != after[j].order_key.id
    } by {
        if j < at {
            assert(after[i] == queue[i] && after[j] == queue[j]);
        } else if j == at {
            assert(after[i] == queue[i] && after[j] == order);
            assert(!order.order_key.outranks(&queue[i].order_key));
            assert(!order.order_key.ties_with(&queue[i].order_key));
        } else if i < at {
            assert(after[i] == queue[i] && after[j] == queue[j - 1]);
        } else if i == at {
            assert(after[i] == order && after[j] == queue[j - 1]);
            assert(order.order_key.outranks(&queue[at].order_key));
            if j - 1 > at {
                assert(queue[at].order_key.outranks(&queue[j - 1].order_key));
            }
        } else {
            assert(after[i] == queue[i - 1] && after[j] == queue[j - 1]);
        }
    }
    assert forall|i: int| 0 <= i < after.len() implies {
        &&& (#[trigger] after[i]).order_key.order_side == side
        &&& after[i].can_rest()
        &&& after[i].order_key.timestamp <= clock
    } by {
        if i < at {
            assert(after[i] == queue[i]);
        } else if i > at {
            assert(after[i] == queue[i - 1]);
        }
    }
}

/// A side with one more order holds the ids it held, and that order's.
pub(crate) proof fn lemma_insert_holds(queue: Seq<Order>, at: int, order: Order, id: u64)
    requires
        0 <= at <= queue.len(),
    ensures
        queue_holds(queue.insert(at, order), id) <==> (queue_holds(queue, id) || order.order_key.id
            == id),
{
    let after = queue.insert(at, order);
    if queue_holds(queue, id) {
        let i = choose|i: int| 0 <= i < queue.len() && (#[trigger] queue[i]).order_key.id == id;
        if i < at {
            assert(after[i] == queue[i]);
        } else {
            assert(after[i + 1] == queue[i]);
        }
    }
    if order.order_key.id == id {
        assert(after[at] == order);
    }
    if queue_holds(after, id) {
        let i = choose|i: int| 0 <= i < after.len() && (#[trigger] after[i]).order_key.id == id;
        if i < at {
            assert(after[i] == queue[i]);
        } else if i > at {
            assert(after[i] == queue[i - 1]);
        }
    }
}

/// Two sides share no id exactly when neither holds an id of the other.
pub(crate) proof fn lemma_disjoint_ids(left: Seq<Order>, right: Seq<Order>)
    ensures
        disjoint_ids(left, right) <==> (forall|id: u64|
            !(#[trigger] queue_holds(left, id) && queue_holds(right, id))),
        disjoint_ids(left, right) <==> disjoint_ids(right, left),
{
    if disjoint_ids(left, right) {
        assert forall|id: u64| !(#[trigger] queue_holds(left, id) && queue_holds(right, id)) by {
            if queue_holds(left, id) && queue_holds(right, id) {
                let i = choose|i: int| 0 <= i < left.len() && (#[trigger] left[i]).order_key.id == id;
                let j = choose|j: int|
                    0 <= j < right.len() && (#[trigger] right[j]).order_key.id == id;
                assert(left[i].order_key.id != right[j].order_key.id);
            }
        }
    }
    if forall|id: u64| !(#[trigger] queue_holds(left, id) && queue_holds(right, id)) {
        assert forall|i: int, j: int| 0 <= i < left.len() && 0 <= j < right.len() implies (
        #[trigger] left[i]).order_key.id != (#[trigger] right[j]).order_key.id by {
            let id = left[i].order_key.id;
            assert(queue_holds(left, id));
            assert(!queue_holds(right, id));
        }
    }
}

/// Resting an order that the book admits keeps the book well formed.
pub proof fn lemma_rest_wf(book: BookView, order: Order)
    requires
        book.wf(),
        book.admits(order),
    ensures
        book.rest(order).wf(),
{
    let side = order.order_key.order_side;
    let own = book.side(side);
    let other = book.side(side.opposite());
    let after = enqueue(own, order);
    lemma_entry_index_place(own, order.order_key);
    lemma_enqueue_wf(own, order, side, book.clock);
    lemma_disjoint_ids(own, other);
    lemma_disjoint_ids(after, other);
    assert forall|id: u64| !(#[trigger] queue_holds(after, id) && queue_holds(other, id)) by {
        lemma_insert_holds(own, entry_index(own, order.order_key), order, id);
    }
}

/// A side without its best order holds the other ids it held.
pub(crate) proof fn lemma_drop_first_holds(queue: Seq<Order>, id: u64)
    requires
        queue.len() > 0,
    ensures
        queue_holds(queue.drop_first(), id) ==> queue_holds(queue, id),
        queue_holds(queue, id) && queue[0].order_key.id != id ==> queue_holds(
            queue.drop_first(),
            id,
        ),
{
    let tail = queue.drop_first();
    if queue_holds(tail, id) {
        let i = choose|i: int| 0 <= i < tail.len() && (#[trigger] tail[i]).order_key.id == id;
        assert(queue[i + 1] == tail[i]);
    }
    if queue_holds(queue, id) && queue[0].order_key.id != id {
        let i = choose|i: int| 0 <= i < queue.len() && (#[trigger] queue[i]).order_key.id == id;
        assert(tail[i - 1] == queue[i]);
    }
}

/// A side whose best order changed but kept its id holds the ids it held.
pub(crate) proof fn lemma_update_head_holds(queue: Seq<Order>, maker: Order, id: u64)
    requires
        queue.len() > 0,
        maker.order_key.id == queue[0].order_key.id,
    ensures
        queue_holds(queue.update(0, maker), id) <==> queue_holds(queue, id),
{
    let after = queue.update(0, maker);
    if queue_holds(queue, id) {
        let i = choose|i: int| 0 <= i < queue.len() && (#[trigger] queue[i]).order_key.id == id;
        assert(after[i].order_key.id == id);
    }
    if queue_holds(after, id) {
        let i = choose|i: int| 0 <= i < after.len() && (#[trigger] after[i]).order_key.id == id;
        assert(queue[i].order_key.id == id);
    }
}

/// Well-formedness of a book, told from either side.
pub(crate) proof fn lemma_wf_by_sides(book: BookView, side: OrderSide)
    ensures
        book.wf() <==> {
            &&& queue_wf(book.side(side), side, book.clock)
            &&& queue_wf(book.side(side.opposite()), side.opposite(), book.clock)
            &&& disjoint_ids(book.side(side), book.side(side.opposite()))
        },
{
    lemma_disjoint_ids(book.buys, book.sells);
}

/// A well-formed book stays so when only its clock advances.
pub(crate) proof fn lemma_later_wf(book: BookView, clock: nat)
    requires
        book.wf(),
        book.clock <= clock,
    ensures
        (BookView { clock, ..book }).wf(),
{
}

/// A well-formed book without the best order of one side is well formed,
/// and that order's id is gone from it.
pub(crate) proof fn lemma_without_best_wf(book: BookView, side: OrderSide)
    requires
        book.wf(),
        book.side(side).len() > 0,
    ensures
        book.with_side(side, book.side(side).drop_first()).wf(),
        !book.with_side(side, book.side(side).drop_first()).holds(book.side(side)[0].order_key.id),
{
    let own = book.side(side);
    let other = book.side(side.opposite());
    let tail = own.drop_first();
    let after = book.with_side(side, tail);
    let id = own[0].order_key.id;
    lemma_wf_by_sides(book, side);
    lemma_wf_by_sides(after, side);
    assert forall|i: int| 0 <= i < tail.len() implies #[trigger] tail[i] == own[i + 1] by {}
    assert(queue_wf(tail, side, book.clock)) by {
        assert forall|i: int, j: int| 0 <= i < j < tail.len() implies {
            &&& (#[trigger] tail[i]).order_key.outranks(&(#[trigger] tail[j]).order_key)
            &&& tail[i].order_key.id != tail[j].order_key.id
        } by {
            assert(own[i + 1].order_key.outranks(&own[j + 1].order_key));
        }
    }
    assert(disjoint_ids(tail, other));
    assert(!queue_holds(tail, id)) by {
        if queue_holds(tail, id) {
            let i = choose|i: int| 0 <= i < tail.len() && (#[trigger] tail[i]).order_key.id == id;
            assert(own[0].order_key.id != own[i + 1].order_key.id);
        }
    }
    assert(!queue_holds(other, id)) by {
        if queue_holds(other, id) {
            let j = choose|j: int| 0 <= j < other.len() && (#[trigger] other[j]).order_key.id == id;
            assert(own[0].order_key.id != other[j].order_key.id);
        }
    }
}

/// A well-formed book stays so when the best order of one side changes what
/// it shows and hides, but not its key.
pub(crate) proof fn lemma_update_best_wf(book: BookView, side: OrderSide, maker: Order)
    requires
        book.wf(),
        book.side(side).len() > 0,
        maker.order_key == book.side(side)[0].order_key,
        maker.can_rest(),
    ensures
        book.with_side(side, book.side(side).update(0, maker)).wf(),
{
    let own = book.side(side);
    let other = book.side(side.opposite());
    let changed = own.update(0, maker);
    let after = book.with_side(side, changed);
    lemma_wf_by_sides(book, side);
    lemma_wf_by_sides(after, side);
    assert forall|i: int| 0 <= i < changed.len() implies (#[trigger] changed[i]).order_key
        == own[i].order_key && changed[i].can_rest() by {}
    assert(queue_wf(changed, side, book.clock)) by {
        assert forall|i: int, j: int| 0 <= i < j < changed.len() implies {
            &&& (#[trigger] changed[i]).order_key.outranks(&(#[trigger] changed[j]).order_key)
            &&& changed[i].order_key.id != changed[j].order_key.id
        } by {
            assert(own[i].order_key.outranks(&own[j].order_key));
        }
    }
    assert(disjoint_ids(changed, other)) by {
        assert forall|i: int, j: int| 0 <= i < changed.len() && 0 <= j < other.len() implies (
        #[trigger] changed[i]).order_key.id != (#[trigger] other[j]).order_key.id by {
            assert(own[i].order_key.id != other[j].order_key.id);
        }
    }
}

/// The best order of one side used up what it showed and has a reserve: the
/// book without it, one tick later, admits it with its next slice and the
/// new timestamp, and resting it there gives the side that `after_fill` states.
pub(crate) proof fn lemma_requeue_admitted(book: BookView, side: OrderSide, quantity: u64)
    requires
        book.wf(),
        book.side(side).len() > 0,
        quantity == book.side(side)[0].quantity,
        !book.side(side)[0].reduced(quantity).empty(),
        book.clock + 1 <= u64::MAX,
    ensures
        ({
            let removed = BookView {
                clock: book.clock + 1,
                ..book.with_side(side, book.side(side).drop_first())
            };
            let renewed = book.side(side)[0].reduced(quantity).revealed().stamped(
                (book.clock + 1) as u64,
            );
            let next = after_fill(book.side(side), quantity, book.clock);
            &&& removed.wf()
            &&& removed.admits(renewed)
            &&& removed.rest(renewed) == (BookView { clock: next.1, ..book.with_side(side, next.0) })
        }),
{
    let own = book.side(side);
    let tail = own.drop_first();
    let removed = BookView { clock: book.clock + 1, ..book.with_side(side, tail) };
    let renewed = own[0].reduced(quantity).revealed().stamped((book.clock + 1) as u64);
    lemma_without_best_wf(book, side);
    lemma_later_wf(book.with_side(side, tail), book.clock + 1);
    assert(removed.side(side) == tail);
    assert forall|i: int| 0 <= i < tail.len() implies !renewed.order_key.ties_with(
        &(#[trigger] tail[i]).order_key,
    ) by {
        assert(tail[i] == own[i + 1]);
    }
    assert(own[0].can_rest());
    assert(renewed.can_rest());
}

/// One trade against the best order of a side keeps the book well formed,
/// moves the clock by one tick at most, and brings no new id.
pub proof fn lemma_after_fill_wf(book: BookView, side: OrderSide, quantity: u64)
    requires
        book.wf(),
        book.side(side).len() > 0,
        0 < quantity <= book.side(side)[0].quantity,
        after_fill(book.side(side), quantity, book.clock).1 <= u64::MAX,
    ensures
        ({
            let next = after_fill(book.side(side), quantity, book.clock);
            let after = BookView { clock: next.1, ..book.with_side(side, next.0) };
            &&& after.wf()
            &&& book.clock <= next.1 <= book.clock + 1
            &&& after.side(side.opposite()) == book.side(side.opposite())
            &&& forall|id: u64| after.holds(id) ==> book.holds(id)
        }),
{
    let own = book.side(side);
    let tail = own.drop_first();
    let maker = own[0].reduced(quantity);
    let next = after_fill(own, quantity, book.clock);
    let after = BookView { clock: next.1, ..book.with_side(side, next.0) };
    assert(own[0].can_rest());
    if maker.empty() {
        lemma_without_best_wf(book, side);
        assert forall|id: u64| after.holds(id) implies book.holds(id) by {
            lemma_drop_first_holds(own, id);
        }
    } else if maker.quantity == 0 {
        let renewed = maker.revealed().stamped((book.clock + 1) as u64);
        let removed = BookView { clock: book.clock + 1, ..book.with_side(side, tail) };
        lemma_requeue_admitted(book, side, quantity);
        lemma_rest_wf(removed, renewed);
        lemma_entry_index_place(tail, renewed.order_key);
        assert forall|id: u64| after.holds(id) implies book.holds(id) by {
            lemma_insert_holds(tail, entry_index(tail, renewed.order_key), renewed, id);
            lemma_drop_first_holds(own, id);
        }
    } else {
        lemma_update_best_wf(book, side, maker);
        assert forall|id: u64| after.holds(id) implies book.holds(id) by {
            lemma_update_head_holds(own, maker, id);
        }
    }
}

/// Crossing never turns the clock back.
pub proof fn lemma_cross_clock(resting: Seq<Order>, taker: Order, clock: nat)
    ensures
        clock <= cross(resting, taker, clock).clock,
    decreases taker.total(),
{
    if can_fill(resting, taker) {
        let fill = taker.fill_against(resting[0]);
        let next = after_fill(resting, fill.quantity, clock);
        lemma_cross_clock(next.0, taker_after_fill(taker, fill.quantity), next.1);
    }
}

/// One trade against the best order of a well-formed side leaves a
/// well-formed side.
pub(crate) proof fn lemma_after_fill_queue_wf(resting: Seq<Order>, side: OrderSide, quantity: u64, clock: nat)
    requires
        queue_wf(resting, side, clock),
        resting.len() > 0,
        0 < quantity <= resting[0].quantity,
        after_fill(resting, quantity, clock).1 <= u64::MAX,
    ensures
        queue_wf(
            after_fill(resting, quantity, clock).0,
            side,
            after_fill(resting, quantity, clock).1,
        ),
{
    let next = after_fill(resting, quantity, clock);
    let book = (BookView { buys: Seq::empty(), sells: Seq::empty(), clock }).with_side(
        side,
        resting,
    );
    lemma_wf_by_sides(book, side);
    lemma_after_fill_wf(book, side, quantity);
    lemma_wf_by_sides(BookView { clock: next.1, ..book.with_side(side, next.0) }, side);
}

/// Crossing leaves a well-formed book well formed and brings no new id.
pub proof fn lemma_cross_wf(book: BookView, side: OrderSide, taker: Order)
    requires
        book.wf(),
        cross(book.side(side), taker, book.clock).clock <= u64::MAX,
    ensures
        ({
            let crossing = cross(book.side(side), taker, book.clock);
            let crossed = BookView { clock: crossing.clock, ..book.with_side(side, crossing.resting) };
            &&& crossed.wf()
            &&& crossed.side(side.opposite()) == book.side(side.opposite())
            &&& forall|id: u64| crossed.holds(id) ==> book.holds(id)
        }),
    decreases taker.total(),
{
    let resting = book.side(side);
    if can_fill(resting, taker) {
        let fill = taker.fill_against(resting[0]);
        let next = after_fill(resting, fill.quantity, book.clock);
        let later = taker_after_fill(taker, fill.quantity);
        let stepped = BookView { clock: next.1, ..book.with_side(side, next.0) };
        lemma_cross_clock(next.0, later, next.1);
        lemma_after_fill_wf(book, side, fill.quantity);
        assert(stepped.side(side) == next.0);
        lemma_cross_wf(stepped, side, later);
        let crossing = cross(resting, taker, book.clock);
        assert((BookView { clock: crossing.clock, ..stepped.with_side(side, crossing.resting) })
            == (BookView { clock: crossing.clock, ..book.with_side(side, crossing.resting) }));
    } else {
        assert(book.with_side(side, resting) == book);
    }
}

} // verus!
