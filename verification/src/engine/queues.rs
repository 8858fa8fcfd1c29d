//! What the operations on a book do to its queues.
use crate::domain::order::{Order, OrderStatus, Side};
use crate::engine::orderbook::{left, lemma_oldest_first, oldest_first, open_ages, queue_at, without, Age, BookModel, Levels};
use crate::engine::priority::resting;
use crate::ordmap::{lemma_sorted_ids, sorted_ids, MapKey};
use vstd::prelude::*;

verus! {

/// Taking an id out of a queue leaves the others in their order.
pub proof fn law_without_is_filter(queue: Seq<Seq<char>>, id: Seq<char>)
    ensures
        without(queue, id) == queue.filter(|x: Seq<char>| x != id),
{
    lemma_without_is_filter(queue, id, |x: Seq<char>| x != id);
}

proof fn lemma_without_is_filter(queue: Seq<Seq<char>>, id: Seq<char>, others: spec_fn(Seq<char>) -> bool)
    requires
        forall|x: Seq<char>| #[trigger] others(x) == (x != id),
    ensures
        without(queue, id) == queue.filter(others),
    decreases queue.len(),
{
    reveal(Seq::filter);
    if queue.len() > 0 {
        lemma_without_is_filter(queue.drop_last(), id, others);
        assert(others(queue.last()) == (queue.last() != id));
    } else {
        assert(queue =~= Seq::<Seq<char>>::empty());
    }
}

/// The queue of one side at one price.
pub open spec fn queue_of(book: BookModel, side: Side, price: u64) -> Seq<Seq<char>> {
    if side == Side::Buy {
        queue_at(book.bids, price)
    } else {
        queue_at(book.asks, price)
    }
}

/// There is a level at `price` where its queue is not empty.
proof fn lemma_left(levels: Levels, price: u64, id: Seq<char>, p: u64)
    ensures
        queue_at(left(levels, price, id), p) == (if p == price {
            without(queue_at(levels, p), id)
        } else {
            queue_at(levels, p)
        }),
        left(levels, price, id).contains_key(p) ==> (p == price ==> queue_at(left(levels, price, id), p).len() > 0) && (p
            != price ==> levels.contains_key(p)),
        p != price && levels.contains_key(p) ==> left(levels, price, id).contains_key(p),
        left(levels, price, id).contains_key(p) ==> levels.contains_key(p),
        p == price && levels.contains_key(p) && without(levels[p], id).len() > 0 ==> left(levels, price, id).contains_key(p),
{
    assert(without(Seq::<Seq<char>>::empty(), id) =~= Seq::<Seq<char>>::empty());
    if p == price && levels.contains_key(p) && without(levels[p], id).len() == 0 {
        assert(without(levels[p], id) =~= Seq::<Seq<char>>::empty());
    }
}

/// An order comes to rest behind all others of its side and price; every other queue and
/// every other order is as it was.
pub proof fn law_order_joins_the_end(book: BookModel, order: Order, side: Side, price: u64, id: Seq<char>)
    ensures
        ({
            let after = book.insert(order);
            let own = order.order_id.0@;
            &&& queue_of(after, side, price) == (if side == order.side && price == order.price_ticks {
                queue_of(book, side, price).push(own)
            } else {
                queue_of(book, side, price)
            })
            &&& after.orders.contains_key(id) <==> id == own || book.orders.contains_key(id)
            &&& after.orders[own] == order
            &&& id != own ==> after.orders[id] == book.orders[id]
        }),
{
}

/// An order that leaves its queue is in it no more, the others there keep their places,
/// and every other queue is as it was. The orders are as they were, and an order that is
/// not there changes nothing. A level that lost its last order is gone.
pub proof fn law_order_leaves_its_queue(book: BookModel, id: Seq<char>, side: Side, price: u64)
    ensures
        ({
            let after = book.dequeue(id);
            let order = book.orders[id];
            &&& after.orders == book.orders
            &&& queue_of(after, side, price) == (if book.orders.contains_key(id) && side == order.side && price
                == order.price_ticks {
                queue_of(book, side, price).filter(|x: Seq<char>| x != id)
            } else {
                queue_of(book, side, price)
            })
            &&& book.orders.contains_key(id) && order.side == Side::Buy && after.bids.contains_key(order.price_ticks)
                ==> after.bids[order.price_ticks].len() > 0
            &&& book.orders.contains_key(id) && order.side == Side::Sell && after.asks.contains_key(order.price_ticks)
                ==> after.asks[order.price_ticks].len() > 0
            &&& !book.orders.contains_key(id) ==> after == book
        }),
{
    law_without_is_filter(queue_of(book, side, price), id);
    if book.orders.contains_key(id) {
        let order = book.orders[id];
        lemma_left(book.bids, order.price_ticks, id, price);
        lemma_left(book.asks, order.price_ticks, id, price);
        lemma_left(book.bids, order.price_ticks, id, order.price_ticks);
        lemma_left(book.asks, order.price_ticks, id, order.price_ticks);
    }
}

/// A cancel in a book closes an order that is open or partly filled, with the status
/// asked for and nothing else of it changed, and takes it out of its queue, in which the
/// others keep their places. Where the order is closed or not there, nothing changes.
pub proof fn law_cancel_in_book(book: BookModel, id: Seq<char>, status: OrderStatus, side: Side, price: u64)
    ensures
        ({
            let after = book.cancel(id, status);
            let order = book.orders[id];
            let open = book.orders.contains_key(id) && (order.status == OrderStatus::Open || order.status
                == OrderStatus::PartiallyFilled);
            &&& !open ==> after == book
            &&& open ==> after.orders == book.orders.insert(id, Order { status, ..order })
            &&& open ==> queue_of(after, side, price) == (if side == order.side && price == order.price_ticks {
                queue_of(book, side, price).filter(|x: Seq<char>| x != id)
            } else {
                queue_of(book, side, price)
            })
            &&& book.is_open(id) <==> open
        }),
{
    let closed = BookModel { orders: book.orders.insert(id, Order { status, ..book.orders[id] }), ..book };
    law_order_leaves_its_queue(closed, id, side, price);
}

/// The open orders are told oldest first, each once: one that was accepted earlier comes
/// before one that was accepted later.
pub proof fn law_oldest_come_first(orders: Map<Seq<char>, Order>, id: Seq<char>)
    requires
        open_ages(orders).finite(),
    ensures
        ({
            let list = oldest_first(orders);
            &&& list.contains(id) <==> orders.contains_key(id) && resting(orders[id])
            &&& list.no_duplicates()
            &&& forall|i: int, j: int|
                0 <= i < j < list.len() ==> orders[#[trigger] list[i]].created_sequence <= orders[#[trigger] list[j]].created_sequence
        }),
{
    let set = open_ages(orders);
    let ages = sorted_ids::<Age>(set);
    let list = oldest_first(orders);
    lemma_oldest_first(orders);
    lemma_sorted_ids::<Age>(set);
    assert forall|i: int, j: int| 0 <= i < j < list.len() implies orders[#[trigger] list[i]].created_sequence
        <= orders[#[trigger] list[j]].created_sequence by {
        assert(ages.to_set().contains(ages[i]) && ages.to_set().contains(ages[j]));
        assert(set.contains(ages[i]) && set.contains(ages[j]));
        assert(Age::before(ages[i], ages[j]));
    }
    assert(list.contains(id) <==> orders.contains_key(id) && !orders[id].closed());
}

} // verus!
