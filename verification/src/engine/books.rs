//! What holds of every book, however it was built.
use crate::domain::order::{Order, OrderStatus, Side};
use crate::engine::matching::{best_first, crosses, done, filled_by, match_levels, match_queue, matched, meet, min_qty, opposite, MatchState};
use crate::engine::orderbook::{is_best_ask, is_best_bid, joined, left, queue_at, without, BookModel, Levels};
use crate::engine::tidy::{better, lemma_best_first, lemma_without, tidy};
use crate::replay::rests_at;
use vstd::prelude::*;

verus! {

/// The order `id` is an open order of `side` at `price`.
pub open spec fn waits(orders: Map<Seq<char>, Order>, side: Side, price: u64, id: Seq<char>) -> bool {
    orders.contains_key(id) && !orders[id].closed() && orders[id].side == side && orders[id].price_ticks == price
}

/// There is an open order of `side` at `price`.
pub open spec fn open_at(book: BookModel, side: Side, price: u64) -> bool {
    exists|id: Seq<char>| #[trigger] waits(book.orders, side, price, id)
}

/// Each queue of `levels` holds the open orders of `side` at its price and nothing
/// else, and no level is empty.
pub open spec fn side_queued(orders: Map<Seq<char>, Order>, side: Side, levels: Levels) -> bool {
    &&& levels.dom().finite()
    &&& forall|p: u64| #[trigger] levels.contains_key(p) ==> levels[p].len() > 0
    &&& forall|p: u64, id: Seq<char>| #[trigger] queue_at(levels, p).contains(id) <==> waits(orders, side, p, id)
}

/// The queues of a book hold its open orders and nothing else.
pub open spec fn queued(book: BookModel) -> bool {
    side_queued(book.orders, Side::Buy, book.bids) && side_queued(book.orders, Side::Sell, book.asks)
}

/// A side stays as it is when an order changes that is none of its open orders
/// before and after, or the same one.
proof fn lemma_side_stays(orders: Map<Seq<char>, Order>, side: Side, levels: Levels, id: Seq<char>, order: Order)
    requires
        side_queued(orders, side, levels),
        forall|p: u64| waits(orders, side, p, id) == waits(orders.insert(id, order), side, p, id),
    ensures
        side_queued(orders.insert(id, order), side, levels),
{
    let after = orders.insert(id, order);
    assert forall|p: u64, x: Seq<char>| #[trigger] queue_at(levels, p).contains(x) <==> waits(after, side, p, x) by {
        assert(queue_at(levels, p).contains(x) <==> waits(orders, side, p, x));
        if x == id {
            assert(waits(orders, side, p, id) == waits(after, side, p, id));
        }
    }
}

/// A new open order joins the queue of its price.
proof fn lemma_insert_queued(book: BookModel, order: Order)
    requires
        queued(book),
        !order.closed(),
        !book.orders.contains_key(order.order_id.key()),
    ensures
        queued(book.insert(order)),
{
    let id = order.order_id.key();
    let price = order.price_ticks;
    let side = order.side;
    let levels = book.levels(side);
    let orders = book.orders.insert(id, order);
    let after = joined(levels, price, id);
    assert forall|p: u64, x: Seq<char>| #[trigger] queue_at(after, p).contains(x) <==> waits(orders, side, p, x) by {
        let queue = queue_at(levels, p);
        assert(queue.contains(x) <==> waits(book.orders, side, p, x));
        if p == price {
            assert(queue.push(id)[queue.len() as int] == id);
            if queue.contains(x) {
                let i = choose|i: int| 0 <= i < queue.len() && queue[i] == x;
                assert(queue.push(id)[i] == x);
            }
        }
    }
    match side {
        Side::Buy => lemma_side_stays(book.orders, Side::Sell, book.asks, id, order),
        Side::Sell => lemma_side_stays(book.orders, Side::Buy, book.bids, id, order),
    }
}

/// An open order that is closed leaves the queue of its price.
proof fn lemma_close_queued(book: BookModel, id: Seq<char>, order: Order)
    requires
        queued(book),
        book.is_open(id),
        order.closed(),
        order.side == book.orders[id].side,
        order.price_ticks == book.orders[id].price_ticks,
    ensures
        queued(book.close_as(id, order)),
{
    let price = order.price_ticks;
    let side = order.side;
    let levels = book.levels(side);
    let orders = book.orders.insert(id, order);
    let after = left(levels, price, id);
    lemma_without(queue_at(levels, price), id);
    assert forall|p: u64, x: Seq<char>| #[trigger] queue_at(after, p).contains(x) <==> waits(orders, side, p, x) by {
        assert(queue_at(levels, p).contains(x) <==> waits(book.orders, side, p, x));
        if p == price && levels.contains_key(p) {
            let w = without(levels[p], id);
            assert(w.contains(x) <==> levels[p].contains(x) && x != id);
            if w.len() == 0 {
                assert(!w.contains(x));
                assert(queue_at(after, p) =~= Seq::<Seq<char>>::empty());
            } else {
                assert(queue_at(after, p) == w);
            }
        }
        if x == id && queue_at(after, p).contains(x) {
            assert(queue_at(levels, p).contains(x));
            assert(p == price);
        }
    }
    match side {
        Side::Buy => lemma_side_stays(book.orders, Side::Sell, book.asks, id, order),
        Side::Sell => lemma_side_stays(book.orders, Side::Buy, book.bids, id, order),
    }
}

/// Meeting a resting order keeps the queues of a book.
proof fn lemma_meet_queued(st: MatchState, price: u64, id: Seq<char>, seq: u64, now: u64)
    requires
        queued(st.book),
    ensures
        queued(meet(st, price, id, seq, now).book),
{
    if st.book.is_open(id) && st.book.orders[id].trader_id@ != st.taker.trader_id@ {
        let qty = min_qty(st.taker, st.book.orders[id]);
        let maker = filled_by(st.book.orders[id], qty, seq);
        if maker.closed() {
            lemma_close_queued(st.book, id, maker);
        } else {
            lemma_side_stays(st.book.orders, Side::Buy, st.book.bids, id, maker);
            lemma_side_stays(st.book.orders, Side::Sell, st.book.asks, id, maker);
        }
    }
}

proof fn lemma_queue_queued(st: MatchState, price: u64, queue: Seq<Seq<char>>, seq: u64, now: u64)
    requires
        queued(st.book),
    ensures
        queued(match_queue(st, price, queue, seq, now).book),
    decreases queue.len(),
{
    if queue.len() == 0 || done(st.taker) {
    } else {
        lemma_meet_queued(st, price, queue[0], seq, now);
        lemma_queue_queued(meet(st, price, queue[0], seq, now), price, queue.drop_first(), seq, now);
    }
}

proof fn lemma_levels_queued(st: MatchState, prices: Seq<u64>, seq: u64, now: u64)
    requires
        queued(st.book),
    ensures
        queued(match_levels(st, prices, seq, now).book),
    decreases prices.len(),
{
    if prices.len() == 0 || done(st.taker) || !crosses(st.taker.side, st.taker.price_ticks, prices[0]) {
    } else {
        let queue = queue_at(st.book.levels(opposite(st.taker.side)), prices[0]);
        lemma_queue_queued(st, prices[0], queue, seq, now);
        lemma_levels_queued(match_queue(st, prices[0], queue, seq, now), prices.drop_first(), seq, now);
    }
}

/// What can be done with a book.
pub enum BookStep {
    Insert { order: Order },
    Cancel { id: Seq<char>, status: OrderStatus },
    Match { taker: Order, seq: u64, now: u64 },
}

/// A step can be taken: an order that is inserted is open and has an id that is not
/// used yet, and a cancel closes.
pub open spec fn can_step(book: BookModel, step: BookStep) -> bool {
    match step {
        BookStep::Insert { order } => !order.closed() && !book.orders.contains_key(order.order_id.key()),
        BookStep::Cancel { id, status } => status.closed(),
        BookStep::Match { taker, seq, now } => true,
    }
}

/// The book after a step.
pub open spec fn book_after(book: BookModel, step: BookStep) -> BookModel {
    match step {
        BookStep::Insert { order } => book.insert(order),
        BookStep::Cancel { id, status } => book.cancel(id, status),
        BookStep::Match { taker, seq, now } => matched(book, taker, seq, now).book,
    }
}

/// The book that `steps` make of an empty one.
pub open spec fn built(steps: Seq<BookStep>) -> BookModel
    decreases steps.len(),
{
    if steps.len() == 0 {
        BookModel::empty()
    } else {
        book_after(built(steps.drop_last()), steps.last())
    }
}

/// Each of `steps` can be taken in its turn.
pub open spec fn can_build(steps: Seq<BookStep>) -> bool
    decreases steps.len(),
{
    steps.len() == 0 || (can_build(steps.drop_last()) && can_step(built(steps.drop_last()), steps.last()))
}

/// Inserting an open order under a new id, cancelling and matching keep the queues:
/// they hold the open orders and nothing else.
pub proof fn law_steps_keep_queues(book: BookModel, step: BookStep)
    requires
        queued(book),
        can_step(book, step),
    ensures
        queued(book_after(book, step)),
{
    match step {
        BookStep::Insert { order } => lemma_insert_queued(book, order),
        BookStep::Cancel { id, status } => {
            if book.is_open(id) {
                lemma_close_queued(book, id, Order { status, ..book.orders[id] });
            }
        },
        BookStep::Match { taker, seq, now } => lemma_levels_queued(
            MatchState { book, taker, fills: Seq::empty() },
            best_first(book, taker.side),
            seq,
            now,
        ),
    }
}

/// The queues of every book hold its open orders and nothing else, whatever was
/// inserted, cancelled and matched.
pub proof fn law_built_books_queued(steps: Seq<BookStep>)
    requires
        can_build(steps),
    ensures
        queued(built(steps)),
    decreases steps.len(),
{
    if steps.len() > 0 {
        law_built_books_queued(steps.drop_last());
        law_steps_keep_queues(built(steps.drop_last()), steps.last());
    }
}

/// The queues of a tidy book hold its open orders and nothing else.
pub proof fn law_tidy_books_queued(book: BookModel, market: Seq<char>)
    requires
        tidy(book, market),
    ensures
        queued(book),
{
    assert forall|p: u64, id: Seq<char>| #[trigger] queue_at(book.bids, p).contains(id) <==> waits(
        book.orders,
        Side::Buy,
        p,
        id,
    ) by {
        assert(queue_at(book.bids, p).contains(id) <==> rests_at(book.orders, market, Side::Buy, p, id));
    }
    assert forall|p: u64, id: Seq<char>| #[trigger] queue_at(book.asks, p).contains(id) <==> waits(
        book.orders,
        Side::Sell,
        p,
        id,
    ) by {
        assert(queue_at(book.asks, p).contains(id) <==> rests_at(book.orders, market, Side::Sell, p, id));
    }
}

/// There is a level at a price exactly when there is an open order at it.
proof fn lemma_level_is_open(book: BookModel, side: Side, price: u64)
    requires
        queued(book),
    ensures
        book.levels(side).contains_key(price) <==> open_at(book, side, price),
        book.levels(side).contains_key(price) <==> queue_at(book.levels(side), price).len() > 0,
{
    let queue = queue_at(book.levels(side), price);
    if book.levels(side).contains_key(price) {
        assert(queue.contains(queue[0]));
        assert(waits(book.orders, side, price, queue[0]));
    }
    if open_at(book, side, price) {
        let id = choose|id: Seq<char>| #[trigger] waits(book.orders, side, price, id);
        assert(queue.contains(id));
    }
}

/// The prices that a taker of `side` meets are listed once each, best first, and they
/// are those at which there is an open order, which are those with a queue that is
/// not empty.
proof fn lemma_prices_are_those_of_open_orders(book: BookModel, side: Side)
    requires
        queued(book),
    ensures
        forall|i: int, j: int|
            0 <= i < j < best_first(book, side).len() ==> better(
                side,
                #[trigger] best_first(book, side)[i],
                #[trigger] best_first(book, side)[j],
            ),
        forall|p: u64| #[trigger] best_first(book, side).contains(p) <==> open_at(book, opposite(side), p),
        forall|p: u64| #[trigger]
            best_first(book, side).contains(p) <==> queue_at(book.levels(opposite(side)), p).len() > 0,
{
    lemma_best_first(book, side);
    assert forall|p: u64| (#[trigger] best_first(book, side).contains(p) <==> open_at(book, opposite(side), p)) && (best_first(
        book,
        side,
    ).contains(p) <==> queue_at(book.levels(opposite(side)), p).len() > 0) by {
        lemma_level_is_open(book, opposite(side), p);
    }
}

/// The ask prices are strictly ascending, and they are those of the open orders to
/// sell; no empty level is listed.
pub proof fn law_ask_prices(book: BookModel)
    requires
        queued(book),
    ensures
        forall|i: int, j: int|
            0 <= i < j < book.ask_prices().len() ==> #[trigger] book.ask_prices()[i] < #[trigger] book.ask_prices()[j],
        forall|p: u64| #[trigger] book.ask_prices().contains(p) <==> open_at(book, Side::Sell, p),
        forall|p: u64| #[trigger] book.ask_prices().contains(p) <==> queue_at(book.asks, p).len() > 0,
{
    lemma_prices_are_those_of_open_orders(book, Side::Buy);
    assert(best_first(book, Side::Buy) == book.ask_prices());
    assert(opposite(Side::Buy) == Side::Sell);
}

/// The bid prices are strictly descending, and they are those of the open orders to
/// buy; no empty level is listed.
pub proof fn law_bid_prices(book: BookModel)
    requires
        queued(book),
    ensures
        forall|i: int, j: int|
            0 <= i < j < book.bid_prices().len() ==> #[trigger] book.bid_prices()[i] > #[trigger] book.bid_prices()[j],
        forall|p: u64| #[trigger] book.bid_prices().contains(p) <==> open_at(book, Side::Buy, p),
        forall|p: u64| #[trigger] book.bid_prices().contains(p) <==> queue_at(book.bids, p).len() > 0,
{
    lemma_prices_are_those_of_open_orders(book, Side::Sell);
    assert(best_first(book, Side::Sell) == book.bid_prices());
    assert(opposite(Side::Sell) == Side::Buy);
}

/// The best bid is the highest price of the open orders to buy and the first of the
/// bid prices; there is none exactly when no order to buy is open.
pub proof fn law_best_bid(book: BookModel, best: Option<u64>)
    requires
        queued(book),
        is_best_bid(book, best),
    ensures
        match best {
            Some(best) => {
                &&& open_at(book, Side::Buy, best)
                &&& forall|p: u64| #[trigger] open_at(book, Side::Buy, p) ==> p <= best
                &&& book.bid_prices().len() > 0 && book.bid_prices()[0] == best
            },
            None => {
                &&& forall|p: u64| !#[trigger] open_at(book, Side::Buy, p)
                &&& book.bid_prices().len() == 0
            },
        },
{
    let prices = book.bid_prices();
    law_bid_prices(book);
    assert forall|p: u64| book.bids.contains_key(p) <==> #[trigger] open_at(book, Side::Buy, p) by {
        lemma_level_is_open(book, Side::Buy, p);
    }
    match best {
        Some(best) => {
            assert(open_at(book, Side::Buy, best));
            assert(prices.contains(best));
            let i = choose|i: int| 0 <= i < prices.len() && prices[i] == best;
            assert(prices.contains(prices[0]));
            assert(open_at(book, Side::Buy, prices[0]));
        },
        None => {
            if prices.len() > 0 {
                assert(prices.contains(prices[0]));
                assert(open_at(book, Side::Buy, prices[0]));
            }
        },
    }
}

/// The best ask is the lowest price of the open orders to sell and the first of the
/// ask prices; there is none exactly when no order to sell is open.
pub proof fn law_best_ask(book: BookModel, best: Option<u64>)
    requires
        queued(book),
        is_best_ask(book, best),
    ensures
        match best {
            Some(best) => {
                &&& open_at(book, Side::Sell, best)
                &&& forall|p: u64| #[trigger] open_at(book, Side::Sell, p) ==> best <= p
                &&& book.ask_prices().len() > 0 && book.ask_prices()[0] == best
            },
            None => {
                &&& forall|p: u64| !#[trigger] open_at(book, Side::Sell, p)
                &&& book.ask_prices().len() == 0
            },
        },
{
    let prices = book.ask_prices();
    law_ask_prices(book);
    assert forall|p: u64| book.asks.contains_key(p) <==> #[trigger] open_at(book, Side::Sell, p) by {
        lemma_level_is_open(book, Side::Sell, p);
    }
    match best {
        Some(best) => {
            assert(open_at(book, Side::Sell, best));
            assert(prices.contains(best));
            let i = choose|i: int| 0 <= i < prices.len() && prices[i] == best;
            assert(prices.contains(prices[0]));
            assert(open_at(book, Side::Sell, prices[0]));
        },
        None => {
            if prices.len() > 0 {
                assert(prices.contains(prices[0]));
                assert(open_at(book, Side::Sell, prices[0]));
            }
        },
    }
}

} // verus!
