//! Price-time priority matching.
//!
//! An incoming order meets the resting orders of the other side, best price
//! first, and within a price oldest first. Every fill is at the price of the
//! resting order. An order that would meet one of its own trader is cancelled,
//! and the resting one stays as it is.
use crate::domain::order::{Fill, Order, OrderStatus, Side};
use crate::engine::orderbook::{ids, queue_at, BookModel, OrderBook};
use crate::keys::same_text;
use vstd::prelude::*;

verus! {

/// What a match run has come to.
#[verifier::ext_equal]
pub struct MatchState {
    pub book: BookModel,
    pub taker: Order,
    pub fills: Seq<Fill>,
}

/// The side that an order of `side` is matched against.
pub open spec fn opposite(side: Side) -> Side {
    match side {
        Side::Buy => Side::Sell,
        Side::Sell => Side::Buy,
    }
}

/// An order of `side` with limit `limit` takes `price`.
pub open spec fn crosses(side: Side, limit: u64, price: u64) -> bool {
    match side {
        Side::Buy => price <= limit,
        Side::Sell => price >= limit,
    }
}

/// The prices of the side that an order of `side` is matched against, best
/// price first.
pub open spec fn best_first(book: BookModel, side: Side) -> Seq<u64> {
    match side {
        Side::Buy => book.ask_prices(),
        Side::Sell => book.bid_prices(),
    }
}

/// An order after `qty` of it was filled by event `seq`.
pub open spec fn filled_by(order: Order, qty: u64, seq: u64) -> Order {
    Order {
        filled_size_lots: (order.filled_size_lots + qty) as u64,
        last_update_sequence: seq,
        status: if order.filled_size_lots + qty == order.orig_size_lots {
            OrderStatus::Filled
        } else {
            OrderStatus::PartiallyFilled
        },
        ..order
    }
}

/// An order cancelled by self-trade prevention.
pub open spec fn stopped(order: Order, seq: u64) -> Order {
    Order { status: OrderStatus::CancelledStp, last_update_sequence: seq, ..order }
}

pub open spec fn min_qty(a: Order, b: Order) -> u64 {
    if a.remaining() <= b.remaining() {
        a.remaining() as u64
    } else {
        b.remaining() as u64
    }
}

/// The fill of `qty` between `taker` and `maker` at `price`.
pub open spec fn fill_of(taker: Order, maker: Order, price: u64, qty: u64, seq: u64, now: u64) -> Fill {
    Fill {
        market_id: maker.market_id,
        taker_order_id: taker.order_id,
        taker_order_hash: taker.order_hash,
        taker_trader_id: taker.trader_id,
        maker_order_id: maker.order_id,
        maker_order_hash: maker.order_hash,
        maker_trader_id: maker.trader_id,
        price_ticks: price,
        size_lots: qty,
        sequence_id: seq,
        executed_at_ms: now,
    }
}

/// The taker is filled or cancelled.
pub open spec fn done(taker: Order) -> bool {
    taker.remaining() == 0 || taker.closed()
}

/// A maker after a fill of `qty`: it leaves its queue when nothing is left of it.
pub open spec fn maker_filled(book: BookModel, id: Seq<char>, qty: u64, seq: u64) -> BookModel {
    let maker = filled_by(book.orders[id], qty, seq);
    let updated = BookModel { orders: book.orders.insert(id, maker), ..book };
    if maker.closed() {
        updated.dequeue(id)
    } else {
        updated
    }
}

/// The taker meets the resting order `id` at `price`.
///
/// An order that is gone or closed is passed over. An order of the same trader
/// stops the taker. Any other is filled as far as both go.
pub open spec fn meet(st: MatchState, price: u64, id: Seq<char>, seq: u64, now: u64) -> MatchState {
    if !st.book.is_open(id) {
        st
    } else {
        let maker = st.book.orders[id];
        if maker.trader_id@ == st.taker.trader_id@ {
            MatchState { taker: stopped(st.taker, seq), ..st }
        } else {
            let qty = min_qty(st.taker, maker);
            MatchState {
                book: maker_filled(st.book, id, qty, seq),
                taker: filled_by(st.taker, qty, seq),
                fills: st.fills.push(fill_of(st.taker, maker, price, qty, seq, now)),
            }
        }
    }
}

/// The taker meets the orders of `queue` in turn until it is done.
pub open spec fn match_queue(st: MatchState, price: u64, queue: Seq<Seq<char>>, seq: u64, now: u64) -> MatchState
    decreases queue.len(),
{
    if queue.len() == 0 || done(st.taker) {
        st
    } else {
        match_queue(meet(st, price, queue[0], seq, now), price, queue.drop_first(), seq, now)
    }
}

/// The taker meets the queues at `prices` in turn until it is done or a price
/// is beyond its limit.
pub open spec fn match_levels(st: MatchState, prices: Seq<u64>, seq: u64, now: u64) -> MatchState
    decreases prices.len(),
{
    if prices.len() == 0 || done(st.taker) || !crosses(st.taker.side, st.taker.price_ticks, prices[0]) {
        st
    } else {
        let queue = queue_at(st.book.levels(opposite(st.taker.side)), prices[0]);
        match_levels(match_queue(st, prices[0], queue, seq, now), prices.drop_first(), seq, now)
    }
}

/// What matching `taker` against `book` comes to.
pub open spec fn matched(book: BookModel, taker: Order, seq: u64, now: u64) -> MatchState {
    match_levels(
        MatchState { book, taker, fills: Seq::empty() },
        best_first(book, taker.side),
        seq,
        now,
    )
}

/// Match `taker` against `book`.
///
/// `seq_id` is the sequence number of the taker's acceptance, `now_ms` the
/// current time; fills carry both, and the orders carry the number until the fills
/// have numbers of their own. The taker is not put into the book.
pub fn match_order(book: &mut OrderBook, taker: &mut Order, seq_id: u64, now_ms: u64) -> (fills: Vec<Fill>)
    requires
        old(book)@.sane(),
        old(taker).within_size(),
    ensures
        matched(old(book)@, *old(taker), seq_id, now_ms) == (MatchState {
            book: final(book)@,
            taker: *final(taker),
            fills: fills@,
        }),
        final(book)@.sane(),
        final(taker).within_size(),
{
    let mut fills: Vec<Fill> = Vec::new();
    match taker.side {
        Side::Buy => match_buy(book, taker, seq_id, now_ms, &mut fills),
        Side::Sell => match_sell(book, taker, seq_id, now_ms, &mut fills),
    }
    fills
}

/// Match an order to buy against the asks, lowest first.
fn match_buy(book: &mut OrderBook, taker: &mut Order, seq_id: u64, now_ms: u64, fills: &mut Vec<Fill>)
    requires
        old(book)@.sane(),
        old(taker).within_size(),
        old(taker).side == Side::Buy,
    ensures
        match_levels(
            MatchState { book: old(book)@, taker: *old(taker), fills: old(fills)@ },
            old(book)@.ask_prices(),
            seq_id,
            now_ms,
        ) == (MatchState { book: final(book)@, taker: *final(taker), fills: final(fills)@ }),
        final(book)@.sane(),
        final(taker).within_size(),
{
    let prices = book.ask_prices_asc();
    match_prices(book, taker, &prices, seq_id, now_ms, fills);
}

/// Match an order to sell against the bids, highest first.
fn match_sell(book: &mut OrderBook, taker: &mut Order, seq_id: u64, now_ms: u64, fills: &mut Vec<Fill>)
    requires
        old(book)@.sane(),
        old(taker).within_size(),
        old(taker).side == Side::Sell,
    ensures
        match_levels(
            MatchState { book: old(book)@, taker: *old(taker), fills: old(fills)@ },
            old(book)@.bid_prices(),
            seq_id,
            now_ms,
        ) == (MatchState { book: final(book)@, taker: *final(taker), fills: final(fills)@ }),
        final(book)@.sane(),
        final(taker).within_size(),
{
    let prices = book.bid_prices_desc();
    match_prices(book, taker, &prices, seq_id, now_ms, fills);
}

fn match_prices(
    book: &mut OrderBook,
    taker: &mut Order,
    prices: &Vec<u64>,
    seq_id: u64,
    now_ms: u64,
    fills: &mut Vec<Fill>,
)
    requires
        old(book)@.sane(),
        old(taker).within_size(),
    ensures
        match_levels(
            MatchState { book: old(book)@, taker: *old(taker), fills: old(fills)@ },
            prices@,
            seq_id,
            now_ms,
        ) == (MatchState { book: final(book)@, taker: *final(taker), fills: final(fills)@ }),
        final(book)@.sane(),
        final(taker).within_size(),
{
    let side = taker.side;
    let maker_side = match side {
        Side::Buy => Side::Sell,
        Side::Sell => Side::Buy,
    };
    let limit: u64 = taker.price_ticks;
    let ghost start = MatchState { book: book@, taker: *taker, fills: fills@ };
    let mut i: usize = 0;
    proof {
        assert(prices@.skip(0) =~= prices@);
    }
    while i < prices.len()
        invariant_except_break
            match_levels(start, prices@, seq_id, now_ms) == match_levels(
                MatchState { book: book@, taker: *taker, fills: fills@ },
                prices@.skip(i as int),
                seq_id,
                now_ms,
            ),
        invariant
            i <= prices@.len(),
            book@.sane(),
            taker.within_size(),
            taker.side == side,
            taker.price_ticks == limit,
            maker_side == opposite(side),
        ensures
            match_levels(start, prices@, seq_id, now_ms) == (MatchState {
                book: book@,
                taker: *taker,
                fills: fills@,
            }),
        decreases prices@.len() - i,
    {
        let price: u64 = prices[i];
        let in_limit: bool = match side {
            Side::Buy => price <= limit,
            Side::Sell => price >= limit,
        };
        if !in_limit || taker.remaining_size_lots() == 0 || taker.is_closed() {
            break;
        }
        match_at_price_level(book, taker, price, maker_side, seq_id, now_ms, fills);
        proof {
            assert(prices@.skip(i as int).drop_first() =~= prices@.skip(i + 1));
        }
        i = i + 1;
    }
}

/// Match the taker against the queue at one price, oldest order first.
fn match_at_price_level(
    book: &mut OrderBook,
    taker: &mut Order,
    price: u64,
    maker_side: Side,
    seq_id: u64,
    now_ms: u64,
    fills: &mut Vec<Fill>,
)
    requires
        old(book)@.sane(),
        old(taker).within_size(),
        !old(taker).closed(),
    ensures
        match_queue(
            MatchState { book: old(book)@, taker: *old(taker), fills: old(fills)@ },
            price,
            queue_at(old(book)@.levels(maker_side), price),
            seq_id,
            now_ms,
        ) == (MatchState { book: final(book)@, taker: *final(taker), fills: final(fills)@ }),
        final(book)@.sane(),
        final(taker).within_size(),
        final(taker).side == old(taker).side,
        final(taker).price_ticks == old(taker).price_ticks,
{
    let maker_ids = book.orders_at_price(price, maker_side);
    let ghost queue = ids(maker_ids@);
    let ghost start = MatchState { book: book@, taker: *taker, fills: fills@ };
    let mut i: usize = 0;
    proof {
        assert(queue.skip(0) =~= queue);
    }
    while i < maker_ids.len()
        invariant_except_break
            match_queue(start, price, queue, seq_id, now_ms) == match_queue(
                MatchState { book: book@, taker: *taker, fills: fills@ },
                price,
                queue.skip(i as int),
                seq_id,
                now_ms,
            ),
            taker.closed() ==> taker.remaining() == 0,
        invariant
            i <= maker_ids@.len(),
            queue == ids(maker_ids@),
            book@.sane(),
            taker.within_size(),
            taker.side == old(taker).side,
            taker.price_ticks == old(taker).price_ticks,
        ensures
            match_queue(start, price, queue, seq_id, now_ms) == (MatchState {
                book: book@,
                taker: *taker,
                fills: fills@,
            }),
        decreases maker_ids@.len() - i,
    {
        if taker.remaining_size_lots() == 0 {
            break;
        }
        let maker_id = &maker_ids[i];
        let ghost st = MatchState { book: book@, taker: *taker, fills: fills@ };
        proof {
            assert(queue.skip(i as int)[0] == maker_id.key());
            assert(queue.skip(i as int).drop_first() =~= queue.skip(i + 1));
        }
        i = i + 1;
        let maker = match book.get(maker_id) {
            Some(order) => order.clone(),
            None => {
                continue;
            },
        };
        if maker.is_closed() {
            continue;
        }
        if same_text(maker.trader_id.as_str(), taker.trader_id.as_str()) {
            taker.status = OrderStatus::CancelledStp;
            taker.last_update_sequence = seq_id;
            proof {
                let next = MatchState { book: book@, taker: *taker, fills: fills@ };
                assert(meet(st, price, maker_id.key(), seq_id, now_ms) == next);
                assert(match_queue(next, price, queue.skip(i as int), seq_id, now_ms) == next);
            }
            break;
        }
        let left: u64 = taker.remaining_size_lots();
        let maker_left: u64 = maker.remaining_size_lots();
        let fill_qty: u64 = if left <= maker_left {
            left
        } else {
            maker_left
        };
        fills.push(
            Fill {
                market_id: maker.market_id.clone(),
                taker_order_id: taker.order_id.clone(),
                taker_order_hash: taker.order_hash,
                taker_trader_id: taker.trader_id.clone(),
                maker_order_id: maker.order_id.clone(),
                maker_order_hash: maker.order_hash,
                maker_trader_id: maker.trader_id.clone(),
                price_ticks: price,
                size_lots: fill_qty,
                sequence_id: seq_id,
                executed_at_ms: now_ms,
            },
        );
        apply(taker, fill_qty, seq_id);
        let maker_done: bool = match book.get_mut(maker_id) {
            Some(order) => {
                apply(order, fill_qty, seq_id);
                order.is_closed()
            },
            None => false,
        };
        if maker_done {
            book.remove_from_queue(maker_id);
        }
        proof {
            assert(MatchState { book: book@, taker: *taker, fills: fills@ } =~= meet(
                st,
                price,
                maker_id.key(),
                seq_id,
                now_ms,
            ));
        }
    }
}

/// Fill `qty` of an order.
fn apply(order: &mut Order, qty: u64, seq_id: u64)
    requires
        old(order).within_size(),
        qty <= old(order).remaining(),
    ensures
        *final(order) == filled_by(*old(order), qty, seq_id),
{
    order.filled_size_lots = order.filled_size_lots + qty;
    order.last_update_sequence = seq_id;
    order.status = if order.remaining_size_lots() == 0 {
        OrderStatus::Filled
    } else {
        OrderStatus::PartiallyFilled
    };
}

} // verus!
