//! What the lists of an engine hold: its trades, its open orders and its levels.
use crate::domain::order::{Fill, Order, OrderStatus, Side};
use crate::engine::model::{capped, fills_in, Entry};
use crate::engine::orderbook::{lemma_oldest_first, oldest_first, open_ages, queue_fits, queue_qty, rows, rows_fit, top, Age, BookModel, Levels};
use crate::engine::depth_fits;
use crate::events::Event;
use crate::ordmap::{lemma_sorted_ids, sorted_ids, MapKey};
use vstd::prelude::*;

verus! {

/// Every trade of a market is listed, once and in the order of the log: the listed
/// fills are those at certain places of the log, in ascending order, and these are the
/// places of all fills of the market that are numbered `from` or higher.
pub proof fn law_trades_are_listed(log: Seq<Entry>, market: Seq<char>, from: u64) -> (places: Seq<int>)
    ensures
        places.len() == fills_in(log, market, from).len(),
        forall|i: int, j: int| 0 <= i < j < places.len() ==> #[trigger] places[i] < #[trigger] places[j],
        forall|i: int|
            0 <= i < places.len() ==> 0 <= #[trigger] places[i] < log.len() && log[places[i]].event == Event::Fill(
                fills_in(log, market, from)[i],
            ) && log[places[i]].seq_id >= from && fills_in(log, market, from)[i].market_id.0@ == market,
        forall|j: int|
            0 <= j < log.len() && (#[trigger] log[j]).seq_id >= from && (log[j].event matches Event::Fill(fill)
                && fill.market_id.0@ == market) ==> places.contains(j),
    decreases log.len(),
{
    if log.len() == 0 {
        Seq::empty()
    } else {
        let init = log.drop_last();
        let n = log.len() - 1;
        let before = law_trades_are_listed(init, market, from);
        let last = log.last();
        assert(last == log[n]);
        let hit = last.seq_id >= from && (last.event matches Event::Fill(fill) && fill.market_id.0@ == market);
        let places = if hit {
            before.push(n)
        } else {
            before
        };
        assert(fills_in(log, market, from) == (if hit {
            fills_in(init, market, from).push(last.event->Fill_0)
        } else {
            fills_in(init, market, from)
        }));
        assert forall|i: int| 0 <= i < places.len() implies 0 <= #[trigger] places[i] < log.len() && log[places[i]].event
            == Event::Fill(fills_in(log, market, from)[i]) && log[places[i]].seq_id >= from && fills_in(
            log,
            market,
            from,
        )[i].market_id.0@ == market by {
            if i < before.len() {
                assert(places[i] == before[i]);
                assert(init[before[i]] == log[before[i]]);
            }
        }
        assert forall|i: int, j: int| 0 <= i < j < places.len() implies #[trigger] places[i] < #[trigger] places[j] by {
            assert(places[i] == before[i]);
            if j < before.len() {
                assert(places[j] == before[j]);
            }
        }
        assert forall|j: int|
            0 <= j < log.len() && (#[trigger] log[j]).seq_id >= from && (log[j].event matches Event::Fill(fill)
                && fill.market_id.0@ == market) implies places.contains(j) by {
            if j < n {
                assert(init[j] == log[j]);
                assert(before.contains(j));
                let i = choose|i: int| 0 <= i < before.len() && before[i] == j;
                assert(places[i] == j);
            } else {
                assert(places[before.len() as int] == j);
            }
        }
        places
    }
}

/// A list of trades starts where the log does, and a limit only cuts its end: without a
/// limit it is whole, and with one it is the first trades, as many as the limit allows.
pub proof fn law_limit_cuts_the_end(list: Seq<Fill>, limit: usize)
    ensures
        capped(list, limit).is_prefix_of(list),
        limit == 0 ==> capped(list, limit) == list,
        limit > 0 ==> capped(list, limit).len() == vstd::math::min(limit as int, list.len() as int),
{
}

/// The trades from number 0 on are those before a number and those from it on: a list
/// can be fetched in parts.
pub proof fn law_trades_in_parts(log: Seq<Entry>, market: Seq<char>, from: u64)
    requires
        forall|i: int, j: int| 0 <= i < j < log.len() ==> (#[trigger] log[i]).seq_id < (#[trigger] log[j]).seq_id,
    ensures
        exists|head: Seq<Fill>| fills_in(log, market, 0) == #[trigger] (head + fills_in(log, market, from)),
    decreases log.len(),
{
    if log.len() == 0 {
        assert(fills_in(log, market, 0) =~= Seq::<Fill>::empty() + fills_in(log, market, from));
    } else {
        let init = log.drop_last();
        assert forall|i: int, j: int| 0 <= i < j < init.len() implies (#[trigger] init[i]).seq_id < (#[trigger] init[j]).seq_id by {
            assert(init[i] == log[i] && init[j] == log[j]);
        }
        law_trades_in_parts(init, market, from);
        let head = choose|head: Seq<Fill>| fills_in(init, market, 0) == #[trigger] (head + fills_in(init, market, from));
        let last = log.last();
        if last.seq_id >= from {
            match last.event {
                Event::Fill(fill) => {
                    assert((head + fills_in(init, market, from)).push(fill) =~= head + fills_in(init, market, from).push(
                        fill,
                    ));
                },
                _ => {},
            }
            assert(fills_in(log, market, 0) =~= head + fills_in(log, market, from));
        } else {
            assert(log[log.len() - 1] == last);
            lemma_no_trades(log, market, from);
            assert(fills_in(log, market, 0) =~= fills_in(log, market, 0) + fills_in(log, market, from));
        }
    }
}

proof fn lemma_no_trades(log: Seq<Entry>, market: Seq<char>, from: u64)
    requires
        log.len() > 0 ==> log.last().seq_id < from,
        forall|i: int, j: int| 0 <= i < j < log.len() ==> (#[trigger] log[i]).seq_id < (#[trigger] log[j]).seq_id,
    ensures
        fills_in(log, market, from) == Seq::<Fill>::empty(),
{
    let places = law_trades_are_listed(log, market, from);
    if places.len() > 0 {
        let p = places[0];
        assert(log[p].seq_id >= from);
        assert(log[log.len() - 1] == log.last());
    }
    assert(fills_in(log, market, from) =~= Seq::<Fill>::empty());
}

/// The open orders of a book are listed once each, those accepted earlier first: an
/// order is in the list exactly when it is in the book and neither filled nor
/// cancelled.
pub proof fn law_open_orders_are_listed(orders: Map<Seq<char>, Order>)
    requires
        open_ages(orders).finite(),
    ensures
        forall|id: Seq<char>| #[trigger]
            oldest_first(orders).contains(id) <==> orders.contains_key(id) && (orders[id].status == OrderStatus::Open
                || orders[id].status == OrderStatus::PartiallyFilled),
        forall|i: int, j: int|
            0 <= i < j < oldest_first(orders).len() ==> {
                let a = #[trigger] oldest_first(orders)[i];
                let b = #[trigger] oldest_first(orders)[j];
                a != b && orders[a].created_sequence <= orders[b].created_sequence
            },
{
    lemma_oldest_first(orders);
    let set = open_ages(orders);
    let ages = sorted_ids::<Age>(set);
    let list = oldest_first(orders);
    lemma_sorted_ids::<Age>(set);
    assert forall|i: int, j: int| 0 <= i < j < list.len() implies ({
        let a = #[trigger] list[i];
        let b = #[trigger] list[j];
        a != b && orders[a].created_sequence <= orders[b].created_sequence
    }) by {
        assert(ages.to_set().contains(ages[i]) && ages.to_set().contains(ages[j]));
        assert(set.contains(ages[i]) && set.contains(ages[j]));
        assert(Age::before(ages[i], ages[j]));
    }
}

/// The quantity shown for a queue is the sum of what is left of its orders.
pub proof fn law_level_quantity(orders: Map<Seq<char>, Order>, queue: Seq<Seq<char>>, id: Seq<char>)
    ensures
        queue_qty(orders, Seq::empty()) == 0,
        orders.contains_key(id) ==> queue_qty(orders, queue.push(id)) == queue_qty(orders, queue)
            + orders[id].orig_size_lots - orders[id].filled_size_lots,
        !orders.contains_key(id) ==> queue_qty(orders, queue.push(id)) == queue_qty(orders, queue),
        queue_qty(orders, queue) == queue.fold_left(
            0int,
            |sum: int, x: Seq<char>|
                sum + (if orders.contains_key(x) {
                    orders[x].orig_size_lots - orders[x].filled_size_lots
                } else {
                    0
                }),
        ),
{
    assert(queue.push(id).drop_last() =~= queue);
    let plus = |sum: int, x: Seq<char>|
        sum + (if orders.contains_key(x) {
            orders[x].orig_size_lots - orders[x].filled_size_lots
        } else {
            0
        });
    lemma_quantity_is_fold(orders, queue, plus);
}

proof fn lemma_quantity_is_fold(orders: Map<Seq<char>, Order>, queue: Seq<Seq<char>>, plus: spec_fn(int, Seq<char>) -> int)
    requires
        forall|sum: int, x: Seq<char>| #[trigger]
            plus(sum, x) == sum + (if orders.contains_key(x) {
                orders[x].orig_size_lots - orders[x].filled_size_lots
            } else {
                0
            }),
    ensures
        queue_qty(orders, queue) == queue.fold_left(0int, plus),
    decreases queue.len(),
{
    if queue.len() > 0 {
        lemma_quantity_is_fold(orders, queue.drop_last(), plus);
    }
}

/// A depth view shows the best levels, as many as there are or as the depth allows,
/// and of each its price, the sum of what is left of its orders, and their number.
pub proof fn law_depth_view(orders: Map<Seq<char>, Order>, levels: Levels, prices: Seq<u64>, depth: usize, i: int)
    requires
        0 <= i < rows(orders, levels, top(prices, depth)).len(),
        0 <= queue_qty(orders, levels[prices[i]]) <= u64::MAX,
        levels[prices[i]].len() <= usize::MAX,
    ensures
        rows(orders, levels, top(prices, depth)).len() == vstd::math::min(depth as int, prices.len() as int),
        ({
            let shown = rows(orders, levels, top(prices, depth))[i];
            &&& shown.price == prices[i]
            &&& shown.total_qty == queue_qty(orders, levels[prices[i]])
            &&& shown.order_count == levels[prices[i]].len()
        }),
{
}

/// A greater depth shows the same levels first.
pub proof fn law_deeper_view_goes_on(orders: Map<Seq<char>, Order>, levels: Levels, prices: Seq<u64>, depth: usize, more: usize)
    requires
        depth <= more,
    ensures
        rows(orders, levels, top(prices, depth)).is_prefix_of(rows(orders, levels, top(prices, more))),
        more >= prices.len() ==> rows(orders, levels, top(prices, more)).len() == prices.len(),
{
    let a = rows(orders, levels, top(prices, depth));
    let b = rows(orders, levels, top(prices, more));
    assert(a =~= b.take(a.len() as int));
}

/// An order that comes to rest adds what is left of it to the level of its price, and
/// one to the number of orders there; no other level changes.
pub proof fn law_resting_adds_to_level(book: BookModel, order: Order, price: u64)
    requires
        forall|p: u64| #[trigger]
            book.levels(order.side).contains_key(p) ==> !book.levels(order.side)[p].contains(order.order_id.key()),
    ensures
        ({
            let after = book.insert(order);
            let mine = after.levels(order.side);
            let was = book.levels(order.side);
            let other = if order.side == Side::Buy {
                Side::Sell
            } else {
                Side::Buy
            };
            &&& after.levels(other) == book.levels(other)
            &&& price != order.price_ticks ==> mine.contains_key(price) == was.contains_key(price) && (was.contains_key(
                price,
            ) ==> mine[price] == was[price] && queue_qty(after.orders, mine[price]) == queue_qty(book.orders, was[price]))
            &&& mine.contains_key(order.price_ticks)
            &&& was.contains_key(order.price_ticks) ==> mine[order.price_ticks].len() == was[order.price_ticks].len() + 1
                && queue_qty(after.orders, mine[order.price_ticks]) == queue_qty(book.orders, was[order.price_ticks])
                + order.orig_size_lots - order.filled_size_lots
            &&& !was.contains_key(order.price_ticks) ==> mine[order.price_ticks].len() == 1 && queue_qty(
                after.orders,
                mine[order.price_ticks],
            ) == order.orig_size_lots - order.filled_size_lots
        }),
{
    let after = book.insert(order);
    let id = order.order_id.key();
    let was = book.levels(order.side);
    if was.contains_key(price) {
        lemma_quantity_of_others(book.orders, was[price], id, order);
    }
    if was.contains_key(order.price_ticks) {
        let queue = was[order.price_ticks];
        lemma_quantity_of_others(book.orders, queue, id, order);
        law_level_quantity(after.orders, queue, id);
    } else {
        law_level_quantity(after.orders, Seq::empty(), id);
    }
}

/// The quantity of a queue does not depend on orders that are not in it.
proof fn lemma_quantity_of_others(orders: Map<Seq<char>, Order>, queue: Seq<Seq<char>>, id: Seq<char>, order: Order)
    requires
        !queue.contains(id),
    ensures
        queue_qty(orders.insert(id, order), queue) == queue_qty(orders, queue),
    decreases queue.len(),
{
    if queue.len() > 0 {
        let init = queue.drop_last();
        assert forall|i: int| 0 <= i < init.len() implies init[i] != id by {
            assert(queue.contains(queue[i]));
        }
        assert(queue.contains(queue[queue.len() - 1]));
        lemma_quantity_of_others(orders, init, id, order);
    }
}

/// A book can be shown to a depth exactly when, at each price shown, no order has more
/// filled than was ordered and what is left of the orders there adds up to a 64-bit
/// number.
pub proof fn law_depth_fits(book: BookModel, depth: usize)
    ensures
        depth_fits(book, depth) <==> {
            &&& forall|i: int|
                0 <= i < vstd::math::min(depth as int, book.bid_prices().len() as int) ==> level_adds_up(
                    book.orders,
                    book.bids[#[trigger] book.bid_prices()[i]],
                )
            &&& forall|i: int|
                0 <= i < vstd::math::min(depth as int, book.ask_prices().len() as int) ==> level_adds_up(
                    book.orders,
                    book.asks[#[trigger] book.ask_prices()[i]],
                )
        },
{
    lemma_rows_fit(book.orders, book.bids, book.bid_prices(), depth);
    lemma_rows_fit(book.orders, book.asks, book.ask_prices(), depth);
}

/// No order of `queue` has more filled than was ordered, and what is left of them adds up
/// to a 64-bit number.
pub open spec fn level_adds_up(orders: Map<Seq<char>, Order>, queue: Seq<Seq<char>>) -> bool {
    &&& forall|i: int|
        0 <= i < queue.len() && orders.contains_key(#[trigger] queue[i]) ==> orders[queue[i]].filled_size_lots
            <= orders[queue[i]].orig_size_lots
    &&& queue_qty(orders, queue) <= u64::MAX
}

proof fn lemma_rows_fit(orders: Map<Seq<char>, Order>, levels: Levels, prices: Seq<u64>, depth: usize)
    ensures
        rows_fit(orders, levels, top(prices, depth)) <==> forall|i: int|
            0 <= i < vstd::math::min(depth as int, prices.len() as int) ==> level_adds_up(
                orders,
                levels[#[trigger] prices[i]],
            ),
{
    let shown = top(prices, depth);
    let n = vstd::math::min(depth as int, prices.len() as int);
    assert(shown.len() == n);
    assert forall|p: u64| queue_fits(orders, levels[p]) == level_adds_up(orders, #[trigger] levels[p]) by {
        let queue = levels[p];
        if queue_fits(orders, queue) {
            assert forall|i: int| 0 <= i < queue.len() && orders.contains_key(#[trigger] queue[i]) implies orders[queue[i]].filled_size_lots
                <= orders[queue[i]].orig_size_lots by {
                assert(orders[queue[i]].within_size());
            }
        }
    }
    if rows_fit(orders, levels, shown) {
        assert forall|i: int| 0 <= i < n implies level_adds_up(orders, levels[#[trigger] prices[i]]) by {
            assert(shown[i] == prices[i]);
            assert(queue_fits(orders, levels[shown[i]]));
        }
    }
    if forall|i: int| 0 <= i < n ==> level_adds_up(orders, levels[#[trigger] prices[i]]) {
        assert forall|i: int| 0 <= i < shown.len() implies queue_fits(orders, levels[#[trigger] shown[i]]) by {
            assert(shown[i] == prices[i]);
            assert(level_adds_up(orders, levels[prices[i]]));
        }
    }
}

} // verus!
