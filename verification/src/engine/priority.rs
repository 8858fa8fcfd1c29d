//! What a match run comes to, order by order.
use crate::domain::order::{Fill, Order, OrderStatus, Side};
use crate::engine::laws::{fair, law_taker_closed_or_left, lemma_levels, lemma_matched, lemma_meet, lemma_queue, ready, same_order, start_of, volume, volume_of};
use crate::engine::matching::{best_first, crosses, done, fill_of, filled_by, match_levels, match_queue, matched, meet, min_qty, opposite, MatchState};
use crate::engine::orderbook::{queue_at, Age, BookModel};
use crate::engine::tidy::{better, best_to_worst, faces, law_fill_prices, law_match_exhausts, law_price_time_priority, lemma_best_first, lemma_level_used_up, lemma_queue_tidy, lemma_stays_closed, opposes, outranks, tidy, used_up_to};
use crate::ordmap::MapKey;
use crate::replay::{ages, rests_at, side_of};
use vstd::prelude::*;

verus! {

/// The order is in the book for matching: neither filled nor cancelled.
pub open spec fn resting(order: Order) -> bool {
    order.status == OrderStatus::Open || order.status == OrderStatus::PartiallyFilled
}

/// The limits of the two orders meet: one buys, the other sells, for no more than the
/// first would pay.
pub open spec fn limits_meet(taker: Order, maker: Order) -> bool {
    ||| taker.side == Side::Buy && maker.side == Side::Sell && maker.price_ticks <= taker.price_ticks
    ||| taker.side == Side::Sell && maker.side == Side::Buy && taker.price_ticks <= maker.price_ticks
}

/// Of two resting orders that a taker can meet `a` has the better price for the taker,
/// or the same and was accepted earlier.
pub open spec fn goes_first(taker: Order, a: Order, b: Order) -> bool {
    ||| taker.side == Side::Buy && a.price_ticks < b.price_ticks
    ||| taker.side == Side::Sell && a.price_ticks > b.price_ticks
    ||| a.price_ticks == b.price_ticks && a.created_sequence < b.created_sequence
}

/// One of `fills` has the maker `id`.
pub open spec fn named(fills: Seq<Fill>, id: Seq<char>) -> bool {
    exists|k: int| 0 <= k < fills.len() && (#[trigger] fills[k]).maker_order_id.key() == id
}

/// The `k`-th of `fills` is as large as what was left of the taker `t0` and of the
/// maker, which the book `b0` held, and it is booked under `seq` at `now`.
spec fn whole(b0: BookModel, t0: Order, fills: Seq<Fill>, seq: u64, now: u64, k: int) -> bool {
    let fill = fills[k];
    let maker = b0.orders[fill.maker_order_id.key()];
    &&& b0.orders.contains_key(fill.maker_order_id.key())
    &&& fill.size_lots > 0
    &&& fill.size_lots == vstd::math::min(t0.remaining() - volume(fills.take(k)), maker.remaining())
    &&& fill.sequence_id == seq
    &&& fill.executed_at_ms == now
}

/// The run that started with `b0` and `t0` made whole fills with different makers, and
/// left every other order as it was.
spec fn sized(b0: BookModel, t0: Order, st: MatchState, seq: u64, now: u64) -> bool {
    &&& st.taker.remaining() == t0.remaining() - volume(st.fills)
    &&& forall|k: int| 0 <= k < st.fills.len() ==> #[trigger] whole(b0, t0, st.fills, seq, now, k)
    &&& forall|k: int, l: int|
        0 <= k < l < st.fills.len() ==> (#[trigger] st.fills[k]).maker_order_id.key() != (
        #[trigger] st.fills[l]).maker_order_id.key()
    &&& forall|id: Seq<char>| #[trigger] b0.orders.contains_key(id) <==> st.book.orders.contains_key(id)
    &&& forall|id: Seq<char>|
        #[trigger] b0.orders.contains_key(id) && !named(st.fills, id) ==> st.book.orders[id] == b0.orders[id]
}

/// Of every resting order of `b0` something is left.
spec fn something_left(b0: BookModel) -> bool {
    forall|id: Seq<char>|
        #[trigger] b0.orders.contains_key(id) && !b0.orders[id].closed() ==> b0.orders[id].remaining() > 0
}

proof fn lemma_meet_sized(b0: BookModel, t0: Order, st: MatchState, price: u64, id: Seq<char>, seq: u64, now: u64)
    requires
        ready(st),
        !done(st.taker),
        something_left(b0),
        sized(b0, t0, st, seq, now),
        !named(st.fills, id),
    ensures
        sized(b0, t0, meet(st, price, id, seq, now), seq, now),
        forall|x: Seq<char>| #[trigger] named(meet(st, price, id, seq, now).fills, x) ==> named(st.fills, x) || x == id,
{
    let r = meet(st, price, id, seq, now);
    if st.book.is_open(id) && st.book.orders[id].trader_id@ != st.taker.trader_id@ {
        let maker = st.book.orders[id];
        let qty = min_qty(st.taker, maker);
        let fill = fill_of(st.taker, maker, price, qty, seq, now);
        let n = st.fills.len() as int;
        assert(b0.orders.contains_key(id));
        assert(maker == b0.orders[id]);
        assert(maker.order_id.key() == id);
        assert(r.fills == st.fills.push(fill));
        assert(r.fills.drop_last() =~= st.fills);
        assert(r.fills.take(n) =~= st.fills);
        assert(r.book.orders == st.book.orders.insert(id, filled_by(maker, qty, seq)));
        assert forall|k: int| 0 <= k < r.fills.len() implies #[trigger] whole(b0, t0, r.fills, seq, now, k) by {
            if k < n {
                assert(whole(b0, t0, st.fills, seq, now, k));
                assert(r.fills.take(k) =~= st.fills.take(k));
                assert(r.fills[k] == st.fills[k]);
            } else {
                assert(r.fills[k] == fill);
            }
        }
        assert forall|k: int, l: int| 0 <= k < l < r.fills.len() implies (#[trigger] r.fills[k]).maker_order_id.key() != (
        #[trigger] r.fills[l]).maker_order_id.key() by {
            assert(r.fills[k] == st.fills[k]);
            if l < n {
                assert(r.fills[l] == st.fills[l]);
            } else {
                assert(st.fills[k].maker_order_id.key() != id);
            }
        }
        assert forall|x: Seq<char>| #[trigger] named(r.fills, x) implies named(st.fills, x) || x == id by {
            let k = choose|k: int| 0 <= k < r.fills.len() && (#[trigger] r.fills[k]).maker_order_id.key() == x;
            if k < n {
                assert(st.fills[k].maker_order_id.key() == x);
            }
        }
        assert forall|x: Seq<char>| #[trigger] b0.orders.contains_key(x) && !named(r.fills, x) implies r.book.orders[x]
            == b0.orders[x] by {
            assert(r.fills[n].maker_order_id.key() == id);
            if named(st.fills, x) {
                let k = choose|k: int| 0 <= k < st.fills.len() && (#[trigger] st.fills[k]).maker_order_id.key() == x;
                assert(r.fills[k].maker_order_id.key() == x);
            }
        }
    } else {
        assert(r.fills == st.fills);
    }
}

proof fn lemma_queue_sized(
    b0: BookModel,
    t0: Order,
    st: MatchState,
    price: u64,
    queue: Seq<Seq<char>>,
    seq: u64,
    now: u64,
)
    requires
        ready(st),
        something_left(b0),
        sized(b0, t0, st, seq, now),
        queue.no_duplicates(),
        forall|i: int| 0 <= i < queue.len() ==> !named(st.fills, #[trigger] queue[i]),
    ensures
        sized(b0, t0, match_queue(st, price, queue, seq, now), seq, now),
        forall|x: Seq<char>| #[trigger]
            named(match_queue(st, price, queue, seq, now).fills, x) ==> named(st.fills, x) || queue.contains(x),
    decreases queue.len(),
{
    if queue.len() == 0 || done(st.taker) {
    } else {
        let next = meet(st, price, queue[0], seq, now);
        let rest = queue.drop_first();
        lemma_meet(st, price, queue[0], seq, now);
        lemma_meet_sized(b0, t0, st, price, queue[0], seq, now);
        assert forall|i: int| 0 <= i < rest.len() implies !named(next.fills, #[trigger] rest[i]) by {
            assert(rest[i] == queue[i + 1]);
            assert(!named(st.fills, queue[i + 1]));
        }
        assert(rest.no_duplicates()) by {
            assert forall|i: int, j: int| 0 <= i < rest.len() && 0 <= j < rest.len() && i != j implies rest[i] != rest[j] by {
                assert(queue[i + 1] != queue[j + 1]);
            }
        }
        lemma_queue_sized(b0, t0, next, price, rest, seq, now);
        let r = match_queue(st, price, queue, seq, now);
        assert forall|x: Seq<char>| #[trigger] named(r.fills, x) implies named(st.fills, x) || queue.contains(x) by {
            if rest.contains(x) {
                let i = choose|i: int| 0 <= i < rest.len() && rest[i] == x;
                assert(queue[i + 1] == x);
            }
            assert(queue.contains(queue[0]));
        }
    }
}

/// A queue of a tidy book holds no order twice, and only orders at its price.
proof fn lemma_tidy_queue(book: BookModel, market: Seq<char>, side: Side, price: u64)
    requires
        tidy(book, market),
    ensures
        queue_at(book.levels(side), price).no_duplicates(),
        forall|id: Seq<char>| #[trigger]
            queue_at(book.levels(side), price).contains(id) <==> book.is_open(id) && book.orders[id].side == side
                && book.orders[id].price_ticks == price,
        forall|i: int, j: int|
            0 <= i < j < queue_at(book.levels(side), price).len() ==> book.orders[#[trigger] queue_at(
                book.levels(side),
                price,
            )[i]].created_sequence <= book.orders[#[trigger] queue_at(book.levels(side), price)[j]].created_sequence,
{
    let levels = book.levels(side);
    let queue = queue_at(levels, price);
    assert(side_of(book.orders, market, side, levels));
    assert forall|id: Seq<char>| #[trigger] queue.contains(id) <==> book.is_open(id) && book.orders[id].side == side
        && book.orders[id].price_ticks == price by {
        assert(queue.contains(id) <==> rests_at(book.orders, market, side, price, id));
    }
    let all = ages(book.orders, queue);
    assert forall|i: int, j: int| 0 <= i < j < queue.len() implies queue[i] != queue[j] && book.orders[queue[i]].created_sequence
        <= book.orders[queue[j]].created_sequence by {
        assert(levels.contains_key(price));
        assert(Age::before(all[i], all[j]));
        Age::before_irreflexive(all[i]);
    }
}

proof fn lemma_levels_sized(
    b0: BookModel,
    t0: Order,
    st: MatchState,
    market: Seq<char>,
    prices: Seq<u64>,
    seq: u64,
    now: u64,
)
    requires
        ready(st),
        tidy(st.book, market),
        something_left(b0),
        sized(b0, t0, st, seq, now),
        prices.no_duplicates(),
        forall|x: Seq<char>| #[trigger] named(st.fills, x) ==> !prices.contains(st.book.orders[x].price_ticks),
    ensures
        sized(b0, t0, match_levels(st, prices, seq, now), seq, now),
    decreases prices.len(),
{
    if prices.len() == 0 || done(st.taker) || !crosses(st.taker.side, st.taker.price_ticks, prices[0]) {
    } else {
        let side = opposite(st.taker.side);
        let price = prices[0];
        let rest = prices.drop_first();
        let queue = queue_at(st.book.levels(side), price);
        let mid = match_queue(st, price, queue, seq, now);
        lemma_tidy_queue(st.book, market, side, price);
        assert(prices.contains(price));
        assert forall|i: int| 0 <= i < queue.len() implies !named(st.fills, #[trigger] queue[i]) by {
            assert(queue.contains(queue[i]));
        }
        lemma_queue(st, price, queue, seq, now);
        lemma_queue_sized(b0, t0, st, price, queue, seq, now);
        lemma_queue_tidy(st, market, price, queue, seq, now);
        assert forall|x: Seq<char>| #[trigger] named(mid.fills, x) implies !rest.contains(mid.book.orders[x].price_ticks) by {
            let k = choose|k: int| 0 <= k < mid.fills.len() && (#[trigger] mid.fills[k]).maker_order_id.key() == x;
            assert(whole(b0, t0, mid.fills, seq, now, k));
            assert(b0.orders.contains_key(x));
            assert(st.book.orders.contains_key(x));
            assert(same_order(st.book.orders[x], mid.book.orders[x]));
            let p = st.book.orders[x].price_ticks;
            if rest.contains(p) {
                let i = choose|i: int| 0 <= i < rest.len() && rest[i] == p;
                assert(prices[i + 1] == p);
                assert(prices.contains(p));
                assert(prices[0] != prices[i + 1]);
            }
        }
        assert(rest.no_duplicates()) by {
            assert forall|i: int, j: int| 0 <= i < rest.len() && 0 <= j < rest.len() && i != j implies rest[i] != rest[j] by {
                assert(prices[i + 1] != prices[j + 1]);
            }
        }
        lemma_levels_sized(b0, t0, mid, market, rest, seq, now);
    }
}

proof fn lemma_matched_sized(book: BookModel, market: Seq<char>, taker: Order, seq: u64, now: u64)
    requires
        tidy(book, market),
        taker.within_size(),
    ensures
        sized(book, taker, matched(book, taker, seq, now), seq, now),
{
    let st = start_of(book, taker);
    let prices = best_first(book, taker.side);
    lemma_best_first(book, taker.side);
    assert(prices.no_duplicates()) by {
        assert forall|i: int, j: int| 0 <= i < prices.len() && 0 <= j < prices.len() && i != j implies prices[i]
            != prices[j] by {
            if i < j {
                assert(better(taker.side, prices[i], prices[j]));
            } else {
                assert(better(taker.side, prices[j], prices[i]));
            }
        }
    }
    assert(sized(book, taker, st, seq, now));
    lemma_levels_sized(book, taker, st, market, prices, seq, now);
}

/// What a fill tells: the maker is an order that was resting in the book, of another
/// trader and on the other side, whose limit meets the taker's; the fill is at the
/// maker's price, names both orders with their hashes and traders, and carries the
/// number and the time of the run. It is as large as what was left of both, and no
/// maker is filled twice in a run.
pub proof fn law_fill_tells(book: BookModel, market: Seq<char>, taker: Order, seq: u64, now: u64, k: int)
    requires
        tidy(book, market),
        taker.within_size(),
        0 <= k < matched(book, taker, seq, now).fills.len(),
    ensures
        ({
            let fills = matched(book, taker, seq, now).fills;
            let fill = fills[k];
            let id = fill.maker_order_id.0@;
            let maker = book.orders[id];
            let left = taker.orig_size_lots - taker.filled_size_lots - volume(fills.take(k));
            &&& book.orders.contains_key(id)
            &&& resting(maker)
            &&& limits_meet(taker, maker)
            &&& maker.trader_id@ != taker.trader_id@
            &&& fill.price_ticks == maker.price_ticks
            &&& fill.size_lots == vstd::math::min(left, maker.orig_size_lots - maker.filled_size_lots)
            &&& fill.size_lots > 0
            &&& fill.market_id == maker.market_id
            &&& fill.market_id.0@ == market
            &&& fill.taker_order_id == taker.order_id
            &&& fill.taker_order_hash == taker.order_hash
            &&& fill.taker_trader_id == taker.trader_id
            &&& fill.maker_order_hash == maker.order_hash
            &&& fill.maker_trader_id == maker.trader_id
            &&& fill.sequence_id == seq
            &&& fill.executed_at_ms == now
            &&& forall|l: int|
                0 <= l < fills.len() && l != k ==> (#[trigger] fills[l]).maker_order_id.0@ != id
        }),
{
    let m = matched(book, taker, seq, now);
    let fills = m.fills;
    lemma_matched(book, taker, seq, now);
    lemma_matched_sized(book, market, taker, seq, now);
    law_fill_prices(book, market, taker, seq, now, k);
    assert(fair(start_of(book, taker), fills[k]));
    assert(whole(book, taker, fills, seq, now, k));
    assert forall|l: int| 0 <= l < fills.len() && l != k implies (#[trigger] fills[l]).maker_order_id.0@
        != fills[k].maker_order_id.0@ by {
        if l < k {
            assert(fills[l].maker_order_id.key() != fills[k].maker_order_id.key());
        } else {
            assert(fills[k].maker_order_id.key() != fills[l].maker_order_id.key());
        }
    }
}

/// An order of the book that no fill names comes out of a run as it went in; one that
/// a fill names has that much more filled, is filled where nothing is left of it and
/// partly filled otherwise, and changes in nothing else.
pub proof fn law_maker_comes_out(book: BookModel, market: Seq<char>, taker: Order, seq: u64, now: u64, id: Seq<char>)
    requires
        tidy(book, market),
        taker.within_size(),
        book.orders.contains_key(id),
    ensures
        ({
            let m = matched(book, taker, seq, now);
            let after = m.book.orders[id];
            &&& m.book.orders.contains_key(id)
            &&& (forall|k: int| 0 <= k < m.fills.len() ==> (#[trigger] m.fills[k]).maker_order_id.0@ != id) ==> after
                == book.orders[id]
            &&& forall|k: int|
                0 <= k < m.fills.len() && (#[trigger] m.fills[k]).maker_order_id.0@ == id ==> {
                    let filled = book.orders[id].filled_size_lots + m.fills[k].size_lots;
                    after == (Order {
                        filled_size_lots: filled as u64,
                        status: if filled == book.orders[id].orig_size_lots {
                            OrderStatus::Filled
                        } else {
                            OrderStatus::PartiallyFilled
                        },
                        last_update_sequence: after.last_update_sequence,
                        ..book.orders[id]
                    }) && filled <= book.orders[id].orig_size_lots
                }
        }),
{
    let m = matched(book, taker, seq, now);
    lemma_matched(book, taker, seq, now);
    lemma_matched_sized(book, market, taker, seq, now);
    if forall|k: int| 0 <= k < m.fills.len() ==> (#[trigger] m.fills[k]).maker_order_id.0@ != id {
        assert(!named(m.fills, id));
    }
    assert(m.book.orders.contains_key(id));
    assert forall|k: int| 0 <= k < m.fills.len() && (#[trigger] m.fills[k]).maker_order_id.0@ == id implies ({
        let after = m.book.orders[id];
        let filled = book.orders[id].filled_size_lots + m.fills[k].size_lots;
        after == (Order {
            filled_size_lots: filled as u64,
            status: if filled == book.orders[id].orig_size_lots {
                OrderStatus::Filled
            } else {
                OrderStatus::PartiallyFilled
            },
            last_update_sequence: after.last_update_sequence,
            ..book.orders[id]
        }) && filled <= book.orders[id].orig_size_lots
    }) by {
        assert(whole(book, taker, m.fills, seq, now, k));
        lemma_only_fill(m.fills, id, k);
        assert(same_order(book.orders[id], m.book.orders[id]));
        lemma_levels_made(start_of(book, taker), best_first(book, taker.side), seq, now);
        assert(made(m, id)) by {
            assert(named(m.fills, id));
        }
    }
}

/// Where a run filled the order `id`, its status says whether something is left.
spec fn made(st: MatchState, id: Seq<char>) -> bool {
    st.book.orders[id].status == (if st.book.orders[id].remaining() == 0 {
        OrderStatus::Filled
    } else {
        OrderStatus::PartiallyFilled
    })
}

/// Every order that a run filled has the status that goes with what is left of it.
spec fn all_made(st: MatchState) -> bool {
    forall|id: Seq<char>| #[trigger] named(st.fills, id) ==> made(st, id)
}

proof fn lemma_meet_made(st: MatchState, price: u64, id: Seq<char>, seq: u64, now: u64)
    requires
        ready(st),
        all_made(st),
    ensures
        all_made(meet(st, price, id, seq, now)),
{
    let r = meet(st, price, id, seq, now);
    if st.book.is_open(id) && st.book.orders[id].trader_id@ != st.taker.trader_id@ {
        let maker = st.book.orders[id];
        let qty = min_qty(st.taker, maker);
        assert(maker.order_id.key() == id);
        assert(r.book.orders == st.book.orders.insert(id, filled_by(maker, qty, seq)));
        assert forall|x: Seq<char>| #[trigger] named(r.fills, x) implies made(r, x) by {
            let k = choose|k: int| 0 <= k < r.fills.len() && (#[trigger] r.fills[k]).maker_order_id.key() == x;
            if k < st.fills.len() {
                assert(st.fills[k].maker_order_id.key() == x);
                assert(named(st.fills, x));
            } else {
                assert(x == id);
            }
        }
    }
}

proof fn lemma_queue_made(st: MatchState, price: u64, queue: Seq<Seq<char>>, seq: u64, now: u64)
    requires
        ready(st),
        all_made(st),
    ensures
        all_made(match_queue(st, price, queue, seq, now)),
    decreases queue.len(),
{
    if queue.len() == 0 || done(st.taker) {
    } else {
        lemma_meet(st, price, queue[0], seq, now);
        lemma_meet_made(st, price, queue[0], seq, now);
        lemma_queue_made(meet(st, price, queue[0], seq, now), price, queue.drop_first(), seq, now);
    }
}

proof fn lemma_levels_made(st: MatchState, prices: Seq<u64>, seq: u64, now: u64)
    requires
        ready(st),
        all_made(st),
    ensures
        all_made(match_levels(st, prices, seq, now)),
    decreases prices.len(),
{
    if prices.len() == 0 || done(st.taker) || !crosses(st.taker.side, st.taker.price_ticks, prices[0]) {
    } else {
        let queue = queue_at(st.book.levels(opposite(st.taker.side)), prices[0]);
        lemma_queue(st, prices[0], queue, seq, now);
        lemma_queue_made(st, prices[0], queue, seq, now);
        lemma_levels_made(match_queue(st, prices[0], queue, seq, now), prices.drop_first(), seq, now);
    }
}

/// What the fills of an order add up to where only one of them is its.
proof fn lemma_only_fill(fills: Seq<Fill>, id: Seq<char>, k: int)
    requires
        0 <= k < fills.len(),
        fills[k].maker_order_id.key() == id,
        forall|a: int, b: int|
            0 <= a < b < fills.len() ==> (#[trigger] fills[a]).maker_order_id.key() != (
            #[trigger] fills[b]).maker_order_id.key(),
    ensures
        volume_of(fills, id) == fills[k].size_lots,
    decreases fills.len(),
{
    let init = fills.drop_last();
    let n = fills.len() - 1;
    assert(fills.last() == fills[n]);
    assert forall|a: int, b: int| 0 <= a < b < init.len() implies (#[trigger] init[a]).maker_order_id.key() != (
    #[trigger] init[b]).maker_order_id.key() by {
        assert(fills[a].maker_order_id.key() != fills[b].maker_order_id.key());
    }
    if k < n {
        assert(fills[k].maker_order_id.key() != fills[n].maker_order_id.key());
        assert(init[k] == fills[k]);
        lemma_only_fill(init, id, k);
    } else {
        assert forall|a: int| 0 <= a < init.len() implies (#[trigger] init[a]).maker_order_id.key() != id by {
            assert(fills[a].maker_order_id.key() != fills[n].maker_order_id.key());
        }
        lemma_no_fill(init, id);
    }
}

proof fn lemma_no_fill(fills: Seq<Fill>, id: Seq<char>)
    requires
        forall|a: int| 0 <= a < fills.len() ==> (#[trigger] fills[a]).maker_order_id.key() != id,
    ensures
        volume_of(fills, id) == 0,
    decreases fills.len(),
{
    if fills.len() > 0 {
        let init = fills.drop_last();
        assert forall|a: int| 0 <= a < init.len() implies (#[trigger] init[a]).maker_order_id.key() != id by {
            assert(init[a] == fills[a]);
        }
        assert(fills.last() == fills[fills.len() - 1]);
        lemma_no_fill(init, id);
    }
}

/// Where a run over `queue` stopped its taker, it met an open order of the same trader,
/// and used up all before it.
proof fn lemma_queue_stop(st: MatchState, price: u64, queue: Seq<Seq<char>>, seq: u64, now: u64)
    requires
        ready(st),
        !(st.taker.status == OrderStatus::CancelledStp),
    ensures
        ({
            let r = match_queue(st, price, queue, seq, now);
            r.taker.status == OrderStatus::CancelledStp ==> r.taker.remaining() > 0 && exists|j: int| #[trigger]
                used_up_to(r.book, queue, j) && st.book.is_open(queue[j]) && st.book.orders[queue[j]].trader_id@
                    == st.taker.trader_id@
        }),
    decreases queue.len(),
{
    let r = match_queue(st, price, queue, seq, now);
    if queue.len() == 0 || done(st.taker) {
    } else {
        let next = meet(st, price, queue[0], seq, now);
        let rest = queue.drop_first();
        lemma_meet(st, price, queue[0], seq, now);
        lemma_queue(next, price, rest, seq, now);
        if next.taker.status == OrderStatus::CancelledStp {
            assert(r == next);
            assert(used_up_to(r.book, queue, 0));
        } else {
            lemma_queue_stop(next, price, rest, seq, now);
            if r.taker.status == OrderStatus::CancelledStp {
                let j = choose|j: int| #[trigger]
                    used_up_to(r.book, rest, j) && next.book.is_open(rest[j]) && next.book.orders[rest[j]].trader_id@
                        == next.taker.trader_id@;
                assert(!done(next.taker)) by {
                    if done(next.taker) {
                        assert(r == next);
                    }
                }
                let first = queue[0];
                assert(!next.book.is_open(first));
                lemma_stays_closed(next, r, first);
                let own = rest[j];
                assert(queue[j + 1] == own);
                if !st.book.is_open(own) {
                    lemma_stays_closed(st, next, own);
                }
                assert(st.book.orders.contains_key(own));
                assert(same_order(st.book.orders[own], next.book.orders[own]));
                assert(used_up_to(r.book, queue, j + 1)) by {
                    assert forall|i: int| 0 <= i < j + 1 implies !r.book.is_open(#[trigger] queue[i]) by {
                        if i > 0 {
                            assert(queue[i] == rest[i - 1]);
                        }
                    }
                }
            }
        }
    }
}

/// The run from `st` to `r` over `prices` was stopped by the open order `own` of the same
/// trader: it would have taken it, and used up all that comes before it.
spec fn stopped_at(st: MatchState, r: MatchState, prices: Seq<u64>, own: Seq<char>) -> bool {
    &&& faces(st, prices, own)
    &&& st.book.orders[own].trader_id@ == st.taker.trader_id@
    &&& crosses(st.taker.side, st.taker.price_ticks, st.book.orders[own].price_ticks)
    &&& forall|x: Seq<char>|
        #[trigger] faces(st, prices, x) && outranks(st.taker.side, st.book.orders[x], st.book.orders[own])
            ==> !r.book.is_open(x)
}

proof fn lemma_level_stop(st: MatchState, market: Seq<char>, price: u64, seq: u64, now: u64)
    requires
        ready(st),
        tidy(st.book, market),
        crosses(st.taker.side, st.taker.price_ticks, price),
        !(st.taker.status == OrderStatus::CancelledStp),
    ensures
        ({
            let r = match_queue(st, price, queue_at(st.book.levels(opposite(st.taker.side)), price), seq, now);
            r.taker.status == OrderStatus::CancelledStp ==> r.taker.remaining() > 0 && exists|own: Seq<char>| #[trigger]
                stopped_at(st, r, seq![price], own)
        }),
{
    let side = opposite(st.taker.side);
    let levels = st.book.levels(side);
    let queue = queue_at(levels, price);
    let r = match_queue(st, price, queue, seq, now);
    let one = seq![price];
    assert(one[0] == price);
    assert(side_of(st.book.orders, market, side, levels));
    lemma_queue_stop(st, price, queue, seq, now);
    if r.taker.status == OrderStatus::CancelledStp {
        let j = choose|j: int| #[trigger]
            used_up_to(r.book, queue, j) && st.book.is_open(queue[j]) && st.book.orders[queue[j]].trader_id@
                == st.taker.trader_id@;
        let own = queue[j];
        assert(queue.contains(own));
        assert(rests_at(st.book.orders, market, side, price, own));
        assert(one.contains(price));
        assert forall|x: Seq<char>| #[trigger] faces(st, one, x) && outranks(
            st.taker.side,
            st.book.orders[x],
            st.book.orders[own],
        ) implies !r.book.is_open(x) by {
            assert(st.book.orders[x].price_ticks == price);
            assert(rests_at(st.book.orders, market, side, price, x));
            assert(queue.contains(x));
            let i = choose|i: int| 0 <= i < queue.len() && queue[i] == x;
            let all = ages(st.book.orders, queue);
            Age::before_irreflexive(all[i]);
            if j < i {
                Age::before_transitive(all[i], all[j], all[i]);
            }
            assert(i < j);
            assert(!r.book.is_open(queue[i]));
        }
        assert(stopped_at(st, r, one, own));
    }
}

proof fn lemma_levels_stop(st: MatchState, market: Seq<char>, prices: Seq<u64>, seq: u64, now: u64)
    requires
        ready(st),
        tidy(st.book, market),
        best_to_worst(st.taker.side, prices),
        !(st.taker.status == OrderStatus::CancelledStp),
    ensures
        ({
            let r = match_levels(st, prices, seq, now);
            r.taker.status == OrderStatus::CancelledStp ==> r.taker.remaining() > 0 && exists|own: Seq<char>| #[trigger]
                stopped_at(st, r, prices, own)
        }),
    decreases prices.len(),
{
    let r = match_levels(st, prices, seq, now);
    if prices.len() == 0 || done(st.taker) || !crosses(st.taker.side, st.taker.price_ticks, prices[0]) {
    } else {
        let side = st.taker.side;
        let price = prices[0];
        let rest = prices.drop_first();
        let one = seq![price];
        let queue = queue_at(st.book.levels(opposite(side)), price);
        let mid = match_queue(st, price, queue, seq, now);
        assert(one[0] == price);
        assert(prices.contains(price));
        assert forall|i: int, j: int| 0 <= i < j < rest.len() implies better(side, #[trigger] rest[i], #[trigger] rest[j]) by {
            assert(better(side, prices[i + 1], prices[j + 1]));
        }
        lemma_queue(st, price, queue, seq, now);
        lemma_level_stop(st, market, price, seq, now);
        lemma_queue_tidy(st, market, price, queue, seq, now);
        lemma_levels(mid, rest, seq, now);
        if mid.taker.status == OrderStatus::CancelledStp {
            assert(r == mid);
            let own = choose|own: Seq<char>| #[trigger] stopped_at(st, mid, one, own);
            assert(st.book.orders[own].price_ticks == price);
            assert forall|x: Seq<char>| #[trigger] faces(st, prices, x) && outranks(
                side,
                st.book.orders[x],
                st.book.orders[own],
            ) implies !r.book.is_open(x) by {
                let i = choose|i: int| 0 <= i < prices.len() && prices[i] == st.book.orders[x].price_ticks;
                if i > 0 {
                    assert(better(side, prices[0], prices[i]));
                }
                assert(faces(st, one, x));
            }
            assert(stopped_at(st, r, prices, own));
        } else {
            lemma_levels_stop(mid, market, rest, seq, now);
            if r.taker.status == OrderStatus::CancelledStp {
                let own = choose|own: Seq<char>| #[trigger] stopped_at(mid, r, rest, own);
                assert(!done(mid.taker)) by {
                    if done(mid.taker) {
                        assert(r == mid);
                    }
                }
                assert(faces(mid, rest, own));
                if !st.book.is_open(own) {
                    lemma_stays_closed(st, mid, own);
                }
                assert(st.book.orders.contains_key(own));
                assert(same_order(st.book.orders[own], mid.book.orders[own]));
                let k = choose|k: int| 0 <= k < rest.len() && rest[k] == mid.book.orders[own].price_ticks;
                assert(prices[k + 1] == rest[k]);
                assert(prices.contains(prices[k + 1]));
                assert(faces(st, prices, own));
                assert forall|x: Seq<char>| #[trigger] faces(st, prices, x) && outranks(
                    side,
                    st.book.orders[x],
                    st.book.orders[own],
                ) implies !r.book.is_open(x) by {
                    if mid.book.is_open(x) {
                        assert(st.book.orders.contains_key(x));
                        assert(same_order(st.book.orders[x], mid.book.orders[x]));
                        let i = choose|i: int| 0 <= i < prices.len() && prices[i] == st.book.orders[x].price_ticks;
                        if i == 0 {
                            lemma_level_used_up(st, market, price, seq, now, x);
                            assert(false);
                        }
                        assert(rest[i - 1] == prices[i]);
                        assert(faces(mid, rest, x));
                    } else {
                        lemma_stays_closed(mid, r, x);
                    }
                }
                assert(stopped_at(st, r, prices, own));
            }
        }
    }
}

/// A taker is stopped by self-trade prevention exactly when something is left of it at
/// the end and the book holds a resting order of the same trader whose limit meets its
/// own. Then there is such an order before which nothing is left: whatever goes first is
/// used up.
pub proof fn law_stopped_by_own_order(book: BookModel, market: Seq<char>, taker: Order, seq: u64, now: u64)
    requires
        tidy(book, market),
        taker.status == OrderStatus::Open,
        taker.filled_size_lots < taker.orig_size_lots,
    ensures
        ({
            let m = matched(book, taker, seq, now);
            &&& m.taker.status == OrderStatus::CancelledStp <==> m.taker.filled_size_lots < m.taker.orig_size_lots
                && exists|own: Seq<char>| #[trigger]
                book.orders.contains_key(own) && resting(book.orders[own]) && limits_meet(taker, book.orders[own])
                    && book.orders[own].trader_id@ == taker.trader_id@
            &&& m.taker.status == OrderStatus::CancelledStp ==> exists|own: Seq<char>| #[trigger]
                book.orders.contains_key(own) && resting(book.orders[own]) && limits_meet(taker, book.orders[own])
                    && book.orders[own].trader_id@ == taker.trader_id@ && used_up_before(book, m.book, taker, own)
        }),
{
    let st = start_of(book, taker);
    let m = matched(book, taker, seq, now);
    let prices = best_first(book, taker.side);
    lemma_best_first(book, taker.side);
    lemma_matched(book, taker, seq, now);
    lemma_levels_stop(st, market, prices, seq, now);
    law_taker_closed_or_left(book, taker, seq, now);
    if m.taker.status == OrderStatus::CancelledStp {
        let own = choose|own: Seq<char>| #[trigger] stopped_at(st, m, prices, own);
        assert(book.orders.contains_key(own) && resting(book.orders[own]) && limits_meet(taker, book.orders[own])
            && book.orders[own].trader_id@ == taker.trader_id@);
        assert(used_up_before(book, m.book, taker, own)) by {
            assert forall|x: Seq<char>|
                #[trigger] book.orders.contains_key(x) && resting(book.orders[x]) && book.orders[x].side
                    != taker.side && goes_first(taker, book.orders[x], book.orders[own]) implies !resting(
                m.book.orders[x],
            ) by {
                assert(opposes(book, taker.side, x));
                lemma_faces(book, market, taker, x);
                assert(book.orders[x].order_id.key() == x && book.orders[own].order_id.key() == own);
                assert(outranks(taker.side, book.orders[x], book.orders[own]));
                assert(faces(st, prices, x));
                assert(m.book.orders.contains_key(x));
            }
        }
    }
    if m.taker.filled_size_lots < m.taker.orig_size_lots && exists|own: Seq<char>| #[trigger]
        book.orders.contains_key(own) && resting(book.orders[own]) && limits_meet(taker, book.orders[own])
            && book.orders[own].trader_id@ == taker.trader_id@ {
        let own = choose|own: Seq<char>| #[trigger]
            book.orders.contains_key(own) && resting(book.orders[own]) && limits_meet(taker, book.orders[own])
                && book.orders[own].trader_id@ == taker.trader_id@;
        assert(m.book.orders[own] == book.orders[own]);
        assert(m.book.orders.contains_key(own));
        if !done(m.taker) {
            law_match_exhausts(book, market, taker, seq, now, own);
        }
    }
}

/// Every resting order of the other side that goes before `own` is used up in `after`.
pub open spec fn used_up_before(book: BookModel, after: BookModel, taker: Order, own: Seq<char>) -> bool {
    forall|x: Seq<char>|
        #[trigger] book.orders.contains_key(x) && resting(book.orders[x]) && book.orders[x].side != taker.side
            && goes_first(taker, book.orders[x], book.orders[own]) ==> !resting(after.orders[x])
}

/// A resting order of the other side is at one of the prices that a taker meets.
proof fn lemma_faces(book: BookModel, market: Seq<char>, taker: Order, id: Seq<char>)
    requires
        tidy(book, market),
        opposes(book, taker.side, id),
    ensures
        faces(start_of(book, taker), best_first(book, taker.side), id),
{
    let side = opposite(taker.side);
    let price = book.orders[id].price_ticks;
    lemma_best_first(book, taker.side);
    assert(rests_at(book.orders, market, side, price, id));
    assert(queue_at(book.levels(side), price).contains(id));
}

/// Price and time decide: where a run fills an order, every resting order of the other
/// side that goes before it is used up by the end of the run. And where something is
/// left of the taker and nobody stopped it, no resting order remains whose limit meets
/// its own.
pub proof fn law_price_and_time_decide(
    book: BookModel,
    market: Seq<char>,
    taker: Order,
    seq: u64,
    now: u64,
    k: int,
    id: Seq<char>,
)
    requires
        tidy(book, market),
        taker.status == OrderStatus::Open,
        taker.filled_size_lots < taker.orig_size_lots,
        book.orders.contains_key(id),
        resting(book.orders[id]),
        book.orders[id].side != taker.side,
    ensures
        ({
            let m = matched(book, taker, seq, now);
            &&& 0 <= k < m.fills.len() && goes_first(
                taker,
                book.orders[id],
                book.orders[m.fills[k].maker_order_id.0@],
            ) ==> !resting(m.book.orders[id])
            &&& resting(m.taker) && limits_meet(taker, book.orders[id]) ==> !resting(m.book.orders[id])
            &&& !limits_meet(taker, book.orders[id]) ==> m.book.orders[id] == book.orders[id]
        }),
{
    let m = matched(book, taker, seq, now);
    lemma_matched(book, taker, seq, now);
    lemma_matched_sized(book, market, taker, seq, now);
    assert(m.book.orders.contains_key(id));
    assert(opposes(book, taker.side, id));
    if 0 <= k < m.fills.len() && goes_first(taker, book.orders[id], book.orders[m.fills[k].maker_order_id.0@]) {
        law_fill_tells(book, market, taker, seq, now, k);
        let maker = m.fills[k].maker_order_id.0@;
        assert(book.orders[maker].order_id.key() == maker && book.orders[id].order_id.key() == id);
        law_price_time_priority(book, market, taker, seq, now, k, id);
    }
    if resting(m.taker) && limits_meet(taker, book.orders[id]) && resting(m.book.orders[id]) {
        law_taker_closed_or_left(book, taker, seq, now);
        assert(same_order(book.orders[id], m.book.orders[id]));
        law_match_exhausts(book, market, taker, seq, now, id);
    }
    if !limits_meet(taker, book.orders[id]) {
        assert(!named(m.fills, id)) by {
            if named(m.fills, id) {
                let j = choose|j: int| 0 <= j < m.fills.len() && (#[trigger] m.fills[j]).maker_order_id.key() == id;
                law_fill_tells(book, market, taker, seq, now, j);
            }
        }
    }
}

/// What the status of a taker tells at the end of a run: it is filled exactly when
/// nothing is left, open exactly when there was no fill and nobody stopped it, partly
/// filled when there were fills, something is left and nobody stopped it. Only what is
/// filled, the status and the number of the last change differ from what went in.
pub proof fn law_taker_status(book: BookModel, market: Seq<char>, taker: Order, seq: u64, now: u64)
    requires
        tidy(book, market),
        taker.status == OrderStatus::Open,
        taker.filled_size_lots == 0,
        taker.orig_size_lots > 0,
    ensures
        ({
            let m = matched(book, taker, seq, now);
            let stopped = m.taker.status == OrderStatus::CancelledStp;
            &&& m.taker == (Order {
                filled_size_lots: m.taker.filled_size_lots,
                status: m.taker.status,
                last_update_sequence: m.taker.last_update_sequence,
                ..taker
            })
            &&& m.taker.filled_size_lots == volume(m.fills)
            &&& m.taker.filled_size_lots <= taker.orig_size_lots
            &&& m.taker.status == OrderStatus::Filled <==> m.taker.filled_size_lots == taker.orig_size_lots
            &&& m.taker.status == OrderStatus::Open <==> m.fills.len() == 0 && !stopped
            &&& m.taker.status == OrderStatus::PartiallyFilled <==> m.fills.len() > 0 && m.taker.filled_size_lots
                < taker.orig_size_lots && !stopped
        }),
{
    let m = matched(book, taker, seq, now);
    let st = start_of(book, taker);
    lemma_matched(book, taker, seq, now);
    law_taker_closed_or_left(book, taker, seq, now);
    law_stopped_by_own_order(book, market, taker, seq, now);
    lemma_levels_told(st, best_first(book, taker.side), seq, now);
    if m.fills.len() > 0 {
        law_fill_tells(book, market, taker, seq, now, 0);
        assert(m.fills.take(0) =~= Seq::<Fill>::empty());
    }
}

/// The status of the taker says whether it was filled.
spec fn told(st: MatchState) -> bool {
    &&& st.taker.status == OrderStatus::Open ==> st.fills.len() == 0
    &&& st.taker.status == OrderStatus::PartiallyFilled ==> st.fills.len() > 0
    &&& st.taker.status == OrderStatus::Filled ==> st.fills.len() > 0
}

proof fn lemma_queue_told(st: MatchState, price: u64, queue: Seq<Seq<char>>, seq: u64, now: u64)
    requires
        told(st),
    ensures
        told(match_queue(st, price, queue, seq, now)),
    decreases queue.len(),
{
    if queue.len() == 0 || done(st.taker) {
    } else {
        lemma_queue_told(meet(st, price, queue[0], seq, now), price, queue.drop_first(), seq, now);
    }
}

proof fn lemma_levels_told(st: MatchState, prices: Seq<u64>, seq: u64, now: u64)
    requires
        told(st),
    ensures
        told(match_levels(st, prices, seq, now)),
    decreases prices.len(),
{
    if prices.len() == 0 || done(st.taker) || !crosses(st.taker.side, st.taker.price_ticks, prices[0]) {
    } else {
        let queue = queue_at(st.book.levels(opposite(st.taker.side)), prices[0]);
        lemma_queue_told(st, prices[0], queue, seq, now);
        lemma_levels_told(match_queue(st, prices[0], queue, seq, now), prices.drop_first(), seq, now);
    }
}

/// The queue at a price of a tidy book, which is what calls leave, holds the resting
/// orders of its side at that price and no others, each once, those accepted earlier
/// first.
pub proof fn law_queues_hold_resting_orders(book: BookModel, market: Seq<char>, price: u64, id: Seq<char>)
    requires
        tidy(book, market),
    ensures
        book.bids.contains_key(price) && book.bids[price].contains(id) <==> book.orders.contains_key(id) && resting(
            book.orders[id],
        ) && book.orders[id].side == Side::Buy && book.orders[id].price_ticks == price,
        book.asks.contains_key(price) && book.asks[price].contains(id) <==> book.orders.contains_key(id) && resting(
            book.orders[id],
        ) && book.orders[id].side == Side::Sell && book.orders[id].price_ticks == price,
        book.bids.contains_key(price) ==> book.bids[price].len() > 0 && forall|i: int, j: int|
            0 <= i < j < book.bids[price].len() ==> {
                let a = #[trigger] book.bids[price][i];
                let b = #[trigger] book.bids[price][j];
                a != b && book.orders[a].created_sequence <= book.orders[b].created_sequence
            },
        book.asks.contains_key(price) ==> book.asks[price].len() > 0 && forall|i: int, j: int|
            0 <= i < j < book.asks[price].len() ==> {
                let a = #[trigger] book.asks[price][i];
                let b = #[trigger] book.asks[price][j];
                a != b && book.orders[a].created_sequence <= book.orders[b].created_sequence
            },
{
    lemma_tidy_queue(book, market, Side::Buy, price);
    lemma_tidy_queue(book, market, Side::Sell, price);
    assert(queue_at(book.bids, price).contains(id) <==> book.is_open(id) && book.orders[id].side == Side::Buy
        && book.orders[id].price_ticks == price) by {
        assert(book.levels(Side::Buy) == book.bids);
    }
    assert(queue_at(book.asks, price).contains(id) <==> book.is_open(id) && book.orders[id].side == Side::Sell
        && book.orders[id].price_ticks == price) by {
        assert(book.levels(Side::Sell) == book.asks);
    }
    if book.bids.contains_key(price) {
        let queue = queue_at(book.levels(Side::Buy), price);
        assert(queue == book.bids[price]);
        assert forall|i: int, j: int| 0 <= i < j < book.bids[price].len() implies ({
            let a = #[trigger] book.bids[price][i];
            let b = #[trigger] book.bids[price][j];
            a != b && book.orders[a].created_sequence <= book.orders[b].created_sequence
        }) by {
            assert(queue[i] != queue[j]);
        }
    }
    if book.asks.contains_key(price) {
        let queue = queue_at(book.levels(Side::Sell), price);
        assert(queue == book.asks[price]);
        assert forall|i: int, j: int| 0 <= i < j < book.asks[price].len() implies ({
            let a = #[trigger] book.asks[price][i];
            let b = #[trigger] book.asks[price][j];
            a != b && book.orders[a].created_sequence <= book.orders[b].created_sequence
        }) by {
            assert(queue[i] != queue[j]);
        }
    }
}

} // verus!
