//! What holds of every match run.
use crate::domain::order::{Fill, Order, OrderStatus};
use crate::engine::matching::{best_first, crosses, done, fill_of, filled_by, match_levels, match_queue, matched, meet, min_qty, opposite, MatchState};
use crate::engine::model::{numbered, renumbered};
use crate::engine::orderbook::{own_ids, queue_at, BookModel};
use vstd::prelude::*;

verus! {

/// `b` is the order `a` at another time: only what fills and cancels change differs.
pub open spec fn same_order(a: Order, b: Order) -> bool {
    b == (Order {
        filled_size_lots: b.filled_size_lots,
        status: b.status,
        last_update_sequence: b.last_update_sequence,
        ..a
    })
}

/// The total quantity of `fills`.
pub open spec fn volume(fills: Seq<Fill>) -> int
    decreases fills.len(),
{
    if fills.len() == 0 {
        0
    } else {
        volume(fills.drop_last()) + fills.last().size_lots
    }
}

/// The total quantity of those of `fills` whose maker is `id`.
pub open spec fn volume_of(fills: Seq<Fill>, id: Seq<char>) -> int
    decreases fills.len(),
{
    if fills.len() == 0 {
        0
    } else {
        volume_of(fills.drop_last(), id) + if fills.last().maker_order_id.key() == id {
            fills.last().size_lots as int
        } else {
            0
        }
    }
}

/// `fill` is one between the taker of `st` and an open order of another trader.
pub open spec fn fair(st: MatchState, fill: Fill) -> bool {
    let id = fill.maker_order_id.key();
    let maker = st.book.orders[id];
    &&& st.book.is_open(id)
    &&& fill.taker_order_id == st.taker.order_id
    &&& fill.taker_order_hash == st.taker.order_hash
    &&& fill.taker_trader_id == st.taker.trader_id
    &&& fill.maker_order_hash == maker.order_hash
    &&& fill.maker_trader_id == maker.trader_id
    &&& fill.market_id == maker.market_id
    &&& maker.trader_id@ != st.taker.trader_id@
}

/// A match run went from `a` to `b`.
pub open spec fn progress(a: MatchState, b: MatchState) -> bool {
    &&& same_order(a.taker, b.taker)
    &&& b.book.sane() && own_ids(b.book.orders) && b.taker.within_size()
    &&& forall|id: Seq<char>| #[trigger] a.book.orders.contains_key(id) <==> b.book.orders.contains_key(id)
    &&& forall|id: Seq<char>| #[trigger] a.book.orders.contains_key(id) ==> same_order(a.book.orders[id], b.book.orders[id])
    &&& forall|id: Seq<char>|
        #[trigger] a.book.orders.contains_key(id) && a.book.orders[id].closed() ==> b.book.orders[id]
            == a.book.orders[id]
    &&& forall|id: Seq<char>|
        #[trigger] a.book.orders.contains_key(id) && a.book.orders[id].trader_id@ == a.taker.trader_id@
            ==> b.book.orders[id] == a.book.orders[id]
    &&& a.fills.is_prefix_of(b.fills)
    &&& forall|i: int| a.fills.len() <= i < b.fills.len() ==> fair(a, #[trigger] b.fills[i])
    &&& b.taker.filled_size_lots - a.taker.filled_size_lots == volume(b.fills) - volume(a.fills)
    &&& forall|id: Seq<char>|
        #[trigger] a.book.orders.contains_key(id) ==> b.book.orders[id].filled_size_lots
            - a.book.orders[id].filled_size_lots == volume_of(b.fills, id) - volume_of(a.fills, id)
}

/// The state of a run that makes sense: sizes are kept, and every order is under
/// its own id.
pub open spec fn ready(st: MatchState) -> bool {
    st.book.sane() && own_ids(st.book.orders) && st.taker.within_size()
}

pub proof fn lemma_progress_self(a: MatchState)
    requires
        ready(a),
    ensures
        progress(a, a),
{
}

pub proof fn lemma_progress_joins(a: MatchState, b: MatchState, c: MatchState)
    requires
        progress(a, b),
        progress(b, c),
    ensures
        progress(a, c),
{
    assert forall|i: int| a.fills.len() <= i < c.fills.len() implies fair(a, #[trigger] c.fills[i]) by {
        if i < b.fills.len() {
            assert(c.fills[i] == b.fills[i]);
        } else {
            let id = c.fills[i].maker_order_id.key();
            assert(fair(b, c.fills[i]));
            assert(a.book.orders.contains_key(id));
        }
    }
    assert forall|id: Seq<char>| #[trigger] a.book.orders.contains_key(id) implies same_order(
        a.book.orders[id],
        c.book.orders[id],
    ) by {
        assert(b.book.orders.contains_key(id));
    }
    assert forall|id: Seq<char>| #[trigger] a.book.orders.contains_key(id) implies c.book.orders[id].filled_size_lots
        - a.book.orders[id].filled_size_lots == volume_of(c.fills, id) - volume_of(a.fills, id) by {
        assert(b.book.orders.contains_key(id));
    }
    assert forall|id: Seq<char>| #[trigger] a.book.orders.contains_key(id) && a.book.orders[id].closed() implies c.book.orders[id]
        == a.book.orders[id] by {
        assert(b.book.orders.contains_key(id));
    }
    assert forall|id: Seq<char>| #[trigger] a.book.orders.contains_key(id) && a.book.orders[id].trader_id@
        == a.taker.trader_id@ implies c.book.orders[id] == a.book.orders[id] by {
        assert(b.book.orders.contains_key(id));
    }
    assert forall|id: Seq<char>| #[trigger] a.book.orders.contains_key(id) <==> c.book.orders.contains_key(id) by {
        assert(b.book.orders.contains_key(id) <==> c.book.orders.contains_key(id));
    }
}

pub proof fn lemma_meet(st: MatchState, price: u64, id: Seq<char>, seq: u64, now: u64)
    requires
        ready(st),
    ensures
        progress(st, meet(st, price, id, seq, now)),
{
    let after = meet(st, price, id, seq, now);
    if st.book.is_open(id) && st.book.orders[id].trader_id@ != st.taker.trader_id@ {
        let maker = st.book.orders[id];
        let qty = min_qty(st.taker, maker);
        let fill = fill_of(st.taker, maker, price, qty, seq, now);
        assert(after.fills.drop_last() =~= st.fills);
        assert(after.fills.last() == fill);
        assert(fair(st, fill));
        assert(after.book.orders == st.book.orders.insert(id, filled_by(maker, qty, seq)));
        assert forall|x: Seq<char>| #[trigger] after.book.orders.contains_key(x) implies after.book.orders[x].within_size() by {
            assert(st.book.orders.contains_key(x));
        }
        assert forall|i: int| st.fills.len() <= i < after.fills.len() implies fair(st, #[trigger] after.fills[i]) by {
            assert(after.fills[i] == fill);
        }
    }
}

pub proof fn lemma_queue(st: MatchState, price: u64, queue: Seq<Seq<char>>, seq: u64, now: u64)
    requires
        ready(st),
    ensures
        progress(st, match_queue(st, price, queue, seq, now)),
        match_queue(st, price, queue, seq, now).fills.len() <= st.fills.len() + queue.len(),
    decreases queue.len(),
{
    if queue.len() == 0 || done(st.taker) {
        lemma_progress_self(st);
    } else {
        let next = meet(st, price, queue[0], seq, now);
        lemma_meet(st, price, queue[0], seq, now);
        lemma_queue(next, price, queue.drop_first(), seq, now);
        lemma_progress_joins(st, next, match_queue(st, price, queue, seq, now));
    }
}

pub proof fn lemma_levels(st: MatchState, prices: Seq<u64>, seq: u64, now: u64)
    requires
        ready(st),
    ensures
        progress(st, match_levels(st, prices, seq, now)),
    decreases prices.len(),
{
    if prices.len() == 0 || done(st.taker) || !crosses(st.taker.side, st.taker.price_ticks, prices[0]) {
        lemma_progress_self(st);
    } else {
        let queue = queue_at(st.book.levels(opposite(st.taker.side)), prices[0]);
        let next = match_queue(st, prices[0], queue, seq, now);
        lemma_queue(st, prices[0], queue, seq, now);
        lemma_levels(next, prices.drop_first(), seq, now);
        lemma_progress_joins(st, next, match_levels(st, prices, seq, now));
    }
}

/// `b` is the order `a`, but for the number of its last change.
pub open spec fn same_but_number(a: Order, b: Order) -> bool {
    b == (Order { last_update_sequence: b.last_update_sequence, ..a })
}

/// Giving an order the number of its last fill changes nothing else, and an order
/// that was not filled keeps its number.
pub proof fn lemma_renumbered(order: Order, id: Seq<char>, fills: Seq<Fill>, first: int)
    ensures
        same_but_number(order, renumbered(order, id, fills, first)),
        (forall|i: int| 0 <= i < fills.len() ==> (#[trigger] fills[i]).maker_order_id.key() != id) ==> renumbered(
            order,
            id,
            fills,
            first,
        ) == order,
    decreases fills.len(),
{
    if fills.len() > 0 {
        let init = fills.drop_last();
        lemma_renumbered(order, id, init, first);
        assert(fills.last() == fills[fills.len() - 1]);
        if forall|i: int| 0 <= i < fills.len() ==> (#[trigger] fills[i]).maker_order_id.key() != id {
            assert forall|i: int| 0 <= i < init.len() implies (#[trigger] init[i]).maker_order_id.key() != id by {
                assert(init[i] == fills[i]);
            }
        }
    }
}

/// Numbering a run changes nothing but the numbers of last changes.
pub proof fn lemma_numbered(m: MatchState, next: int)
    ensures
        same_but_number(m.taker, numbered(m, next).taker),
        numbered(m, next).book.bids == m.book.bids,
        numbered(m, next).book.asks == m.book.asks,
        forall|id: Seq<char>| #[trigger]
            numbered(m, next).book.orders.contains_key(id) <==> m.book.orders.contains_key(id),
        forall|id: Seq<char>| #[trigger]
            numbered(m, next).book.orders.contains_key(id) ==> same_but_number(
                m.book.orders[id],
                numbered(m, next).book.orders[id],
            ),
{
    assert forall|id: Seq<char>| #[trigger] numbered(m, next).book.orders.contains_key(id) implies same_but_number(
        m.book.orders[id],
        numbered(m, next).book.orders[id],
    ) by {
        lemma_renumbered(m.book.orders[id], id, m.fills, next + 1);
    }
}

/// A resting order that was closed before a run comes out of its intake as it went
/// in.
pub proof fn lemma_numbered_keeps_closed(book: BookModel, taker: Order, seq: u64, now: u64, next: int, id: Seq<char>)
    requires
        ready(start_of(book, taker)),
        book.orders.contains_key(id),
        book.orders[id].closed(),
    ensures
        numbered(matched(book, taker, seq, now), next).book.orders[id] == book.orders[id],
{
    let m = matched(book, taker, seq, now);
    lemma_matched(book, taker, seq, now);
    assert(m.book.orders.contains_key(id));
    assert forall|i: int| 0 <= i < m.fills.len() implies (#[trigger] m.fills[i]).maker_order_id.key() != id by {
        assert(fair(start_of(book, taker), m.fills[i]));
    }
    lemma_renumbered(m.book.orders[id], id, m.fills, next + 1);
}

/// The state in which a match run starts.
pub open spec fn start_of(book: BookModel, taker: Order) -> MatchState {
    MatchState { book, taker, fills: Seq::empty() }
}

pub proof fn lemma_matched(book: BookModel, taker: Order, seq: u64, now: u64)
    requires
        ready(start_of(book, taker)),
    ensures
        progress(start_of(book, taker), matched(book, taker, seq, now)),
{
    lemma_levels(start_of(book, taker), best_first(book, taker.side), seq, now);
}

/// Conservation: what the fills of a run add up to is what the taker was filled,
/// and for each resting order what its fills add up to is what it was filled.
/// Nobody is filled beyond the size of the order.
pub proof fn law_fills_conserve_quantity(book: BookModel, taker: Order, seq: u64, now: u64)
    requires
        ready(start_of(book, taker)),
    ensures
        ({
            let m = matched(book, taker, seq, now);
            &&& m.taker.filled_size_lots == taker.filled_size_lots + volume(m.fills)
            &&& m.taker.filled_size_lots <= taker.orig_size_lots
            &&& forall|id: Seq<char>| #[trigger]
                book.orders.contains_key(id) ==> m.book.orders[id].filled_size_lots
                    == book.orders[id].filled_size_lots + volume_of(m.fills, id)
                    && m.book.orders[id].filled_size_lots <= book.orders[id].orig_size_lots
        }),
{
    lemma_matched(book, taker, seq, now);
    let m = matched(book, taker, seq, now);
    assert forall|id: Seq<char>| #[trigger] book.orders.contains_key(id) implies m.book.orders[id].filled_size_lots
        == book.orders[id].filled_size_lots + volume_of(m.fills, id) && m.book.orders[id].filled_size_lots
        <= book.orders[id].orig_size_lots by {
        assert(m.book.orders.contains_key(id));
    }
}

/// No order trades with an order of the same trader, and every fill is with an
/// order that was open in the book.
pub proof fn law_no_self_trade(book: BookModel, taker: Order, seq: u64, now: u64, i: int)
    requires
        ready(start_of(book, taker)),
        0 <= i < matched(book, taker, seq, now).fills.len(),
    ensures
        ({
            let fill = matched(book, taker, seq, now).fills[i];
            let id = fill.maker_order_id.key();
            &&& book.is_open(id)
            &&& fill.maker_trader_id == book.orders[id].trader_id
            &&& fill.taker_trader_id == taker.trader_id
            &&& fill.maker_trader_id@ != fill.taker_trader_id@
        }),
{
    lemma_matched(book, taker, seq, now);
    assert(fair(start_of(book, taker), matched(book, taker, seq, now).fills[i]));
}

/// Orders of the taker's own trader come out of a run as they went in.
pub proof fn law_own_orders_untouched(book: BookModel, taker: Order, seq: u64, now: u64, id: Seq<char>)
    requires
        ready(start_of(book, taker)),
        book.orders.contains_key(id),
        book.orders[id].trader_id@ == taker.trader_id@,
    ensures
        matched(book, taker, seq, now).book.orders[id] == book.orders[id],
{
    lemma_matched(book, taker, seq, now);
}

/// Something is left of an open taker.
spec fn open_has_rest(taker: Order) -> bool {
    !taker.closed() ==> taker.remaining() > 0
}

proof fn lemma_queue_open_has_rest(st: MatchState, price: u64, queue: Seq<Seq<char>>, seq: u64, now: u64)
    requires
        ready(st),
        open_has_rest(st.taker),
    ensures
        open_has_rest(match_queue(st, price, queue, seq, now).taker),
    decreases queue.len(),
{
    if queue.len() == 0 || done(st.taker) {
    } else {
        lemma_meet(st, price, queue[0], seq, now);
        lemma_queue_open_has_rest(meet(st, price, queue[0], seq, now), price, queue.drop_first(), seq, now);
    }
}

proof fn lemma_levels_open_has_rest(st: MatchState, prices: Seq<u64>, seq: u64, now: u64)
    requires
        ready(st),
        open_has_rest(st.taker),
    ensures
        open_has_rest(match_levels(st, prices, seq, now).taker),
    decreases prices.len(),
{
    if prices.len() == 0 || done(st.taker) || !crosses(st.taker.side, st.taker.price_ticks, prices[0]) {
    } else {
        let queue = queue_at(st.book.levels(opposite(st.taker.side)), prices[0]);
        lemma_queue(st, prices[0], queue, seq, now);
        lemma_queue_open_has_rest(st, prices[0], queue, seq, now);
        lemma_levels_open_has_rest(
            match_queue(st, prices[0], queue, seq, now),
            prices.drop_first(),
            seq,
            now,
        );
    }
}

/// A taker of positive size comes out of a run either closed or with something
/// left, and it is filled exactly when nothing is left.
pub proof fn law_taker_closed_or_left(book: BookModel, taker: Order, seq: u64, now: u64)
    requires
        ready(start_of(book, taker)),
        taker.status == OrderStatus::Open,
        taker.remaining() > 0,
    ensures
        ({
            let after = matched(book, taker, seq, now).taker;
            &&& !after.closed() ==> after.remaining() > 0
            &&& after.status != OrderStatus::Cancelled
            &&& after.status == OrderStatus::Filled ==> after.remaining() == 0
        }),
{
    let st = start_of(book, taker);
    lemma_levels_open_has_rest(st, best_first(book, taker.side), seq, now);
    lemma_levels_status(st, best_first(book, taker.side), seq, now);
}

/// A taker is not cancelled by anyone but self-trade prevention, and filled only
/// when nothing is left.
spec fn fair_status(taker: Order) -> bool {
    taker.status != OrderStatus::Cancelled && (taker.status == OrderStatus::Filled ==> taker.remaining() == 0)
}

proof fn lemma_queue_status(st: MatchState, price: u64, queue: Seq<Seq<char>>, seq: u64, now: u64)
    requires
        ready(st),
        fair_status(st.taker),
    ensures
        fair_status(match_queue(st, price, queue, seq, now).taker),
    decreases queue.len(),
{
    if queue.len() == 0 || done(st.taker) {
    } else {
        lemma_meet(st, price, queue[0], seq, now);
        lemma_queue_status(meet(st, price, queue[0], seq, now), price, queue.drop_first(), seq, now);
    }
}

proof fn lemma_levels_status(st: MatchState, prices: Seq<u64>, seq: u64, now: u64)
    requires
        ready(st),
        fair_status(st.taker),
    ensures
        fair_status(match_levels(st, prices, seq, now).taker),
    decreases prices.len(),
{
    if prices.len() == 0 || done(st.taker) || !crosses(st.taker.side, st.taker.price_ticks, prices[0]) {
    } else {
        let queue = queue_at(st.book.levels(opposite(st.taker.side)), prices[0]);
        lemma_queue(st, prices[0], queue, seq, now);
        lemma_queue_status(st, prices[0], queue, seq, now);
        lemma_levels_status(match_queue(st, prices[0], queue, seq, now), prices.drop_first(), seq, now);
    }
}

/// The volume of fills is the sum of their sizes.
pub proof fn law_volume_is_sum(fills: Seq<Fill>, fill: Fill)
    ensures
        volume(Seq::empty()) == 0,
        volume(fills.push(fill)) == volume(fills) + fill.size_lots,
        volume(fills) == fills.fold_left(0int, |sum: int, f: Fill| sum + f.size_lots),
{
    assert(fills.push(fill).drop_last() =~= fills);
    lemma_volume_is_fold(fills, |sum: int, f: Fill| sum + f.size_lots);
}

proof fn lemma_volume_is_fold(fills: Seq<Fill>, plus: spec_fn(int, Fill) -> int)
    requires
        forall|sum: int, f: Fill| #[trigger] plus(sum, f) == sum + f.size_lots,
    ensures
        volume(fills) == fills.fold_left(0int, plus),
    decreases fills.len(),
{
    if fills.len() > 0 {
        lemma_volume_is_fold(fills.drop_last(), plus);
    }
}

} // verus!
