//! Tidy books: every open order is in the queue of its price and nothing else is.
use crate::domain::order::{Order, OrderStatus, Side};
use crate::engine::laws::{lemma_levels, lemma_meet, lemma_numbered, lemma_queue, progress, ready, same_but_number, same_order, start_of};
use crate::engine::matching::{best_first, crosses, done, filled_by, match_levels, match_queue, matched, meet, min_qty, opposite, MatchState};
use crate::engine::model::{numbered, rested};
use crate::engine::orderbook::{left, own_ids, queue_at, without, Age, BookModel, Levels};
use crate::ordmap::{ascending, lemma_sorted_ids, sorted_ids, MapKey};
use crate::replay::{ages, lemma_side_apart, lemma_side_joins, rests_at, side_of, youngest};
use vstd::prelude::*;

verus! {

/// The book of `market` is tidy: every order is held under its own id, belongs
/// to the market and has no more filled than was ordered; each side holds the
/// open orders, each in the queue of its price, oldest first, and nothing else;
/// and of every open order something is left.
pub open spec fn tidy(book: BookModel, market: Seq<char>) -> bool {
    &&& book.sane()
    &&& own_ids(book.orders)
    &&& forall|id: Seq<char>| #[trigger] book.orders.contains_key(id) ==> book.orders[id].market_id.0@ == market
    &&& forall|id: Seq<char>|
        #[trigger] book.orders.contains_key(id) && !book.orders[id].closed() ==> book.orders[id].remaining() > 0
    &&& side_of(book.orders, market, Side::Buy, book.bids)
    &&& side_of(book.orders, market, Side::Sell, book.asks)
    &&& book.bids.dom().finite()
    &&& book.asks.dom().finite()
}

/// A queue without `id` holds the other orders of the queue.
pub proof fn lemma_without(queue: Seq<Seq<char>>, id: Seq<char>)
    ensures
        forall|x: Seq<char>| #[trigger] without(queue, id).contains(x) <==> queue.contains(x) && x != id,
    decreases queue.len(),
{
    if queue.len() > 0 {
        let init = queue.drop_last();
        lemma_without(init, id);
        assert forall|x: Seq<char>| #[trigger] without(queue, id).contains(x) <==> queue.contains(x) && x != id by {
            assert(without(init, id).contains(x) <==> init.contains(x) && x != id);
            if queue.contains(x) {
                let i = choose|i: int| 0 <= i < queue.len() && queue[i] == x;
                if i < init.len() {
                    assert(init[i] == x);
                }
            }
            if init.contains(x) {
                let i = choose|i: int| 0 <= i < init.len() && init[i] == x;
                assert(queue[i] == x);
            }
            assert(queue[queue.len() - 1] == queue.last());
            if queue.last() != id {
                let w = without(init, id);
                assert(without(queue, id) == w.push(queue.last()));
                assert(w.push(queue.last())[w.len() as int] == queue.last());
                if w.contains(x) {
                    let i = choose|i: int| 0 <= i < w.len() && w[i] == x;
                    assert(w.push(queue.last())[i] == x);
                }
            }
        }
    }
}

/// Taking an order out of a queue keeps the rest in order of age.
pub proof fn lemma_without_ascending(orders: Map<Seq<char>, Order>, queue: Seq<Seq<char>>, id: Seq<char>)
    requires
        ascending::<Age>(ages(orders, queue)),
    ensures
        ascending::<Age>(ages(orders, without(queue, id))),
    decreases queue.len(),
{
    if queue.len() > 0 {
        let init = queue.drop_last();
        let all = ages(orders, queue);
        assert(ages(orders, init) =~= all.drop_last());
        assert forall|i: int, j: int| 0 <= i < j < init.len() implies Age::before(
            #[trigger] ages(orders, init)[i],
            #[trigger] ages(orders, init)[j],
        ) by {
            assert(Age::before(all[i], all[j]));
        }
        lemma_without_ascending(orders, init, id);
        lemma_without(init, id);
        if queue.last() != id {
            let w = without(init, id);
            let after = ages(orders, w.push(queue.last()));
            assert forall|i: int, j: int| 0 <= i < j < after.len() implies Age::before(
                #[trigger] after[i],
                #[trigger] after[j],
            ) by {
                if j < w.len() {
                    assert(Age::before(ages(orders, w)[i], ages(orders, w)[j]));
                } else {
                    assert(w.contains(w[i]));
                    let k = choose|k: int| 0 <= k < init.len() && init[k] == w[i];
                    assert(Age::before(all[k], all[queue.len() - 1]));
                }
            }
        }
    }
}

/// A side stays as it is when an open order changes and stays open.
proof fn lemma_side_updated(
    orders: Map<Seq<char>, Order>,
    market: Seq<char>,
    side: Side,
    levels: Levels,
    id: Seq<char>,
    order: Order,
)
    requires
        side_of(orders, market, side, levels),
        orders.contains_key(id),
        same_order(orders[id], order),
        orders[id].closed() == order.closed(),
    ensures
        side_of(orders.insert(id, order), market, side, levels),
{
    let after = orders.insert(id, order);
    assert forall|p: u64| #[trigger] levels.contains_key(p) implies levels[p].len() > 0 && ascending::<Age>(
        ages(after, levels[p]),
    ) by {
        assert(ages(after, levels[p]) =~= ages(orders, levels[p]));
    }
    assert forall|p: u64, x: Seq<char>| #[trigger] queue_at(levels, p).contains(x) <==> rests_at(
        after,
        market,
        side,
        p,
        x,
    ) by {
        assert(queue_at(levels, p).contains(x) <==> rests_at(orders, market, side, p, x));
    }
}

/// A side after one of its open orders was closed and left its queue.
proof fn lemma_side_left(
    orders: Map<Seq<char>, Order>,
    market: Seq<char>,
    levels: Levels,
    id: Seq<char>,
    order: Order,
)
    requires
        orders.contains_key(id),
        side_of(orders, market, orders[id].side, levels),
        same_order(orders[id], order),
        order.closed(),
    ensures
        side_of(orders.insert(id, order), market, order.side, left(levels, order.price_ticks, id)),
{
    let after = orders.insert(id, order);
    let price = order.price_ticks;
    let side = order.side;
    let rest = left(levels, price, id);
    lemma_without(queue_at(levels, price), id);
    assert forall|p: u64| #[trigger] rest.contains_key(p) implies rest[p].len() > 0 && ascending::<Age>(
        ages(after, rest[p]),
    ) by {
        assert(levels.contains_key(p));
        if p == price {
            lemma_without_ascending(orders, levels[p], id);
        }
        assert(ages(after, rest[p]) =~= ages(orders, rest[p]));
    }
    assert forall|p: u64, x: Seq<char>| #[trigger] queue_at(rest, p).contains(x) <==> rests_at(
        after,
        market,
        side,
        p,
        x,
    ) by {
        assert(queue_at(levels, p).contains(x) <==> rests_at(orders, market, side, p, x));
        if p == price && levels.contains_key(p) {
            let w = without(levels[p], id);
            assert(w.contains(x) <==> levels[p].contains(x) && x != id);
            if w.len() == 0 {
                assert(!w.contains(x));
                assert(queue_at(rest, p) =~= Seq::<Seq<char>>::empty());
            } else {
                assert(queue_at(rest, p) == w);
            }
        }
        if x == id && queue_at(rest, p).contains(x) {
            assert(queue_at(levels, p).contains(x));
            assert(p == price);
        }
    }
}

/// A side stays as it is when an open order of the other side is closed.
proof fn lemma_side_other(
    orders: Map<Seq<char>, Order>,
    market: Seq<char>,
    side: Side,
    levels: Levels,
    id: Seq<char>,
    order: Order,
)
    requires
        side_of(orders, market, side, levels),
        orders.contains_key(id),
        same_order(orders[id], order),
        order.side != side,
    ensures
        side_of(orders.insert(id, order), market, side, levels),
{
    let after = orders.insert(id, order);
    assert forall|p: u64| #[trigger] levels.contains_key(p) implies levels[p].len() > 0 && ascending::<Age>(
        ages(after, levels[p]),
    ) by {
        assert(ages(after, levels[p]) =~= ages(orders, levels[p]));
    }
    assert forall|p: u64, x: Seq<char>| #[trigger] queue_at(levels, p).contains(x) <==> rests_at(
        after,
        market,
        side,
        p,
        x,
    ) by {
        assert(queue_at(levels, p).contains(x) <==> rests_at(orders, market, side, p, x));
    }
}

/// Closing an open order and taking it out of its queue keeps a book tidy.
pub proof fn lemma_tidy_closed(book: BookModel, market: Seq<char>, id: Seq<char>, order: Order)
    requires
        tidy(book, market),
        book.is_open(id),
        same_order(book.orders[id], order),
        order.closed(),
        order.within_size(),
    ensures
        tidy(book.close_as(id, order), market),
{
    lemma_side_left(book.orders, market, book.levels(order.side), id, order);
    match order.side {
        Side::Buy => lemma_side_other(book.orders, market, Side::Sell, book.asks, id, order),
        Side::Sell => lemma_side_other(book.orders, market, Side::Buy, book.bids, id, order),
    }
}

/// Changing an open order that stays open keeps a book tidy.
pub proof fn lemma_tidy_updated(book: BookModel, market: Seq<char>, id: Seq<char>, order: Order)
    requires
        tidy(book, market),
        book.is_open(id),
        same_order(book.orders[id], order),
        !order.closed(),
        order.within_size(),
        order.remaining() > 0,
    ensures
        tidy(BookModel { orders: book.orders.insert(id, order), ..book }, market),
{
    lemma_side_updated(book.orders, market, Side::Buy, book.bids, id, order);
    lemma_side_updated(book.orders, market, Side::Sell, book.asks, id, order);
}

/// A cancel keeps a book tidy.
pub proof fn law_cancel_keeps_tidy(book: BookModel, market: Seq<char>, id: Seq<char>, status: OrderStatus)
    requires
        tidy(book, market),
        status.closed(),
    ensures
        tidy(book.cancel(id, status), market),
{
    if book.is_open(id) {
        lemma_tidy_closed(book, market, id, Order { status, ..book.orders[id] });
    }
}

/// Meeting a resting order keeps a book tidy.
proof fn lemma_meet_tidy(st: MatchState, market: Seq<char>, price: u64, id: Seq<char>, seq: u64, now: u64)
    requires
        tidy(st.book, market),
        st.taker.within_size(),
        !done(st.taker),
    ensures
        tidy(meet(st, price, id, seq, now).book, market),
{
    if st.book.is_open(id) && st.book.orders[id].trader_id@ != st.taker.trader_id@ {
        let maker = st.book.orders[id];
        let qty = min_qty(st.taker, maker);
        let after = filled_by(maker, qty, seq);
        if after.closed() {
            lemma_tidy_closed(st.book, market, id, after);
        } else {
            lemma_tidy_updated(st.book, market, id, after);
        }
    }
}

/// Meeting the orders of a queue keeps a book tidy.
pub proof fn lemma_queue_tidy(
    st: MatchState,
    market: Seq<char>,
    price: u64,
    queue: Seq<Seq<char>>,
    seq: u64,
    now: u64,
)
    requires
        tidy(st.book, market),
        st.taker.within_size(),
    ensures
        tidy(match_queue(st, price, queue, seq, now).book, market),
    decreases queue.len(),
{
    if queue.len() == 0 || done(st.taker) {
    } else {
        lemma_meet_tidy(st, market, price, queue[0], seq, now);
        lemma_meet(st, price, queue[0], seq, now);
        lemma_queue_tidy(meet(st, price, queue[0], seq, now), market, price, queue.drop_first(), seq, now);
    }
}

/// A taker that is not done has used up whatever it met, and what it did not
/// get to it was filled before.
proof fn lemma_queue_priority(st: MatchState, price: u64, queue: Seq<Seq<char>>, seq: u64, now: u64)
    requires
        ready(st),
    ensures
        ({
            let r = match_queue(st, price, queue, seq, now);
            &&& forall|k: int|
                st.fills.len() <= k < r.fills.len() ==> (#[trigger] r.fills[k]).price_ticks == price && exists|
                    j: int,
                | #[trigger] used_up_to(r.book, queue, j) && queue[j] == r.fills[k].maker_order_id.key()
            &&& !done(r.taker) ==> forall|i: int| 0 <= i < queue.len() ==> !r.book.is_open(#[trigger] queue[i])
        }),
    decreases queue.len(),
{
    let r = match_queue(st, price, queue, seq, now);
    if queue.len() == 0 || done(st.taker) {
    } else {
        let next = meet(st, price, queue[0], seq, now);
        let rest = queue.drop_first();
        lemma_meet(st, price, queue[0], seq, now);
        lemma_queue(next, price, rest, seq, now);
        lemma_queue_priority(next, price, rest, seq, now);
        let first = queue[0];
        if !done(next.taker) {
            assert(!next.book.is_open(first));
            assert(!r.book.is_open(first)) by {
                if next.book.orders.contains_key(first) {
                    assert(r.book.orders[first] == next.book.orders[first]);
                } else {
                    assert(!r.book.orders.contains_key(first));
                }
            }
        }
        assert forall|k: int| st.fills.len() <= k < r.fills.len() implies (#[trigger] r.fills[k]).price_ticks == price
            && exists|j: int| #[trigger] used_up_to(r.book, queue, j) && queue[j] == r.fills[k].maker_order_id.key() by {
            if k < next.fills.len() {
                assert(r.fills[k] == next.fills[k]);
                assert(used_up_to(r.book, queue, 0));
            } else {
                let j = choose|j: int| #[trigger] used_up_to(r.book, rest, j) && rest[j] == r.fills[k].maker_order_id.key();
                assert(!done(next.taker));
                assert(used_up_to(r.book, queue, j + 1)) by {
                    assert forall|i: int| 0 <= i < j + 1 implies !r.book.is_open(#[trigger] queue[i]) by {
                        if i > 0 {
                            assert(queue[i] == rest[i - 1]);
                        }
                    }
                }
            }
        }
        if !done(r.taker) {
            assert(!done(next.taker)) by {
                if done(next.taker) {
                    assert(r == next);
                }
            }
            assert forall|i: int| 0 <= i < queue.len() implies !r.book.is_open(#[trigger] queue[i]) by {
                if i > 0 {
                    assert(queue[i] == rest[i - 1]);
                }
            }
        }
    }
}

/// `j` is a place in `queue`, and none of the orders before it is open.
pub open spec fn used_up_to(book: BookModel, queue: Seq<Seq<char>>, j: int) -> bool {
    0 <= j < queue.len() && forall|i: int| 0 <= i < j ==> !book.is_open(#[trigger] queue[i])
}

/// `p` is a better price than `q` for an order of `side`.
pub open spec fn better(side: Side, p: u64, q: u64) -> bool {
    match side {
        Side::Buy => p < q,
        Side::Sell => p > q,
    }
}

/// For a taker of `side` the resting order `a` comes before `b`: its price is
/// better, or its price is the same and it is older.
pub open spec fn outranks(side: Side, a: Order, b: Order) -> bool {
    better(side, a.price_ticks, b.price_ticks) || (a.price_ticks == b.price_ticks && Age::before(
        (a.created_sequence, a.order_id.key()),
        (b.created_sequence, b.order_id.key()),
    ))
}

/// `prices` go from better to worse.
pub open spec fn best_to_worst(side: Side, prices: Seq<u64>) -> bool {
    forall|i: int, j: int| 0 <= i < j < prices.len() ==> better(side, #[trigger] prices[i], #[trigger] prices[j])
}

/// The order `id` is open, on the other side than the taker's, at one of `prices`.
pub open spec fn faces(st: MatchState, prices: Seq<u64>, id: Seq<char>) -> bool {
    &&& st.book.is_open(id)
    &&& st.book.orders[id].side == opposite(st.taker.side)
    &&& prices.contains(st.book.orders[id].price_ticks)
}

/// The run from `st` to `r` over `prices` kept to price and time.
pub open spec fn orderly(st: MatchState, r: MatchState, prices: Seq<u64>) -> bool {
    &&& forall|k: int| st.fills.len() <= k < r.fills.len() ==> {
        let id = (#[trigger] r.fills[k]).maker_order_id.key();
        &&& faces(st, prices, id)
        &&& r.fills[k].price_ticks == st.book.orders[id].price_ticks
        &&& crosses(st.taker.side, st.taker.price_ticks, r.fills[k].price_ticks)
    }
    &&& forall|k: int, id: Seq<char>|
        st.fills.len() <= k < r.fills.len() && #[trigger] faces(st, prices, id) && outranks(
            st.taker.side,
            st.book.orders[id],
            st.book.orders[(#[trigger] r.fills[k]).maker_order_id.key()],
        ) ==> !r.book.is_open(id)
    &&& forall|k: int, l: int|
        st.fills.len() <= k < l < r.fills.len() ==> !better(
            st.taker.side,
            (#[trigger] r.fills[l]).price_ticks,
            (#[trigger] r.fills[k]).price_ticks,
        )
    &&& !done(r.taker) ==> forall|id: Seq<char>| #[trigger]
        faces(st, prices, id) && crosses(
            st.taker.side,
            st.taker.price_ticks,
            st.book.orders[id].price_ticks,
        ) ==> !r.book.is_open(id)
}

/// An order that is not open stays so.
pub proof fn lemma_stays_closed(a: MatchState, b: MatchState, id: Seq<char>)
    requires
        progress(a, b),
        !a.book.is_open(id),
    ensures
        !b.book.is_open(id),
{
    if a.book.orders.contains_key(id) {
        assert(b.book.orders[id] == a.book.orders[id]);
    } else {
        assert(!b.book.orders.contains_key(id));
    }
}

/// One level of a tidy book is worked off in order.
proof fn lemma_level_orderly(st: MatchState, market: Seq<char>, price: u64, seq: u64, now: u64)
    requires
        ready(st),
        tidy(st.book, market),
        crosses(st.taker.side, st.taker.price_ticks, price),
    ensures
        orderly(
            st,
            match_queue(st, price, queue_at(st.book.levels(opposite(st.taker.side)), price), seq, now),
            seq![price],
        ),
{
    let side = opposite(st.taker.side);
    let levels = st.book.levels(side);
    let queue = queue_at(levels, price);
    let r = match_queue(st, price, queue, seq, now);
    let one = seq![price];
    assert(one.contains(price)) by {
        assert(one[0] == price);
    }
    assert(side_of(st.book.orders, market, side, levels));
    lemma_queue(st, price, queue, seq, now);
    lemma_queue_priority(st, price, queue, seq, now);
    assert forall|k: int| st.fills.len() <= k < r.fills.len() implies ({
        let id = (#[trigger] r.fills[k]).maker_order_id.key();
        &&& faces(st, one, id)
        &&& r.fills[k].price_ticks == st.book.orders[id].price_ticks
        &&& crosses(st.taker.side, st.taker.price_ticks, r.fills[k].price_ticks)
    }) by {
        let id = r.fills[k].maker_order_id.key();
        assert(queue.contains(id));
        assert(rests_at(st.book.orders, market, side, price, id));
    }
    assert forall|k: int, id: Seq<char>|
        st.fills.len() <= k < r.fills.len() && #[trigger] faces(st, one, id) && outranks(
            st.taker.side,
            st.book.orders[id],
            st.book.orders[(#[trigger] r.fills[k]).maker_order_id.key()],
        ) implies !r.book.is_open(id) by {
        let maker = r.fills[k].maker_order_id.key();
        let j = choose|j: int| #[trigger] used_up_to(r.book, queue, j) && queue[j] == maker;
        assert(queue.contains(maker));
        assert(rests_at(st.book.orders, market, side, price, maker));
        assert(st.book.orders[id].price_ticks == price);
        assert(rests_at(st.book.orders, market, side, price, id));
        assert(queue.contains(id));
        let i = choose|i: int| 0 <= i < queue.len() && queue[i] == id;
        let all = ages(st.book.orders, queue);
        Age::before_irreflexive(all[i]);
        if j < i {
            Age::before_transitive(all[i], all[j], all[i]);
        }
        assert(i < j);
        assert(!r.book.is_open(queue[i]));
    }
    if !done(r.taker) {
        assert forall|id: Seq<char>| #[trigger] faces(st, one, id) implies !r.book.is_open(id) by {
            assert(rests_at(st.book.orders, market, side, price, id));
            assert(queue.contains(id));
            let i = choose|i: int| 0 <= i < queue.len() && queue[i] == id;
            assert(!r.book.is_open(queue[i]));
        }
    }
}

/// A taker that is not done after a level has used up every order at it.
pub proof fn lemma_level_used_up(st: MatchState, market: Seq<char>, price: u64, seq: u64, now: u64, id: Seq<char>)
    requires
        ready(st),
        tidy(st.book, market),
        crosses(st.taker.side, st.taker.price_ticks, price),
        st.book.is_open(id),
        st.book.orders[id].side == opposite(st.taker.side),
        st.book.orders[id].price_ticks == price,
        !done(match_queue(st, price, queue_at(st.book.levels(opposite(st.taker.side)), price), seq, now).taker),
    ensures
        !match_queue(st, price, queue_at(st.book.levels(opposite(st.taker.side)), price), seq, now).book.is_open(id),
{
    lemma_level_orderly(st, market, price, seq, now);
    let one = seq![price];
    assert(one[0] == price);
    assert(faces(st, one, id));
}

proof fn lemma_levels_orderly(st: MatchState, market: Seq<char>, prices: Seq<u64>, seq: u64, now: u64)
    requires
        ready(st),
        tidy(st.book, market),
        best_to_worst(st.taker.side, prices),
    ensures
        orderly(st, match_levels(st, prices, seq, now), prices),
        tidy(match_levels(st, prices, seq, now).book, market),
    decreases prices.len(),
{
    let r = match_levels(st, prices, seq, now);
    if prices.len() == 0 || done(st.taker) {
    } else if !crosses(st.taker.side, st.taker.price_ticks, prices[0]) {
        assert forall|id: Seq<char>| #[trigger] faces(st, prices, id) implies !crosses(
            st.taker.side,
            st.taker.price_ticks,
            st.book.orders[id].price_ticks,
        ) by {
            let i = choose|i: int| 0 <= i < prices.len() && prices[i] == st.book.orders[id].price_ticks;
            if i > 0 {
                assert(better(st.taker.side, prices[0], prices[i]));
            }
        }
    } else {
        let price = prices[0];
        let rest = prices.drop_first();
        let one = seq![price];
        let queue = queue_at(st.book.levels(opposite(st.taker.side)), price);
        let mid = match_queue(st, price, queue, seq, now);
        assert forall|i: int, j: int| 0 <= i < j < rest.len() implies better(
            st.taker.side,
            #[trigger] rest[i],
            #[trigger] rest[j],
        ) by {
            assert(better(st.taker.side, prices[i + 1], prices[j + 1]));
        }
        lemma_queue(st, price, queue, seq, now);
        lemma_queue_tidy(st, market, price, queue, seq, now);
        lemma_level_orderly(st, market, price, seq, now);
        lemma_levels(mid, rest, seq, now);
        lemma_levels_orderly(mid, market, rest, seq, now);
        lemma_orderly_joins(st, mid, r, prices, seq, now);
    }
}

/// A level and the levels after it, worked off in order, are worked off in order
/// together.
#[verifier::rlimit(40)]
proof fn lemma_orderly_joins(st: MatchState, mid: MatchState, r: MatchState, prices: Seq<u64>, seq: u64, now: u64)
    requires
        prices.len() > 0,
        best_to_worst(st.taker.side, prices),
        ready(st),
        progress(st, mid),
        progress(mid, r),
        orderly(st, mid, seq![prices[0]]),
        orderly(mid, r, prices.drop_first()),
        crosses(st.taker.side, st.taker.price_ticks, prices[0]),
        done(mid.taker) ==> r == mid,
    ensures
        orderly(st, r, prices),
{
    let price = prices[0];
    let rest = prices.drop_first();
    let one = seq![price];
    let side = st.taker.side;
    assert(one[0] == price);
    assert forall|id: Seq<char>| #[trigger] faces(st, prices, id) implies (faces(st, one, id)
        && st.book.orders[id].price_ticks == price) || (rest.contains(st.book.orders[id].price_ticks) && better(
        side,
        price,
        st.book.orders[id].price_ticks,
    )) by {
        let i = choose|i: int| 0 <= i < prices.len() && prices[i] == st.book.orders[id].price_ticks;
        if i > 0 {
            assert(rest[i - 1] == prices[i]);
            assert(better(side, prices[0], prices[i]));
        }
    }
    assert forall|k: int| st.fills.len() <= k < r.fills.len() implies ({
        let id = (#[trigger] r.fills[k]).maker_order_id.key();
        &&& faces(st, prices, id)
        &&& r.fills[k].price_ticks == st.book.orders[id].price_ticks
        &&& crosses(side, st.taker.price_ticks, r.fills[k].price_ticks)
        &&& k >= mid.fills.len() ==> rest.contains(r.fills[k].price_ticks) && better(side, price, r.fills[k].price_ticks)
        &&& k < mid.fills.len() ==> r.fills[k].price_ticks == price
    }) by {
        let id = r.fills[k].maker_order_id.key();
        if k < mid.fills.len() {
            assert(r.fills[k] == mid.fills[k]);
            assert(faces(st, one, id));
            assert(prices[0] == price);
            assert(prices.contains(price));
        } else {
            assert(faces(mid, rest, id));
            assert(st.book.orders.contains_key(id));
            if !st.book.is_open(id) {
                lemma_stays_closed(st, mid, id);
            }
            let i = choose|i: int| 0 <= i < rest.len() && rest[i] == mid.book.orders[id].price_ticks;
            assert(prices[i + 1] == rest[i]);
            assert(better(side, prices[0], prices[i + 1]));
        }
    }
    assert forall|k: int, id: Seq<char>|
        st.fills.len() <= k < r.fills.len() && #[trigger] faces(st, prices, id) && outranks(
            side,
            st.book.orders[id],
            st.book.orders[(#[trigger] r.fills[k]).maker_order_id.key()],
        ) implies !r.book.is_open(id) by {
        let maker = r.fills[k].maker_order_id.key();
        if k < mid.fills.len() {
            assert(r.fills[k] == mid.fills[k]);
            assert(faces(st, one, id));
            assert(!mid.book.is_open(id));
            lemma_stays_closed(mid, r, id);
        } else {
            assert(!done(mid.taker));
            if mid.book.is_open(id) {
                assert(!faces(st, one, id));
                assert(faces(mid, rest, id));
                assert(st.book.orders.contains_key(maker) && st.book.orders.contains_key(id));
                assert(outranks(side, mid.book.orders[id], mid.book.orders[maker]));
            } else {
                lemma_stays_closed(mid, r, id);
            }
        }
    }
    assert forall|k: int, l: int| st.fills.len() <= k < l < r.fills.len() implies !better(
        side,
        (#[trigger] r.fills[l]).price_ticks,
        (#[trigger] r.fills[k]).price_ticks,
    ) by {
        if l < mid.fills.len() {
            assert(r.fills[l] == mid.fills[l] && r.fills[k] == mid.fills[k]);
        }
    }
    if !done(r.taker) {
        assert(!done(mid.taker));
        assert forall|id: Seq<char>| #[trigger] faces(st, prices, id) && crosses(
            side,
            st.taker.price_ticks,
            st.book.orders[id].price_ticks,
        ) implies !r.book.is_open(id) by {
            if mid.book.is_open(id) {
                assert(!faces(st, one, id));
                assert(faces(mid, rest, id));
            } else {
                lemma_stays_closed(mid, r, id);
            }
        }
    }
}

/// The prices of the other side of a tidy book go from better to worse, and
/// every open order there is at one of them.
/// The prices that a taker of `side` meets are those of the levels, best first.
pub proof fn lemma_best_first(book: BookModel, side: Side)
    requires
        book.levels(opposite(side)).dom().finite(),
    ensures
        best_to_worst(side, best_first(book, side)),
        forall|p: u64| #[trigger] best_first(book, side).contains(p) <==> book.levels(opposite(side)).contains_key(p),
{
    let levels = book.levels(opposite(side));
    let sorted = sorted_ids::<u64>(levels.dom());
    lemma_sorted_ids::<u64>(levels.dom());
    let prices = best_first(book, side);
    assert forall|p: u64| #[trigger] prices.contains(p) <==> levels.contains_key(p) by {
        assert(sorted.to_set().contains(p) <==> levels.dom().contains(p));
        if side == Side::Sell {
            if prices.contains(p) {
                let i = choose|i: int| 0 <= i < prices.len() && prices[i] == p;
                assert(sorted[sorted.len() - 1 - i] == p);
            }
            if sorted.contains(p) {
                let i = choose|i: int| 0 <= i < sorted.len() && sorted[i] == p;
                assert(prices[sorted.len() - 1 - i] == p);
            }
        }
    }
    assert forall|i: int, j: int| 0 <= i < j < prices.len() implies better(
        side,
        #[trigger] prices[i],
        #[trigger] prices[j],
    ) by {
        if side == Side::Buy {
            assert(<u64 as MapKey>::before(sorted[i], sorted[j]));
        } else {
            let a = sorted.len() - 1 - i;
            let b = sorted.len() - 1 - j;
            assert(<u64 as MapKey>::before(sorted[b], sorted[a]));
        }
    }
}

/// The order `id` is open on the other side of the book than `side`.
pub open spec fn opposes(book: BookModel, side: Side, id: Seq<char>) -> bool {
    book.is_open(id) && book.orders[id].side == opposite(side)
}

proof fn lemma_matched_orderly(book: BookModel, market: Seq<char>, taker: Order, seq: u64, now: u64)
    requires
        tidy(book, market),
        taker.within_size(),
    ensures
        progress(start_of(book, taker), matched(book, taker, seq, now)),
        orderly(start_of(book, taker), matched(book, taker, seq, now), best_first(book, taker.side)),
        tidy(matched(book, taker, seq, now).book, market),
        forall|id: Seq<char>| #[trigger] opposes(book, taker.side, id) ==> faces(
            start_of(book, taker),
            best_first(book, taker.side),
            id,
        ),
{
    let st = start_of(book, taker);
    let prices = best_first(book, taker.side);
    lemma_best_first(book, taker.side);
    lemma_levels(st, prices, seq, now);
    lemma_levels_orderly(st, market, prices, seq, now);
    assert forall|id: Seq<char>| #[trigger] opposes(book, taker.side, id) implies faces(st, prices, id) by {
        let side = opposite(taker.side);
        let price = book.orders[id].price_ticks;
        assert(rests_at(book.orders, market, side, price, id));
        assert(queue_at(book.levels(side), price).contains(id));
        assert(prices.contains(price));
    }
}

/// Matching keeps a book tidy.
pub proof fn law_matching_keeps_tidy(book: BookModel, market: Seq<char>, taker: Order, seq: u64, now: u64)
    requires
        tidy(book, market),
        taker.within_size(),
    ensures
        tidy(matched(book, taker, seq, now).book, market),
{
    lemma_matched_orderly(book, market, taker, seq, now);
}

/// Every fill is at the price of the resting order, and that price is within
/// the limit of the taker. The prices of a run never get better for the taker.
pub proof fn law_fill_prices(book: BookModel, market: Seq<char>, taker: Order, seq: u64, now: u64, k: int)
    requires
        tidy(book, market),
        taker.within_size(),
        0 <= k < matched(book, taker, seq, now).fills.len(),
    ensures
        ({
            let fills = matched(book, taker, seq, now).fills;
            let maker = fills[k].maker_order_id.key();
            &&& opposes(book, taker.side, maker)
            &&& fills[k].price_ticks == book.orders[maker].price_ticks
            &&& crosses(taker.side, taker.price_ticks, fills[k].price_ticks)
            &&& forall|l: int|
                k < l < fills.len() ==> !better(
                    taker.side,
                    (#[trigger] fills[l]).price_ticks,
                    fills[k].price_ticks,
                )
        }),
{
    lemma_matched_orderly(book, market, taker, seq, now);
    let fills = matched(book, taker, seq, now).fills;
    assert(faces(start_of(book, taker), best_first(book, taker.side), fills[k].maker_order_id.key()));
}

/// Price-time priority: when a resting order is filled, every open order that
/// comes before it (a better price, or the same price and older) is used up by
/// the end of the run.
pub proof fn law_price_time_priority(
    book: BookModel,
    market: Seq<char>,
    taker: Order,
    seq: u64,
    now: u64,
    k: int,
    id: Seq<char>,
)
    requires
        tidy(book, market),
        taker.within_size(),
        0 <= k < matched(book, taker, seq, now).fills.len(),
        opposes(book, taker.side, id),
        outranks(
            taker.side,
            book.orders[id],
            book.orders[matched(book, taker, seq, now).fills[k].maker_order_id.key()],
        ),
    ensures
        !matched(book, taker, seq, now).book.is_open(id),
{
    lemma_matched_orderly(book, market, taker, seq, now);
    let st = start_of(book, taker);
    assert(faces(st, best_first(book, taker.side), id));
}

/// A taker that is neither filled nor cancelled leaves no open order on the
/// other side whose price it would take.
pub proof fn law_match_exhausts(book: BookModel, market: Seq<char>, taker: Order, seq: u64, now: u64, id: Seq<char>)
    requires
        tidy(book, market),
        taker.within_size(),
        !done(matched(book, taker, seq, now).taker),
        matched(book, taker, seq, now).book.is_open(id),
        matched(book, taker, seq, now).book.orders[id].side == opposite(taker.side),
    ensures
        !crosses(taker.side, taker.price_ticks, matched(book, taker, seq, now).book.orders[id].price_ticks),
{
    lemma_matched_orderly(book, market, taker, seq, now);
    let st = start_of(book, taker);
    let r = matched(book, taker, seq, now);
    if !st.book.is_open(id) {
        lemma_stays_closed(st, r, id);
    }
    assert(st.book.orders.contains_key(id));
    assert(opposes(book, taker.side, id));
    assert(faces(st, best_first(book, taker.side), id));
}

/// Every bid is below every ask.
pub open spec fn uncrossed(book: BookModel) -> bool {
    forall|bid: u64, ask: u64| #[trigger] book.bids.contains_key(bid) && #[trigger] book.asks.contains_key(ask) ==> bid < ask
}

/// A level of a tidy book holds an open order.
proof fn lemma_level_has_order(book: BookModel, market: Seq<char>, side: Side, p: u64) -> (id: Seq<char>)
    requires
        tidy(book, market),
        book.levels(side).contains_key(p),
    ensures
        rests_at(book.orders, market, side, p, id),
        queue_at(book.levels(side), p).contains(id),
{
    let queue = book.levels(side)[p];
    let id = queue[0];
    assert(side_of(book.orders, market, side, book.levels(side)));
    assert(queue_at(book.levels(side), p).contains(id));
    id
}

/// No level comes up during a match run.
proof fn lemma_no_new_level(
    book: BookModel,
    market: Seq<char>,
    taker: Order,
    seq: u64,
    now: u64,
    side: Side,
    p: u64,
)
    requires
        tidy(book, market),
        taker.within_size(),
        matched(book, taker, seq, now).book.levels(side).contains_key(p),
    ensures
        book.levels(side).contains_key(p),
{
    lemma_matched_orderly(book, market, taker, seq, now);
    let st = start_of(book, taker);
    let r = matched(book, taker, seq, now);
    let id = lemma_level_has_order(r.book, market, side, p);
    if !st.book.is_open(id) {
        lemma_stays_closed(st, r, id);
    }
    assert(st.book.orders.contains_key(id));
    assert(rests_at(book.orders, market, side, p, id));
    assert(queue_at(book.levels(side), p).contains(id));
}

/// What an accepted order leaves behind is a tidy book.
pub proof fn law_intake_keeps_tidy(book: BookModel, market: Seq<char>, taker: Order, seq: u64, now: u64)
    requires
        tidy(book, market),
        taker.within_size(),
        taker.market_id.0@ == market,
        !book.orders.contains_key(taker.order_id.key()),
        youngest(book.orders, taker),
    ensures
        tidy(rested(matched(book, taker, seq, now)), market),
{
    lemma_matched_orderly(book, market, taker, seq, now);
    let st = start_of(book, taker);
    let m = matched(book, taker, seq, now);
    if !m.taker.closed() && m.taker.remaining() > 0 {
        let id = m.taker.order_id.key();
        assert(!m.book.orders.contains_key(id)) by {
            assert(st.book.orders.contains_key(id) <==> m.book.orders.contains_key(id));
        }
        assert forall|x: Seq<char>| #[trigger] m.book.orders.contains_key(x) implies Age::before(
            (m.book.orders[x].created_sequence, x),
            (m.taker.created_sequence, id),
        ) by {
            assert(st.book.orders.contains_key(x));
        }
        lemma_side_joins(m.book.orders, m.taker, m.book.levels(m.taker.side));
        match m.taker.side {
            Side::Buy => lemma_side_apart(m.book.orders, m.taker, market, Side::Sell, m.book.asks),
            Side::Sell => lemma_side_apart(m.book.orders, m.taker, market, Side::Buy, m.book.bids),
        }
    }
}

/// A side does not depend on the numbers of last changes.
proof fn lemma_side_same_but_numbers(
    a: Map<Seq<char>, Order>,
    b: Map<Seq<char>, Order>,
    market: Seq<char>,
    side: Side,
    levels: Levels,
)
    requires
        side_of(a, market, side, levels),
        forall|id: Seq<char>| #[trigger] b.contains_key(id) <==> a.contains_key(id),
        forall|id: Seq<char>| #[trigger] b.contains_key(id) ==> same_but_number(a[id], b[id]),
    ensures
        side_of(b, market, side, levels),
{
    assert forall|p: u64, id: Seq<char>| #[trigger] queue_at(levels, p).contains(id) <==> rests_at(b, market, side, p, id) by {
        assert(queue_at(levels, p).contains(id) <==> rests_at(a, market, side, p, id));
        assert(b.contains_key(id) <==> a.contains_key(id));
    }
    assert forall|p: u64| #[trigger] levels.contains_key(p) implies levels[p].len() > 0 && ascending::<Age>(
        ages(b, levels[p]),
    ) by {
        let queue = levels[p];
        assert forall|i: int| 0 <= i < queue.len() implies a[queue[i]].created_sequence == b[queue[i]].created_sequence by {
            assert(queue_at(levels, p).contains(queue[i]));
            assert(rests_at(a, market, side, p, queue[i]));
            assert(b.contains_key(queue[i]));
        }
        assert(ages(b, queue) =~= ages(a, queue));
    }
}

/// What is left of an accepted order leaves a tidy book, also with the numbers of
/// its events.
pub proof fn lemma_numbered_tidy(m: MatchState, next: int, market: Seq<char>)
    requires
        tidy(rested(m), market),
    ensures
        tidy(rested(numbered(m, next)), market),
        rested(numbered(m, next)).bids == rested(m).bids,
        rested(numbered(m, next)).asks == rested(m).asks,
{
    lemma_numbered(m, next);
    let a = rested(m);
    let b = rested(numbered(m, next));
    assert forall|id: Seq<char>| (#[trigger] b.orders.contains_key(id) <==> a.orders.contains_key(id)) && (b.orders.contains_key(id)
        ==> same_but_number(a.orders[id], b.orders[id])) by {
        assert(numbered(m, next).book.orders.contains_key(id) <==> m.book.orders.contains_key(id));
    }
    assert forall|id: Seq<char>| #[trigger] b.orders.contains_key(id) implies b.orders[id].within_size() && b.orders[id].order_id.key()
        == id && b.orders[id].market_id.0@ == market && (!b.orders[id].closed() ==> b.orders[id].remaining() > 0) by {
        assert(a.orders.contains_key(id));
    }
    lemma_side_same_but_numbers(a.orders, b.orders, market, Side::Buy, a.bids);
    lemma_side_same_but_numbers(a.orders, b.orders, market, Side::Sell, a.asks);
}

/// A book in which no bid meets an ask stays so when an order is accepted.
pub proof fn law_intake_keeps_uncrossed(book: BookModel, market: Seq<char>, taker: Order, seq: u64, now: u64)
    requires
        tidy(book, market),
        taker.within_size(),
        uncrossed(book),
    ensures
        uncrossed(rested(matched(book, taker, seq, now))),
{
    lemma_matched_orderly(book, market, taker, seq, now);
    let m = matched(book, taker, seq, now);
    let after = rested(m);
    let rests = !m.taker.closed() && m.taker.remaining() > 0;
    assert forall|bid: u64, ask: u64| #[trigger] after.bids.contains_key(bid) && #[trigger] after.asks.contains_key(ask) implies bid < ask by {
        let limit = taker.price_ticks;
        let bid_is_new = rests && taker.side == Side::Buy && bid == limit;
        let ask_is_new = rests && taker.side == Side::Sell && ask == limit;
        if !bid_is_new {
            lemma_no_new_level(book, market, taker, seq, now, Side::Buy, bid);
        }
        if !ask_is_new {
            lemma_no_new_level(book, market, taker, seq, now, Side::Sell, ask);
        }
        if bid_is_new {
            let id = lemma_level_has_order(m.book, market, Side::Sell, ask);
            law_match_exhausts(book, market, taker, seq, now, id);
        }
        if ask_is_new {
            let id = lemma_level_has_order(m.book, market, Side::Buy, bid);
            law_match_exhausts(book, market, taker, seq, now, id);
        }
    }
}

/// Closing an order crosses nothing.
pub proof fn lemma_close_keeps_uncrossed(book: BookModel, id: Seq<char>, order: Order)
    requires
        uncrossed(book),
    ensures
        uncrossed(book.close_as(id, order)),
{
    assert forall|bid: u64, ask: u64| #[trigger] book.close_as(id, order).bids.contains_key(bid)
        && #[trigger] book.close_as(id, order).asks.contains_key(ask) implies bid < ask by {
        assert(book.bids.contains_key(bid) && book.asks.contains_key(ask));
    }
}

/// A cancel crosses nothing.
pub proof fn law_cancel_keeps_uncrossed(book: BookModel, id: Seq<char>, status: OrderStatus)
    requires
        uncrossed(book),
    ensures
        uncrossed(book.cancel(id, status)),
{
    lemma_close_keeps_uncrossed(book, id, Order { status, ..book.orders[id] });
}

/// A cancelled order is off the book: no queue of a tidy book holds it, and the
/// queues keep every other order.
pub proof fn law_cancel_leaves_queue(
    book: BookModel,
    market: Seq<char>,
    id: Seq<char>,
    status: OrderStatus,
    side: Side,
    price: u64,
    other: Seq<char>,
)
    requires
        tidy(book, market),
        status.closed(),
        book.is_open(id),
    ensures
        !queue_at(book.cancel(id, status).levels(side), price).contains(id),
        other != id ==> queue_at(book.cancel(id, status).levels(side), price).contains(other) == queue_at(
            book.levels(side),
            price,
        ).contains(other),
{
    let after = book.cancel(id, status);
    law_cancel_keeps_tidy(book, market, id, status);
    assert(after.orders == book.orders.insert(id, Order { status, ..book.orders[id] }));
    assert(queue_at(after.levels(side), price).contains(id) <==> rests_at(after.orders, market, side, price, id));
    assert(queue_at(after.levels(side), price).contains(other) <==> rests_at(
        after.orders,
        market,
        side,
        price,
        other,
    ));
    assert(queue_at(book.levels(side), price).contains(other) <==> rests_at(
        book.orders,
        market,
        side,
        price,
        other,
    ));
}

/// Self-trade prevention leaves the resting order alone: an open order of the
/// taker's own trader keeps its state and its place in the queue of its price.
pub proof fn law_own_orders_stay_queued(
    book: BookModel,
    market: Seq<char>,
    taker: Order,
    seq: u64,
    now: u64,
    id: Seq<char>,
)
    requires
        tidy(book, market),
        taker.within_size(),
        book.is_open(id),
        book.orders[id].trader_id@ == taker.trader_id@,
    ensures
        ({
            let after = matched(book, taker, seq, now).book;
            &&& after.orders[id] == book.orders[id]
            &&& queue_at(after.levels(book.orders[id].side), book.orders[id].price_ticks).contains(id)
        }),
{
    lemma_matched_orderly(book, market, taker, seq, now);
    let order = book.orders[id];
    let after = matched(book, taker, seq, now).book;
    assert(after.orders[id] == order);
    assert(after.orders.contains_key(id));
    assert(rests_at(after.orders, market, order.side, order.price_ticks, id));
}

/// An order that comes to rest is at the end of the queue of its price.
pub proof fn law_new_order_is_last(book: BookModel, order: Order)
    ensures
        ({
            let queue = queue_at(book.insert(order).levels(order.side), order.price_ticks);
            &&& queue.len() > 0
            &&& queue.last() == order.order_id.key()
            &&& queue.drop_last() == queue_at(book.levels(order.side), order.price_ticks)
        }),
{
    let before = queue_at(book.levels(order.side), order.price_ticks);
    assert(before.push(order.order_id.key()).drop_last() =~= before);
}

} // verus!
