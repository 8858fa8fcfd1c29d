//! When the numbers of an acceptance are sure to fit in 64 bits.
use crate::db::{amount, booked, filled_after, fills_fit, next_fits};
use crate::domain::order::{Fill, Order, OrderError, OrderHash, OrderId, Side, SignedOrder};
use crate::engine::laws::{fair, lemma_matched, lemma_queue, ready, start_of, volume};
use crate::engine::matching::{best_first, crosses, done, match_levels, match_queue, meet, opposite, MatchState};
use crate::engine::model::{intake_events, new_order, EngineModel};
use crate::engine::orderbook::{queue_at, without, BookModel, Levels};
use vstd::prelude::*;

verus! {

/// The number of places in the queues at `prices`.
pub open spec fn waiting(levels: Levels, prices: Seq<u64>) -> int
    decreases prices.len(),
{
    if prices.len() == 0 {
        0
    } else {
        queue_at(levels, prices[0]).len() + waiting(levels, prices.drop_first())
    }
}

/// There is room for the events that a taker of `side` can cause.
pub open spec fn events_have_room(next: int, book: BookModel, side: Side) -> bool {
    next + 2 + waiting(book.levels(opposite(side)), best_first(book, side)) <= u64::MAX
}

/// There is room to book `size` under `hash`, and to book it under the hash of
/// any open order of `book`; and none of these has the hash `hash`.
pub open spec fn accounts_have_room(
    filled: Map<Seq<u8>, u64>,
    book: BookModel,
    hash: Seq<u8>,
    size: u64,
) -> bool {
    &&& amount(filled, hash) + size <= u64::MAX
    &&& forall|id: Seq<char>| #[trigger]
        book.is_open(id) ==> book.orders[id].order_hash.0@ != hash && amount(
            filled,
            book.orders[id].order_hash.0@,
        ) + size <= u64::MAX
}

/// A submission with the hash `hash` is sure to fit: its market, its client order
/// id or its nonce keeps it out, or there is room to spare. It is enough, but not
/// needed: quantities near 2^64 can fit without it.
pub open spec fn comfortable(e: EngineModel, signed: SignedOrder, hash: Seq<u8>) -> bool {
    e.markets.contains_key(signed.market_id.0@) && !e.is_duplicate(signed) && e.nonce_ok(signed) ==> {
        let book = e.books[signed.market_id.0@];
        &&& events_have_room(e.next, book, signed.side)
        &&& accounts_have_room(e.state.filled, book, hash, signed.size_lots)
    }
}

proof fn lemma_without_len(queue: Seq<Seq<char>>, id: Seq<char>)
    ensures
        without(queue, id).len() <= queue.len(),
    decreases queue.len(),
{
    if queue.len() > 0 {
        lemma_without_len(queue.drop_last(), id);
    }
}

/// No queue of `b` is longer than it is in `a`.
spec fn no_longer(a: BookModel, b: BookModel) -> bool {
    &&& forall|p: u64| (#[trigger] queue_at(b.bids, p)).len() <= queue_at(a.bids, p).len()
    &&& forall|p: u64| (#[trigger] queue_at(b.asks, p)).len() <= queue_at(a.asks, p).len()
}

proof fn lemma_meet_no_longer(st: MatchState, price: u64, id: Seq<char>, seq: u64, now: u64)
    ensures
        no_longer(st.book, meet(st, price, id, seq, now).book),
{
    let b = meet(st, price, id, seq, now).book;
    assert forall|p: u64| (#[trigger] queue_at(b.bids, p)).len() <= queue_at(st.book.bids, p).len() by {
        lemma_without_len(queue_at(st.book.bids, p), id);
    }
    assert forall|p: u64| (#[trigger] queue_at(b.asks, p)).len() <= queue_at(st.book.asks, p).len() by {
        lemma_without_len(queue_at(st.book.asks, p), id);
    }
}

proof fn lemma_queue_no_longer(st: MatchState, price: u64, queue: Seq<Seq<char>>, seq: u64, now: u64)
    ensures
        no_longer(st.book, match_queue(st, price, queue, seq, now).book),
    decreases queue.len(),
{
    if queue.len() == 0 || done(st.taker) {
    } else {
        let next = meet(st, price, queue[0], seq, now);
        let r = match_queue(st, price, queue, seq, now);
        lemma_meet_no_longer(st, price, queue[0], seq, now);
        lemma_queue_no_longer(next, price, queue.drop_first(), seq, now);
        assert forall|p: u64| (#[trigger] queue_at(r.book.bids, p)).len() <= queue_at(st.book.bids, p).len() by {
            assert(queue_at(next.book.bids, p).len() <= queue_at(st.book.bids, p).len());
        }
        assert forall|p: u64| (#[trigger] queue_at(r.book.asks, p)).len() <= queue_at(st.book.asks, p).len() by {
            assert(queue_at(next.book.asks, p).len() <= queue_at(st.book.asks, p).len());
        }
    }
}

proof fn lemma_waiting_shrinks(a: Levels, b: Levels, prices: Seq<u64>)
    requires
        forall|p: u64| (#[trigger] queue_at(b, p)).len() <= queue_at(a, p).len(),
    ensures
        waiting(b, prices) <= waiting(a, prices),
    decreases prices.len(),
{
    if prices.len() > 0 {
        assert(queue_at(b, prices[0]).len() <= queue_at(a, prices[0]).len());
        lemma_waiting_shrinks(a, b, prices.drop_first());
    }
}

pub proof fn lemma_waiting_nonnegative(levels: Levels, prices: Seq<u64>)
    ensures
        waiting(levels, prices) >= 0,
    decreases prices.len(),
{
    if prices.len() > 0 {
        lemma_waiting_nonnegative(levels, prices.drop_first());
    }
}

/// A run makes no more fills than there are places in the queues.
proof fn lemma_fill_count(st: MatchState, prices: Seq<u64>, seq: u64, now: u64)
    requires
        ready(st),
    ensures
        match_levels(st, prices, seq, now).fills.len() <= st.fills.len() + waiting(
            st.book.levels(opposite(st.taker.side)),
            prices,
        ),
    decreases prices.len(),
{
    let levels = st.book.levels(opposite(st.taker.side));
    lemma_waiting_nonnegative(levels, prices);
    if prices.len() == 0 || done(st.taker) || !crosses(st.taker.side, st.taker.price_ticks, prices[0]) {
    } else {
        let queue = queue_at(levels, prices[0]);
        let next = match_queue(st, prices[0], queue, seq, now);
        lemma_queue(st, prices[0], queue, seq, now);
        lemma_queue_no_longer(st, prices[0], queue, seq, now);
        lemma_fill_count(next, prices.drop_first(), seq, now);
        assert(next.taker.side == st.taker.side);
        lemma_waiting_shrinks(levels, next.book.levels(opposite(st.taker.side)), prices.drop_first());
    }
}

proof fn lemma_volume_grows(fills: Seq<Fill>, i: int)
    requires
        0 <= i <= fills.len(),
    ensures
        0 <= volume(fills.take(i)) <= volume(fills),
    decreases fills.len() - i,
{
    if i < fills.len() {
        let more = fills.take(i + 1);
        assert(more.drop_last() =~= fills.take(i));
        assert(more.last() == fills[i]);
        lemma_volume_grows(fills, i + 1);
        lemma_volume_nonnegative(fills.take(i));
    } else {
        assert(fills.take(i) =~= fills);
        lemma_volume_nonnegative(fills);
    }
}

proof fn lemma_volume_nonnegative(fills: Seq<Fill>)
    ensures
        volume(fills) >= 0,
    decreases fills.len(),
{
    if fills.len() > 0 {
        lemma_volume_nonnegative(fills.drop_last());
    }
}

/// What is booked under any hash after the first `i` fills of a run.
proof fn lemma_booked_bound(filled: Map<Seq<u8>, u64>, st: MatchState, fills: Seq<Fill>, hash: Seq<u8>, size: u64, i: int)
    requires
        0 <= i <= fills.len(),
        st.taker.order_hash.0@ == hash,
        volume(fills) <= size,
        accounts_have_room(filled, st.book, hash, size),
        forall|k: int| 0 <= k < fills.len() ==> fair(st, #[trigger] fills[k]),
    ensures
        amount(filled_after(filled, fills.take(i)), hash) <= amount(filled, hash) + volume(fills.take(i)),
        forall|id: Seq<char>| #[trigger]
            st.book.is_open(id) ==> amount(
                filled_after(filled, fills.take(i)),
                st.book.orders[id].order_hash.0@,
            ) <= amount(filled, st.book.orders[id].order_hash.0@) + volume(fills.take(i)),
    decreases i,
{
    if i == 0 {
        assert(fills.take(0) =~= Seq::<Fill>::empty());
    } else {
        lemma_booked_bound(filled, st, fills, hash, size, i - 1);
        let now = fills.take(i);
        let before = fills.take(i - 1);
        let fill = fills[i - 1];
        assert(now.drop_last() =~= before);
        assert(now.last() == fill);
        assert(fair(st, fill));
        lemma_volume_grows(fills, i - 1);
        lemma_volume_grows(fills, i);
        let maker = fill.maker_order_hash.0@;
        let f0 = filled_after(filled, before);
        let f1 = booked(f0, hash, fill.size_lots);
        assert(maker != hash);
        assert(st.book.is_open(fill.maker_order_id.key()));
        assert(filled_after(filled, now) == booked(f1, maker, fill.size_lots));
        assert forall|id: Seq<char>| #[trigger] st.book.is_open(id) implies amount(
            filled_after(filled, now),
            st.book.orders[id].order_hash.0@,
        ) <= amount(filled, st.book.orders[id].order_hash.0@) + volume(now) by {
            let h = st.book.orders[id].order_hash.0@;
            assert(amount(f0, h) <= amount(filled, h) + volume(before));
            assert(h != hash);
            assert(amount(f1, h) == amount(f0, h));
        }
    }
}

/// What is comfortable fits, whatever time and id the engine gives.
pub proof fn law_comfortable_fits(e: EngineModel, signed: SignedOrder, now: u64, hash: OrderHash, id: OrderId)
    requires
        e.wf(),
        e.markets.contains_key(signed.market_id.0@),
        !e.is_duplicate(signed),
        e.nonce_ok(signed),
        comfortable(e, signed, hash.0@),
    ensures
        e.accept_fits(signed, now, hash, id),
{
    let seq = e.next as u64;
    let order = new_order(signed, now, hash, id, seq);
    let book = e.books[signed.market_id.0@];
    assert(e.books.contains_key(signed.market_id.0@));
    let st = start_of(book, order);
    let m = e.run(signed, now, hash, id);
    let filled = e.state.filled;
    let size = signed.size_lots;
    lemma_matched(book, order, seq, now);
    lemma_fill_count(st, best_first(book, order.side), seq, now);
    assert(intake_events(order, m).len() <= m.fills.len() + 2);
    assert(volume(m.fills) == m.taker.filled_size_lots);
    assert(m.taker.orig_size_lots == size);
    assert forall|i: int| 0 <= i < m.fills.len() implies #[trigger] next_fits(filled, m.fills, i) by {
        let fill = m.fills[i];
        assert(fair(st, fill));
        lemma_booked_bound(filled, st, m.fills, hash.0@, size, i);
        lemma_volume_grows(m.fills, i + 1);
        let more = m.fills.take(i + 1);
        assert(more.drop_last() =~= m.fills.take(i));
        assert(more.last() == fill);
        let f0 = filled_after(filled, m.fills.take(i));
        assert(book.is_open(fill.maker_order_id.key()));
        assert(fill.maker_order_hash.0@ != hash.0@);
        assert(amount(booked(f0, hash.0@, fill.size_lots), fill.maker_order_hash.0@) == amount(
            f0,
            fill.maker_order_hash.0@,
        ));
    }
}

/// Two fills book the same.
spec fn books_same(a: Fill, b: Fill) -> bool {
    a.taker_order_hash == b.taker_order_hash && a.maker_order_hash == b.maker_order_hash && a.size_lots == b.size_lots
}

/// Two runs differ in nothing but the id of the taker and the time.
spec fn same_run(a: MatchState, b: MatchState) -> bool {
    &&& a.book == b.book
    &&& b.taker == (Order { order_id: b.taker.order_id, accepted_at_ms: b.taker.accepted_at_ms, ..a.taker })
    &&& a.fills.len() == b.fills.len()
    &&& forall|i: int| 0 <= i < a.fills.len() ==> books_same(#[trigger] a.fills[i], b.fills[i])
}

proof fn lemma_meet_same(a: MatchState, b: MatchState, price: u64, id: Seq<char>, seq: u64, now: u64, later: u64)
    requires
        same_run(a, b),
    ensures
        same_run(meet(a, price, id, seq, now), meet(b, price, id, seq, later)),
{
    let x = meet(a, price, id, seq, now);
    let y = meet(b, price, id, seq, later);
    assert forall|i: int| 0 <= i < x.fills.len() implies books_same(#[trigger] x.fills[i], y.fills[i]) by {
        if i < a.fills.len() {
            assert(x.fills[i] == a.fills[i] && y.fills[i] == b.fills[i]);
        }
    }
}

proof fn lemma_queue_same(
    a: MatchState,
    b: MatchState,
    price: u64,
    queue: Seq<Seq<char>>,
    seq: u64,
    now: u64,
    later: u64,
)
    requires
        same_run(a, b),
    ensures
        same_run(match_queue(a, price, queue, seq, now), match_queue(b, price, queue, seq, later)),
    decreases queue.len(),
{
    if queue.len() == 0 || done(a.taker) {
    } else {
        lemma_meet_same(a, b, price, queue[0], seq, now, later);
        lemma_queue_same(
            meet(a, price, queue[0], seq, now),
            meet(b, price, queue[0], seq, later),
            price,
            queue.drop_first(),
            seq,
            now,
            later,
        );
    }
}

proof fn lemma_levels_same(a: MatchState, b: MatchState, prices: Seq<u64>, seq: u64, now: u64, later: u64)
    requires
        same_run(a, b),
    ensures
        same_run(match_levels(a, prices, seq, now), match_levels(b, prices, seq, later)),
    decreases prices.len(),
{
    if prices.len() == 0 || done(a.taker) || !crosses(a.taker.side, a.taker.price_ticks, prices[0]) {
    } else {
        let queue = queue_at(a.book.levels(opposite(a.taker.side)), prices[0]);
        lemma_queue_same(a, b, prices[0], queue, seq, now, later);
        lemma_levels_same(
            match_queue(a, prices[0], queue, seq, now),
            match_queue(b, prices[0], queue, seq, later),
            prices.drop_first(),
            seq,
            now,
            later,
        );
    }
}

proof fn lemma_filled_same(filled: Map<Seq<u8>, u64>, a: Seq<Fill>, b: Seq<Fill>, i: int)
    requires
        a.len() == b.len(),
        0 <= i <= a.len(),
        forall|j: int| 0 <= j < a.len() ==> books_same(#[trigger] a[j], b[j]),
    ensures
        filled_after(filled, a.take(i)) == filled_after(filled, b.take(i)),
    decreases i,
{
    if i > 0 {
        lemma_filled_same(filled, a, b, i - 1);
        assert(a.take(i).drop_last() =~= a.take(i - 1));
        assert(b.take(i).drop_last() =~= b.take(i - 1));
        assert(books_same(a[i - 1], b[i - 1]));
    } else {
        assert(a.take(0) =~= b.take(0));
    }
}

/// Whether an acceptance fits does not depend on the time and the id that the
/// engine gives.
pub proof fn law_fit_is_timeless(
    e: EngineModel,
    signed: SignedOrder,
    hash: OrderHash,
    now: u64,
    id: OrderId,
    later: u64,
    other: OrderId,
)
    ensures
        e.accept_fits(signed, now, hash, id) == e.accept_fits(signed, later, hash, other),
{
    let seq = e.next as u64;
    let book = e.books[signed.market_id.0@];
    let a = start_of(book, new_order(signed, now, hash, id, seq));
    let b = start_of(book, new_order(signed, later, hash, other, seq));
    lemma_levels_same(a, b, best_first(book, signed.side), seq, now, later);
    let x = e.run(signed, now, hash, id).fills;
    let y = e.run(signed, later, hash, other).fills;
    assert forall|i: int| 0 <= i < x.len() implies next_fits(e.state.filled, x, i) == next_fits(e.state.filled, y, i) by {
        lemma_filled_same(e.state.filled, x, y, i);
        assert(books_same(x[i], y[i]));
    }
    assert(fills_fit(e.state.filled, x) == fills_fit(e.state.filled, y)) by {
        if fills_fit(e.state.filled, x) {
            assert forall|i: int| 0 <= i < y.len() implies #[trigger] next_fits(e.state.filled, y, i) by {
                assert(next_fits(e.state.filled, x, i));
            }
        }
        if fills_fit(e.state.filled, y) {
            assert forall|i: int| 0 <= i < x.len() implies #[trigger] next_fits(e.state.filled, x, i) by {
                assert(next_fits(e.state.filled, y, i));
            }
        }
    }
}

/// A submission that is admitted at some time would have been admitted at the
/// beginning of time.
pub proof fn lemma_admitted_early(e: EngineModel, signed: SignedOrder, now: u64, verdict: Result<(), OrderError>)
    requires
        e.admits(signed, now, verdict),
    ensures
        e.admits(signed, 0, verdict),
{
}

/// There is room for a submission where a number is left and it cannot be accepted: its
/// market is not there, it was accepted before, or its nonce is used up. There is also
/// room where it can be accepted, numbers are left for two events and one for each place
/// it can meet on the other side, and its size can be booked on top of what is booked
/// under its own hash and under that of any open order of the market.
pub proof fn law_room_for_submission(e: EngineModel, signed: SignedOrder)
    requires
        e.wf(),
        e.next < u64::MAX,
        e.markets.contains_key(signed.market_id.0@) && !e.accepted.contains_key(
            (signed.trader_id@, signed.client_order_id@),
        ) && signed.nonce > amount(e.state.nonces, signed.trader_id@) ==> {
            let book = e.books[signed.market_id.0@];
            &&& e.next + 2 + waiting(book.levels(opposite(signed.side)), best_first(book, signed.side)) <= u64::MAX
            &&& amount(e.state.filled, signed.hash()) + signed.size_lots <= u64::MAX
            &&& forall|id: Seq<char>| #[trigger]
                book.is_open(id) ==> book.orders[id].order_hash.0@ != signed.hash() && amount(
                    e.state.filled,
                    book.orders[id].order_hash.0@,
                ) + signed.size_lots <= u64::MAX
        },
    ensures
        e.has_room(signed),
{
    assert forall|now: u64, hash: OrderHash, id: OrderId| hash.0@ == signed.hash() implies #[trigger] e.submit_fits(
        signed,
        now,
        signed.signature_verdict(),
        hash,
        id,
    ) by {
        if e.admits(signed, now, signed.signature_verdict()) {
            law_comfortable_fits(e, signed, now, hash, id);
        }
    }
}

/// Where there is room, whatever becomes of the submission stays within the numbers.
pub proof fn law_room_is_enough(
    e: EngineModel,
    signed: SignedOrder,
    now: u64,
    hash: OrderHash,
    id: OrderId,
    after: EngineModel,
)
    requires
        e.wf(),
        e.has_room(signed),
        hash.0@ == signed.hash(),
        e.submits(signed, now, signed.signature_verdict(), hash, id, after),
    ensures
        after.next <= u64::MAX,
{
    assert(e.submit_fits(signed, now, signed.signature_verdict(), hash, id));
}

} // verus!
