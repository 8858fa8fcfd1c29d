//! The log tells everything: replaying it rebuilds the engine.
use crate::db::{amount, fill_fits, fills_fit, next_fits, StateModel};
use crate::domain::market::MarketConfig;
use crate::domain::order::{Fill, Order, OrderError, OrderHash, OrderId, OrderStatus, Side, SignedOrder};
use crate::engine::intake::{law_accept_keeps_wf, law_cancel_keeps_wf, law_market_keeps_wf};
use crate::engine::laws::{lemma_numbered, lemma_renumbered, lemma_levels, lemma_matched, lemma_meet, lemma_queue, ready, same_order, start_of};
use crate::engine::matching::{best_first, crosses, done, fill_of, filled_by, match_levels, match_queue, meet, min_qty, opposite, MatchState};
use crate::engine::model::{appended, cancel_event, cancelled, entries, fill_events, fills_booked, index_in, intake_events, new_order, renumbered, restores, takes_over, with_empty_books, EngineModel, Entry};
use crate::engine::orderbook::{own_ids, queue_at, Age, BookModel};
use crate::engine::tidy::{law_intake_keeps_tidy, law_intake_keeps_uncrossed, lemma_close_keeps_uncrossed, lemma_numbered_tidy, lemma_tidy_closed, tidy, uncrossed};
use crate::events::{CancelReason, Event, SequencedEvent};
use crate::ordmap::{ascending, MapKey};
use crate::replay::{ages, book_of, books_of, lemma_side_unique, lemma_walk_own_ids, open_in, open_within_size, refilled, rests_at, side_of, stepped, walked, youngest, Outcome, Walk};
use crate::sequencer::{accepted_in, IdempotencyRecord};
use vstd::prelude::*;

verus! {

/// The books of an engine are tidy and uncrossed, every order in them is in the
/// index and was accepted before the next event, and the log has no gaps.
pub open spec fn tidy_engine(e: EngineModel) -> bool {
    &&& e.wf()
    &&& e.next >= 1
    &&& forall|m: Seq<char>| #[trigger] e.books.contains_key(m) ==> tidy(e.books[m], m) && uncrossed(e.books[m])
    &&& forall|m: Seq<char>, id: Seq<char>|
        e.books.contains_key(m) && #[trigger] e.books[m].orders.contains_key(id) ==> e.index.contains_key(id)
            && e.index[id] == m && e.books[m].orders[id].created_sequence < e.next
    &&& forall|i: int| 0 <= i < e.log.len() ==> (#[trigger] e.log[i]).seq_id == e.next - e.log.len() + i
}

/// The walk `w` over the log of `e` has come to the state of `e`.
pub open spec fn in_step(e: EngineModel, w: Walk) -> bool {
    &&& w.last == (if e.log.len() > 0 {
        Some((e.next - 1) as u64)
    } else {
        None
    })
    &&& w.state.filled == e.state.filled
    &&& w.state.cancelled == e.state.cancelled
    &&& w.state.nonces == e.state.nonces
    &&& forall|id: Seq<char>| #[trigger] w.orders.contains_key(id) <==> e.index.contains_key(id)
    &&& forall|id: Seq<char>| #[trigger] w.orders.contains_key(id) ==> w.orders[id].market_id.0@ == e.index[id]
    &&& forall|m: Seq<char>, id: Seq<char>|
        e.books.contains_key(m) && #[trigger] e.books[m].orders.contains_key(id) ==> w.orders[id] == e.books[m].orders[id]
    &&& forall|id: Seq<char>|
        #[trigger] w.orders.contains_key(id) && !w.orders[id].closed() ==> e.books.contains_key(e.index[id])
            && e.books[e.index[id]].orders.contains_key(id)
    &&& forall|id: Seq<char>| #[trigger]
        w.orders.contains_key(id) ==> e.find(id) == Some(w.orders[id])
    &&& forall|id: Seq<char>| #[trigger] e.closed.contains_key(id) ==> w.orders.contains_key(id)
}

/// What a log tells of an accepted submission: the number of its acceptance, its
/// order id and its hash.
pub open spec fn told_in(log: Seq<Entry>) -> Map<(Seq<char>, Seq<char>), (u64, OrderId, OrderHash)>
    decreases log.len(),
{
    if log.len() == 0 {
        Map::empty()
    } else {
        let before = told_in(log.drop_last());
        match log.last().event {
            Event::OrderAccepted { order } => before.insert(
                (order.trader_id@, order.client_order_id@),
                (log.last().seq_id, order.order_id, order.order_hash),
            ),
            _ => before,
        }
    }
}

/// What a record of an accepted submission tells.
pub open spec fn told_of(record: IdempotencyRecord) -> (u64, OrderId, OrderHash) {
    (record.original_seq_id, record.order_id, record.order_hash)
}

/// `accepted` remembers the submissions that `log` tells of, with the same
/// numbers, ids and hashes.
pub open spec fn remembers(
    accepted: Map<(Seq<char>, Seq<char>), IdempotencyRecord>,
    told: Map<(Seq<char>, Seq<char>), (u64, OrderId, OrderHash)>,
) -> bool {
    &&& forall|key: (Seq<char>, Seq<char>)| #[trigger] accepted.contains_key(key) <==> told.contains_key(key)
    &&& forall|key: (Seq<char>, Seq<char>)| #[trigger] accepted.contains_key(key) ==> told_of(accepted[key]) == told[key]
}

/// The accounts of `e` agree with its orders (see [`accounted`]).
pub open spec fn accounts_agree(e: EngineModel) -> bool {
    walked(e.log) matches Outcome::Done(w) && accounted(w)
}

/// The log of `e` can be replayed, the replay comes to the state of `e`, and the
/// log tells of the same orders and submissions that `e` knows.
pub open spec fn recoverable(e: EngineModel) -> bool {
    &&& walked(e.log) matches Outcome::Done(w) && in_step(e, w)
    &&& e.index == index_in(e.log)
    &&& remembers(e.accepted, told_in(e.log))
}

/// Events other than acceptances tell of no further orders.
proof fn lemma_told_same(log: Seq<Entry>, next: int, events: Seq<Event>)
    requires
        forall|i: int| 0 <= i < events.len() ==> !(#[trigger] events[i] is OrderAccepted),
    ensures
        told_in(appended(log, next, events)) == told_in(log),
        index_in(appended(log, next, events)) == index_in(log),
    decreases events.len(),
{
    if events.len() == 0 {
        assert(appended(log, next, events) =~= log);
    } else {
        let init = events.drop_last();
        let more = appended(log, next, events);
        assert forall|i: int| 0 <= i < init.len() implies !(#[trigger] init[i] is OrderAccepted) by {
            assert(init[i] == events[i]);
        }
        lemma_told_same(log, next, init);
        assert(more.drop_last() =~= appended(log, next, init));
        assert(more.last().event == events[events.len() - 1]);
    }
}

/// What the events of an intake tell.
proof fn lemma_told_intake(log: Seq<Entry>, next: int, order: Order, m: MatchState)
    ensures
        ({
            let after = appended(log, next, intake_events(order, m));
            &&& told_in(after) == told_in(log).insert(
                (order.trader_id@, order.client_order_id@),
                (next as u64, order.order_id, order.order_hash),
            )
            &&& index_in(after) == index_in(log).insert(order.order_id.key(), order.market_id.0@)
        }),
{
    let event = Event::OrderAccepted { order };
    let events = intake_events(order, m);
    let one = appended(log, next, seq![event]);
    let rest = events.drop_first();
    assert(one.drop_last() =~= log);
    assert(one.last() == Entry { seq_id: next as u64, event });
    assert(appended(one, next + 1, rest) =~= appended(log, next, events));
    assert forall|i: int| 0 <= i < rest.len() implies !(#[trigger] rest[i] is OrderAccepted) by {
        assert(rest[i] == events[i + 1]);
        if i < m.fills.len() {
            assert(events[i + 1] == fill_events(m.fills)[i]);
        }
    }
    lemma_told_same(one, next + 1, rest);
}

/// An engine starts tidy and recoverable.
pub proof fn law_new_engine_recoverable(times: Set<u64>)
    ensures
        tidy_engine(EngineModel::empty(times)),
        recoverable(EngineModel::empty(times)),
        accounts_agree(EngineModel::empty(times)),
{
    let e = EngineModel::empty(times);
    assert(walked(e.log) is Done);
}

/// Registering a market keeps an engine tidy and recoverable.
pub proof fn law_market_keeps_recoverable(e: EngineModel, config: MarketConfig)
    requires
        tidy_engine(e),
        recoverable(e),
    ensures
        tidy_engine(e.with_market(config)),
        recoverable(e.with_market(config)),
        accounts_agree(e) ==> accounts_agree(e.with_market(config)),
{
    let after = e.with_market(config);
    let id = config.id.0@;
    assert(tidy(BookModel::empty(), id)) by {
        let empty = BookModel::empty();
        assert(side_of(empty.orders, id, Side::Buy, empty.bids));
        assert(side_of(empty.orders, id, Side::Sell, empty.asks));
    }
    assert forall|m: Seq<char>, x: Seq<char>|
        after.books.contains_key(m) && #[trigger] after.books[m].orders.contains_key(x) implies after.index.contains_key(x)
        && after.index[x] == m && after.books[m].orders[x].created_sequence < after.next by {
        assert(e.books.contains_key(m) && e.books[m].orders.contains_key(x));
    }
    let w = walked(e.log)->Done_0;
    assert forall|m: Seq<char>, x: Seq<char>|
        after.books.contains_key(m) && #[trigger] after.books[m].orders.contains_key(x) implies w.orders[x] == after.books[m].orders[x] by {
        assert(e.books.contains_key(m) && e.books[m].orders.contains_key(x));
    }
    assert forall|x: Seq<char>| #[trigger] w.orders.contains_key(x) implies after.find(x) == Some(w.orders[x]) by {
        assert(after.in_book(x) == e.in_book(x));
    }
    law_market_keeps_wf(e, config);
}

/// A change of an order's status keeps the accounts.
proof fn lemma_status_accounted(w: Walk, after: Walk, id: Seq<char>)
    requires
        accounted(w),
        w.orders.contains_key(id),
        after.state.filled == w.state.filled,
        after.orders == w.orders.insert(
            id,
            Order {
                status: after.orders[id].status,
                last_update_sequence: after.orders[id].last_update_sequence,
                ..w.orders[id]
            },
        ),
    ensures
        accounted(after),
{
    assert forall|x: Seq<char>| #[trigger] after.orders.contains_key(x) implies amount(
        after.state.filled,
        after.orders[x].order_hash.0@,
    ) == after.orders[x].filled_size_lots && after.orders[x].within_size() by {
        assert(w.orders.contains_key(x));
    }
    assert forall|a: Seq<char>, b: Seq<char>|
        #[trigger] after.orders.contains_key(a) && #[trigger] after.orders.contains_key(b) && a != b implies after.orders[a].order_hash.0@
        != after.orders[b].order_hash.0@ by {
        assert(w.orders.contains_key(a) && w.orders.contains_key(b));
    }
    assert forall|h: Seq<u8>| #[trigger] after.state.filled.contains_key(h) implies hash_known(after, h) by {
        let x = choose|x: Seq<char>| #[trigger] w.orders.contains_key(x) && w.orders[x].order_hash.0@ == h;
        assert(after.orders.contains_key(x));
    }
}

/// The walk over a log with one more event.
proof fn lemma_walk_one(log: Seq<Entry>, next: int, events: Seq<Event>, event: Event)
    ensures
        walked(appended(log, next, events.push(event))) == (match walked(appended(log, next, events)) {
            Outcome::Done(w) => stepped(w, Entry { seq_id: (next + events.len()) as u64, event }),
            other => other,
        }),
{
    let more = appended(log, next, events.push(event));
    assert(more.drop_last() =~= appended(log, next, events));
    assert(more.last() == Entry { seq_id: (next + events.len()) as u64, event });
}

proof fn lemma_log_contiguous(e: EngineModel, events: Seq<Event>)
    requires
        e.next >= 1,
        e.next + events.len() <= u64::MAX,
        forall|i: int| 0 <= i < e.log.len() ==> (#[trigger] e.log[i]).seq_id == e.next - e.log.len() + i,
    ensures
        ({
            let log = appended(e.log, e.next, events);
            forall|i: int| 0 <= i < log.len() ==> (#[trigger] log[i]).seq_id == e.next + events.len() - log.len() + i
        }),
{
    let log = appended(e.log, e.next, events);
    assert forall|i: int| 0 <= i < log.len() implies (#[trigger] log[i]).seq_id == e.next + events.len() - log.len() + i by {
        if i < e.log.len() {
            assert(log[i] == e.log[i]);
        }
    }
}

/// The event concerns no order.
pub open spec fn concerns_no_order(event: Event) -> bool {
    event is MarketPaused || event is MarketResumed || event is OrderRejected
}

/// An event that concerns no order keeps an engine tidy and recoverable.
pub proof fn law_record_keeps_recoverable(e: EngineModel, event: Event)
    requires
        tidy_engine(e),
        recoverable(e),
        concerns_no_order(event),
        e.next < u64::MAX,
    ensures
        tidy_engine(e.record(event)),
        recoverable(e.record(event)),
        accounts_agree(e) ==> accounts_agree(e.record(event)),
{
    let after = e.record(event);
    lemma_log_contiguous(e, seq![event]);
    lemma_walk_one(e.log, e.next, Seq::empty(), event);
    assert(Seq::<Event>::empty().push(event) =~= seq![event]);
    assert(appended(e.log, e.next, Seq::<Event>::empty()) =~= e.log);
    let w = walked(e.log)->Done_0;
    assert(walked(after.log) == Outcome::Done(Walk { last: Some(e.next as u64), ..w }));
    lemma_told_same(e.log, e.next, seq![event]);
    assert forall|x: Seq<char>| after.find(x) == e.find(x) by {
    }
}

/// Cancelling an open order keeps an engine tidy and recoverable.
pub proof fn law_cancel_keeps_recoverable(e: EngineModel, market: Seq<char>, id: Seq<char>, reason: CancelReason)
    requires
        tidy_engine(e),
        recoverable(e),
        e.books.contains_key(market),
        e.books[market].is_open(id),
        reason != CancelReason::SelfTradePrevention,
        e.next < u64::MAX,
    ensures
        tidy_engine(e.cancel(market, id, reason)),
        recoverable(e.cancel(market, id, reason)),
        accounts_agree(e) ==> accounts_agree(e.cancel(market, id, reason)),
{
    let after = e.cancel(market, id, reason);
    let order = e.books[market].orders[id];
    let event = cancel_event(order, reason);
    lemma_log_contiguous(e, seq![event]);
    lemma_walk_one(e.log, e.next, Seq::empty(), event);
    assert(Seq::<Event>::empty().push(event) =~= seq![event]);
    assert(appended(e.log, e.next, Seq::<Event>::empty()) =~= e.log);
    let w = walked(e.log)->Done_0;
    assert(order.order_id.key() == id);
    assert(w.orders[id] == order);
    assert(w.orders.contains_key(id));
    let closed = Order {
        status: OrderStatus::Cancelled,
        last_update_sequence: e.next as u64,
        ..w.orders[id]
    };
    let w1 = Walk {
        orders: w.orders.insert(id, closed),
        state: w.state.cancel(order.order_hash.0@),
        last: Some(e.next as u64),
    };
    assert(walked(after.log) == Outcome::Done(w1));
    if accounted(w) {
        lemma_status_accounted(w, w1, id);
    }
    lemma_told_same(e.log, e.next, seq![event]);
    lemma_tidy_closed(e.books[market], market, id, cancelled(order, e.next as u64));
    lemma_close_keeps_uncrossed(e.books[market], id, cancelled(order, e.next as u64));
    law_cancel_keeps_wf(e, market, id, reason);
    assert forall|m: Seq<char>, x: Seq<char>|
        after.books.contains_key(m) && #[trigger] after.books[m].orders.contains_key(x) implies after.index.contains_key(x)
        && after.index[x] == m && after.books[m].orders[x].created_sequence < after.next && w1.orders[x] == after.books[m].orders[x] by {
        assert(e.books.contains_key(m) && e.books[m].orders.contains_key(x));
        if x == id {
            assert(m == market);
        }
    }
    assert forall|x: Seq<char>| #[trigger] w1.orders.contains_key(x) && !w1.orders[x].closed() implies after.books.contains_key(
        after.index[x],
    ) && after.books[after.index[x]].orders.contains_key(x) by {
        assert(w.orders.contains_key(x) && !w.orders[x].closed());
    }
    assert forall|x: Seq<char>| #[trigger] w1.orders.contains_key(x) implies after.find(x) == Some(w1.orders[x]) by {
        assert(w.orders.contains_key(x));
        assert(after.in_book(x) == e.in_book(x));
    }
    assert forall|m: Seq<char>| #[trigger] after.books.contains_key(m) implies tidy(after.books[m], m) && uncrossed(
        after.books[m],
    ) by {
        assert(e.books.contains_key(m));
    }
}

/// What is booked for each order of a walk is what was filled of it, no more than
/// was ordered; no two orders have the same hash, and nothing is booked for a
/// hash that no order has.
pub open spec fn accounted(w: Walk) -> bool {
    &&& forall|id: Seq<char>| #[trigger]
        w.orders.contains_key(id) ==> amount(w.state.filled, w.orders[id].order_hash.0@)
            == w.orders[id].filled_size_lots && w.orders[id].within_size()
    &&& forall|a: Seq<char>, b: Seq<char>|
        #[trigger] w.orders.contains_key(a) && #[trigger] w.orders.contains_key(b) && a != b
            ==> w.orders[a].order_hash.0@ != w.orders[b].order_hash.0@
    &&& forall|h: Seq<u8>| #[trigger] w.state.filled.contains_key(h) ==> hash_known(w, h)
}

/// Some order of the walk has the hash `h`.
pub open spec fn hash_known(w: Walk, h: Seq<u8>) -> bool {
    exists|id: Seq<char>| #[trigger] w.orders.contains_key(id) && w.orders[id].order_hash.0@ == h
}

/// The events of a match run so far.
spec fn events_so_far(order: Order, st: MatchState) -> Seq<Event> {
    seq![Event::OrderAccepted { order }] + fill_events(st.fills)
}

/// The walk `w` trails the match run `st` of `order` in `e`: it has applied the
/// acceptance and every fill so far. `state` is the state store after the
/// acceptance, `w0` the walk before it.
spec fn trails(e: EngineModel, order: Order, state: StateModel, w0: Walk, st: MatchState, w: Walk) -> bool {
    let tid = order.order_id.key();
    let booked = fills_booked(state, st.fills);
    let taker = w.orders[tid];
    &&& w.last == Some((e.next + st.fills.len()) as u64)
    &&& w.state.filled == booked.filled
    &&& w.state.cancelled == booked.cancelled
    &&& w.state.nonces == booked.nonces
    &&& forall|id: Seq<char>| #[trigger] w.orders.contains_key(id) <==> w0.orders.contains_key(id) || id == tid
    &&& st.taker == (Order {
        last_update_sequence: st.taker.last_update_sequence,
        status: st.taker.status,
        ..taker
    })
    &&& st.taker.status != OrderStatus::CancelledStp ==> st.taker.status == taker.status
    &&& taker.last_update_sequence == (e.next + st.fills.len()) as u64
    &&& forall|id: Seq<char>|
        #[trigger] st.book.orders.contains_key(id) ==> w0.orders.contains_key(id) && w.orders[id] == renumbered(
            st.book.orders[id],
            id,
            st.fills,
            e.next + 1,
        )
    &&& forall|id: Seq<char>|
        #[trigger] w0.orders.contains_key(id) && !st.book.orders.contains_key(id) ==> w.orders[id] == w0.orders[id]
    &&& forall|id: Seq<char>|
        #[trigger] w0.orders.contains_key(id) ==> w.orders[id].market_id == w0.orders[id].market_id
    &&& !st.taker.closed() ==> st.taker.remaining() > 0
    &&& ready(st)
    &&& st.taker.order_id == order.order_id
    &&& st.taker.order_hash == order.order_hash
    &&& !w0.orders.contains_key(tid)
    &&& accounted(w0) && !hash_known(w0, order.order_hash.0@) ==> accounted(w)
}

/// A walk over the events so far trails the match run.
spec fn trailed(e: EngineModel, order: Order, state: StateModel, w0: Walk, st: MatchState) -> bool {
    walked(appended(e.log, e.next, events_so_far(order, st))) matches Outcome::Done(w) && trails(
        e,
        order,
        state,
        w0,
        st,
        w,
    )
}

proof fn lemma_fill_trails(
    e: EngineModel,
    order: Order,
    state: StateModel,
    w0: Walk,
    st: MatchState,
    w: Walk,
    price: u64,
    id: Seq<char>,
    seq: u64,
    now: u64,
)
    requires
        trails(e, order, state, w0, st, w),
        !done(st.taker),
        st.book.is_open(id),
        st.book.orders[id].trader_id@ != st.taker.trader_id@,
        e.next >= 1,
        e.next + st.fills.len() + 1 < u64::MAX,
        fill_fits(
            fills_booked(state, st.fills).filled,
            order.order_hash.0@,
            st.book.orders[id].order_hash.0@,
            min_qty(st.taker, st.book.orders[id]),
        ),
    ensures
        ({
            let next = meet(st, price, id, seq, now);
            let fill = next.fills.last();
            let step = stepped(w, Entry { seq_id: (e.next + st.fills.len() + 1) as u64, event: Event::Fill(fill) });
            step matches Outcome::Done(w1) && trails(e, order, state, w0, next, w1)
        }),
{
    let maker = st.book.orders[id];
    let qty = min_qty(st.taker, maker);
    let next = meet(st, price, id, seq, now);
    let fill = fill_of(st.taker, maker, price, qty, seq, now);
    let tid = order.order_id.key();
    let n = (e.next + st.fills.len() + 1) as u64;
    lemma_meet(st, price, id, seq, now);
    assert(next.fills.last() == fill);
    assert(next.fills.drop_last() =~= st.fills);
    assert(st.book.orders.contains_key(id));
    assert(w0.orders.contains_key(id));
    assert(id != tid);
    assert(maker.order_id.key() == id);
    assert(w.orders[id] == renumbered(maker, id, st.fills, e.next + 1));
    lemma_renumbered(maker, id, st.fills, e.next + 1);
    assert(w.orders.contains_key(tid) && w.orders.contains_key(id));
    let one = w.orders.insert(tid, refilled(w.orders[tid], qty, n));
    let two = one.insert(id, refilled(w.orders[id], qty, n));
    let w1 = Walk {
        orders: two,
        state: w.state.fill(order.order_hash.0@, maker.order_hash.0@, qty),
        last: Some(n),
    };
    assert(stepped(w, Entry { seq_id: n, event: Event::Fill(fill) }) == Outcome::Done(w1));
    assert(next.book.orders == st.book.orders.insert(id, filled_by(maker, qty, seq)));
    assert forall|x: Seq<char>| #[trigger] next.book.orders.contains_key(x) implies w0.orders.contains_key(x) && w1.orders[x]
        == renumbered(next.book.orders[x], x, next.fills, e.next + 1) by {
        assert(st.book.orders.contains_key(x));
    }
    assert forall|x: Seq<char>| #[trigger] w0.orders.contains_key(x) && !next.book.orders.contains_key(x) implies w1.orders[x]
        == w0.orders[x] by {
        assert(!st.book.orders.contains_key(x));
    }
    if accounted(w0) && !hash_known(w0, order.order_hash.0@) {
        lemma_fill_accounted(w, w1, tid, id, qty, n);
    }
    assert(trails(e, order, state, w0, next, w1));
}

/// A fill between two orders keeps the accounts.
proof fn lemma_fill_accounted(w: Walk, after: Walk, taker: Seq<char>, maker: Seq<char>, qty: u64, n: u64)
    requires
        accounted(w),
        w.orders.contains_key(taker),
        w.orders.contains_key(maker),
        taker != maker,
        qty <= w.orders[taker].remaining(),
        qty <= w.orders[maker].remaining(),
        after.orders == w.orders.insert(taker, refilled(w.orders[taker], qty, n)).insert(
            maker,
            refilled(w.orders[maker], qty, n),
        ),
        after.state == w.state.fill(w.orders[taker].order_hash.0@, w.orders[maker].order_hash.0@, qty),
    ensures
        accounted(after),
{
    assert forall|id: Seq<char>| #[trigger] after.orders.contains_key(id) implies amount(
        after.state.filled,
        after.orders[id].order_hash.0@,
    ) == after.orders[id].filled_size_lots && after.orders[id].within_size() by {
        assert(w.orders.contains_key(id));
    }
    assert forall|a: Seq<char>, b: Seq<char>|
        #[trigger] after.orders.contains_key(a) && #[trigger] after.orders.contains_key(b) && a != b implies after.orders[a].order_hash.0@
        != after.orders[b].order_hash.0@ by {
        assert(w.orders.contains_key(a) && w.orders.contains_key(b));
    }
    assert forall|h: Seq<u8>| #[trigger] after.state.filled.contains_key(h) implies hash_known(after, h) by {
        if h == w.orders[taker].order_hash.0@ {
            assert(after.orders.contains_key(taker));
        } else if h == w.orders[maker].order_hash.0@ {
            assert(after.orders.contains_key(maker));
        } else {
            assert(w.state.filled.contains_key(h));
            let id = choose|id: Seq<char>| #[trigger] w.orders.contains_key(id) && w.orders[id].order_hash.0@ == h;
            assert(after.orders.contains_key(id));
        }
    }
}

proof fn lemma_meet_trails(
    e: EngineModel,
    order: Order,
    state: StateModel,
    w0: Walk,
    st: MatchState,
    all: Seq<Fill>,
    price: u64,
    id: Seq<char>,
    seq: u64,
    now: u64,
)
    requires
        trailed(e, order, state, w0, st),
        !done(st.taker),
        e.next >= 1,
        e.next + 1 + all.len() < u64::MAX + 1,
        fills_fit(state.filled, all),
        meet(st, price, id, seq, now).fills.is_prefix_of(all),
    ensures
        trailed(e, order, state, w0, meet(st, price, id, seq, now)),
{
    let next = meet(st, price, id, seq, now);
    let w = walked(appended(e.log, e.next, events_so_far(order, st)))->Done_0;
    if !st.book.is_open(id) {
    } else if st.book.orders[id].trader_id@ == st.taker.trader_id@ {
        lemma_meet(st, price, id, seq, now);
        assert(events_so_far(order, next) =~= events_so_far(order, st));
        assert(trails(e, order, state, w0, next, w));
    } else {
        let fill = next.fills.last();
        let k = st.fills.len() as int;
        assert(all[k] == next.fills[k]);
        assert(next_fits(state.filled, all, k));
        assert(all.take(k) =~= st.fills);
        assert(next.fills.len() <= all.len());
        lemma_fill_trails(e, order, state, w0, st, w, price, id, seq, now);
        lemma_walk_one(e.log, e.next, events_so_far(order, st), Event::Fill(fill));
        assert(events_so_far(order, next) =~= events_so_far(order, st).push(Event::Fill(fill)));
        assert(events_so_far(order, st).len() == st.fills.len() + 1);
    }
}

proof fn lemma_queue_trails(
    e: EngineModel,
    order: Order,
    state: StateModel,
    w0: Walk,
    st: MatchState,
    all: Seq<Fill>,
    price: u64,
    queue: Seq<Seq<char>>,
    seq: u64,
    now: u64,
)
    requires
        trailed(e, order, state, w0, st),
        e.next >= 1,
        e.next + 1 + all.len() < u64::MAX + 1,
        fills_fit(state.filled, all),
        match_queue(st, price, queue, seq, now).fills.is_prefix_of(all),
    ensures
        trailed(e, order, state, w0, match_queue(st, price, queue, seq, now)),
    decreases queue.len(),
{
    if queue.len() == 0 || done(st.taker) {
    } else {
        let next = meet(st, price, queue[0], seq, now);
        let r = match_queue(st, price, queue, seq, now);
        lemma_meet(st, price, queue[0], seq, now);
        lemma_queue(next, price, queue.drop_first(), seq, now);
        assert(next.fills.is_prefix_of(r.fills));
        lemma_meet_trails(e, order, state, w0, st, all, price, queue[0], seq, now);
        lemma_queue_trails(e, order, state, w0, next, all, price, queue.drop_first(), seq, now);
    }
}

proof fn lemma_levels_trails(
    e: EngineModel,
    order: Order,
    state: StateModel,
    w0: Walk,
    st: MatchState,
    all: Seq<Fill>,
    prices: Seq<u64>,
    seq: u64,
    now: u64,
)
    requires
        trailed(e, order, state, w0, st),
        e.next >= 1,
        e.next + 1 + all.len() < u64::MAX + 1,
        fills_fit(state.filled, all),
        match_levels(st, prices, seq, now).fills.is_prefix_of(all),
    ensures
        trailed(e, order, state, w0, match_levels(st, prices, seq, now)),
    decreases prices.len(),
{
    if prices.len() == 0 || done(st.taker) || !crosses(st.taker.side, st.taker.price_ticks, prices[0]) {
    } else {
        let queue = queue_at(st.book.levels(opposite(st.taker.side)), prices[0]);
        let next = match_queue(st, prices[0], queue, seq, now);
        lemma_queue(st, prices[0], queue, seq, now);
        lemma_levels(next, prices.drop_first(), seq, now);
        assert(next.fills.is_prefix_of(match_levels(st, prices, seq, now).fills));
        lemma_queue_trails(e, order, state, w0, st, all, prices[0], queue, seq, now);
        lemma_levels_trails(e, order, state, w0, next, all, prices.drop_first(), seq, now);
    }
}

/// The walk over the acceptance itself.
proof fn lemma_acceptance_trails(e: EngineModel, signed: SignedOrder, now: u64, hash: OrderHash, id: OrderId)
    requires
        tidy_engine(e),
        recoverable(e),
        e.markets.contains_key(signed.market_id.0@),
        signed.size_lots > 0,
        e.nonce_ok(signed),
        e.next < u64::MAX,
        !e.index.contains_key(id.key()),
    ensures
        ({
            let order = new_order(signed, now, hash, id, e.next as u64);
            trailed(
                e,
                order,
                e.state.with_nonce(signed.trader_id@, signed.nonce),
                walked(e.log)->Done_0,
                start_of(e.books[signed.market_id.0@], order),
            )
        }),
{
    let market = signed.market_id.0@;
    let order = new_order(signed, now, hash, id, e.next as u64);
    let st = start_of(e.books[market], order);
    let w0 = walked(e.log)->Done_0;
    let event = Event::OrderAccepted { order };
    let state = e.state.with_nonce(signed.trader_id@, signed.nonce);
    lemma_walk_one(e.log, e.next, Seq::empty(), event);
    assert(Seq::<Event>::empty().push(event) =~= seq![event]);
    assert(appended(e.log, e.next, Seq::<Event>::empty()) =~= e.log);
    assert(events_so_far(order, st) =~= seq![event]);
    let w = Walk {
        orders: w0.orders.insert(id.key(), order),
        state: w0.state.with_nonce(signed.trader_id@, signed.nonce),
        last: Some(e.next as u64),
    };
    assert(walked(appended(e.log, e.next, seq![event])) == Outcome::Done(w));
    assert(e.books.contains_key(market));
    assert forall|x: Seq<char>| #[trigger] st.book.orders.contains_key(x) implies w0.orders.contains_key(x) && w.orders[x]
        == renumbered(st.book.orders[x], x, st.fills, e.next + 1) by {
        assert(e.index.contains_key(x));
    }
    if accounted(w0) && !hash_known(w0, hash.0@) {
        assert forall|x: Seq<char>| #[trigger] w.orders.contains_key(x) implies amount(
            w.state.filled,
            w.orders[x].order_hash.0@,
        ) == w.orders[x].filled_size_lots && w.orders[x].within_size() by {
            if x != id.key() {
                assert(w0.orders.contains_key(x));
            }
        }
        assert forall|a: Seq<char>, b: Seq<char>|
            #[trigger] w.orders.contains_key(a) && #[trigger] w.orders.contains_key(b) && a != b implies w.orders[a].order_hash.0@
            != w.orders[b].order_hash.0@ by {
            if a != id.key() {
                assert(w0.orders.contains_key(a));
            }
            if b != id.key() {
                assert(w0.orders.contains_key(b));
            }
        }
        assert forall|h: Seq<u8>| #[trigger] w.state.filled.contains_key(h) implies hash_known(w, h) by {
            let x = choose|x: Seq<char>| #[trigger] w0.orders.contains_key(x) && w0.orders[x].order_hash.0@ == h;
            assert(w.orders.contains_key(x));
        }
        assert(accounted(w));
    }
    assert(trails(e, order, state, w0, st, w));
}

/// Accepting an order under an id that was not used before keeps an engine tidy
/// and recoverable.
#[verifier::rlimit(40)]
pub proof fn law_accept_keeps_recoverable(
    e: EngineModel,
    signed: SignedOrder,
    now: u64,
    verdict: Result<(), OrderError>,
    hash: OrderHash,
    id: OrderId,
)
    requires
        tidy_engine(e),
        recoverable(e),
        e.admits(signed, now, verdict),
        e.accept_fits(signed, now, hash, id),
        !e.index.contains_key(id.key()),
    ensures
        tidy_engine(e.accept(signed, now, hash, id)),
        recoverable(e.accept(signed, now, hash, id)),
        accounts_agree(e) && !hash_known(walked(e.log)->Done_0, hash.0@) ==> accounts_agree(
            e.accept(signed, now, hash, id),
        ),
{
    let market = signed.market_id.0@;
    let seq = e.next as u64;
    let order = new_order(signed, now, hash, id, seq);
    let book = e.books[market];
    let st = start_of(book, order);
    let m = e.run(signed, now, hash, id);
    let after = e.accept(signed, now, hash, id);
    let state = e.state.with_nonce(signed.trader_id@, signed.nonce);
    let w0 = walked(e.log)->Done_0;
    let tid = id.key();
    let events = intake_events(order, m);
    assert(e.markets.contains_key(market));
    assert(e.books.contains_key(market));
    assert(events.len() >= 1 + m.fills.len());
    lemma_acceptance_trails(e, signed, now, hash, id);
    lemma_levels_trails(e, order, state, w0, st, m.fills, best_first(book, order.side), seq, now);
    let w = walked(appended(e.log, e.next, events_so_far(order, m)))->Done_0;
    let stp = m.taker.status == OrderStatus::CancelledStp;
    let cancel = cancel_event(order, CancelReason::SelfTradePrevention);
    lemma_walk_one(e.log, e.next, events_so_far(order, m), cancel);
    assert(events_so_far(order, m).push(cancel) =~= events_so_far(order, m) + seq![cancel]);
    assert(events_so_far(order, m) + Seq::<Event>::empty() =~= events_so_far(order, m));
    let w1 = if stp {
        Walk {
            orders: w.orders.insert(
                tid,
                Order {
                    status: OrderStatus::CancelledStp,
                    last_update_sequence: (e.next + 1 + m.fills.len()) as u64,
                    ..w.orders[tid]
                },
            ),
            state: w.state.cancel(hash.0@),
            last: Some((e.next + 1 + m.fills.len()) as u64),
        }
    } else {
        w
    };
    assert(w.orders.contains_key(tid));
    assert(walked(after.log) == Outcome::Done(w1));
    lemma_matched(book, order, seq, now);
    lemma_log_contiguous(e, events);
    lemma_accept_tidy(e, signed, now, verdict, hash, id);
    lemma_told_intake(e.log, e.next, order, m);
    assert(in_step(after, w1)) by {
        lemma_accept_in_step(e, signed, now, hash, id, w0, w, w1);
    }
    if stp && accounted(w) {
        lemma_status_accounted(w, w1, tid);
    }
}

proof fn lemma_accept_tidy(
    e: EngineModel,
    signed: SignedOrder,
    now: u64,
    verdict: Result<(), OrderError>,
    hash: OrderHash,
    id: OrderId,
)
    requires
        tidy_engine(e),
        e.admits(signed, now, verdict),
        e.accept(signed, now, hash, id).next <= u64::MAX,
        !e.index.contains_key(id.key()),
    ensures
        tidy_engine(e.accept(signed, now, hash, id)),
{
    let market = signed.market_id.0@;
    let seq = e.next as u64;
    let order = new_order(signed, now, hash, id, seq);
    let book = e.books[market];
    let st = start_of(book, order);
    let m = e.run(signed, now, hash, id);
    let after = e.accept(signed, now, hash, id);
    let tid = id.key();
    assert(e.markets.contains_key(market));
    assert(e.books.contains_key(market));
    law_accept_keeps_wf(e, signed, now, verdict, hash, id);
    assert(tidy(book, market) && uncrossed(book));
    assert(!book.orders.contains_key(tid));
    assert forall|x: Seq<char>| #[trigger] book.orders.contains_key(x) implies Age::before(
        (book.orders[x].created_sequence, x),
        (order.created_sequence, tid),
    ) by {
        assert(book.orders[x].created_sequence < e.next);
    }
    assert(youngest(book.orders, order));
    lemma_matched(book, order, seq, now);
    law_intake_keeps_tidy(book, market, order, seq, now);
    law_intake_keeps_uncrossed(book, market, order, seq, now);
    lemma_numbered_tidy(m, e.next, market);
    lemma_numbered(m, e.next);
    let numbered_book = e.intake(signed, now, hash, id).book;
    lemma_log_contiguous(e, intake_events(order, m));
    assert forall|mk: Seq<char>, x: Seq<char>|
        after.books.contains_key(mk) && #[trigger] after.books[mk].orders.contains_key(x) implies after.index.contains_key(x)
        && after.index[x] == mk && after.books[mk].orders[x].created_sequence < after.next by {
        if mk == market {
            if x != tid {
                assert(numbered_book.orders.contains_key(x));
                assert(m.book.orders.contains_key(x));
                assert(book.orders.contains_key(x));
                assert(same_order(book.orders[x], m.book.orders[x]));
            } else {
                assert(!m.book.orders.contains_key(tid)) by {
                    assert(st.book.orders.contains_key(tid) <==> m.book.orders.contains_key(tid));
                }
            }
        } else {
            assert(e.books.contains_key(mk) && e.books[mk].orders.contains_key(x));
        }
    }
    assert forall|mk: Seq<char>| #[trigger] after.books.contains_key(mk) implies tidy(after.books[mk], mk) && uncrossed(
        after.books[mk],
    ) by {
        if mk != market {
            assert(e.books.contains_key(mk));
        }
    }
}

#[verifier::rlimit(40)]
proof fn lemma_accept_in_step(
    e: EngineModel,
    signed: SignedOrder,
    now: u64,
    hash: OrderHash,
    id: OrderId,
    w0: Walk,
    w: Walk,
    w1: Walk,
)
    requires
        tidy_engine(e),
        in_step(e, w0),
        e.books.contains_key(signed.market_id.0@),
        !e.index.contains_key(id.key()),
        e.accept(signed, now, hash, id).next <= u64::MAX,
        trails(
            e,
            new_order(signed, now, hash, id, e.next as u64),
            e.state.with_nonce(signed.trader_id@, signed.nonce),
            w0,
            e.run(signed, now, hash, id),
            w,
        ),
        ({
            let m = e.run(signed, now, hash, id);
            let n = (e.next + 1 + m.fills.len()) as u64;
            if m.taker.status == OrderStatus::CancelledStp {
                w1 == (Walk {
                    orders: w.orders.insert(
                        id.key(),
                        Order {
                            status: OrderStatus::CancelledStp,
                            last_update_sequence: n,
                            ..w.orders[id.key()]
                        },
                    ),
                    state: w.state.cancel(hash.0@),
                    last: Some(n),
                })
            } else {
                w1 == w
            }
        }),
    ensures
        in_step(e.accept(signed, now, hash, id), w1),
{
    let market = signed.market_id.0@;
    let seq = e.next as u64;
    let order = new_order(signed, now, hash, id, seq);
    let book = e.books[market];
    let m = e.run(signed, now, hash, id);
    let after = e.accept(signed, now, hash, id);
    let tid = id.key();
    lemma_matched(book, order, seq, now);
    lemma_numbered(m, e.next);
    let numbered_book = e.intake(signed, now, hash, id).book;
    assert(m.taker.order_id.key() == tid);
    assert(w1.orders[tid] == e.outcome(signed, now, hash, id));
    assert forall|x: Seq<char>| #[trigger] w1.orders.contains_key(x) <==> after.index.contains_key(x) by {
        assert(w.orders.contains_key(x) <==> w0.orders.contains_key(x) || x == tid);
        assert(w0.orders.contains_key(x) <==> e.index.contains_key(x));
    }
    assert forall|x: Seq<char>| #[trigger] w1.orders.contains_key(x) implies w1.orders[x].market_id.0@ == after.index[x] by {
        if x != tid {
            assert(w.orders.contains_key(x));
            assert(w0.orders.contains_key(x));
        }
    }
    assert forall|mk: Seq<char>, x: Seq<char>|
        after.books.contains_key(mk) && #[trigger] after.books[mk].orders.contains_key(x) implies w1.orders[x] == after.books[mk].orders[x] by {
        if mk == market {
            if x != tid {
                assert(numbered_book.orders.contains_key(x));
                assert(m.book.orders.contains_key(x));
                assert(w.orders[x] == numbered_book.orders[x]);
            } else {
                assert(!m.book.orders.contains_key(tid)) by {
                    assert(book.orders.contains_key(tid) <==> m.book.orders.contains_key(tid));
                }
            }
        } else {
            assert(e.books.contains_key(mk) && e.books[mk].orders.contains_key(x));
            assert(x != tid);
            assert(w0.orders.contains_key(x));
            assert(!m.book.orders.contains_key(x)) by {
                assert(book.orders.contains_key(x) <==> m.book.orders.contains_key(x));
            }
            assert(w.orders[x] == w0.orders[x]);
        }
    }
    assert forall|x: Seq<char>| #[trigger] w1.orders.contains_key(x) && !w1.orders[x].closed() implies after.books.contains_key(
        after.index[x],
    ) && after.books[after.index[x]].orders.contains_key(x) by {
        if x == tid {
            assert(!m.taker.closed());
            assert(m.taker.remaining() > 0);
        } else {
            assert(w.orders.contains_key(x));
            assert(w0.orders.contains_key(x));
            if m.book.orders.contains_key(x) {
                assert(book.orders.contains_key(x));
                assert(after.index[x] == market);
            } else {
                assert(w.orders[x] == w0.orders[x]);
                assert(!w0.orders[x].closed());
                assert(e.books[e.index[x]].orders.contains_key(x));
                if e.index[x] == market {
                    assert(book.orders.contains_key(x) <==> m.book.orders.contains_key(x));
                }
            }
        }
    }
    assert forall|x: Seq<char>| #[trigger] w1.orders.contains_key(x) implies after.find(x) == Some(w1.orders[x]) by {
        if x == tid {
            assert(!m.book.orders.contains_key(tid)) by {
                assert(book.orders.contains_key(tid) <==> m.book.orders.contains_key(tid));
            }
        } else {
            assert(w.orders.contains_key(x));
            assert(w0.orders.contains_key(x));
            assert(book.orders.contains_key(x) <==> m.book.orders.contains_key(x));
            assert(after.in_book(x) == e.in_book(x));
            if after.in_book(x) {
                assert(after.books[after.index[x]].orders.contains_key(x));
            } else {
                assert(!m.book.orders.contains_key(x));
                assert(w.orders[x] == w0.orders[x]);
            }
        }
    }
    assert forall|x: Seq<char>| #[trigger] after.closed.contains_key(x) implies w1.orders.contains_key(x) by {
        if x != tid {
            assert(e.closed.contains_key(x));
            assert(w0.orders.contains_key(x));
            assert(w.orders.contains_key(x));
        }
    }
}

/// `b` is the book `a` without its closed orders: the queues are the same, and
/// so is every open order.
pub open spec fn same_resting(a: BookModel, b: BookModel) -> bool {
    &&& a.bids == b.bids
    &&& a.asks == b.asks
    &&& forall|id: Seq<char>| #[trigger] b.orders.contains_key(id) <==> a.is_open(id)
    &&& forall|id: Seq<char>| #[trigger] b.orders.contains_key(id) ==> b.orders[id] == a.orders[id]
}

/// Replay rebuilds the books of a recoverable engine: for every market the
/// rebuilt book has the same queues with the same open orders in them, and a
/// market for which none is rebuilt has nothing resting.
pub proof fn law_replay_rebuilds_books(e: EngineModel, rebuilt: Map<Seq<char>, BookModel>, market: Seq<char>)
    requires
        tidy_engine(e),
        recoverable(e),
        books_of((walked(e.log)->Done_0).orders, rebuilt),
        e.books.contains_key(market),
    ensures
        same_resting(
            e.books[market],
            if rebuilt.contains_key(market) {
                rebuilt[market]
            } else {
                BookModel::empty()
            },
        ),
{
    let w = walked(e.log)->Done_0;
    let a = e.books[market];
    let b = if rebuilt.contains_key(market) {
        rebuilt[market]
    } else {
        BookModel::empty()
    };
    lemma_walk_own_ids(e.log);
    assert forall|id: Seq<char>| open_in(w.orders, market, id) <==> a.is_open(id) by {
        if a.is_open(id) {
            assert(a.orders.contains_key(id));
            assert(w.orders[id] == a.orders[id]);
            assert(w.orders.contains_key(id));
        }
        if open_in(w.orders, market, id) {
            assert(w.orders.contains_key(id));
            assert(a.orders.contains_key(id));
            assert(w.orders[id] == a.orders[id]);
        }
    }
    if !rebuilt.contains_key(market) {
        assert(forall|id: Seq<char>| !open_in(w.orders, market, id));
        assert(book_of(w.orders, market, b));
    }
    assert(book_of(w.orders, market, b));
    assert(tidy(a, market));
    assert forall|p: u64, side: Side, id: Seq<char>| rests_at(w.orders, market, side, p, id) <==> rests_at(
        a.orders,
        market,
        side,
        p,
        id,
    ) by {
        if open_in(w.orders, market, id) {
            assert(a.orders.contains_key(id));
            assert(w.orders[id] == a.orders[id]);
        }
        if open_in(a.orders, market, id) {
            assert(a.orders.contains_key(id));
            assert(w.orders[id] == a.orders[id]);
        }
    }
    assert forall|p: u64, side: Side, id: Seq<char>| #[trigger] rests_at(w.orders, market, side, p, id) implies w.orders[id].created_sequence
        == a.orders[id].created_sequence by {
        assert(rests_at(a.orders, market, side, p, id));
        assert(a.orders.contains_key(id));
        assert(w.orders[id] == a.orders[id]);
    }
    lemma_side_unique(w.orders, a.orders, market, Side::Buy, b.bids, a.bids);
    lemma_side_unique(w.orders, a.orders, market, Side::Sell, b.asks, a.asks);
    assert forall|id: Seq<char>| #[trigger] b.orders.contains_key(id) <==> a.is_open(id) by {
        assert(open_in(w.orders, market, id) <==> a.is_open(id));
    }
    assert forall|id: Seq<char>| #[trigger] b.orders.contains_key(id) implies b.orders[id] == a.orders[id] by {
        assert(open_in(w.orders, market, id) <==> a.is_open(id));
        assert(a.orders.contains_key(id));
    }
}

/// A walk knows the orders that the log accepts, each in its market.
proof fn lemma_walk_index(log: Seq<Entry>)
    ensures
        walked(log) matches Outcome::Done(w) ==> {
            &&& forall|id: Seq<char>| #[trigger] w.orders.contains_key(id) <==> index_in(log).contains_key(id)
            &&& forall|id: Seq<char>| #[trigger] w.orders.contains_key(id) ==> w.orders[id].market_id.0@
                == index_in(log)[id]
        },
    decreases log.len(),
{
    if log.len() > 0 {
        lemma_walk_index(log.drop_last());
    }
}

/// What a resumed sequencer remembers is what the log tells.
proof fn lemma_accepted_told(log: Seq<SequencedEvent>)
    ensures
        remembers(accepted_in(log), told_in(entries(log))),
    decreases log.len(),
{
    if log.len() > 0 {
        lemma_accepted_told(log.drop_last());
        assert(entries(log).drop_last() =~= entries(log.drop_last()));
        assert(entries(log).last() == Entry { seq_id: log.last().seq_id, event: log.last().event });
    }
}

/// A restored engine finds the orders of the walk and no others.
proof fn lemma_restored_finds(fresh: EngineModel, log: Seq<SequencedEvent>, w: Walk, after: EngineModel, id: Seq<char>)
    requires
        walked(entries(log)) == Outcome::Done(w),
        takes_over(fresh, log, w, after),
    ensures
        after.find(id) == (if w.orders.contains_key(id) {
            Some(w.orders[id])
        } else {
            None
        }),
{
    lemma_walk_index(entries(log));
    let books = choose|books: Map<Seq<char>, BookModel>| #[trigger]
        books_of(w.orders, books) && after.books == with_empty_books(books, fresh.markets);
    if w.orders.contains_key(id) {
        let m = after.index[id];
        assert(after.index.contains_key(id));
        assert(w.orders[id].market_id.0@ == m);
        if !w.orders[id].closed() {
            assert(open_in(w.orders, m, id));
        }
        if books.contains_key(m) {
            assert(book_of(w.orders, m, books[m]));
            assert(books[m].orders.contains_key(id) <==> open_in(w.orders, m, id));
        }
    } else {
        assert(!after.index.contains_key(id));
    }
}

/// A resumed sequencer remembers submissions of orders that the log accepts.
proof fn lemma_accepted_indexed(log: Seq<SequencedEvent>)
    ensures
        forall|key: (Seq<char>, Seq<char>)| #[trigger]
            accepted_in(log).contains_key(key) ==> index_in(entries(log)).contains_key(accepted_in(log)[key].order_id.key()),
    decreases log.len(),
{
    if log.len() > 0 {
        let before = log.drop_last();
        lemma_accepted_indexed(before);
        assert(entries(log).drop_last() =~= entries(before));
        assert(entries(log).last() == Entry { seq_id: log.last().seq_id, event: log.last().event });
        assert forall|key: (Seq<char>, Seq<char>)| #[trigger] accepted_in(log).contains_key(key) implies index_in(
            entries(log),
        ).contains_key(accepted_in(log)[key].order_id.key()) by {
            if accepted_in(before).contains_key(key) {
                assert(index_in(entries(before)).contains_key(accepted_in(before)[key].order_id.key()));
            }
        }
    }
}

/// An engine that takes over a log is well-formed, where every open order of the
/// log is within its size.
pub proof fn law_restore_keeps_wf(before: EngineModel, log: Seq<SequencedEvent>, w: Walk, after: EngineModel)
    requires
        forall|m: Seq<char>| #[trigger] before.markets.contains_key(m) ==> before.markets[m].id.0@ == m,
        walked(entries(log)) == Outcome::Done(w),
        takes_over(before, log, w, after),
        open_within_size(w.orders),
        log.last().seq_id < u64::MAX,
    ensures
        after.wf(),
{
    let books = choose|books: Map<Seq<char>, BookModel>| #[trigger]
        books_of(w.orders, books) && after.books == with_empty_books(books, before.markets);
    lemma_walk_own_ids(entries(log));
    lemma_walk_index(entries(log));
    lemma_accepted_indexed(log);
    assert forall|m: Seq<char>| #[trigger] after.books.contains_key(m) implies after.books[m].sane() && own_ids(
        after.books[m].orders,
    ) by {
        if books.contains_key(m) {
            assert(book_of(w.orders, m, books[m]));
            assert forall|id: Seq<char>| #[trigger] books[m].orders.contains_key(id) implies books[m].orders[id].within_size() by {
                assert(open_in(w.orders, m, id));
            }
        }
    }
    assert forall|key: (Seq<char>, Seq<char>)| #[trigger] after.accepted.contains_key(key) implies after.find(
        after.accepted[key].order_id.key(),
    ) is Some by {
        let id = after.accepted[key].order_id.key();
        assert(index_in(entries(log)).contains_key(id));
        assert(w.orders.contains_key(id));
        lemma_restored_finds(before, log, w, after, id);
    }
}

/// Restoring rebuilds the engine: an engine that takes over the log of a
/// recoverable engine with the same markets has the same next number, the same
/// log and order index, the same filled quantities, cancel marks and nonces, the
/// same queues with the same open orders in every market, knows the same orders,
/// open and closed, and gives the same answer to every submission that was
/// accepted before.
pub proof fn law_restore_rebuilds(e: EngineModel, fresh: EngineModel, log: Seq<SequencedEvent>, after: EngineModel)
    requires
        tidy_engine(e),
        recoverable(e),
        e.log == entries(log),
        log.len() > 0,
        fresh.markets == e.markets,
        restores(fresh, log, after, Ok(())),
    ensures
        after.next == e.next,
        after.log == e.log,
        after.index == e.index,
        after.markets == e.markets,
        after.state.filled == e.state.filled,
        after.state.cancelled == e.state.cancelled,
        after.state.nonces == e.state.nonces,
        forall|m: Seq<char>| #[trigger]
            e.markets.contains_key(m) ==> after.books.contains_key(m) && same_resting(e.books[m], after.books[m]),
        forall|key: (Seq<char>, Seq<char>)| #[trigger]
            e.accepted.contains_key(key) <==> after.accepted.contains_key(key),
        forall|key: (Seq<char>, Seq<char>)| #[trigger]
            e.accepted.contains_key(key) ==> told_of(after.accepted[key]) == told_of(e.accepted[key]),
        forall|id: Seq<char>| #[trigger] after.find(id) == e.find(id),
{
    let w = walked(e.log)->Done_0;
    assert(takes_over(fresh, log, w, after));
    let books = choose|books: Map<Seq<char>, BookModel>| #[trigger]
        books_of(w.orders, books) && after.books == with_empty_books(books, fresh.markets);
    assert(e.log.last() == e.log[e.log.len() - 1]);
    assert(log.last().seq_id == e.log.last().seq_id);
    assert forall|m: Seq<char>| #[trigger] e.markets.contains_key(m) implies after.books.contains_key(m) && same_resting(
        e.books[m],
        after.books[m],
    ) by {
        law_replay_rebuilds_books(e, books, m);
    }
    lemma_accepted_told(log);
    assert forall|key: (Seq<char>, Seq<char>)| #[trigger] e.accepted.contains_key(key) <==> after.accepted.contains_key(key) by {
        assert(told_in(e.log).contains_key(key) <==> after.accepted.contains_key(key));
    }
    assert forall|key: (Seq<char>, Seq<char>)| #[trigger] e.accepted.contains_key(key) implies told_of(
        after.accepted[key],
    ) == told_of(e.accepted[key]) by {
        assert(after.accepted.contains_key(key));
    }
    assert forall|id: Seq<char>| #[trigger] after.find(id) == e.find(id) by {
        lemma_restored_finds(fresh, log, w, after, id);
        assert(e.index.contains_key(id) <==> w.orders.contains_key(id));
        assert(e.closed.contains_key(id) ==> w.orders.contains_key(id));
    }
}

/// A book with the same queues and open orders is as tidy and as uncrossed.
proof fn lemma_same_resting_tidy(a: BookModel, b: BookModel, market: Seq<char>)
    requires
        tidy(a, market),
        uncrossed(a),
        same_resting(a, b),
    ensures
        tidy(b, market),
        uncrossed(b),
{
    assert forall|id: Seq<char>| #[trigger] b.orders.contains_key(id) implies b.orders[id] == a.orders[id]
        && a.orders.contains_key(id) by {
        assert(a.is_open(id));
    }
    lemma_resting_side(a, b, market, Side::Buy);
    lemma_resting_side(a, b, market, Side::Sell);
}

proof fn lemma_resting_side(a: BookModel, b: BookModel, market: Seq<char>, side: Side)
    requires
        same_resting(a, b),
        side_of(a.orders, market, side, a.levels(side)),
    ensures
        side_of(b.orders, market, side, b.levels(side)),
{
    let levels = a.levels(side);
    assert(b.levels(side) == levels);
    assert forall|p: u64, id: Seq<char>| #[trigger] queue_at(levels, p).contains(id) <==> rests_at(
        b.orders,
        market,
        side,
        p,
        id,
    ) by {
        assert(queue_at(levels, p).contains(id) <==> rests_at(a.orders, market, side, p, id));
        assert(b.orders.contains_key(id) <==> a.is_open(id));
    }
    assert forall|p: u64| #[trigger] levels.contains_key(p) implies levels[p].len() > 0 && ascending::<Age>(
        ages(b.orders, levels[p]),
    ) by {
        let queue = levels[p];
        assert forall|i: int| 0 <= i < queue.len() implies a.orders[queue[i]].created_sequence
            == b.orders[queue[i]].created_sequence by {
            assert(queue_at(levels, p).contains(queue[i]));
            assert(b.orders.contains_key(queue[i]));
        }
        assert(ages(b.orders, queue) =~= ages(a.orders, queue));
    }
}

/// A restored engine is itself tidy and recoverable, so it can go on, fail and
/// be restored again.
#[verifier::rlimit(40)]
pub proof fn law_restored_engine_recoverable(
    e: EngineModel,
    fresh: EngineModel,
    log: Seq<SequencedEvent>,
    after: EngineModel,
)
    requires
        tidy_engine(e),
        recoverable(e),
        e.log == entries(log),
        log.len() > 0,
        fresh.markets == e.markets,
        restores(fresh, log, after, Ok(())),
    ensures
        tidy_engine(after),
        recoverable(after),
{
    law_restore_rebuilds(e, fresh, log, after);
    let w = walked(e.log)->Done_0;
    assert(takes_over(fresh, log, w, after));
    let books = choose|books: Map<Seq<char>, BookModel>| #[trigger]
        books_of(w.orders, books) && after.books == with_empty_books(books, fresh.markets);
    lemma_walk_index(e.log);
    lemma_walk_own_ids(e.log);
    lemma_accepted_told(log);
    assert forall|m: Seq<char>| #[trigger] after.books.contains_key(m) implies e.books.contains_key(m) && same_resting(
        e.books[m],
        after.books[m],
    ) by {
        if books.contains_key(m) {
            let id = choose|id: Seq<char>| open_in(w.orders, m, id);
            assert(open_in(w.orders, m, id));
            assert(w.orders.contains_key(id));
            assert(e.index[id] == m);
        }
        law_replay_rebuilds_books(e, books, m);
    }
    assert forall|m: Seq<char>| #[trigger] after.books.contains_key(m) implies tidy(after.books[m], m) && uncrossed(
        after.books[m],
    ) by {
        assert(e.books.contains_key(m));
        lemma_same_resting_tidy(e.books[m], after.books[m], m);
    }
    assert forall|m: Seq<char>, id: Seq<char>|
        after.books.contains_key(m) && #[trigger] after.books[m].orders.contains_key(id) implies after.index.contains_key(id)
        && after.index[id] == m && after.books[m].orders[id].created_sequence < after.next && w.orders[id] == after.books[m].orders[id] by {
        assert(e.books.contains_key(m) && same_resting(e.books[m], after.books[m]));
        assert(e.books[m].is_open(id));
        assert(e.books[m].orders.contains_key(id));
    }
    assert forall|id: Seq<char>| #[trigger] w.orders.contains_key(id) && !w.orders[id].closed() implies after.books.contains_key(
        after.index[id],
    ) && after.books[after.index[id]].orders.contains_key(id) by {
        let m = e.index[id];
        assert(open_in(w.orders, m, id));
        assert(books.contains_key(m));
        assert(after.books.contains_key(m));
        assert(e.books[m].orders.contains_key(id));
    }
    assert forall|id: Seq<char>| #[trigger] w.orders.contains_key(id) implies after.find(id) == Some(w.orders[id]) by {
        lemma_restored_finds(fresh, log, w, after, id);
    }
    assert forall|id: Seq<char>| #[trigger] w.orders.contains_key(id) && !w.orders[id].closed() implies w.orders[id].within_size() by {
        assert(e.books[e.index[id]].orders.contains_key(id));
        assert(e.books.contains_key(e.index[id]));
    }
    assert(log.last().seq_id == e.log[e.log.len() - 1].seq_id);
    law_restore_keeps_wf(fresh, log, w, after);
    assert(in_step(after, w));
}

/// Where the accounts agree, what is booked for an order is what was filled of it,
/// and no more than was ordered.
pub proof fn law_booked_is_filled(e: EngineModel, id: Seq<char>)
    requires
        tidy_engine(e),
        recoverable(e),
        accounts_agree(e),
        e.find(id) is Some,
    ensures
        ({
            let order = e.find(id)->Some_0;
            &&& amount(e.state.filled, order.order_hash.0@) == order.filled_size_lots
            &&& order.filled_size_lots <= order.orig_size_lots
        }),
{
    let w = walked(e.log)->Done_0;
    assert(e.index.contains_key(id) <==> w.orders.contains_key(id));
    assert(e.closed.contains_key(id) ==> w.orders.contains_key(id));
    assert(w.orders.contains_key(id));
}

/// Two books have the same queues and the same open orders.
pub open spec fn same_open(a: BookModel, b: BookModel) -> bool {
    &&& a.bids == b.bids
    &&& a.asks == b.asks
    &&& forall|id: Seq<char>| #[trigger] a.is_open(id) <==> b.is_open(id)
    &&& forall|id: Seq<char>| #[trigger] a.is_open(id) ==> b.orders[id] == a.orders[id]
}

/// Two runs have come to the same fills and the same taker, on such books.
spec fn same_so_far(a: MatchState, b: MatchState) -> bool {
    same_open(a.book, b.book) && a.taker == b.taker && a.fills == b.fills
}

proof fn lemma_meet_agrees(a: MatchState, b: MatchState, price: u64, id: Seq<char>, seq: u64, now: u64)
    requires
        same_so_far(a, b),
    ensures
        same_so_far(meet(a, price, id, seq, now), meet(b, price, id, seq, now)),
{
    assert(a.book.is_open(id) <==> b.book.is_open(id));
    if a.book.is_open(id) && a.book.orders[id].trader_id@ != a.taker.trader_id@ {
        let x = meet(a, price, id, seq, now);
        let y = meet(b, price, id, seq, now);
        let qty = min_qty(a.taker, a.book.orders[id]);
        assert(b.book.orders[id] == a.book.orders[id]);
        assert(qty == min_qty(b.taker, b.book.orders[id]));
        assert(x.book.orders == a.book.orders.insert(id, filled_by(a.book.orders[id], qty, seq)));
        assert(y.book.orders == b.book.orders.insert(id, filled_by(b.book.orders[id], qty, seq)));
        assert forall|k: Seq<char>| (#[trigger] x.book.is_open(k) <==> y.book.is_open(k)) && (x.book.is_open(k)
            ==> y.book.orders[k] == x.book.orders[k]) by {
            assert(a.book.is_open(k) <==> b.book.is_open(k));
        }
    }
}

proof fn lemma_queue_agrees(a: MatchState, b: MatchState, price: u64, queue: Seq<Seq<char>>, seq: u64, now: u64)
    requires
        same_so_far(a, b),
    ensures
        same_so_far(match_queue(a, price, queue, seq, now), match_queue(b, price, queue, seq, now)),
    decreases queue.len(),
{
    if queue.len() == 0 || done(a.taker) {
    } else {
        lemma_meet_agrees(a, b, price, queue[0], seq, now);
        lemma_queue_agrees(
            meet(a, price, queue[0], seq, now),
            meet(b, price, queue[0], seq, now),
            price,
            queue.drop_first(),
            seq,
            now,
        );
    }
}

proof fn lemma_levels_agree(a: MatchState, b: MatchState, prices: Seq<u64>, seq: u64, now: u64)
    requires
        same_so_far(a, b),
    ensures
        same_so_far(match_levels(a, prices, seq, now), match_levels(b, prices, seq, now)),
    decreases prices.len(),
{
    if prices.len() == 0 || done(a.taker) || !crosses(a.taker.side, a.taker.price_ticks, prices[0]) {
    } else {
        let queue = queue_at(a.book.levels(opposite(a.taker.side)), prices[0]);
        lemma_queue_agrees(a, b, prices[0], queue, seq, now);
        lemma_levels_agree(
            match_queue(a, prices[0], queue, seq, now),
            match_queue(b, prices[0], queue, seq, now),
            prices.drop_first(),
            seq,
            now,
        );
    }
}

/// A restored engine goes on as the first one would have: it admits the same new
/// submissions, rejects the others for the same reasons, repeats the same answers,
/// matches what it accepts to the same fills with the same outcome for the order,
/// tells the same of every order, and finds the same orders to cancel.
pub proof fn law_restored_engine_goes_on(
    e: EngineModel,
    fresh: EngineModel,
    log: Seq<SequencedEvent>,
    after: EngineModel,
    signed: SignedOrder,
    now: u64,
    verdict: Result<(), OrderError>,
    hash: OrderHash,
    id: OrderId,
)
    requires
        tidy_engine(e),
        recoverable(e),
        e.log == entries(log),
        log.len() > 0,
        fresh.markets == e.markets,
        restores(fresh, log, after, Ok(())),
    ensures
        after.rejection(signed, now, verdict) == e.rejection(signed, now, verdict),
        after.is_duplicate(signed) == e.is_duplicate(signed),
        after.admits(signed, now, verdict) == e.admits(signed, now, verdict),
        e.markets.contains_key(signed.market_id.0@) ==> {
            let a = e.run(signed, now, hash, id);
            let b = after.run(signed, now, hash, id);
            &&& a.fills == b.fills
            &&& a.taker == b.taker
            &&& same_open(a.book, b.book)
            &&& after.outcome(signed, now, hash, id) == e.outcome(signed, now, hash, id)
        },
        e.is_duplicate(signed) ==> {
            let a = e.accepted[EngineModel::submission(signed)];
            let b = after.accepted[EngineModel::submission(signed)];
            &&& told_of(a) == told_of(b)
            &&& e.find(a.order_id.key()) is Some && after.find(a.order_id.key()) is Some
            &&& (e.find(a.order_id.key())->Some_0).status == (after.find(a.order_id.key())->Some_0).status
        },
        forall|x: Seq<char>| #[trigger] after.find(x) == e.find(x),
        forall|x: Seq<char>, trader: Seq<char>| #[trigger] after.cancels(x, trader) == e.cancels(x, trader),
{
    law_restore_rebuilds(e, fresh, log, after);
    assert(e.accepted.contains_key(EngineModel::submission(signed)) <==> after.accepted.contains_key(
        EngineModel::submission(signed),
    ));
    assert forall|x: Seq<char>, trader: Seq<char>| #[trigger] after.cancels(x, trader) == e.cancels(x, trader) by {
        assert(after.find(x) == e.find(x));
    }
    if e.is_duplicate(signed) {
        let x = e.accepted[EngineModel::submission(signed)].order_id.key();
        assert(e.find(x) is Some);
    }
    let market = signed.market_id.0@;
    if e.markets.contains_key(market) {
        let seq = e.next as u64;
        let order = new_order(signed, now, hash, id, seq);
        let x = e.books[market];
        let y = after.books[market];
        assert(same_resting(x, y));
        assert(e.books.contains_key(market));
        assert forall|k: Seq<char>| (#[trigger] x.is_open(k) <==> y.is_open(k)) && (x.is_open(k) ==> y.orders[k] == x.orders[k]) by {
            assert(y.orders.contains_key(k) <==> x.is_open(k));
        }
        lemma_levels_agree(start_of(x, order), start_of(y, order), best_first(x, order.side), seq, now);
        assert(best_first(x, order.side) == best_first(y, order.side));
    }
}

} // verus!
