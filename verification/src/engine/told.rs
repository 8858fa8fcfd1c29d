//! What a log tells: of each order, of the state, and of what is wrong with it.
use crate::db::amount;
use crate::domain::order::{Order, OrderStatus, Side};
use crate::engine::model::{entries, index_in, restore_fits, restores, with_empty_books, EngineModel, Entry};
use crate::engine::orderbook::{queue_at, Age, BookModel};
use crate::engine::priority::resting;
use crate::engine::queues::queue_of;
use crate::engine::runs::{can_run, law_runs_are_recoverable, ran, Call};
use crate::events::{CancelReason, Event, SequencedEvent};
use crate::ordmap::{ascending, MapKey};
use crate::replay::{ages, book_models, book_of, books_of, closed_in, open_in, rests_at, walked, Outcome, ReplayError, ReplayResult};
use vstd::prelude::*;

verus! {

/// The `i`-th event of `log` accepts the order `id`.
pub open spec fn accepts_order(log: Seq<Entry>, id: Seq<char>, i: int) -> bool {
    0 <= i < log.len() && (log[i].event matches Event::OrderAccepted { order } && order.order_id.0@ == id)
}

/// The `i`-th event of `log` fills the order `id`, as taker or as maker.
pub open spec fn fills_order(log: Seq<Entry>, id: Seq<char>, i: int) -> bool {
    0 <= i < log.len() && (log[i].event matches Event::Fill(fill) && (fill.taker_order_id.0@ == id
        || fill.maker_order_id.0@ == id))
}

/// The `i`-th event of `log` cancels the order `id`.
pub open spec fn cancels_order(log: Seq<Entry>, id: Seq<char>, i: int) -> bool {
    0 <= i < log.len() && (log[i].event matches Event::OrderCancelled { order_id, .. } && order_id.0@ == id)
}

/// The `i`-th event of `log` fills or cancels the order `id`.
pub open spec fn concerns(log: Seq<Entry>, id: Seq<char>, i: int) -> bool {
    fills_order(log, id, i) || cancels_order(log, id, i)
}

/// An order is known before the `i`-th event of `log`.
pub open spec fn known_before(log: Seq<Entry>, id: Seq<char>, i: int) -> bool {
    exists|j: int| #[trigger] accepts_order(log, id, j) && j < i
}

/// What is said of the first events of a log is said of the whole.
proof fn lemma_earlier(log: Seq<Entry>, id: Seq<char>, i: int)
    requires
        log.len() > 0,
        0 <= i < log.len() - 1,
    ensures
        accepts_order(log.drop_last(), id, i) == accepts_order(log, id, i),
        fills_order(log.drop_last(), id, i) == fills_order(log, id, i),
        cancels_order(log.drop_last(), id, i) == cancels_order(log, id, i),
{
    assert(log.drop_last()[i] == log[i]);
}

proof fn lemma_known_earlier(log: Seq<Entry>, id: Seq<char>, i: int)
    requires
        log.len() > 0,
        0 <= i <= log.len() - 1,
    ensures
        known_before(log.drop_last(), id, i) == known_before(log, id, i),
{
    let init = log.drop_last();
    if known_before(init, id, i) {
        let j = choose|j: int| #[trigger] accepts_order(init, id, j) && j < i;
        lemma_earlier(log, id, j);
        assert(accepts_order(log, id, j));
    }
    if known_before(log, id, i) {
        let j = choose|j: int| #[trigger] accepts_order(log, id, j) && j < i;
        lemma_earlier(log, id, j);
        assert(accepts_order(init, id, j));
    }
}

/// A replay knows exactly the orders that the log accepts.
pub proof fn law_replay_knows_accepted(log: Seq<Entry>, id: Seq<char>)
    requires
        walked(log) is Done,
    ensures
        (walked(log)->Done_0).orders.contains_key(id) <==> exists|i: int| #[trigger] accepts_order(log, id, i),
    decreases log.len(),
{
    if log.len() > 0 {
        let init = log.drop_last();
        let n = log.len() - 1;
        law_replay_knows_accepted(init, id);
        assert(log[n] == log.last());
        if exists|i: int| #[trigger] accepts_order(init, id, i) {
            let i = choose|i: int| #[trigger] accepts_order(init, id, i);
            lemma_earlier(log, id, i);
            assert(accepts_order(log, id, i));
        }
        if exists|i: int| #[trigger] accepts_order(log, id, i) {
            let i = choose|i: int| #[trigger] accepts_order(log, id, i);
            if i < n {
                lemma_earlier(log, id, i);
                assert(accepts_order(init, id, i));
            }
        }
        if log.last().event is OrderAccepted && (log.last().event->OrderAccepted_order).order_id.0@ == id {
            assert(accepts_order(log, id, n));
        }
    } else {
        assert(forall|i: int| !accepts_order(log, id, i));
    }
}

/// A log that can be replayed has no gap in its numbers, fills and cancels only orders
/// that it accepted before, and its last number is told.
pub proof fn law_replayed_log_is_sound(log: Seq<Entry>)
    requires
        walked(log) is Done,
    ensures
        forall|i: int| 0 <= i < log.len() - 1 ==> (#[trigger] log[i]).seq_id + 1 == log[i + 1].seq_id,
        forall|i: int, id: Seq<char>|
            #[trigger] concerns(log, id, i) ==> known_before(log, id, i),
        (walked(log)->Done_0).last_number() == (if log.len() > 0 {
            log.last().seq_id
        } else {
            0
        }),
    decreases log.len(),
{
    if log.len() > 0 {
        let init = log.drop_last();
        let n = log.len() - 1;
        law_replayed_log_is_sound(init);
        assert(log[n] == log.last());
        lemma_last_is_some(init);
        assert forall|i: int| 0 <= i < log.len() - 1 implies (#[trigger] log[i]).seq_id + 1 == log[i + 1].seq_id by {
            assert(init[i] == log[i]);
            if i < n - 1 {
                assert(init[i + 1] == log[i + 1]);
            } else {
                assert(init.last() == log[i]);
            }
        }
        assert forall|i: int, id: Seq<char>| #[trigger] concerns(log, id, i) implies known_before(
            log,
            id,
            i,
        ) by {
            lemma_known_earlier(log, id, i);
            if i < n {
                lemma_earlier(log, id, i);
                assert(concerns(init, id, i));
            } else {
                law_replay_knows_accepted(init, id);
                assert((walked(init)->Done_0).orders.contains_key(id));
                let j = choose|j: int| #[trigger] accepts_order(init, id, j);
                assert(known_before(init, id, i));
            }
        }
    } else {
        assert(forall|i: int, id: Seq<char>| !fills_order(log, id, i) && !cancels_order(log, id, i));
    }
}

proof fn lemma_last_is_some(log: Seq<Entry>)
    requires
        walked(log) is Done,
    ensures
        log.len() > 0 ==> (walked(log)->Done_0).last == Some(log.last().seq_id),
        log.len() == 0 ==> (walked(log)->Done_0).last is None,
    decreases log.len(),
{
    if log.len() > 0 {
        lemma_last_is_some(log.drop_last());
    }
}

/// What is told of a log that is refused is so: two events in a row whose numbers do not
/// follow each other, or a fill or a cancel of an order that was not accepted before. So
/// a log without such faults is not refused.
pub proof fn law_refused_log_is_faulty(log: Seq<Entry>)
    ensures
        match walked(log) {
            Outcome::Failed(ReplayError::SeqIdGap { expected, got }) => exists|i: int| {
                &&& 0 <= i < log.len() - 1
                &&& (#[trigger] log[i]).seq_id + 1 == expected
                &&& log[i + 1].seq_id == got
                &&& got != expected
            },
            Outcome::Failed(ReplayError::UnknownOrder(id)) => exists|i: int|
                #[trigger] concerns(log, id.0@, i) && !known_before(log, id.0@, i),
            _ => true,
        },
    decreases log.len(),
{
    if log.len() > 0 {
        let init = log.drop_last();
        let n = log.len() - 1;
        law_refused_log_is_faulty(init);
        assert(log[n] == log.last());
        match walked(init) {
            Outcome::Done(w) => {
                lemma_last_is_some(init);
                match walked(log) {
                    Outcome::Failed(ReplayError::SeqIdGap { expected, got }) => {
                        assert(init.last() == log[n - 1]);
                        assert(log[n - 1].seq_id + 1 == expected);
                    },
                    Outcome::Failed(ReplayError::UnknownOrder(id)) => {
                        lemma_known_earlier(log, id.0@, n);
                        law_replay_knows_accepted(init, id.0@);
                        assert(!known_before(init, id.0@, n)) by {
                            if known_before(init, id.0@, n) {
                                let j = choose|j: int| #[trigger] accepts_order(init, id.0@, j) && j < n;
                                assert(w.orders.contains_key(id.0@));
                            }
                        }
                        assert(concerns(log, id.0@, n));
                    },
                    _ => {},
                }
            },
            Outcome::Failed(ReplayError::SeqIdGap { expected, got }) => {
                let i = choose|i: int| {
                    &&& 0 <= i < init.len() - 1
                    &&& (#[trigger] init[i]).seq_id + 1 == expected
                    &&& init[i + 1].seq_id == got
                    &&& got != expected
                };
                assert(log[i] == init[i] && log[i + 1] == init[i + 1]);
            },
            Outcome::Failed(ReplayError::UnknownOrder(id)) => {
                let i = choose|i: int|
                    #[trigger] concerns(init, id.0@, i) && !known_before(
                        init,
                        id.0@,
                        i,
                    );
                lemma_earlier(log, id.0@, i);
                lemma_known_earlier(log, id.0@, i);
                assert(concerns(log, id.0@, i));
            },
            Outcome::Overflow => {},
        }
    }
}

/// The quantity of the order `id` that `event` fills.
pub open spec fn fill_of_order(event: Event, id: Seq<char>) -> int {
    match event {
        Event::Fill(fill) => (if fill.taker_order_id.0@ == id {
            fill.size_lots as int
        } else {
            0
        }) + (if fill.maker_order_id.0@ == id {
            fill.size_lots as int
        } else {
            0
        }),
        _ => 0,
    }
}

/// The quantity that `event` fills of orders with the hash `h`.
pub open spec fn fill_of_hash(event: Event, h: Seq<u8>) -> int {
    match event {
        Event::Fill(fill) => (if fill.taker_order_hash.0@ == h {
            fill.size_lots as int
        } else {
            0
        }) + (if fill.maker_order_hash.0@ == h {
            fill.size_lots as int
        } else {
            0
        }),
        _ => 0,
    }
}

proof fn lemma_fold_step<A>(s: Seq<A>, plus: spec_fn(int, A) -> int)
    requires
        s.len() > 0,
    ensures
        s.fold_left(0int, plus) == plus(s.drop_last().fold_left(0int, plus), s.last()),
{
}

proof fn lemma_no_fills_fold(log: Seq<Entry>, id: Seq<char>, plus: spec_fn(int, Entry) -> int)
    requires
        forall|sum: int, en: Entry| #[trigger] plus(sum, en) == sum + fill_of_order(en.event, id),
        forall|i: int| !#[trigger] fills_order(log, id, i),
    ensures
        log.fold_left(0int, plus) == 0,
    decreases log.len(),
{
    if log.len() > 0 {
        let init = log.drop_last();
        assert forall|i: int| !#[trigger] fills_order(init, id, i) by {
            if fills_order(init, id, i) {
                lemma_earlier(log, id, i);
                assert(fills_order(log, id, i));
            }
        }
        lemma_no_fills_fold(init, id, plus);
        assert(!fills_order(log, id, log.len() - 1));
        assert(log[log.len() - 1] == log.last());
    }
}

/// What a log tells of an order that it accepts once: the order is the one that was
/// accepted, with what the fills add up to filled of it; where no event concerns it, it
/// is as it was accepted.
pub proof fn law_log_tells_order(log: Seq<Entry>, id: Seq<char>, k: int)
    requires
        walked(log) is Done,
        accepts_order(log, id, k),
        forall|i: int| #[trigger] accepts_order(log, id, i) ==> i == k,
    ensures
        ({
            let order = (walked(log)->Done_0).orders[id];
            let accepted = log[k].event->OrderAccepted_order;
            &&& order == (Order {
                filled_size_lots: order.filled_size_lots,
                status: order.status,
                last_update_sequence: order.last_update_sequence,
                ..accepted
            })
            &&& order.filled_size_lots == accepted.filled_size_lots + log.fold_left(
                0int,
                |sum: int, en: Entry| sum + fill_of_order(en.event, id),
            )
            &&& (forall|i: int| !#[trigger] concerns(log, id, i)) ==> order == accepted
        }),
{
    lemma_log_tells_order(log, id, k, |sum: int, en: Entry| sum + fill_of_order(en.event, id));
}

/// An order accepted by the last event has no events before.
proof fn lemma_first_met(log: Seq<Entry>, id: Seq<char>)
    requires
        walked(log) is Done,
        log.len() > 0,
        accepts_order(log, id, log.len() - 1),
        forall|i: int| #[trigger] accepts_order(log, id, i) ==> i == log.len() - 1,
    ensures
        forall|j: int| !#[trigger] concerns(log, id, j),
{
    assert forall|j: int| !#[trigger] concerns(log, id, j) by {
        if concerns(log, id, j) {
            law_replayed_log_is_sound(log);
            assert(known_before(log, id, j));
            let i = choose|i: int| #[trigger] accepts_order(log, id, i) && i < j;
            assert(i == log.len() - 1);
        }
    }
}

/// An order accepted once, before the last event, is accepted once before it.
proof fn lemma_met_before(log: Seq<Entry>, id: Seq<char>, k: int)
    requires
        walked(log) is Done,
        accepts_order(log, id, k),
        k < log.len() - 1,
        forall|i: int| #[trigger] accepts_order(log, id, i) ==> i == k,
    ensures
        walked(log.drop_last()) is Done,
        accepts_order(log.drop_last(), id, k),
        forall|i: int| #[trigger] accepts_order(log.drop_last(), id, i) ==> i == k,
        (walked(log.drop_last())->Done_0).orders.contains_key(id),
        log.drop_last()[k] == log[k],
        !accepts_order(log, id, log.len() - 1),
{
    let init = log.drop_last();
    lemma_earlier(log, id, k);
    assert forall|i: int| #[trigger] accepts_order(init, id, i) implies i == k by {
        lemma_earlier(log, id, i);
        assert(accepts_order(log, id, i));
    }
    law_replay_knows_accepted(init, id);
}

proof fn lemma_log_tells_order(log: Seq<Entry>, id: Seq<char>, k: int, plus: spec_fn(int, Entry) -> int)
    requires
        walked(log) is Done,
        accepts_order(log, id, k),
        forall|i: int| #[trigger] accepts_order(log, id, i) ==> i == k,
        forall|sum: int, en: Entry| #[trigger] plus(sum, en) == sum + fill_of_order(en.event, id),
    ensures
        ({
            let order = (walked(log)->Done_0).orders[id];
            let accepted = log[k].event->OrderAccepted_order;
            &&& order == (Order {
                filled_size_lots: order.filled_size_lots,
                status: order.status,
                last_update_sequence: order.last_update_sequence,
                ..accepted
            })
            &&& order.filled_size_lots == accepted.filled_size_lots + log.fold_left(0int, plus)
            &&& (forall|i: int| !#[trigger] concerns(log, id, i)) ==> order == accepted
        }),
    decreases log.len(),
{
    let init = log.drop_last();
    let n = log.len() - 1;
    let w = walked(log)->Done_0;
    assert(log[n] == log.last());
    lemma_fold_step(log, plus);
    if k == n {
        lemma_first_met(log, id);
        assert forall|i: int| !#[trigger] fills_order(init, id, i) by {
            if fills_order(init, id, i) {
                lemma_earlier(log, id, i);
                assert(!concerns(log, id, i));
            }
        }
        lemma_no_fills_fold(init, id, plus);
        assert(w.orders[id] == log.last().event->OrderAccepted_order);
    } else {
        lemma_met_before(log, id, k);
        lemma_log_tells_order(init, id, k, plus);
        if forall|i: int| !#[trigger] concerns(log, id, i) {
            assert(!concerns(log, id, n));
            assert forall|i: int| !#[trigger] concerns(init, id, i) by {
                if concerns(init, id, i) {
                    lemma_earlier(log, id, i);
                    assert(!concerns(log, id, i));
                }
            }
        }
    }
}

/// The last event that concerns an order decides: a fill makes it filled where nothing is
/// left and partly filled otherwise, a cancel makes it cancelled, and the number of that
/// event is the number of its last change.
pub proof fn law_last_event_decides(log: Seq<Entry>, id: Seq<char>, k: int, j: int)
    requires
        walked(log) is Done,
        accepts_order(log, id, k),
        forall|i: int| #[trigger] accepts_order(log, id, i) ==> i == k,
        concerns(log, id, j),
        forall|i: int| j < i ==> !#[trigger] concerns(log, id, i),
    ensures
        ({
            let order = (walked(log)->Done_0).orders[id];
            &&& order.last_update_sequence == log[j].seq_id
            &&& fills_order(log, id, j) ==> order.status == (if order.filled_size_lots >= order.orig_size_lots {
                OrderStatus::Filled
            } else {
                OrderStatus::PartiallyFilled
            })
            &&& cancels_order(log, id, j) ==> order.status == (if log[j].event->OrderCancelled_reason
                == CancelReason::SelfTradePrevention {
                OrderStatus::CancelledStp
            } else {
                OrderStatus::Cancelled
            })
        }),
    decreases log.len(),
{
    let init = log.drop_last();
    let n = log.len() - 1;
    assert(log[n] == log.last());
    if k == n {
        lemma_first_met(log, id);
    } else {
        lemma_met_before(log, id, k);
        if j < n {
            assert(!concerns(log, id, n));
            lemma_earlier(log, id, j);
            assert(init[j] == log[j]);
            assert forall|i: int| j < i implies !#[trigger] concerns(init, id, i) by {
                if concerns(init, id, i) {
                    lemma_earlier(log, id, i);
                    assert(!concerns(log, id, i));
                }
            }
            law_last_event_decides(init, id, k, j);
        }
    }
}

/// What a log tells of the state: under each hash what the fills add up to, a mark for
/// each hash that a cancel names, and for each trader the highest nonce that was accepted,
/// if one above 0 was; and nothing else.
pub proof fn law_log_tells_state(log: Seq<Entry>, h: Seq<u8>, trader: Seq<char>)
    requires
        walked(log) is Done,
    ensures
        ({
            let s = (walked(log)->Done_0).state;
            &&& amount(s.filled, h) == log.fold_left(0int, |sum: int, en: Entry| sum + fill_of_hash(en.event, h))
            &&& s.cancelled.contains_key(h) && s.cancelled[h] <==> exists|i: int| #[trigger] marks(log, h, i)
            &&& forall|i: int| #[trigger] of_trader(log, trader, i) ==> (log[i].event->OrderAccepted_order).nonce
                <= amount(s.nonces, trader)
            &&& amount(s.nonces, trader) > 0 ==> exists|i: int| #[trigger]
                of_trader(log, trader, i) && (log[i].event->OrderAccepted_order).nonce == amount(s.nonces, trader)
            &&& s.nonces.contains_key(trader) <==> amount(s.nonces, trader) > 0
            &&& s.cancelled.contains_key(h) <==> exists|i: int| #[trigger] marks(log, h, i)
            &&& s.filled.contains_key(h) <==> exists|i: int| #[trigger] books(log, h, i)
        }),
{
    lemma_log_tells_state(log, h, trader, |sum: int, en: Entry| sum + fill_of_hash(en.event, h));
}

/// The `i`-th event of `log` cancels an order with the hash `h`.
pub open spec fn marks(log: Seq<Entry>, h: Seq<u8>, i: int) -> bool {
    0 <= i < log.len() && (log[i].event matches Event::OrderCancelled { order_hash, .. } && order_hash.0@ == h)
}

/// The `i`-th event of `log` fills an order with the hash `h`.
pub open spec fn books(log: Seq<Entry>, h: Seq<u8>, i: int) -> bool {
    0 <= i < log.len() && (log[i].event matches Event::Fill(fill) && (fill.taker_order_hash.0@ == h
        || fill.maker_order_hash.0@ == h))
}

/// The `i`-th event of `log` accepts an order of `trader`.
pub open spec fn of_trader(log: Seq<Entry>, trader: Seq<char>, i: int) -> bool {
    0 <= i < log.len() && (log[i].event matches Event::OrderAccepted { order } && order.trader_id@ == trader)
}

proof fn lemma_log_tells_state(log: Seq<Entry>, h: Seq<u8>, trader: Seq<char>, plus: spec_fn(int, Entry) -> int)
    requires
        walked(log) is Done,
        forall|sum: int, en: Entry| #[trigger] plus(sum, en) == sum + fill_of_hash(en.event, h),
    ensures
        ({
            let s = (walked(log)->Done_0).state;
            &&& amount(s.filled, h) == log.fold_left(0int, plus)
            &&& s.cancelled.contains_key(h) && s.cancelled[h] <==> exists|i: int| #[trigger] marks(log, h, i)
            &&& forall|i: int| #[trigger] of_trader(log, trader, i) ==> (log[i].event->OrderAccepted_order).nonce
                <= amount(s.nonces, trader)
            &&& amount(s.nonces, trader) > 0 ==> exists|i: int| #[trigger]
                of_trader(log, trader, i) && (log[i].event->OrderAccepted_order).nonce == amount(s.nonces, trader)
            &&& s.nonces.contains_key(trader) <==> amount(s.nonces, trader) > 0
            &&& s.cancelled.contains_key(h) <==> exists|i: int| #[trigger] marks(log, h, i)
            &&& s.filled.contains_key(h) <==> exists|i: int| #[trigger] books(log, h, i)
        }),
    decreases log.len(),
{
    let s = (walked(log)->Done_0).state;
    if log.len() > 0 {
        let init = log.drop_last();
        let n = log.len() - 1;
        let s0 = (walked(init)->Done_0).state;
        lemma_log_tells_state(init, h, trader, plus);
        lemma_fold_step(log, plus);
        assert(log[n] == log.last());
        assert forall|i: int| 0 <= i < n implies marks(init, h, i) == marks(log, h, i) && of_trader(init, trader, i)
            == of_trader(log, trader, i) && books(init, h, i) == books(log, h, i) by {
            assert(init[i] == log[i]);
        }
        if exists|i: int| #[trigger] marks(init, h, i) {
            let i = choose|i: int| #[trigger] marks(init, h, i);
            assert(marks(log, h, i));
        }
        if exists|i: int| #[trigger] marks(log, h, i) {
            let i = choose|i: int| #[trigger] marks(log, h, i);
            if i < n {
                assert(marks(init, h, i));
            }
        }
        if log.last().event is OrderCancelled && (log.last().event->OrderCancelled_order_hash).0@ == h {
            assert(marks(log, h, n));
        }
        if exists|i: int| #[trigger] books(init, h, i) {
            let i = choose|i: int| #[trigger] books(init, h, i);
            assert(books(log, h, i));
        }
        if exists|i: int| #[trigger] books(log, h, i) {
            let i = choose|i: int| #[trigger] books(log, h, i);
            if i < n {
                assert(books(init, h, i));
            }
        }
        if log.last().event is Fill && (log.last().event->Fill_0.taker_order_hash.0@ == h
            || log.last().event->Fill_0.maker_order_hash.0@ == h) {
            assert(books(log, h, n));
        }
        assert forall|i: int| #[trigger] of_trader(log, trader, i) implies (log[i].event->OrderAccepted_order).nonce
            <= amount(s.nonces, trader) by {
            if i < n {
                assert(init[i] == log[i]);
                assert(of_trader(init, trader, i));
            }
        }
        if amount(s.nonces, trader) > 0 {
            if amount(s.nonces, trader) == amount(s0.nonces, trader) {
                let i = choose|i: int| #[trigger]
                    of_trader(init, trader, i) && (init[i].event->OrderAccepted_order).nonce == amount(
                        s0.nonces,
                        trader,
                    );
                assert(init[i] == log[i]);
                assert(of_trader(log, trader, i));
            } else {
                assert(of_trader(log, trader, n));
            }
        }
    } else {
        assert(forall|i: int| !marks(log, h, i) && !of_trader(log, trader, i) && !books(log, h, i));
    }
}

/// A queue names each order once, those accepted earlier first.
pub open spec fn oldest_first(orders: Map<Seq<char>, Order>, queue: Seq<Seq<char>>) -> bool {
    forall|i: int, j: int|
        0 <= i < j < queue.len() ==> #[trigger] queue[i] != #[trigger] queue[j] && orders[queue[i]].created_sequence
            <= orders[queue[j]].created_sequence
}

proof fn lemma_oldest_first(orders: Map<Seq<char>, Order>, queue: Seq<Seq<char>>)
    requires
        ascending::<Age>(ages(orders, queue)),
    ensures
        oldest_first(orders, queue),
{
    let all = ages(orders, queue);
    assert forall|i: int, j: int| 0 <= i < j < queue.len() implies #[trigger] queue[i] != #[trigger] queue[j]
        && orders[queue[i]].created_sequence <= orders[queue[j]].created_sequence by {
        assert(Age::before(all[i], all[j]));
        Age::before_irreflexive(all[i]);
    }
}

/// Books rebuilt from orders: a market has one where some order of it rests, and it holds
/// those orders and no others; the queue at a price holds the resting orders of its side
/// at that price, each once, those accepted earlier first. The closed orders are kept
/// beside the books.
pub proof fn law_rebuilt_books(
    orders: Map<Seq<char>, Order>,
    books: Map<Seq<char>, BookModel>,
    market: Seq<char>,
    price: u64,
    id: Seq<char>,
)
    requires
        books_of(orders, books),
    ensures
        books.contains_key(market) <==> exists|x: Seq<char>| #[trigger]
            orders.contains_key(x) && resting(orders[x]) && orders[x].market_id.0@ == market,
        books.contains_key(market) ==> {
            let book = books[market];
            let here = orders.contains_key(id) && resting(orders[id]) && orders[id].market_id.0@ == market;
            &&& book.orders.contains_key(id) <==> here
            &&& here ==> book.orders[id] == orders[id]
            &&& book.bids.contains_key(price) && book.bids[price].contains(id) <==> here && orders[id].side == Side::Buy
                && orders[id].price_ticks == price
            &&& book.asks.contains_key(price) && book.asks[price].contains(id) <==> here && orders[id].side == Side::Sell
                && orders[id].price_ticks == price
            &&& book.bids.contains_key(price) ==> oldest_first(orders, book.bids[price])
            &&& book.asks.contains_key(price) ==> oldest_first(orders, book.asks[price])
        },
        closed_in(orders).contains_key(id) <==> orders.contains_key(id) && !resting(orders[id]),
        closed_in(orders).contains_key(id) ==> closed_in(orders)[id] == orders[id],
{
    if books.contains_key(market) {
        let x = choose|x: Seq<char>| open_in(orders, market, x);
        assert(orders.contains_key(x) && resting(orders[x]) && orders[x].market_id.0@ == market);
        let book = books[market];
        let here = orders.contains_key(id) && resting(orders[id]) && orders[id].market_id.0@ == market;
        assert(book_of(orders, market, book));
        assert(open_in(orders, market, id) <==> here);
        assert(book.orders.contains_key(id) <==> here);
        assert(queue_at(book.bids, price).contains(id) <==> rests_at(orders, market, Side::Buy, price, id));
        assert(queue_at(book.asks, price).contains(id) <==> rests_at(orders, market, Side::Sell, price, id));
        if book.bids.contains_key(price) {
            lemma_oldest_first(orders, book.bids[price]);
        }
        if book.asks.contains_key(price) {
            lemma_oldest_first(orders, book.asks[price]);
        }
    }
    if exists|x: Seq<char>| #[trigger]
        orders.contains_key(x) && resting(orders[x]) && orders[x].market_id.0@ == market {
        let x = choose|x: Seq<char>| #[trigger]
            orders.contains_key(x) && resting(orders[x]) && orders[x].market_id.0@ == market;
        assert(open_in(orders, market, x));
    }
}

/// The log is the whole truth about an engine, whatever was called on it: an order is
/// found exactly when the log accepts it, and it is found as the log tells it; the filled
/// quantities, the cancel marks and the nonces are those that the log tells.
pub proof fn law_engine_is_as_its_log_tells(times: Set<u64>, calls: Seq<Call>, id: Seq<char>)
    requires
        can_run(times, calls),
    ensures
        ({
            let e = ran(times, calls);
            &&& walked(e.log) is Done
            &&& e.find(id) is Some <==> exists|i: int| #[trigger] accepts_order(e.log, id, i)
            &&& e.find(id) is Some ==> e.find(id)->Some_0 == (walked(e.log)->Done_0).orders[id]
            &&& e.state.filled == (walked(e.log)->Done_0).state.filled
            &&& e.state.cancelled == (walked(e.log)->Done_0).state.cancelled
            &&& e.state.nonces == (walked(e.log)->Done_0).state.nonces
        }),
{
    let e = ran(times, calls);
    law_runs_are_recoverable(times, calls);
    let w = walked(e.log)->Done_0;
    law_replay_knows_accepted(e.log, id);
    assert(e.index.contains_key(id) <==> w.orders.contains_key(id));
    assert(e.closed.contains_key(id) ==> w.orders.contains_key(id));
}

/// A log of quantities that fit is not given up for want of room: where no number but the
/// last is the highest one, and what the orders were accepted with and twice what the
/// fills add up to stays within 64 bits, a replay does not run out of numbers.
pub proof fn law_small_log_fits(log: Seq<Entry>, base: int)
    requires
        forall|i: int| 0 <= i < log.len() - 1 ==> (#[trigger] log[i]).seq_id < u64::MAX,
        forall|i: int|
            0 <= i < log.len() ==> ((#[trigger] log[i]).event matches Event::OrderAccepted { order }
                ==> order.filled_size_lots <= base),
        0 <= base,
        base + 2 * log.fold_left(0int, |sum: int, en: Entry| sum + fill_size(en.event)) <= u64::MAX,
    ensures
        !(walked(log) is Overflow),
{
    lemma_small_log_fits(log, base, |sum: int, en: Entry| sum + fill_size(en.event));
}

/// The quantity of a fill.
pub open spec fn fill_size(event: Event) -> int {
    match event {
        Event::Fill(fill) => fill.size_lots as int,
        _ => 0,
    }
}

proof fn lemma_small_log_fits(log: Seq<Entry>, base: int, plus: spec_fn(int, Entry) -> int)
    requires
        forall|i: int| 0 <= i < log.len() - 1 ==> (#[trigger] log[i]).seq_id < u64::MAX,
        forall|i: int|
            0 <= i < log.len() ==> ((#[trigger] log[i]).event matches Event::OrderAccepted { order }
                ==> order.filled_size_lots <= base),
        0 <= base,
        forall|sum: int, en: Entry| #[trigger] plus(sum, en) == sum + fill_size(en.event),
        base + 2 * log.fold_left(0int, plus) <= u64::MAX,
    ensures
        !(walked(log) is Overflow),
        0 <= log.fold_left(0int, plus),
        walked(log) matches Outcome::Done(w) ==> {
            &&& forall|id: Seq<char>| #[trigger]
                w.orders.contains_key(id) ==> w.orders[id].filled_size_lots <= base + 2 * log.fold_left(0int, plus)
            &&& forall|h: Seq<u8>| #[trigger] amount(w.state.filled, h) <= 2 * log.fold_left(0int, plus)
        },
    decreases log.len(),
{
    if log.len() > 0 {
        let init = log.drop_last();
        let n = log.len() - 1;
        assert(log[n] == log.last());
        lemma_fold_step(log, plus);
        assert forall|i: int| 0 <= i < init.len() implies ((#[trigger] init[i]).event matches Event::OrderAccepted { order }
            ==> order.filled_size_lots <= base) by {
            assert(init[i] == log[i]);
        }
        assert forall|i: int| 0 <= i < init.len() - 1 implies (#[trigger] init[i]).seq_id < u64::MAX by {
            assert(init[i] == log[i]);
        }
        assert(fill_size(log.last().event) >= 0);
        lemma_small_log_fits(init, base, plus);
        if walked(init) is Done {
            let w0 = walked(init)->Done_0;
            lemma_last_is_some(init);
            if init.len() > 0 {
                assert(init.last() == log[n - 1]);
            }
            match log.last().event {
                Event::Fill(fill) => {
                    let a = fill.taker_order_hash.0@;
                    let b = fill.maker_order_hash.0@;
                    assert(amount(w0.state.filled, a) <= 2 * init.fold_left(0int, plus));
                    assert(amount(w0.state.filled, b) <= 2 * init.fold_left(0int, plus));
                    if walked(log) is Done {
                        let w = walked(log)->Done_0;
                        assert forall|h: Seq<u8>| #[trigger] amount(w.state.filled, h) <= 2 * log.fold_left(0int, plus) by {
                            assert(amount(w0.state.filled, h) <= 2 * init.fold_left(0int, plus));
                        }
                        assert forall|id: Seq<char>| #[trigger] w.orders.contains_key(id) implies w.orders[id].filled_size_lots
                            <= base + 2 * log.fold_left(0int, plus) by {
                            assert(w0.orders.contains_key(id));
                        }
                    }
                },
                _ => {
                    if walked(log) is Done {
                        let w = walked(log)->Done_0;
                        assert(w.state.filled == w0.state.filled);
                        assert forall|h: Seq<u8>| #[trigger] amount(w.state.filled, h) <= 2 * log.fold_left(0int, plus) by {
                            assert(amount(w0.state.filled, h) <= 2 * init.fold_left(0int, plus));
                        }
                        assert forall|id: Seq<char>| #[trigger] w.orders.contains_key(id) implies w.orders[id].filled_size_lots
                            <= base + 2 * log.fold_left(0int, plus) by {
                            if w0.orders.contains_key(id) {
                            }
                        }
                    }
                },
            }
        }
    }
}

/// The index of a log leads to the market of each order that it accepts.
proof fn lemma_index_leads(log: Seq<Entry>, id: Seq<char>)
    requires
        walked(log) is Done,
    ensures
        index_in(log).contains_key(id) <==> (walked(log)->Done_0).orders.contains_key(id),
        index_in(log).contains_key(id) ==> (walked(log)->Done_0).orders[id].market_id.0@ == index_in(log)[id],
    decreases log.len(),
{
    if log.len() > 0 {
        lemma_index_leads(log.drop_last(), id);
    }
}

/// An engine that takes over a log is as the log tells, whatever it was before: it has
/// the events of the log and goes on after them, it finds exactly the orders that the log
/// accepts, as the log tells them, it has the state that the log tells, and each of its
/// markets has a book. Its markets stay. An empty log changes nothing.
pub proof fn law_restored_engine_is_as_log_tells(
    before: EngineModel,
    log: Seq<SequencedEvent>,
    after: EngineModel,
    id: Seq<char>,
    market: Seq<char>,
    i: int,
)
    requires
        restores(before, log, after, Ok(())),
    ensures
        log.len() == 0 ==> after == before,
        log.len() > 0 ==> {
            let w = walked(entries(log))->Done_0;
            &&& walked(entries(log)) is Done
            &&& after.log.len() == log.len()
            &&& 0 <= i < log.len() ==> after.log[i].seq_id == log[i].seq_id && after.log[i].event == log[i].event
            &&& after.next == log[log.len() - 1].seq_id + 1
            &&& after.find(id) is Some <==> exists|k: int| #[trigger] accepts_order(after.log, id, k)
            &&& after.find(id) is Some ==> after.find(id)->Some_0 == w.orders[id]
            &&& after.find(id) is Some && resting(w.orders[id]) ==> after.books[w.orders[id].market_id.0@].orders.contains_key(
                id,
            )
            &&& after.state == w.state
            &&& after.markets == before.markets
            &&& after.times == before.times
            &&& before.markets.contains_key(market) ==> after.books.contains_key(market)
            &&& after.books.contains_key(market) ==> before.markets.contains_key(market) || exists|x: Seq<char>| #[trigger]
                w.orders.contains_key(x) && resting(w.orders[x]) && w.orders[x].market_id.0@ == market
        },
{
    if log.len() > 0 {
        let w = walked(entries(log))->Done_0;
        let books = choose|books: Map<Seq<char>, BookModel>| #[trigger]
            books_of(w.orders, books) && after.books == with_empty_books(books, before.markets);
        lemma_index_leads(after.log, id);
        law_replay_knows_accepted(after.log, id);
        law_rebuilt_books(w.orders, books, market, 0, id);
        if w.orders.contains_key(id) {
            law_rebuilt_books(w.orders, books, w.orders[id].market_id.0@, 0, id);
            if resting(w.orders[id]) {
                assert(open_in(w.orders, w.orders[id].market_id.0@, id));
                assert(books.contains_key(w.orders[id].market_id.0@));
                assert(after.in_book(id));
            }
        }
    }
}

/// A log that is refused is not taken over: nothing changes, and what is told is what is
/// wrong with it.
pub proof fn law_refused_log_changes_nothing(
    before: EngineModel,
    log: Seq<SequencedEvent>,
    after: EngineModel,
    e: ReplayError,
)
    requires
        restores(before, log, after, Err(e)),
    ensures
        after == before,
        match e {
            ReplayError::SeqIdGap { expected, got } => exists|i: int|
                0 <= i < log.len() - 1 && (#[trigger] log[i]).seq_id + 1 == expected && log[i + 1].seq_id == got && got
                    != expected,
            ReplayError::UnknownOrder(id) => exists|i: int| #[trigger]
                concerns(entries(log), id.0@, i) && !known_before(entries(log), id.0@, i),
        },
{
    let l = entries(log);
    law_refused_log_is_faulty(l);
    match e {
        ReplayError::SeqIdGap { expected, got } => {
            let i = choose|i: int| {
                &&& 0 <= i < l.len() - 1
                &&& (#[trigger] l[i]).seq_id + 1 == expected
                &&& l[i + 1].seq_id == got
                &&& got != expected
            };
            assert(log[i].seq_id + 1 == expected && log[i + 1].seq_id == got);
        },
        _ => {},
    }
}

/// What a replay gives: the open orders in the books of their markets, each in the queue
/// of its side and price, the closed ones beside them, the state, how many events there
/// were and the number of the last.
pub proof fn law_what_a_replay_gives(result: ReplayResult, log: Seq<Entry>, id: Seq<char>)
    requires
        walked(log) is Done,
        result.rebuilds(walked(log)->Done_0, log.len()),
    ensures
        ({
            let w = walked(log)->Done_0;
            let order = w.orders[id];
            let market = order.market_id.0@;
            &&& result.closed@.contains_key(id) <==> w.orders.contains_key(id) && !resting(order)
            &&& result.closed@.contains_key(id) ==> result.closed@[id] == order
            &&& w.orders.contains_key(id) && resting(order) ==> result.books@.contains_key(market)
                && result.books@[market]@.orders[id] == order && queue_of(
                result.books@[market]@,
                order.side,
                order.price_ticks,
            ).contains(id)
            &&& result.state@ == w.state
            &&& result.event_count == log.len()
            &&& result.last_seq_id == (if log.len() > 0 {
                log.last().seq_id
            } else {
                0
            })
        }),
{
    let w = walked(log)->Done_0;
    let books = book_models(result.books@);
    law_replayed_log_is_sound(log);
    if w.orders.contains_key(id) {
        let order = w.orders[id];
        law_rebuilt_books(w.orders, books, order.market_id.0@, order.price_ticks, id);
        if resting(order) {
            assert(open_in(w.orders, order.market_id.0@, id));
        }
    } else {
        law_rebuilt_books(w.orders, books, Seq::empty(), 0, id);
    }
}

/// An engine can take over any log whose numbers and quantities are small enough: where
/// no number is the highest one, and what the orders were accepted with and twice what
/// the fills add up to stays within 64 bits.
pub proof fn law_small_log_can_be_taken_over(log: Seq<SequencedEvent>, base: int)
    requires
        forall|i: int| 0 <= i < log.len() ==> (#[trigger] log[i]).seq_id < u64::MAX,
        forall|i: int|
            0 <= i < log.len() ==> ((#[trigger] log[i]).event matches Event::OrderAccepted { order }
                ==> order.filled_size_lots <= base),
        0 <= base,
        base + 2 * entries(log).fold_left(0int, |sum: int, en: Entry| sum + fill_size(en.event)) <= u64::MAX,
    ensures
        restore_fits(log),
{
    let l = entries(log);
    assert forall|i: int| 0 <= i < l.len() - 1 implies (#[trigger] l[i]).seq_id < u64::MAX by {
        assert(log[i].seq_id < u64::MAX);
    }
    assert forall|i: int| 0 <= i < l.len() implies ((#[trigger] l[i]).event matches Event::OrderAccepted { order }
        ==> order.filled_size_lots <= base) by {
        assert(log[i].event == l[i].event);
    }
    law_small_log_fits(l, base);
    if log.len() > 0 {
        assert(log[log.len() - 1].seq_id < u64::MAX);
    }
}

/// A log that ends in the highest number cannot be gone on from, and one whose replay runs
/// out of numbers cannot be replayed; every other log can be handed to an engine.
pub proof fn law_which_logs_fit(log: Seq<SequencedEvent>)
    ensures
        restore_fits(log) <==> !(walked(entries(log)) is Overflow) && !(walked(entries(log)) is Done && log.len() > 0
            && log[log.len() - 1].seq_id == u64::MAX),
{
}

} // verus!
