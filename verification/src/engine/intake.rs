//! What holds of submissions and cancels.
use crate::crypto::hex_text;
use crate::db::{amount, StateModel};
use crate::domain::market::MarketConfig;
use crate::domain::order::{law_canonical_fixes_numbers, Order, OrderError, OrderHash, OrderId, OrderStatus, SignedOrder};
use crate::engine::laws::{law_taker_closed_or_left, lemma_matched, lemma_numbered, lemma_numbered_keeps_closed};
use crate::engine::matching::MatchState;
use crate::engine::model::{appended, cancelled, intake_events, new_order, says_rejected, settled, EngineModel};
use crate::engine::{answers, cancel_answers, CancelError, CancelResult, EngineError, OrderResult};
use crate::events::CancelReason;
use vstd::prelude::*;

verus! {

/// A submission that is rejected is put into the log as such, for audit, and changes
/// nothing else.
pub proof fn law_rejected_is_only_recorded(
    e: EngineModel,
    signed: SignedOrder,
    now: u64,
    verdict: Result<(), OrderError>,
    hash: OrderHash,
    id: OrderId,
    after: EngineModel,
)
    requires
        e.rejection(signed, now, verdict) is Some,
        e.submits(signed, now, verdict, hash, id, after),
    ensures
        after.next == e.next + 1,
        after.log.len() == e.log.len() + 1,
        after.log.drop_last() == e.log,
        after.log.last().seq_id == e.next as u64,
        says_rejected(after.log.last().event, signed, e.rejection(signed, now, verdict)->Some_0),
        after == (EngineModel { next: after.next, log: after.log, ..e }),
{
    assert(after.log.drop_last() =~= e.log);
}

/// A submission that was accepted before changes nothing.
pub proof fn law_duplicate_changes_nothing(
    e: EngineModel,
    signed: SignedOrder,
    now: u64,
    verdict: Result<(), OrderError>,
    hash: OrderHash,
    id: OrderId,
    after: EngineModel,
)
    requires
        e.rejection(signed, now, verdict) is None,
        e.is_duplicate(signed),
        e.submits(signed, now, verdict, hash, id, after),
    ensures
        after == e,
{
}

proof fn lemma_settled_keeps_nonces(state: StateModel, order: Order, m: MatchState)
    ensures
        settled(state, order, m).nonces == state.nonces,
        settled(state, order, m).balances == state.balances,
{
}

/// Once accepted, a submission is remembered under its trader and client order
/// id: another submission under them is a duplicate, which is not accepted again and
/// is answered with the order id, the hash and the number of the first.
pub proof fn law_accepted_once(
    e: EngineModel,
    signed: SignedOrder,
    now: u64,
    hash: OrderHash,
    id: OrderId,
    again: SignedOrder,
    later: u64,
    verdict: Result<(), OrderError>,
    hash2: OrderHash,
    id2: OrderId,
    end: EngineModel,
)
    requires
        EngineModel::submission(again) == EngineModel::submission(signed),
        e.accept(signed, now, hash, id).submits(again, later, verdict, hash2, id2, end),
    ensures
        ({
            let after = e.accept(signed, now, hash, id);
            let record = after.accepted[EngineModel::submission(again)];
            &&& after.is_duplicate(again)
            &&& record.order_id == id
            &&& record.order_hash == hash
            &&& record.original_seq_id == e.next as u64
            &&& !after.admits(again, later, verdict)
            &&& after.rejection(again, later, verdict) is None ==> end == after
            &&& end.books == after.books && end.accepted == after.accepted && end.state == after.state
        }),
{
}

/// Nonces only grow: after an acceptance no submission of the same trader passes
/// with a nonce that is not higher, and the nonces of other traders stay.
pub proof fn law_nonce_is_used_up(
    e: EngineModel,
    signed: SignedOrder,
    now: u64,
    hash: OrderHash,
    id: OrderId,
    other: SignedOrder,
)
    ensures
        ({
            let after = e.accept(signed, now, hash, id);
            &&& amount(after.state.nonces, signed.trader_id@) == signed.nonce
            &&& other.trader_id@ == signed.trader_id@ && other.nonce <= signed.nonce ==> !after.nonce_ok(other)
            &&& other.trader_id@ != signed.trader_id@ ==> after.nonce_ok(other) == e.nonce_ok(other)
        }),
{
    let seq = e.next as u64;
    let order = new_order(signed, now, hash, id, seq);
    lemma_settled_keeps_nonces(
        e.state.with_nonce(signed.trader_id@, signed.nonce),
        order,
        e.run(signed, now, hash, id),
    );
}

/// What a trader signed is accepted at most once: after an acceptance a
/// submission with the same canonical encoding is refused or a duplicate,
/// whatever else it says.
pub proof fn law_signed_once(
    e: EngineModel,
    signed: SignedOrder,
    now: u64,
    verdict: Result<(), OrderError>,
    hash: OrderHash,
    id: OrderId,
    again: SignedOrder,
    later: u64,
    verdict2: Result<(), OrderError>,
)
    requires
        e.admits(signed, now, verdict),
        again.canonical() == signed.canonical(),
    ensures
        !e.accept(signed, now, hash, id).admits(again, later, verdict2),
{
    law_canonical_fixes_numbers(again, signed);
    law_nonce_is_used_up(e, signed, now, hash, id, again);
    let after = e.accept(signed, now, hash, id);
    if after.refusal(again, later, verdict2) is None {
        assert(again.trader_id@ == hex_text(again.trader_pubkey@));
        assert(signed.trader_id@ == hex_text(signed.trader_pubkey@));
    }
}

/// An acceptance keeps an engine well-formed.
pub proof fn law_accept_keeps_wf(
    e: EngineModel,
    signed: SignedOrder,
    now: u64,
    verdict: Result<(), OrderError>,
    hash: OrderHash,
    id: OrderId,
)
    requires
        e.wf(),
        e.admits(signed, now, verdict),
        e.accept(signed, now, hash, id).next <= u64::MAX,
    ensures
        e.accept(signed, now, hash, id).wf(),
{
    let market = signed.market_id.0@;
    let order = new_order(signed, now, hash, id, e.next as u64);
    let after = e.accept(signed, now, hash, id);
    assert(e.markets.contains_key(market));
    assert(e.books.contains_key(market));
    lemma_matched(e.books[market], order, e.next as u64, now);
    law_taker_closed_or_left(e.books[market], order, e.next as u64, now);
    let m = e.run(signed, now, hash, id);
    lemma_numbered(m, e.next);
    let book = e.intake(signed, now, hash, id).book;
    assert forall|x: Seq<char>| #[trigger] book.orders.contains_key(x) implies book.orders[x].within_size() && book.orders[x].order_id.key()
        == x by {
        assert(m.book.orders.contains_key(x));
    }
    assert forall|key: (Seq<char>, Seq<char>)| #[trigger] after.accepted.contains_key(key) implies after.find(
        after.accepted[key].order_id.key(),
    ) is Some by {
        let x = after.accepted[key].order_id.key();
        if x != id.key() {
            assert(e.accepted.contains_key(key));
            assert(e.find(x) is Some);
            lemma_accept_finds_others(e, signed, now, hash, id, x);
        }
    }
}

/// An acceptance leaves orders of other ids where they are.
proof fn lemma_accept_finds_others(
    e: EngineModel,
    signed: SignedOrder,
    now: u64,
    hash: OrderHash,
    id: OrderId,
    x: Seq<char>,
)
    requires
        e.wf(),
        e.books.contains_key(signed.market_id.0@),
        x != id.key(),
    ensures
        e.accept(signed, now, hash, id).in_book(x) == e.in_book(x),
        e.accept(signed, now, hash, id).closed.contains_key(x) == e.closed.contains_key(x),
        e.closed.contains_key(x) ==> e.accept(signed, now, hash, id).closed[x] == e.closed[x],
{
    let market = signed.market_id.0@;
    let order = new_order(signed, now, hash, id, e.next as u64);
    lemma_matched(e.books[market], order, e.next as u64, now);
    let m = e.run(signed, now, hash, id);
    lemma_numbered(m, e.next);
    assert(e.books[market].orders.contains_key(x) <==> m.book.orders.contains_key(x));
    assert(m.taker.order_id.key() == id.key());
}

/// A cancel of an open order keeps an engine well-formed.
pub proof fn law_cancel_keeps_wf(e: EngineModel, market: Seq<char>, id: Seq<char>, reason: CancelReason)
    requires
        e.wf(),
        e.books.contains_key(market),
        e.books[market].is_open(id),
        e.next < u64::MAX,
    ensures
        e.cancel(market, id, reason).wf(),
{
    let after = e.cancel(market, id, reason);
    let order = e.books[market].orders[id];
    assert(after.books[market].orders == e.books[market].orders.insert(id, cancelled(order, e.next as u64)));
    assert forall|key: (Seq<char>, Seq<char>)| #[trigger] after.accepted.contains_key(key) implies after.find(
        after.accepted[key].order_id.key(),
    ) is Some by {
        let x = e.accepted[key].order_id.key();
        assert(e.find(x) is Some);
        assert(after.in_book(x) == e.in_book(x));
    }
}

/// Registering a market keeps an engine well-formed.
pub proof fn law_market_keeps_wf(e: EngineModel, config: MarketConfig)
    requires
        e.wf(),
    ensures
        e.with_market(config).wf(),
{
    let after = e.with_market(config);
    assert forall|key: (Seq<char>, Seq<char>)| #[trigger] after.accepted.contains_key(key) implies after.find(
        after.accepted[key].order_id.key(),
    ) is Some by {
        let x = e.accepted[key].order_id.key();
        assert(e.find(x) is Some);
        assert(after.in_book(x) == e.in_book(x));
    }
}

/// An order that was cancelled cannot be cancelled again: a second cancel finds
/// it closed, and the cancel is the last event that changed it.
pub proof fn law_cancel_once(e: EngineModel, id: Seq<char>, reason: CancelReason, trader: Seq<char>)
    requires
        e.wf(),
        e.find(id) matches Some(order) && !order.closed(),
    ensures
        ({
            let after = e.cancel(e.index[id], id, reason);
            &&& after.find(id) matches Some(order) && order.status == OrderStatus::Cancelled
                && order.last_update_sequence == e.next as u64
            &&& !after.cancels(id, trader)
            &&& after.state.is_cancelled((e.find(id)->Some_0).order_hash.0@)
        }),
{
}

/// Balances are no business of matching: accepting and cancelling leave them.
pub proof fn law_balances_stay(
    e: EngineModel,
    signed: SignedOrder,
    now: u64,
    hash: OrderHash,
    id: OrderId,
    market: Seq<char>,
    order: Seq<char>,
    reason: CancelReason,
)
    ensures
        e.accept(signed, now, hash, id).state.balances == e.state.balances,
        e.cancel(market, order, reason).state.balances == e.state.balances,
{
    lemma_settled_keeps_nonces(
        e.state.with_nonce(signed.trader_id@, signed.nonce),
        new_order(signed, now, hash, id, e.next as u64),
        e.run(signed, now, hash, id),
    );
}

/// Every change is in the log: a submission or a cancel that changes the engine
/// makes the log longer, and keeps what was in it.
pub proof fn law_every_change_is_logged(
    e: EngineModel,
    signed: SignedOrder,
    now: u64,
    verdict: Result<(), OrderError>,
    hash: OrderHash,
    id: OrderId,
    market: Seq<char>,
    order: Seq<char>,
    reason: CancelReason,
    submitted: EngineModel,
)
    requires
        e.submits(signed, now, verdict, hash, id, submitted),
    ensures
        ({
            let cancelled = e.cancel(market, order, reason);
            &&& submitted != e ==> submitted.log.len() > e.log.len() && e.log.is_prefix_of(submitted.log)
            &&& cancelled.log.len() > e.log.len() && e.log.is_prefix_of(cancelled.log)
        }),
{
    let cancelled = e.cancel(market, order, reason);
    if e.rejection(signed, now, verdict) is Some {
        law_rejected_is_only_recorded(e, signed, now, verdict, hash, id, submitted);
        assert(e.log =~= submitted.log.take(e.log.len() as int));
    } else if submitted != e {
        let events = intake_events(new_order(signed, now, hash, id, e.next as u64), e.run(signed, now, hash, id));
        assert(submitted.log == appended(e.log, e.next, events));
        assert(e.log =~= submitted.log.take(e.log.len() as int));
    }
    assert(e.log =~= cancelled.log.take(e.log.len() as int));
}

/// The numbers of the events of an acceptance follow each other from the next
/// number on.
pub proof fn law_numbers_follow(e: EngineModel, signed: SignedOrder, now: u64, hash: OrderHash, id: OrderId, i: int)
    requires
        0 <= e.next,
        e.accept(signed, now, hash, id).next <= u64::MAX,
        e.log.len() <= i < e.accept(signed, now, hash, id).log.len(),
    ensures
        e.accept(signed, now, hash, id).log[i].seq_id == e.next + (i - e.log.len()),
        e.accept(signed, now, hash, id).next == e.next + (e.accept(signed, now, hash, id).log.len() - e.log.len()),
{
}

/// Orders are kept for good: an order that can be found stays to be found,
/// whatever is accepted, cancelled or registered.
pub proof fn law_orders_are_kept(
    e: EngineModel,
    signed: SignedOrder,
    now: u64,
    hash: OrderHash,
    id: OrderId,
    order: Seq<char>,
    market: Seq<char>,
    target: Seq<char>,
    reason: CancelReason,
    config: MarketConfig,
)
    requires
        e.wf(),
        e.find(order) is Some,
    ensures
        e.books.contains_key(signed.market_id.0@) ==> e.accept(signed, now, hash, id).find(order) is Some,
        e.cancel(market, target, reason).find(order) is Some,
        e.with_market(config).find(order) is Some,
{
    if e.books.contains_key(signed.market_id.0@) && order != id.key() {
        lemma_accept_finds_others(e, signed, now, hash, id, order);
    }
    if e.books.contains_key(signed.market_id.0@) && order == id.key() {
        let taker = new_order(signed, now, hash, id, e.next as u64);
        lemma_matched(e.books[signed.market_id.0@], taker, e.next as u64, now);
        lemma_numbered(e.run(signed, now, hash, id), e.next);
    }
    assert(e.with_market(config).in_book(order) == e.in_book(order));
}

/// A closed order stays as it is: whatever is accepted under another id,
/// cancelled or registered, it is told the same.
pub proof fn law_closed_orders_stay(
    e: EngineModel,
    signed: SignedOrder,
    now: u64,
    hash: OrderHash,
    id: OrderId,
    order: Seq<char>,
    market: Seq<char>,
    target: Seq<char>,
    reason: CancelReason,
    config: MarketConfig,
)
    requires
        e.wf(),
        e.find(order) matches Some(found) && found.closed(),
    ensures
        e.books.contains_key(signed.market_id.0@) && id.key() != order ==> e.accept(signed, now, hash, id).find(order)
            == e.find(order),
        e.books.contains_key(market) && e.books[market].is_open(target) ==> e.cancel(market, target, reason).find(order)
            == e.find(order),
        e.with_market(config).find(order) == e.find(order),
{
    if e.books.contains_key(signed.market_id.0@) && id.key() != order {
        lemma_accept_finds_others(e, signed, now, hash, id, order);
        let taker = new_order(signed, now, hash, id, e.next as u64);
        let book = e.books[signed.market_id.0@];
        lemma_matched(book, taker, e.next as u64, now);
        lemma_numbered(e.run(signed, now, hash, id), e.next);
        if book.orders.contains_key(order) && book.orders[order].closed() {
            lemma_numbered_keeps_closed(book, taker, e.next as u64, now, e.next, order);
        }
    }
    if e.books.contains_key(market) && e.books[market].is_open(target) {
        let after = e.cancel(market, target, reason);
        assert(after.in_book(order) == e.in_book(order));
    }
    assert(e.with_market(config).in_book(order) == e.in_book(order));
}

/// An accepted order is told as it came out of its intake: where something is left
/// of it, it rests in its book; otherwise it was filled or stopped by self-trade
/// prevention, and is kept as such.
pub proof fn law_outcome_is_kept(
    e: EngineModel,
    signed: SignedOrder,
    now: u64,
    verdict: Result<(), OrderError>,
    hash: OrderHash,
    id: OrderId,
)
    requires
        e.wf(),
        e.admits(signed, now, verdict),
        !e.books[signed.market_id.0@].orders.contains_key(id.key()),
    ensures
        ({
            let outcome = e.outcome(signed, now, hash, id);
            let after = e.accept(signed, now, hash, id);
            &&& after.find(id.key()) == Some(outcome)
            &&& outcome.status == e.run(signed, now, hash, id).taker.status
            &&& after.in_book(id.key()) <==> !outcome.closed()
            &&& outcome.closed() ==> outcome.status == OrderStatus::Filled || outcome.status
                == OrderStatus::CancelledStp
            &&& !outcome.closed() ==> outcome.remaining() > 0
        }),
{
    let market = signed.market_id.0@;
    assert(e.markets.contains_key(market));
    assert(e.books.contains_key(market));
    let taker = new_order(signed, now, hash, id, e.next as u64);
    law_taker_closed_or_left(e.books[market], taker, e.next as u64, now);
    lemma_matched(e.books[market], taker, e.next as u64, now);
    let m = e.run(signed, now, hash, id);
    lemma_numbered(m, e.next);
    assert(!m.book.orders.contains_key(id.key())) by {
        assert(e.books[market].orders.contains_key(id.key()) <==> m.book.orders.contains_key(id.key()));
    }
}

/// A submission that is repeated right after its acceptance gets the result of its
/// intake again: the same order id, hash and number, and the same status, also
/// where the order never came to rest.
pub proof fn law_repeated_gets_result(
    e: EngineModel,
    signed: SignedOrder,
    now: u64,
    verdict: Result<(), OrderError>,
    hash: OrderHash,
    id: OrderId,
    first: OrderResult,
    again: SignedOrder,
    later: u64,
    verdict2: Result<(), OrderError>,
    hash2: OrderHash,
    id2: OrderId,
    end: EngineModel,
    second: Result<OrderResult, EngineError>,
)
    requires
        e.wf(),
        e.admits(signed, now, verdict),
        !e.books[signed.market_id.0@].orders.contains_key(id.key()),
        answers(e, signed, now, verdict, hash, id, e.accept(signed, now, hash, id), Ok(first)),
        EngineModel::submission(again) == EngineModel::submission(signed),
        e.accept(signed, now, hash, id).refusal(again, later, verdict2) is None,
        answers(e.accept(signed, now, hash, id), again, later, verdict2, hash2, id2, end, second),
    ensures
        end == e.accept(signed, now, hash, id),
        second matches Ok(answer) && {
            &&& answer.is_duplicate
            &&& answer.order_id == first.order_id
            &&& answer.order_hash == first.order_hash
            &&& answer.seq_id == first.seq_id
            &&& answer.final_status == first.final_status
            &&& answer.fills@.len() == 0
        },
{
    law_outcome_is_kept(e, signed, now, verdict, hash, id);
}

/// A cancel of a closed order tells its trader that it was closed before, and
/// changes nothing, whether the order was closed on intake or later.
pub proof fn law_cancel_of_closed(e: EngineModel, order_id: OrderId, after: EngineModel, r: Result<CancelResult, CancelError>)
    requires
        e.find(order_id.key()) matches Some(order) && order.closed(),
        cancel_answers(e, order_id, (e.find(order_id.key())->Some_0).trader_id@, after, r),
    ensures
        after == e,
        r == Ok::<CancelResult, CancelError>(
            CancelResult { order_id, seq_id: None, was_already_closed: true },
        ),
{
}

} // verus!
