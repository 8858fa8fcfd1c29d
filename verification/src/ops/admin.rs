//! Administrative operations: pausing and resuming a market, and cancelling
//! everything that rests in it. Each puts its events into the log.
use crate::domain::market::{MarketConfig, MarketId, MarketStatus};
use crate::domain::order::{Order, OrderError, OrderHash, OrderId, OrderStatus, SignedOrder};
use crate::engine::Engine;
use crate::engine::model::{cancelled, EngineModel, Entry};
use crate::engine::orderbook::{ids, lemma_oldest_first, oldest_first};
use crate::engine::recovery::{accounts_agree, law_cancel_keeps_recoverable, recoverable, tidy_engine};
use crate::events::{CancelReason, Event};
use vstd::prelude::*;
use vstd::string::StringExecFns;

verus! {

/// Why an administrative operation was refused.
#[derive(Debug)]
pub enum AdminError {
    MarketNotFound(String),
    AlreadyInState(String, MarketStatus),
    Settled(String),
}

impl AdminError {
    /// The text of [`AdminError::message`].
    pub open spec fn text(&self) -> Seq<char> {
        match self {
            AdminError::MarketNotFound(id) => "market '"@ + id@ + "' not found"@,
            AdminError::AlreadyInState(id, status) => "market '"@ + id@ + "' is already "@ + status_name(*status),
            AdminError::Settled(id) => "market '"@ + id@ + "' is settled — cannot be modified"@,
        }
    }

    /// The error in words.
    pub fn message(&self) -> (s: String)
        ensures
            s@ == self.text(),
    {
        let mut s = "market '".to_owned();
        match self {
            AdminError::MarketNotFound(id) => {
                s.append(id.as_str());
                s.append("' not found");
            },
            AdminError::AlreadyInState(id, status) => {
                s.append(id.as_str());
                s.append("' is already ");
                match status {
                    MarketStatus::Active => s.append("Active"),
                    MarketStatus::Paused => s.append("Paused"),
                    MarketStatus::Settled => s.append("Settled"),
                }
            },
            AdminError::Settled(id) => {
                s.append(id.as_str());
                s.append("' is settled — cannot be modified");
            },
        }
        s
    }
}

pub open spec fn status_name(status: MarketStatus) -> Seq<char> {
    match status {
        MarketStatus::Active => "Active"@,
        MarketStatus::Paused => "Paused"@,
        MarketStatus::Settled => "Settled"@,
    }
}

/// Why the status of `market` cannot go from `from` to the other of active and
/// paused.
pub open spec fn refused(before: EngineModel, market: Seq<char>, from: MarketStatus, e: AdminError) -> bool {
    if !before.markets.contains_key(market) {
        e matches AdminError::MarketNotFound(id) && id@ == market
    } else if before.markets[market].status == MarketStatus::Settled {
        e matches AdminError::Settled(id) && id@ == market
    } else {
        e matches AdminError::AlreadyInState(id, status) && id@ == market && status != from && status
            == before.markets[market].status
    }
}

/// The market can go on from `from`.
pub open spec fn stands_at(e: EngineModel, market: Seq<char>, from: MarketStatus) -> bool {
    e.markets.contains_key(market) && e.markets[market].status == from
}

/// `before` with the status of `market` set.
pub open spec fn with_status(before: EngineModel, market: Seq<char>, status: MarketStatus) -> EngineModel {
    before.with_market(MarketConfig { status, ..before.markets[market] })
}

/// The event says that `by` paused `market`.
pub open spec fn says_paused(event: Event, market: Seq<char>, by: Seq<char>) -> bool {
    event matches Event::MarketPaused { market_id, triggered_by } && market_id.0@ == market && triggered_by@ == by
}

/// The event says that `by` resumed `market`.
pub open spec fn says_resumed(event: Event, market: Seq<char>, by: Seq<char>) -> bool {
    event matches Event::MarketResumed { market_id, triggered_by } && market_id.0@ == market && triggered_by@ == by
}

/// Pause a market: no new orders are accepted, and the book is kept. The answer
/// is the number of the event.
pub fn pause_market(engine: &mut Engine, market_id: &str, triggered_by: &str) -> (r: Result<u64, AdminError>)
    requires
        old(engine).wf(),
        stands_at(old(engine)@, market_id@, MarketStatus::Active) ==> old(engine)@.next < u64::MAX,
    ensures
        match r {
            Ok(seq_id) => stands_at(old(engine)@, market_id@, MarketStatus::Active) && seq_id == old(engine)@.next
                && exists|event: Event|
                #[trigger] says_paused(event, market_id@, triggered_by@) && final(engine)@ == with_status(
                    old(engine)@,
                    market_id@,
                    MarketStatus::Paused,
                ).record(event),
            Err(e) => !stands_at(old(engine)@, market_id@, MarketStatus::Active) && refused(
                old(engine)@,
                market_id@,
                MarketStatus::Active,
                e,
            ) && final(engine)@ == old(engine)@,
        },
        final(engine).wf(),
        old(engine).history().is_prefix_of(final(engine).history()),
{
    let config = match engine.market(market_id) {
        Some(config) => config.clone(),
        None => {
            return Err(AdminError::MarketNotFound(market_id.to_owned()));
        },
    };
    match config.status {
        MarketStatus::Paused => {
            return Err(AdminError::AlreadyInState(market_id.to_owned(), MarketStatus::Paused));
        },
        MarketStatus::Settled => {
            return Err(AdminError::Settled(market_id.to_owned()));
        },
        MarketStatus::Active => {},
    }
    let mut updated = config;
    updated.status = MarketStatus::Paused;
    engine.add_market(updated);
    let event = Event::MarketPaused {
        market_id: MarketId(market_id.to_owned()),
        triggered_by: triggered_by.to_owned(),
    };
    proof {
        assert(says_paused(event, market_id@, triggered_by@));
    }
    Ok(engine.record(event))
}

/// Resume a paused market. The answer is the number of the event.
pub fn resume_market(engine: &mut Engine, market_id: &str, triggered_by: &str) -> (r: Result<u64, AdminError>)
    requires
        old(engine).wf(),
        stands_at(old(engine)@, market_id@, MarketStatus::Paused) ==> old(engine)@.next < u64::MAX,
    ensures
        match r {
            Ok(seq_id) => stands_at(old(engine)@, market_id@, MarketStatus::Paused) && seq_id == old(engine)@.next
                && exists|event: Event|
                #[trigger] says_resumed(event, market_id@, triggered_by@) && final(engine)@ == with_status(
                    old(engine)@,
                    market_id@,
                    MarketStatus::Active,
                ).record(event),
            Err(e) => !stands_at(old(engine)@, market_id@, MarketStatus::Paused) && refused(
                old(engine)@,
                market_id@,
                MarketStatus::Paused,
                e,
            ) && final(engine)@ == old(engine)@,
        },
        final(engine).wf(),
        old(engine).history().is_prefix_of(final(engine).history()),
{
    let config = match engine.market(market_id) {
        Some(config) => config.clone(),
        None => {
            return Err(AdminError::MarketNotFound(market_id.to_owned()));
        },
    };
    match config.status {
        MarketStatus::Active => {
            return Err(AdminError::AlreadyInState(market_id.to_owned(), MarketStatus::Active));
        },
        MarketStatus::Settled => {
            return Err(AdminError::Settled(market_id.to_owned()));
        },
        MarketStatus::Paused => {},
    }
    let mut updated = config;
    updated.status = MarketStatus::Active;
    engine.add_market(updated);
    let event = Event::MarketResumed {
        market_id: MarketId(market_id.to_owned()),
        triggered_by: triggered_by.to_owned(),
    };
    proof {
        assert(says_resumed(event, market_id@, triggered_by@));
    }
    Ok(engine.record(event))
}

/// The engine after the orders `ids` of `market` are cancelled in turn.
pub open spec fn cancelled_in_turn(e: EngineModel, market: Seq<char>, ids: Seq<Seq<char>>) -> EngineModel
    decreases ids.len(),
{
    if ids.len() == 0 {
        e
    } else {
        cancelled_in_turn(e.cancel(market, ids[0], CancelReason::AdminForce), market, ids.drop_first())
    }
}

/// Cancel every resting order of a market, oldest first. The answer is their
/// number.
pub fn cancel_all_orders(engine: &mut Engine, market_id: &str) -> (r: Result<usize, AdminError>)
    requires
        old(engine).wf(),
        old(engine)@.markets.contains_key(market_id@) ==> old(engine)@.next + oldest_first(
            old(engine)@.books[market_id@].orders,
        ).len() <= u64::MAX,
    ensures
        match r {
            Ok(count) => {
                let open = oldest_first(old(engine)@.books[market_id@].orders);
                &&& old(engine)@.markets.contains_key(market_id@)
                &&& count == open.len()
                &&& final(engine)@ == cancelled_in_turn(old(engine)@, market_id@, open)
                &&& forall|id: Seq<char>| !(#[trigger] final(engine)@.books[market_id@].is_open(id))
            },
            Err(e) => !old(engine)@.markets.contains_key(market_id@) && final(engine)@ == old(engine)@ && (e matches AdminError::MarketNotFound(
                id,
            ) && id@ == market_id@),
        },
        final(engine).wf(),
        old(engine).history().is_prefix_of(final(engine).history()),
{
    if engine.market(market_id).is_none() {
        return Err(AdminError::MarketNotFound(market_id.to_owned()));
    }
    let open = match engine.open_orders(market_id) {
        Some(open) => open,
        None => Vec::new(),
    };
    let ghost before = engine@;
    let ghost list = ids(open@);
    let ghost orders = before.books[market_id@].orders;
    proof {
        assert(before.markets.contains_key(market_id@));
        assert(before.books.contains_key(market_id@));
        lemma_oldest_first(orders);
        assert(list.skip(0) =~= list);
        assert forall|id: Seq<char>| #[trigger] before.books[market_id@].is_open(id) implies list.contains(id) by {
            assert(list.contains(id) <==> orders.contains_key(id) && !orders[id].closed());
        }
        assert forall|j: int| 0 <= j < list.len() implies before.books[market_id@].is_open(#[trigger] list[j]) by {
            assert(list.contains(list[j]));
        }
    }
    let mut i: usize = 0;
    while i < open.len()
        invariant
            i <= open@.len(),
            list == ids(open@),
            list.no_duplicates(),
            engine.wf(),
            before.next + list.len() <= u64::MAX,
            engine@.next == before.next + i,
            engine@.books.contains_key(market_id@),
            cancelled_in_turn(before, market_id@, list) == cancelled_in_turn(
                engine@,
                market_id@,
                list.skip(i as int),
            ),
            forall|j: int| i <= j < list.len() ==> engine@.books[market_id@].is_open(#[trigger] list[j]),
            forall|id: Seq<char>|
                #[trigger] engine@.books[market_id@].is_open(id) ==> before.books[market_id@].is_open(id)
                    && !list.take(i as int).contains(id),
            old(engine).history().is_prefix_of(engine.history()),
        decreases open@.len() - i,
    {
        let ghost now = engine@;
        proof {
            assert(list[i as int] == open@[i as int].key());
            assert(list.skip(i as int)[0] == list[i as int]);
            assert(list.skip(i as int).drop_first() =~= list.skip(i + 1));
        }
        engine.cancel_open(market_id, &open[i], CancelReason::AdminForce);
        proof {
            let id = list[i as int];
            let a = now.books[market_id@];
            let b = engine@.books[market_id@];
            assert(b.orders == a.orders.insert(id, cancelled(a.orders[id], now.next as u64)));
            assert forall|j: int| i + 1 <= j < list.len() implies b.is_open(#[trigger] list[j]) by {
                assert(list[j] != id);
                assert(a.is_open(list[j]));
            }
            assert forall|x: Seq<char>| #[trigger] b.is_open(x) implies before.books[market_id@].is_open(x)
                && !list.take(i + 1).contains(x) by {
                assert(x != id);
                assert(a.is_open(x));
                if list.take(i + 1).contains(x) {
                    let more = list.take(i + 1);
                    let k = choose|k: int| 0 <= k < more.len() && more[k] == x;
                    assert(list.take(i as int)[k] == x);
                }
            }
        }
        i = i + 1;
    }
    proof {
        assert(list.take(i as int) =~= list);
        assert(list.skip(i as int).len() == 0);
    }
    Ok(open.len())
}

/// Pausing an active market and resuming it leaves the markets and the books as
/// they were.
pub proof fn law_pause_resume_restores(e: EngineModel, market: Seq<char>, paused: Event, resumed: Event)
    requires
        e.wf(),
        stands_at(e, market, MarketStatus::Active),
    ensures
        ({
            let middle = with_status(e, market, MarketStatus::Paused).record(paused);
            let after = with_status(middle, market, MarketStatus::Active).record(resumed);
            &&& stands_at(middle, market, MarketStatus::Paused)
            &&& after.markets == e.markets
            &&& after.books == e.books
            &&& after.state == e.state
        }),
{
    let middle = with_status(e, market, MarketStatus::Paused).record(paused);
    let after = with_status(middle, market, MarketStatus::Active).record(resumed);
    assert(e.markets[market].id.0@ == market);
    assert(e.books.contains_key(market));
    assert(after.markets =~= e.markets);
}

/// Cancelling everything that rests keeps an engine tidy, recoverable and its
/// accounts in order.
pub proof fn law_cancel_all_keeps_recoverable(e: EngineModel, market: Seq<char>, ids: Seq<Seq<char>>)
    requires
        tidy_engine(e),
        recoverable(e),
        e.books.contains_key(market),
        ids.no_duplicates(),
        forall|i: int| 0 <= i < ids.len() ==> e.books[market].is_open(#[trigger] ids[i]),
        e.next + ids.len() <= u64::MAX,
    ensures
        tidy_engine(cancelled_in_turn(e, market, ids)),
        recoverable(cancelled_in_turn(e, market, ids)),
        accounts_agree(e) ==> accounts_agree(cancelled_in_turn(e, market, ids)),
    decreases ids.len(),
{
    if ids.len() > 0 {
        let next = e.cancel(market, ids[0], CancelReason::AdminForce);
        let rest = ids.drop_first();
        law_cancel_keeps_recoverable(e, market, ids[0], CancelReason::AdminForce);
        assert forall|i: int| 0 <= i < rest.len() implies next.books[market].is_open(#[trigger] rest[i]) by {
            assert(rest[i] == ids[i + 1]);
            assert(ids[i + 1] != ids[0]);
            assert(e.books[market].is_open(ids[i + 1]));
        }
        law_cancel_all_keeps_recoverable(next, market, rest);
    }
}

/// A market that is paused or settled accepts nothing: every submission for it is
/// refused, which is put into the log, and changes nothing else.
pub proof fn law_closed_market_accepts_nothing(
    e: EngineModel,
    signed: SignedOrder,
    now: u64,
    verdict: Result<(), OrderError>,
    hash: OrderHash,
    id: OrderId,
    after: EngineModel,
)
    requires
        e.submits(signed, now, verdict, hash, id, after),
        !stands_at(e, signed.market_id.0@, MarketStatus::Active),
    ensures
        e.refusal(signed, now, verdict) is Some,
        after == (EngineModel { next: after.next, log: after.log, ..e }),
{
}

/// A change of status changes the status of that market and nothing else.
pub proof fn law_status_change(e: EngineModel, market: Seq<char>, status: MarketStatus, other: Seq<char>)
    requires
        e.wf(),
        e.markets.contains_key(market),
    ensures
        ({
            let after = with_status(e, market, status);
            &&& after.markets.contains_key(other) <==> e.markets.contains_key(other)
            &&& other != market ==> after.markets[other] == e.markets[other]
            &&& after.markets[market].status == status
            &&& after.markets[market].id == e.markets[market].id
            &&& after.markets[market].base_asset == e.markets[market].base_asset
            &&& after.markets[market].quote_asset == e.markets[market].quote_asset
            &&& after.markets[market].tick_size == e.markets[market].tick_size
            &&& after.markets[market].lot_size == e.markets[market].lot_size
            &&& after.markets[market].fee_bps_maker == e.markets[market].fee_bps_maker
            &&& after.markets[market].fee_bps_taker == e.markets[market].fee_bps_taker
            &&& after.books == e.books && after.state == e.state && after.log == e.log && after.next == e.next
                && after.accepted == e.accepted && after.index == e.index && after.closed == e.closed && after.times
                == e.times
        }),
{
    assert(e.markets[market].id.0@ == market);
    assert(e.books.contains_key(market));
}

/// What a refused change of status is told: that there is no such market where there is
/// none, that it is settled where it is settled, and otherwise the status in which it
/// already is; each names the market.
pub proof fn law_admin_refusal(e: EngineModel, market: Seq<char>, from: MarketStatus, told: AdminError)
    requires
        refused(e, market, from, told),
        from == MarketStatus::Active || from == MarketStatus::Paused,
        !stands_at(e, market, from),
    ensures
        !(e.markets.contains_key(market) && e.markets[market].status == from),
        match told {
            AdminError::MarketNotFound(id) => id@ == market && !e.markets.contains_key(market),
            AdminError::Settled(id) => id@ == market && e.markets.contains_key(market) && e.markets[market].status
                == MarketStatus::Settled,
            AdminError::AlreadyInState(id, status) => id@ == market && e.markets.contains_key(market)
                && e.markets[market].status == status && (from == MarketStatus::Active ==> status
                == MarketStatus::Paused) && (from == MarketStatus::Paused ==> status == MarketStatus::Active),
        },
{
}

/// A market can be paused exactly when it is active, and resumed exactly when it is
/// paused.
pub proof fn law_status_stands(e: EngineModel, market: Seq<char>, from: MarketStatus)
    ensures
        stands_at(e, market, from) <==> e.markets.contains_key(market) && e.markets[market].status == from,
{
}

/// Cancelling orders in turn: each of them ends up cancelled, under the number of its
/// event, with nothing else of it changed; for each there is one event, in the order
/// asked for, that names it, its hash and an operator as the reason; every other order
/// and every other book is as it was, and so are markets, fills, nonces and balances.
pub proof fn law_cancels_in_turn(e: EngineModel, market: Seq<char>, ids: Seq<Seq<char>>, other: Seq<char>)
    requires
        e.books.contains_key(market),
        0 <= e.next,
        e.next + ids.len() <= u64::MAX,
        ids.no_duplicates(),
        forall|i: int| 0 <= i < ids.len() ==> e.books[market].orders.contains_key(#[trigger] ids[i]),
    ensures
        ({
            let after = cancelled_in_turn(e, market, ids);
            let orders = e.books[market].orders;
            &&& after.next == e.next + ids.len()
            &&& after.log.len() == e.log.len() + ids.len()
            &&& e.log.is_prefix_of(after.log)
            &&& forall|i: int|
                0 <= i < ids.len() ==> #[trigger] after.log[e.log.len() + i] == (Entry {
                    seq_id: (e.next + i) as u64,
                    event: Event::OrderCancelled {
                        order_id: orders[ids[i]].order_id,
                        order_hash: orders[ids[i]].order_hash,
                        reason: CancelReason::AdminForce,
                    },
                })
            &&& after.books.dom() == e.books.dom()
            &&& after.books[market].orders.dom() == orders.dom()
            &&& forall|i: int|
                0 <= i < ids.len() ==> after.books[market].orders[#[trigger] ids[i]] == (Order {
                    status: OrderStatus::Cancelled,
                    last_update_sequence: (e.next + i) as u64,
                    ..orders[ids[i]]
                })
            &&& forall|id: Seq<char>| !(#[trigger] ids.contains(id)) ==> after.books[market].orders[id] == orders[id]
            &&& other != market ==> after.books[other] == e.books[other]
            &&& after.markets == e.markets && after.accepted == e.accepted && after.index == e.index && after.closed
                == e.closed && after.times == e.times
            &&& after.state.filled == e.state.filled && after.state.nonces == e.state.nonces && after.state.balances
                == e.state.balances
            &&& forall|h: Seq<u8>|
                #[trigger] after.state.cancelled.contains_key(h) <==> e.state.cancelled.contains_key(h) || exists|i: int|
                    0 <= i < ids.len() && orders[#[trigger] ids[i]].order_hash.0@ == h
        }),
    decreases ids.len(),
{
    if ids.len() > 0 {
        let first = ids[0];
        let rest = ids.drop_first();
        let next = e.cancel(market, first, CancelReason::AdminForce);
        let orders = e.books[market].orders;
        let mid = next.books[market].orders;
        let after = cancelled_in_turn(e, market, ids);
        assert(mid == orders.insert(first, cancelled(orders[first], e.next as u64)));
        assert forall|i: int| 0 <= i < rest.len() implies mid.contains_key(#[trigger] rest[i]) && rest[i] != first
            && mid[rest[i]] == orders[rest[i]] by {
            assert(rest[i] == ids[i + 1]);
            assert(orders.contains_key(ids[i + 1]));
        }
        assert(rest.no_duplicates()) by {
            assert forall|i: int, j: int| 0 <= i < rest.len() && 0 <= j < rest.len() && i != j implies rest[i] != rest[j] by {
                assert(rest[i] == ids[i + 1] && rest[j] == ids[j + 1]);
            }
        }
        law_cancels_in_turn(next, market, rest, other);
        assert(next.log.len() == e.log.len() + 1);
        assert(next.books.dom() =~= e.books.dom());
        assert(mid.dom() =~= orders.dom());
        assert(e.log.is_prefix_of(next.log)) by {
            assert(next.log.take(e.log.len() as int) =~= e.log);
        }
        assert(next.log[e.log.len() as int] == (Entry {
            seq_id: e.next as u64,
            event: Event::OrderCancelled {
                order_id: orders[first].order_id,
                order_hash: orders[first].order_hash,
                reason: CancelReason::AdminForce,
            },
        }));
        assert(after.log[e.log.len() as int] == next.log[e.log.len() as int]);
        assert(e.log.is_prefix_of(after.log)) by {
            assert(after.log.take(e.log.len() as int) =~= e.log) by {
                assert(after.log.take(next.log.len() as int) == next.log);
                assert forall|k: int| 0 <= k < e.log.len() implies after.log[k] == e.log[k] by {
                    assert(after.log[k] == next.log[k]);
                    assert(next.log[k] == e.log[k]);
                }
            }
        }
        assert forall|i: int| 0 <= i < ids.len() implies #[trigger] after.log[e.log.len() + i] == (Entry {
            seq_id: (e.next + i) as u64,
            event: Event::OrderCancelled {
                order_id: orders[ids[i]].order_id,
                order_hash: orders[ids[i]].order_hash,
                reason: CancelReason::AdminForce,
            },
        }) by {
            if i > 0 {
                assert(rest[i - 1] == ids[i]);
                assert(after.log[next.log.len() + (i - 1)] == after.log[e.log.len() + i]);
            }
        }
        assert(!rest.contains(first)) by {
            if rest.contains(first) {
                let k = choose|k: int| 0 <= k < rest.len() && rest[k] == first;
                assert(ids[k + 1] == first);
            }
        }
        assert forall|i: int| 0 <= i < ids.len() implies after.books[market].orders[#[trigger] ids[i]] == (Order {
            status: OrderStatus::Cancelled,
            last_update_sequence: (e.next + i) as u64,
            ..orders[ids[i]]
        }) by {
            if i > 0 {
                assert(rest[i - 1] == ids[i]);
            }
        }
        assert forall|id: Seq<char>| !(#[trigger] ids.contains(id)) implies after.books[market].orders[id] == orders[id] by {
            assert(id != first) by {
                assert(ids[0] == first);
            }
            if rest.contains(id) {
                let k = choose|k: int| 0 <= k < rest.len() && rest[k] == id;
                assert(ids[k + 1] == id);
            }
        }
        assert forall|h: Seq<u8>| #[trigger] after.state.cancelled.contains_key(h) <==> e.state.cancelled.contains_key(h)
            || exists|i: int| 0 <= i < ids.len() && orders[#[trigger] ids[i]].order_hash.0@ == h by {
            if exists|i: int| 0 <= i < ids.len() && orders[#[trigger] ids[i]].order_hash.0@ == h {
                let i = choose|i: int| 0 <= i < ids.len() && orders[#[trigger] ids[i]].order_hash.0@ == h;
                if i > 0 {
                    assert(mid[rest[i - 1]].order_hash.0@ == h);
                }
            }
            if exists|i: int| 0 <= i < rest.len() && mid[#[trigger] rest[i]].order_hash.0@ == h {
                let i = choose|i: int| 0 <= i < rest.len() && mid[#[trigger] rest[i]].order_hash.0@ == h;
                assert(orders[ids[i + 1]].order_hash.0@ == h);
            }
            if next.state.cancelled.contains_key(h) && !e.state.cancelled.contains_key(h) {
                assert(orders[ids[0]].order_hash.0@ == h);
            }
        }
    } else {
        assert(e.log.is_prefix_of(e.log)) by {
            assert(e.log.take(e.log.len() as int) =~= e.log);
        }
    }
}

/// The event of a change of status names the market and who asked for it, and tells a
/// pause from a resumption.
pub proof fn law_status_event_tells(event: Event, market: Seq<char>, by: Seq<char>)
    ensures
        says_paused(event, market, by) <==> event is MarketPaused && (event->MarketPaused_market_id).0@ == market
            && (event->MarketPaused_triggered_by)@ == by,
        says_resumed(event, market, by) <==> event is MarketResumed && (event->MarketResumed_market_id).0@ == market
            && (event->MarketResumed_triggered_by)@ == by,
{
}

} // verus!
