//! What an engine holds, and what each operation makes of it.
use crate::crypto::hex_text;
use crate::db::{amount, filled_after, fills_fit, NonceError, StateModel};
use crate::domain::market::{aligned, MarketConfig, MarketStatus};
use crate::domain::order::{Fill, Order, OrderError, OrderHash, OrderId, OrderStatus, SignedOrder};
use crate::engine::matching::{matched, MatchState};
use crate::engine::orderbook::{own_ids, BookModel};
use crate::engine::EngineError;
use crate::events::{CancelReason, Event, SequencedEvent};
use crate::replay::{books_of, closed_in, walked, Outcome, ReplayError, Walk};
use crate::sequencer::{accepted_in, IdempotencyRecord};
use vstd::prelude::*;

verus! {

/// An entry of the log without its time stamp.
pub struct Entry {
    pub seq_id: u64,
    pub event: Event,
}

/// A log without its time stamps.
pub open spec fn entries(log: Seq<SequencedEvent>) -> Seq<Entry> {
    Seq::new(log.len(), |i: int| Entry { seq_id: log[i].seq_id, event: log[i].event })
}

/// What an engine holds. Time stamps of the log are left out: nothing depends
/// on them.
#[verifier::ext_equal]
pub struct EngineModel {
    /// The books, by market id.
    pub books: Map<Seq<char>, BookModel>,
    /// The markets, by market id.
    pub markets: Map<Seq<char>, MarketConfig>,
    /// The number of the next event.
    pub next: int,
    pub log: Seq<Entry>,
    /// The accepted submissions, by trader and client order id.
    pub accepted: Map<(Seq<char>, Seq<char>), IdempotencyRecord>,
    pub state: StateModel,
    /// The market of each order, by order id.
    pub index: Map<Seq<char>, Seq<char>>,
    /// Closed orders that are in no book, by id: those that were closed on intake,
    /// and after a restore every order that was closed before it.
    pub closed: Map<Seq<char>, Order>,
    /// The times that the clock can tell.
    pub times: Set<u64>,
}

/// `log` with `events` appended under the numbers from `next` on.
pub open spec fn appended(log: Seq<Entry>, next: int, events: Seq<Event>) -> Seq<Entry> {
    log + Seq::new(events.len(), |i: int| Entry { seq_id: (next + i) as u64, event: events[i] })
}

/// The state after `fills` are booked in turn.
pub open spec fn fills_booked(state: StateModel, fills: Seq<Fill>) -> StateModel {
    StateModel { filled: filled_after(state.filled, fills), ..state }
}

/// The order that is made of a submission on its acceptance as event `seq`.
pub open spec fn new_order(signed: SignedOrder, now: u64, hash: OrderHash, id: OrderId, seq: u64) -> Order {
    Order {
        order_id: id,
        client_order_id: signed.client_order_id,
        order_hash: hash,
        market_id: signed.market_id,
        trader_id: signed.trader_id,
        trader_pubkey: signed.trader_pubkey,
        side: signed.side,
        price_ticks: signed.price_ticks,
        orig_size_lots: signed.size_lots,
        filled_size_lots: 0,
        time_in_force: signed.time_in_force,
        nonce: signed.nonce,
        expiry_ts_ms: signed.expiry_ts_ms,
        status: OrderStatus::Open,
        created_sequence: seq,
        last_update_sequence: seq,
        accepted_at_ms: now,
    }
}

pub open spec fn fill_events(fills: Seq<Fill>) -> Seq<Event> {
    Seq::new(fills.len(), |i: int| Event::Fill(fills[i]))
}

pub open spec fn cancel_event(order: Order, reason: CancelReason) -> Event {
    Event::OrderCancelled { order_id: order.order_id, order_hash: order.order_hash, reason }
}

/// The event says that the submission `signed` was rejected for `e`.
pub open spec fn says_rejected(event: Event, signed: SignedOrder, e: EngineError) -> bool {
    event matches Event::OrderRejected { client_order_id, trader_id, reason } && client_order_id
        == signed.client_order_id && trader_id == signed.trader_id && reason@ == e.text()
}

/// An order cancelled by event `seq`.
pub open spec fn cancelled(order: Order, seq: u64) -> Order {
    Order { status: OrderStatus::Cancelled, last_update_sequence: seq, ..order }
}

/// The events of an acceptance: the order as it came in, its fills, and its
/// cancel where self-trade prevention stopped it.
pub open spec fn intake_events(order: Order, m: MatchState) -> Seq<Event> {
    seq![Event::OrderAccepted { order }] + fill_events(m.fills) + if m.taker.status
        == OrderStatus::CancelledStp {
        seq![cancel_event(order, CancelReason::SelfTradePrevention)]
    } else {
        Seq::empty()
    }
}

/// The state store after a match run.
pub open spec fn settled(state: StateModel, order: Order, m: MatchState) -> StateModel {
    let booked = fills_booked(state, m.fills);
    if m.taker.status == OrderStatus::CancelledStp {
        booked.cancel(order.order_hash.0@)
    } else {
        booked
    }
}

/// `order`, held under `id`, with the number of the last of `fills` that filled it.
/// The first of `fills` is event `first`.
pub open spec fn renumbered(order: Order, id: Seq<char>, fills: Seq<Fill>, first: int) -> Order
    decreases fills.len(),
{
    if fills.len() == 0 {
        order
    } else if fills.last().maker_order_id.key() == id {
        Order { last_update_sequence: (first + fills.len() - 1) as u64, ..order }
    } else {
        renumbered(order, id, fills.drop_last(), first)
    }
}

/// The orders of a book with the numbers of the fills that changed them.
pub open spec fn renumbered_orders(orders: Map<Seq<char>, Order>, fills: Seq<Fill>, first: int) -> Map<
    Seq<char>,
    Order,
> {
    Map::new(|id: Seq<char>| orders.contains_key(id), |id: Seq<char>| renumbered(orders[id], id, fills, first))
}

/// A match run with the numbers of its events: the acceptance is event `next`, the
/// fills follow it, and the cancel by self-trade prevention comes last. A resting
/// order was last changed by its fill, the taker by the last event.
pub open spec fn numbered(m: MatchState, next: int) -> MatchState {
    MatchState {
        book: BookModel { orders: renumbered_orders(m.book.orders, m.fills, next + 1), ..m.book },
        taker: Order {
            last_update_sequence: (next + m.fills.len() + if m.taker.status == OrderStatus::CancelledStp {
                1int
            } else {
                0
            }) as u64,
            ..m.taker
        },
        fills: m.fills,
    }
}

/// Something is left of the taker, and it comes to rest.
pub open spec fn rests(m: MatchState) -> bool {
    !m.taker.closed() && m.taker.remaining() > 0
}

/// The book after a match run: what is left of the taker rests in it.
pub open spec fn rested(m: MatchState) -> BookModel {
    if rests(m) {
        m.book.insert(m.taker)
    } else {
        m.book
    }
}

impl EngineModel {
    /// An engine without markets, whose clock can tell `times`.
    pub open spec fn empty(times: Set<u64>) -> EngineModel {
        EngineModel {
            books: Map::empty(),
            markets: Map::empty(),
            next: 1,
            log: Seq::empty(),
            accepted: Map::empty(),
            state: StateModel::empty(),
            index: Map::empty(),
            closed: Map::empty(),
            times,
        }
    }

    /// Every market is held under its own id and has a book; every order is held
    /// under its own id, and none in a book has more filled than was ordered; the
    /// orders in no book are closed; and the order of every submission that was
    /// accepted is there.
    pub open spec fn wf(self) -> bool {
        &&& 0 <= self.next <= u64::MAX
        &&& forall|m: Seq<char>| #[trigger] self.markets.contains_key(m) ==> self.markets[m].id.0@ == m
        &&& forall|m: Seq<char>| #[trigger] self.markets.contains_key(m) ==> self.books.contains_key(m)
        &&& forall|m: Seq<char>| #[trigger] self.books.contains_key(m) ==> self.books[m].sane() && own_ids(self.books[m].orders)
        &&& own_ids(self.closed)
        &&& forall|id: Seq<char>| #[trigger] self.closed.contains_key(id) ==> self.closed[id].closed()
        &&& forall|key: (Seq<char>, Seq<char>)| #[trigger]
            self.accepted.contains_key(key) ==> self.find(self.accepted[key].order_id.key()) is Some
    }

    /// The first reason to refuse a submission, from its fields, its signature
    /// and its market.
    pub open spec fn refusal(self, signed: SignedOrder, now: u64, verdict: Result<(), OrderError>) -> Option<
        OrderError,
    > {
        let market = signed.market_id.0@;
        match signed.fields_verdict(now) {
            Err(e) => Some(e),
            Ok(()) => match verdict {
                Err(e) => Some(e),
                Ok(()) => if signed.trader_id@ != hex_text(signed.trader_pubkey@) {
                    Some(OrderError::TraderIdMismatch)
                } else if !self.markets.contains_key(market) {
                    Some(OrderError::MarketNotFound(signed.market_id.0))
                } else if self.markets[market].status != MarketStatus::Active {
                    Some(OrderError::MarketNotActive(signed.market_id.0))
                } else if !aligned(signed.price_ticks, self.markets[market].tick_size) {
                    Some(
                        OrderError::InvalidTick {
                            price: signed.price_ticks,
                            tick_size: self.markets[market].tick_size,
                        },
                    )
                } else if !aligned(signed.size_lots, self.markets[market].lot_size) {
                    Some(
                        OrderError::InvalidLot {
                            size: signed.size_lots,
                            lot_size: self.markets[market].lot_size,
                        },
                    )
                } else {
                    None
                },
            },
        }
    }

    /// The key under which a submission is remembered.
    pub open spec fn submission(signed: SignedOrder) -> (Seq<char>, Seq<char>) {
        (signed.trader_id@, signed.client_order_id@)
    }

    /// The same submission was accepted before.
    pub open spec fn is_duplicate(self, signed: SignedOrder) -> bool {
        self.accepted.contains_key(Self::submission(signed))
    }

    /// The order `id` is in the book of its market.
    pub open spec fn in_book(self, id: Seq<char>) -> bool {
        &&& self.index.contains_key(id)
        &&& self.books.contains_key(self.index[id])
        &&& self.books[self.index[id]].orders.contains_key(id)
    }

    /// The order with this id: the one in the book of its market, or else the
    /// closed one that is in no book.
    pub open spec fn find(self, id: Seq<char>) -> Option<Order> {
        if self.in_book(id) {
            Some(self.books[self.index[id]].orders[id])
        } else if self.closed.contains_key(id) {
            Some(self.closed[id])
        } else {
            None
        }
    }

    /// The submission's nonce goes beyond the trader's last.
    pub open spec fn nonce_ok(self, signed: SignedOrder) -> bool {
        signed.nonce > amount(self.state.nonces, signed.trader_id@)
    }

    pub open spec fn nonce_error(self, signed: SignedOrder) -> NonceError {
        NonceError { last_nonce: amount(self.state.nonces, signed.trader_id@), submitted: signed.nonce }
    }

    /// Why a submission is rejected: for the first reason to refuse it, or, where it
    /// is new, for its nonce.
    pub open spec fn rejection(self, signed: SignedOrder, now: u64, verdict: Result<(), OrderError>) -> Option<
        EngineError,
    > {
        match self.refusal(signed, now, verdict) {
            Some(e) => Some(EngineError::Order(e)),
            None => if !self.is_duplicate(signed) && !self.nonce_ok(signed) {
                Some(EngineError::Nonce(self.nonce_error(signed)))
            } else {
                None
            },
        }
    }

    /// The submission passes every check and is new.
    pub open spec fn admits(self, signed: SignedOrder, now: u64, verdict: Result<(), OrderError>) -> bool {
        self.refusal(signed, now, verdict) is None && !self.is_duplicate(signed) && self.nonce_ok(signed)
    }

    /// What matching an accepted submission comes to.
    pub open spec fn run(self, signed: SignedOrder, now: u64, hash: OrderHash, id: OrderId) -> MatchState {
        let seq = self.next as u64;
        matched(self.books[signed.market_id.0@], new_order(signed, now, hash, id, seq), seq, now)
    }

    /// What the intake of an accepted submission comes to.
    pub open spec fn intake(self, signed: SignedOrder, now: u64, hash: OrderHash, id: OrderId) -> MatchState {
        numbered(self.run(signed, now, hash, id), self.next)
    }

    /// An accepted order at the end of its intake.
    pub open spec fn outcome(self, signed: SignedOrder, now: u64, hash: OrderHash, id: OrderId) -> Order {
        self.intake(signed, now, hash, id).taker
    }

    /// The engine after an acceptance. What is left of the order rests in the book
    /// of its market; where nothing is, the order is kept among the closed ones.
    pub open spec fn accept(self, signed: SignedOrder, now: u64, hash: OrderHash, id: OrderId) -> EngineModel {
        let seq = self.next as u64;
        let market = signed.market_id.0@;
        let order = new_order(signed, now, hash, id, seq);
        let m = self.intake(signed, now, hash, id);
        let events = intake_events(order, m);
        EngineModel {
            books: self.books.insert(market, rested(m)),
            next: self.next + events.len(),
            log: appended(self.log, self.next, events),
            accepted: self.accepted.insert(
                Self::submission(signed),
                IdempotencyRecord { original_seq_id: seq, order_id: id, order_hash: hash, accepted_at_ms: now },
            ),
            state: settled(self.state.with_nonce(signed.trader_id@, signed.nonce), order, m),
            index: self.index.insert(id.key(), market),
            closed: if rests(m) {
                self.closed
            } else {
                self.closed.insert(id.key(), self.outcome(signed, now, hash, id))
            },
            ..self
        }
    }

    /// The sequence numbers and the filled quantities of an acceptance fit in
    /// 64 bits.
    pub open spec fn accept_fits(self, signed: SignedOrder, now: u64, hash: OrderHash, id: OrderId) -> bool {
        &&& self.accept(signed, now, hash, id).next <= u64::MAX
        &&& fills_fit(self.state.filled, self.run(signed, now, hash, id).fills)
    }

    /// The numbers and the quantities of a submission fit in 64 bits: those of its
    /// acceptance, or the number of its rejection.
    pub open spec fn submit_fits(
        self,
        signed: SignedOrder,
        now: u64,
        verdict: Result<(), OrderError>,
        hash: OrderHash,
        id: OrderId,
    ) -> bool {
        &&& self.rejection(signed, now, verdict) is Some ==> self.next < u64::MAX
        &&& self.admits(signed, now, verdict) ==> self.accept_fits(signed, now, hash, id)
    }

    /// A submission fits, whatever time and id the engine gives it.
    pub open spec fn has_room(self, signed: SignedOrder) -> bool {
        forall|now: u64, hash: OrderHash, id: OrderId|
            hash.0@ == signed.hash() ==> #[trigger] self.submit_fits(
                signed,
                now,
                signed.signature_verdict(),
                hash,
                id,
            )
    }

    /// `after` is the engine after a submission. One that is rejected is put into the
    /// log as such and changes nothing else; one that was accepted before changes
    /// nothing.
    pub open spec fn submits(
        self,
        signed: SignedOrder,
        now: u64,
        verdict: Result<(), OrderError>,
        hash: OrderHash,
        id: OrderId,
        after: EngineModel,
    ) -> bool {
        match self.rejection(signed, now, verdict) {
            Some(e) => exists|event: Event| #[trigger] says_rejected(event, signed, e) && after == self.record(event),
            None => after == if self.is_duplicate(signed) {
                self
            } else {
                self.accept(signed, now, hash, id)
            },
        }
    }

    /// A cancel of `id` by `trader` finds an open order of theirs.
    pub open spec fn cancels(self, id: Seq<char>, trader: Seq<char>) -> bool {
        self.find(id) matches Some(order) && order.trader_id@ == trader && !order.closed()
    }

    /// An event that concerns no order is appended.
    pub open spec fn record(self, event: Event) -> EngineModel {
        EngineModel { next: self.next + 1, log: appended(self.log, self.next, seq![event]), ..self }
    }

    /// The open order `id` of `market` is cancelled by the next event.
    pub open spec fn cancel(self, market: Seq<char>, id: Seq<char>, reason: CancelReason) -> EngineModel {
        let order = self.books[market].orders[id];
        EngineModel {
            books: self.books.insert(market, self.books[market].close_as(id, cancelled(order, self.next as u64))),
            state: self.state.cancel(order.order_hash.0@),
            ..self.record(
                Event::OrderCancelled { order_id: order.order_id, order_hash: order.order_hash, reason },
            )
        }
    }

    /// A market is registered, or its configuration replaced.
    pub open spec fn with_market(self, config: MarketConfig) -> EngineModel {
        let id = config.id.0@;
        EngineModel {
            markets: self.markets.insert(id, config),
            books: if self.books.contains_key(id) {
                self.books
            } else {
                self.books.insert(id, BookModel::empty())
            },
            ..self
        }
    }
}

/// The market of each order that a log accepts, by order id.
pub open spec fn index_in(log: Seq<Entry>) -> Map<Seq<char>, Seq<char>>
    decreases log.len(),
{
    if log.len() == 0 {
        Map::empty()
    } else {
        let before = index_in(log.drop_last());
        match log.last().event {
            Event::OrderAccepted { order } => before.insert(order.order_id.key(), order.market_id.0@),
            _ => before,
        }
    }
}

/// Every order of a log was accepted with no more filled than was ordered.
pub open spec fn accepts_sane(log: Seq<Entry>) -> bool {
    forall|i: int|
        0 <= i < log.len() ==> ((#[trigger] log[i]).event matches Event::OrderAccepted { order }
            ==> order.within_size())
}

/// `books`, and an empty book for each market that has none.
pub open spec fn with_empty_books(
    books: Map<Seq<char>, BookModel>,
    markets: Map<Seq<char>, MarketConfig>,
) -> Map<Seq<char>, BookModel> {
    Map::new(
        |m: Seq<char>| books.contains_key(m) || markets.contains_key(m),
        |m: Seq<char>|
            if books.contains_key(m) {
                books[m]
            } else {
                BookModel::empty()
            },
    )
}

/// `after` is what an engine like `before` becomes by taking over a log that
/// ends in the walk `w`. Markets stay as they are, and each keeps a book.
pub open spec fn takes_over(before: EngineModel, log: Seq<SequencedEvent>, w: Walk, after: EngineModel) -> bool {
    &&& after.markets == before.markets
    &&& after.times == before.times
    &&& after.next == log.last().seq_id + 1
    &&& after.log == entries(log)
    &&& after.accepted == accepted_in(log)
    &&& after.state == w.state
    &&& after.index == index_in(entries(log))
    &&& after.closed == closed_in(w.orders)
    &&& exists|books: Map<Seq<char>, BookModel>| #[trigger]
        books_of(w.orders, books) && after.books == with_empty_books(books, before.markets)
}

/// The outcome of restoring an engine from `log`.
pub open spec fn restores(
    before: EngineModel,
    log: Seq<SequencedEvent>,
    after: EngineModel,
    r: Result<(), ReplayError>,
) -> bool {
    if log.len() == 0 {
        r is Ok && after == before
    } else {
        match walked(entries(log)) {
            Outcome::Done(w) => r is Ok && takes_over(before, log, w, after),
            Outcome::Failed(e) => r == Err::<(), ReplayError>(e) && after == before,
            Outcome::Overflow => false,
        }
    }
}

/// The numbers and quantities of restoring from `log` fit in 64 bits.
pub open spec fn restore_fits(log: Seq<SequencedEvent>) -> bool {
    &&& !(walked(entries(log)) is Overflow)
    &&& log.len() > 0 && walked(entries(log)) is Done ==> log.last().seq_id < u64::MAX
}

/// The fills of `market` in a log, from sequence number `from` on, oldest first.
pub open spec fn fills_in(log: Seq<Entry>, market: Seq<char>, from: u64) -> Seq<Fill>
    decreases log.len(),
{
    if log.len() == 0 {
        Seq::empty()
    } else {
        let before = fills_in(log.drop_last(), market, from);
        match log.last().event {
            Event::Fill(fill) => if log.last().seq_id >= from && fill.market_id.0@ == market {
                before.push(fill)
            } else {
                before
            },
            _ => before,
        }
    }
}

/// The first `limit` of `s`; all of it for a limit of 0.
pub open spec fn capped<T>(s: Seq<T>, limit: usize) -> Seq<T> {
    if limit == 0 || s.len() <= limit {
        s
    } else {
        s.take(limit as int)
    }
}

} // verus!
