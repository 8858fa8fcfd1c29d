//! The engine: the single entry point for everything that changes state.
//!
//! A submission goes through these steps:
//!
//!  1. its fields are checked without any state,
//!  2. its signature is verified,
//!  3. its trader id has to be the notation of its public key,
//!  4. its market has to exist and be active,
//!  5. price and size have to be multiples of tick and lot size,
//!  6. a submission that was accepted before gets the same answer again,
//!  7. its nonce has to go beyond the trader's last one.
//!
//! One that fails a step is put into the log as rejected, and changes nothing else.
//! For one that passes them all
//!
//!  8. its acceptance is put into the log,
//!  9. it is matched,
//! 10. its fills are put into the log and booked,
//! 11. where self-trade prevention stopped it, its cancel is put into the log,
//! 12. what is left of it rests in the book; where nothing is, the order is kept
//!     among the closed ones.
use crate::clock::{Clock, Held, SystemClock};
use crate::crypto::{hex_encode, random_id, uuid_form};
use crate::db::{amount, fills_fit, next_fits, NonceError, StateModel, StateStore};
use crate::domain::market::MarketConfig;
use crate::domain::order::{Fill, Order, OrderError, OrderHash, OrderId, OrderStatus, Side, SignedOrder};
use crate::engine::laws::lemma_renumbered;
use crate::engine::intake::{law_accept_keeps_wf, law_cancel_keeps_wf, law_market_keeps_wf};
use crate::engine::markets::{law_markets_listed_once, listing, lists};
use crate::engine::matching::{best_first, match_order, opposite};
use crate::engine::model::{accepts_sane, appended, cancel_event, cancelled, capped, entries, fill_events, fills_booked, fills_in, index_in, intake_events, new_order, numbered, renumbered_orders, rested, restore_fits, restores, says_rejected, settled, takes_over, with_empty_books, EngineModel, Entry};
use crate::engine::orderbook::{ids, is_best_ask, is_best_bid, lemma_oldest_first, oldest_first, open_ages, rows, rows_fit, top, BookModel, OrderBook, PriceLevel};
use crate::engine::recovery::law_restore_keeps_wf;
use crate::engine::room::{accounts_have_room, comfortable, events_have_room, law_comfortable_fits, law_fit_is_timeless, lemma_admitted_early, lemma_waiting_nonnegative, waiting};
use crate::events::{CancelReason, Event, SequencedEvent};
use crate::keys::same_text;
use crate::ordmap::{lemma_take_one_more, MapKey, OrdMap, Rank};
use crate::replay::{book_models, books_of, lemma_walk_within_size, try_replay, walked, ReplayError};
use crate::sequencer::Sequencer;
use vstd::prelude::*;
use vstd::string::StringExecFns;

pub mod books;
pub mod intake;
pub mod laws;
pub mod listings;
pub mod markets;
pub mod matching;
pub mod model;
pub mod orderbook;
pub mod priority;
pub mod queues;
pub mod recovery;
pub mod room;
pub mod runs;
pub mod submissions;
pub mod tidy;
pub mod told;

verus! {

/// The answer to an accepted submission.
#[derive(Debug)]
pub struct OrderResult {
    pub order_id: OrderId,
    pub order_hash: OrderHash,
    /// The number of the acceptance in the log.
    pub seq_id: u64,
    /// The fills made on intake.
    pub fills: Vec<Fill>,
    /// The status of the order after the call.
    pub final_status: OrderStatus,
    /// The submission was accepted before, and nothing changed.
    pub is_duplicate: bool,
}

/// The answer to a cancel.
#[derive(Debug)]
pub struct CancelResult {
    pub order_id: OrderId,
    /// The number of the cancel in the log, if this call cancelled the order.
    pub seq_id: Option<u64>,
    /// The order was filled or cancelled before.
    pub was_already_closed: bool,
}

/// Why a cancel was refused.
#[derive(Debug)]
pub enum CancelError {
    NotFound(String),
    Unauthorized(String),
}

impl CancelError {
    /// The text of [`CancelError::message`].
    pub open spec fn text(&self) -> Seq<char> {
        match self {
            CancelError::NotFound(id) => "order not found: "@ + id@,
            CancelError::Unauthorized(trader) => "trader '"@ + trader@ + "' does not own this order"@,
        }
    }

    /// The error in words.
    pub fn message(&self) -> (s: String)
        ensures
            s@ == self.text(),
    {
        match self {
            CancelError::NotFound(id) => {
                let mut s = "order not found: ".to_owned();
                s.append(id.as_str());
                s
            },
            CancelError::Unauthorized(trader) => {
                let mut s = "trader '".to_owned();
                s.append(trader.as_str());
                s.append("' does not own this order");
                s
            },
        }
    }
}

/// Why a submission was refused.
#[derive(Debug)]
pub enum EngineError {
    Order(OrderError),
    Nonce(NonceError),
}

impl EngineError {
    /// The text of [`EngineError::message`].
    pub open spec fn text(&self) -> Seq<char> {
        match self {
            EngineError::Order(e) => "order validation failed: "@ + e.text(),
            EngineError::Nonce(e) => "nonce rejected: "@ + e.text(),
        }
    }

    /// The error in words.
    pub fn message(&self) -> (s: String)
        ensures
            s@ == self.text(),
    {
        match self {
            EngineError::Order(e) => {
                let mut s = "order validation failed: ".to_owned();
                s.append(e.message().as_str());
                s
            },
            EngineError::Nonce(e) => {
                let mut s = "nonce rejected: ".to_owned();
                s.append(e.message().as_str());
                s
            },
        }
    }
}

/// The markets, their books, the log and the state store.
pub struct Engine {
    books: OrdMap<str, OrderBook>,
    markets: OrdMap<str, MarketConfig>,
    pub sequencer: Sequencer,
    pub state: StateStore,
    order_market_index: OrdMap<str, String>,
    /// Closed orders that are in no book.
    closed_orders: OrdMap<str, Order>,
    clock: Held<Box<dyn Clock>>,
}

spec fn index_of(index: Map<Seq<char>, String>) -> Map<Seq<char>, Seq<char>> {
    Map::new(|id: Seq<char>| index.contains_key(id), |id: Seq<char>| index[id]@)
}

impl View for Engine {
    type V = EngineModel;

    closed spec fn view(&self) -> EngineModel {
        EngineModel {
            books: book_models(self.books@),
            markets: self.markets@,
            next: self.sequencer@.next as int,
            log: entries(self.sequencer@.log),
            accepted: self.sequencer@.accepted,
            state: self.state@,
            index: index_of(self.order_market_index@),
            closed: self.closed_orders@,
            times: Set::new(|now: u64| self.clock.0.tells(now)),
        }
    }
}

/// What is answered to a submission, and what becomes of the engine.
pub open spec fn answers(
    before: EngineModel,
    signed: SignedOrder,
    now: u64,
    verdict: Result<(), OrderError>,
    hash: OrderHash,
    id: OrderId,
    after: EngineModel,
    r: Result<OrderResult, EngineError>,
) -> bool {
    &&& before.submits(signed, now, verdict, hash, id, after)
    &&& match before.refusal(signed, now, verdict) {
        Some(e) => r == Err::<OrderResult, EngineError>(EngineError::Order(e)),
        None => if before.is_duplicate(signed) {
            let record = before.accepted[EngineModel::submission(signed)];
            r matches Ok(answer) && {
                &&& answer.order_id == record.order_id
                &&& answer.order_hash == record.order_hash
                &&& answer.seq_id == record.original_seq_id
                &&& answer.fills@.len() == 0
                &&& before.find(record.order_id.key()) matches Some(order) && answer.final_status == order.status
                &&& answer.is_duplicate
            }
        } else if !before.nonce_ok(signed) {
            r == Err::<OrderResult, EngineError>(EngineError::Nonce(before.nonce_error(signed)))
        } else {
            let m = before.run(signed, now, hash, id);
            r matches Ok(answer) && {
                &&& answer.order_id == id
                &&& answer.order_hash == hash
                &&& answer.seq_id == before.next
                &&& answer.fills@ == m.fills
                &&& answer.final_status == m.taker.status
                &&& !answer.is_duplicate
            }
        },
    }
}

/// The order that is made of a submission on its acceptance.
fn order_of(signed: &SignedOrder, now_ms: u64, order_hash: OrderHash, order_id: OrderId, seq_id: u64) -> (order: Order)
    ensures
        order == new_order(*signed, now_ms, order_hash, order_id, seq_id),
{
    Order {
        order_id,
        client_order_id: signed.client_order_id.clone(),
        order_hash,
        market_id: signed.market_id.clone(),
        trader_id: signed.trader_id.clone(),
        trader_pubkey: signed.trader_pubkey,
        side: signed.side,
        price_ticks: signed.price_ticks,
        orig_size_lots: signed.size_lots,
        filled_size_lots: 0,
        time_in_force: signed.time_in_force,
        nonce: signed.nonce,
        expiry_ts_ms: signed.expiry_ts_ms,
        status: OrderStatus::Open,
        created_sequence: seq_id,
        last_update_sequence: seq_id,
        accepted_at_ms: now_ms,
    }
}

/// Append one event to a log.
fn append(sequencer: &mut Sequencer, event: Event)
    requires
        old(sequencer)@.next < u64::MAX,
    ensures
        final(sequencer)@.next == old(sequencer)@.next + 1,
        entries(final(sequencer)@.log) == appended(
            entries(old(sequencer)@.log),
            old(sequencer)@.next as int,
            seq![event],
        ),
        final(sequencer)@.accepted == old(sequencer)@.accepted,
        old(sequencer)@.log.is_prefix_of(final(sequencer)@.log),
{
    sequencer.append_event(event);
    proof {
        assert(entries(sequencer@.log) =~= appended(
            entries(old(sequencer)@.log),
            old(sequencer)@.next as int,
            seq![event],
        ));
    }
}

proof fn lemma_append_append(log: Seq<Entry>, next: int, a: Seq<Event>, b: Seq<Event>)
    ensures
        appended(appended(log, next, a), next + a.len(), b) == appended(log, next, a + b),
{
    assert(appended(appended(log, next, a), next + a.len(), b) =~= appended(log, next, a + b));
}

proof fn lemma_fill_appended(log: Seq<Entry>, next: int, fills: Seq<Fill>, state: StateModel, i: int)
    requires
        0 <= i < fills.len(),
    ensures
        appended(
            appended(log, next, fill_events(fills.take(i))),
            next + i,
            seq![Event::Fill(fills[i])],
        ) == appended(log, next, fill_events(fills.take(i + 1))),
        fills_booked(state, fills.take(i + 1)) == fills_booked(state, fills.take(i)).fill(
            fills[i].taker_order_hash.0@,
            fills[i].maker_order_hash.0@,
            fills[i].size_lots,
        ),
{
    let done = fills.take(i);
    let more = fills.take(i + 1);
    assert(more.drop_last() =~= done);
    assert(more.last() == fills[i]);
    lemma_append_append(log, next, fill_events(done), seq![Event::Fill(fills[i])]);
    assert(fill_events(more) =~= fill_events(done) + seq![Event::Fill(fills[i])]);
}

/// Put fills into the log and book them.
#[verifier::rlimit(40)]
fn record_fills(sequencer: &mut Sequencer, state: &mut StateStore, fills: &Vec<Fill>)
    requires
        old(sequencer)@.next + fills@.len() <= u64::MAX,
        fills_fit(old(state)@.filled, fills@),
    ensures
        final(sequencer)@.next == old(sequencer)@.next + fills@.len(),
        entries(final(sequencer)@.log) == appended(
            entries(old(sequencer)@.log),
            old(sequencer)@.next as int,
            fill_events(fills@),
        ),
        final(sequencer)@.accepted == old(sequencer)@.accepted,
        old(sequencer)@.log.is_prefix_of(final(sequencer)@.log),
        final(state)@ == fills_booked(old(state)@, fills@),
{
    let ghost log = entries(sequencer@.log);
    let ghost next = sequencer@.next as int;
    let mut i: usize = 0;
    proof {
        assert(fill_events(fills@.take(0)) =~= Seq::<Event>::empty());
        assert(appended(log, next, Seq::<Event>::empty()) =~= log);
        assert(fills@.take(0) =~= Seq::<Fill>::empty());
    }
    while i < fills.len()
        invariant
            i <= fills@.len(),
            next == old(sequencer)@.next,
            log == entries(old(sequencer)@.log),
            next + fills@.len() <= u64::MAX,
            fills_fit(old(state)@.filled, fills@),
            sequencer@.next == next + i,
            entries(sequencer@.log) == appended(log, next, fill_events(fills@.take(i as int))),
            sequencer@.accepted == old(sequencer)@.accepted,
            old(sequencer)@.log.is_prefix_of(sequencer@.log),
            state@ == fills_booked(old(state)@, fills@.take(i as int)),
        decreases fills@.len() - i,
    {
        let fill = &fills[i];
        assert(next_fits(old(state)@.filled, fills@, i as int));
        append(sequencer, Event::Fill(fill.clone()));
        state.apply_fill(fill.taker_order_hash.0, fill.maker_order_hash.0, fill.size_lots);
        proof {
            lemma_fill_appended(log, next, fills@, old(state)@, i as int);
        }
        i = i + 1;
    }
    proof {
        assert(fills@.take(i as int) =~= fills@);
    }
}

/// Give the resting orders of `fills` the numbers of their fills, of which the first
/// is `first`.
fn number_fills(book: &mut OrderBook, fills: &Vec<Fill>, first: u64)
    requires
        first + fills@.len() <= u64::MAX,
    ensures
        final(book)@ == (BookModel {
            orders: renumbered_orders(old(book)@.orders, fills@, first as int),
            ..old(book)@
        }),
{
    let mut i: usize = 0;
    proof {
        assert(fills@.take(0) =~= Seq::<Fill>::empty());
        assert(book@.orders =~= renumbered_orders(old(book)@.orders, fills@.take(0), first as int));
    }
    while i < fills.len()
        invariant
            i <= fills@.len(),
            first + fills@.len() <= u64::MAX,
            book@ == (BookModel {
                orders: renumbered_orders(old(book)@.orders, fills@.take(i as int), first as int),
                ..old(book)@
            }),
        decreases fills@.len() - i,
    {
        let ghost before = book@.orders;
        let ghost maker = fills@[i as int].maker_order_id.key();
        match book.get_mut(&fills[i].maker_order_id) {
            Some(order) => {
                order.last_update_sequence = first + i as u64;
            },
            None => {},
        }
        proof {
            let more = fills@.take(i + 1);
            assert(more.drop_last() =~= fills@.take(i as int));
            assert(more.last() == fills@[i as int]);
            if old(book)@.orders.contains_key(maker) {
                lemma_renumbered(old(book)@.orders[maker], maker, fills@.take(i as int), first as int);
            }
            assert(book@.orders =~= renumbered_orders(old(book)@.orders, more, first as int));
        }
        i = i + 1;
    }
    proof {
        assert(fills@.take(i as int) =~= fills@);
    }
}

/// `book` shows `bids` and `asks` at `depth`. It has finitely many prices.
pub open spec fn shows_depth(book: BookModel, depth: usize, bids: Seq<PriceLevel>, asks: Seq<PriceLevel>) -> bool {
    &&& book.bids.dom().finite()
    &&& book.asks.dom().finite()
    &&& bids == rows(book.orders, book.bids, top(book.bid_prices(), depth))
    &&& asks == rows(book.orders, book.asks, top(book.ask_prices(), depth))
}

/// The sums that `book` shows at `depth` fit in 64 bits.
pub open spec fn depth_fits(book: BookModel, depth: usize) -> bool {
    &&& rows_fit(book.orders, book.bids, top(book.bid_prices(), depth))
    &&& rows_fit(book.orders, book.asks, top(book.ask_prices(), depth))
}

proof fn lemma_fills_grow(log: Seq<Entry>, market: Seq<char>, from: u64, i: int)
    requires
        0 <= i <= log.len(),
    ensures
        fills_in(log.take(i), market, from).is_prefix_of(fills_in(log, market, from)),
    decreases log.len() - i,
{
    if i < log.len() {
        assert(log.take(i + 1).drop_last() =~= log.take(i));
        lemma_fills_grow(log, market, from, i + 1);
        assert(fills_in(log.take(i), market, from).is_prefix_of(fills_in(log.take(i + 1), market, from)));
    } else {
        assert(log.take(i) =~= log);
    }
}

/// Add an empty book for each market that has none.
fn with_books(books: OrdMap<str, OrderBook>, markets: &OrdMap<str, MarketConfig>) -> (all: OrdMap<str, OrderBook>)
    ensures
        book_models(all@) == with_empty_books(book_models(books@), markets@),
{
    let ghost start = book_models(books@);
    let mut all = books;
    let n: usize = markets.len();
    let ghost keys = markets.order();
    let mut i: usize = 0;
    while i < n
        invariant
            i <= n,
            n == keys.len(),
            keys == markets.order(),
            keys.to_set() == markets@.dom(),
            forall|m: Seq<char>| #[trigger] book_models(all@).contains_key(m) <==> start.contains_key(m)
                || keys.take(i as int).contains(m),
            forall|m: Seq<char>| #[trigger] book_models(all@).contains_key(m) ==> book_models(all@)[m]
                == (if start.contains_key(m) {
                start[m]
            } else {
                BookModel::empty()
            }),
        decreases n - i,
    {
        let key = markets.key_at(i);
        let ghost before = book_models(all@);
        if !all.contains_key(key) {
            all.insert(key.to_owned(), OrderBook::new());
        }
        proof {
            lemma_take_one_more(keys, i as int);
            assert forall|m: Seq<char>| #[trigger] book_models(all@).contains_key(m) <==> before.contains_key(m)
                || m == key@ by {
            }
        }
        i = i + 1;
    }
    proof {
        assert(keys.take(i as int) =~= keys);
        assert forall|m: Seq<char>| keys.contains(m) <==> markets@.contains_key(m) by {
            assert(keys.to_set().contains(m) <==> markets@.dom().contains(m));
        }
        assert(book_models(all@) =~= with_empty_books(start, markets@));
    }
    all
}

/// The market of each order that a log accepts.
fn build_index(events: &[SequencedEvent]) -> (index: OrdMap<str, String>)
    ensures
        index_of(index@) == index_in(entries(events@)),
{
    let mut index: OrdMap<str, String> = OrdMap::new();
    let ghost log = entries(events@);
    let mut i: usize = 0;
    proof {
        assert(log.take(0) =~= Seq::<Entry>::empty());
        assert(index_of(index@) =~= Map::<Seq<char>, Seq<char>>::empty());
    }
    while i < events.len()
        invariant
            i <= events@.len(),
            log == entries(events@),
            index_of(index@) == index_in(log.take(i as int)),
        decreases events@.len() - i,
    {
        let se = &events[i];
        let ghost before = index_of(index@);
        proof {
            let next = log.take(i + 1);
            assert(next.drop_last() =~= log.take(i as int));
            assert(next.last() == Entry { seq_id: se.seq_id, event: se.event });
        }
        match &se.event {
            Event::OrderAccepted { order } => {
                index.insert(order.order_id.0.clone(), order.market_id.0.clone());
                proof {
                    assert(index_of(index@) =~= before.insert(order.order_id.key(), order.market_id.0@));
                }
            },
            _ => {},
        }
        i = i + 1;
    }
    proof {
        assert(log.take(i as int) =~= log);
    }
    index
}

/// Whether there is room for the events that a taker of `side` can cause.
fn room_for_events(next: u64, book: &OrderBook, side: Side) -> (b: bool)
    ensures
        b == events_have_room(next as int, book@, side),
{
    let prices = match side {
        Side::Buy => book.ask_prices_asc(),
        Side::Sell => book.bid_prices_desc(),
    };
    let other = match side {
        Side::Buy => Side::Sell,
        Side::Sell => Side::Buy,
    };
    if next > u64::MAX - 2 {
        proof {
            lemma_waiting_nonnegative(book@.levels(other), prices@);
        }
        return false;
    }
    let mut room: u64 = u64::MAX - 2 - next;
    let mut i: usize = 0;
    proof {
        assert(prices@.skip(0) =~= prices@);
    }
    while i < prices.len()
        invariant
            i <= prices@.len(),
            other == opposite(side),
            prices@ == best_first(book@, side),
            next + 2 + waiting(book@.levels(other), prices@) == u64::MAX - room + waiting(
                book@.levels(other),
                prices@.skip(i as int),
            ),
        decreases prices@.len() - i,
    {
        let n: usize = book.queue_len(prices[i], other);
        proof {
            assert(prices@.skip(i as int)[0] == prices@[i as int]);
            assert(prices@.skip(i as int).drop_first() =~= prices@.skip(i + 1));
        }
        if n as u64 > room {
            proof {
                lemma_waiting_nonnegative(book@.levels(other), prices@.skip(i + 1));
            }
            return false;
        }
        room = room - n as u64;
        i = i + 1;
    }
    true
}

/// Whether there is room to book `size` under `hash` and under the hash of any
/// open order.
fn room_in_accounts(state: &StateStore, book: &OrderBook, hash: &OrderHash, size: u64) -> (b: bool)
    ensures
        b == accounts_have_room(state@.filled, book@, hash.0@, size),
{
    if state.filled_amount(&hash.0) > u64::MAX - size {
        return false;
    }
    let open = book.open_orders();
    let ghost list = ids(open@);
    proof {
        lemma_oldest_first(book@.orders);
    }
    let mut i: usize = 0;
    while i < open.len()
        invariant
            i <= open@.len(),
            list == ids(open@),
            forall|id: Seq<char>| #[trigger] list.contains(id) <==> book@.is_open(id),
            amount(state@.filled, hash.0@) + size <= u64::MAX,
            forall|j: int|
                0 <= j < i ==> book@.orders[#[trigger] list[j]].order_hash.0@ != hash.0@ && amount(
                    state@.filled,
                    book@.orders[list[j]].order_hash.0@,
                ) + size <= u64::MAX,
        decreases open@.len() - i,
    {
        proof {
            assert(list[i as int] == open@[i as int].key());
            assert(list.contains(list[i as int]));
            assert(book@.is_open(list[i as int]));
        }
        match book.get(&open[i]) {
            Some(order) => {
                let same: bool = match order.order_hash.0.rank(&hash.0) {
                    Rank::Same => true,
                    _ => false,
                };
                if same || state.filled_amount(&order.order_hash.0) > u64::MAX - size {
                    return false;
                }
            },
            None => {},
        }
        i = i + 1;
    }
    proof {
        assert forall|id: Seq<char>| #[trigger] book@.is_open(id) implies book@.orders[id].order_hash.0@ != hash.0@
            && amount(state@.filled, book@.orders[id].order_hash.0@) + size <= u64::MAX by {
            assert(list.contains(id));
            let j = choose|j: int| 0 <= j < list.len() && list[j] == id;
            assert(book@.orders[list[j]].order_hash.0@ != hash.0@);
        }
    }
    true
}

/// What is answered to a cancel, and what becomes of the engine.
pub open spec fn cancel_answers(
    before: EngineModel,
    order_id: OrderId,
    trader: Seq<char>,
    after: EngineModel,
    r: Result<CancelResult, CancelError>,
) -> bool {
    let id = order_id.key();
    match before.find(id) {
        None => {
            &&& r == Err::<CancelResult, CancelError>(CancelError::NotFound(order_id.0))
            &&& after == before
        },
        Some(order) => if order.trader_id@ != trader {
            &&& r matches Err(CancelError::Unauthorized(who)) && who@ == trader
            &&& after == before
        } else if order.closed() {
            &&& r == Ok::<CancelResult, CancelError>(
                CancelResult { order_id, seq_id: None, was_already_closed: true },
            )
            &&& after == before
        } else {
            &&& r == Ok::<CancelResult, CancelError>(
                CancelResult {
                    order_id,
                    seq_id: Some(before.next as u64),
                    was_already_closed: false,
                },
            )
            &&& after == before.cancel(before.index[id], id, CancelReason::TraderRequest)
        },
    }
}

impl Default for Engine {
    fn default() -> (e: Engine)
        ensures
            e@ == EngineModel::empty(Set::full()),
    {
        Engine::new()
    }
}

impl Engine {
    /// See [`EngineModel::wf`].
    pub open spec fn wf(&self) -> bool {
        self@.wf()
    }

    /// An engine without markets that goes by the system time, which can be any.
    pub fn new() -> (e: Engine)
        ensures
            e@ == EngineModel::empty(Set::full()),
            e.wf(),
    {
        let e = Engine::with_clock(Box::new(SystemClock));
        proof {
            assert(e@.times =~= Set::full());
        }
        e
    }

    /// An engine without markets that goes by `clock`: the times it will go by are
    /// those that `clock` can tell.
    pub fn with_clock(clock: Box<dyn Clock>) -> (e: Engine)
        ensures
            e@ == EngineModel::empty(Set::new(|now: u64| clock.tells(now))),
            e.wf(),
    {
        let ghost times = Set::new(|now: u64| clock.tells(now));
        let clock = Held(clock);
        let e = Engine {
            books: OrdMap::new(),
            markets: OrdMap::new(),
            sequencer: Sequencer::new(),
            state: StateStore::new(),
            order_market_index: OrdMap::new(),
            closed_orders: OrdMap::new(),
            clock,
        };
        proof {
            assert(e@.times =~= times);
            assert(e@ =~= EngineModel::empty(times));
        }
        e
    }

    /// Register a market, or replace its configuration.
    pub fn add_market(&mut self, config: MarketConfig)
        ensures
            final(self)@ == old(self)@.with_market(config),
            old(self).wf() ==> final(self).wf(),
            old(self).history().is_prefix_of(final(self).history()),
    {
        let ghost before = self@;
        let id = config.id.0.clone();
        if !self.books.contains_key(id.as_str()) {
            self.books.insert(id.clone(), OrderBook::new());
        }
        self.markets.insert(id, config);
        proof {
            assert(self@.books =~= before.with_market(config).books);
            if before.wf() {
                law_market_keeps_wf(before, config);
            }
        }
    }

    /// Submit an order.
    ///
    /// The time is what the clock tells and the order's id is random, so the
    /// answer is one of those for some time of the clock and some id. For a given time and
    /// id see [`Engine::process_order_at`].
    pub fn process_order(&mut self, signed: SignedOrder) -> (r: Result<OrderResult, EngineError>)
        requires
            old(self).wf(),
            old(self)@.has_room(signed),
        ensures
            exists|now: u64, hash: OrderHash, id: OrderId|
                old(self)@.times.contains(now) && hash.0@ == signed.hash() && uuid_form(id.key()) && #[trigger] answers(
                    old(self)@,
                    signed,
                    now,
                    signed.signature_verdict(),
                    hash,
                    id,
                    final(self)@,
                    r,
                ),
            final(self).wf(),
            old(self).history().is_prefix_of(final(self).history()),
    {
        let now_ms: u64 = self.clock.0.now_ms();
        let verdict = signed.verify_signature();
        let order_hash = signed.canonical_hash();
        let order_id = OrderId(random_id());
        proof {
            assert(self@.submit_fits(signed, now_ms, verdict, order_hash, order_id));
        }
        self.process_order_at(signed, now_ms, verdict, order_hash, order_id)
    }

    /// Submit an order at a given time, with the verdict on its signature, its
    /// hash, and the id that it is to get.
    #[verifier::rlimit(40)]
    pub fn process_order_at(
        &mut self,
        signed: SignedOrder,
        now_ms: u64,
        verdict: Result<(), OrderError>,
        order_hash: OrderHash,
        order_id: OrderId,
    ) -> (r: Result<OrderResult, EngineError>)
        requires
            old(self).wf(),
            old(self)@.submit_fits(signed, now_ms, verdict, order_hash, order_id),
        ensures
            answers(old(self)@, signed, now_ms, verdict, order_hash, order_id, final(self)@, r),
            final(self).wf(),
            old(self).history().is_prefix_of(final(self).history()),
    {
        match self.refusal(&signed, now_ms, verdict) {
            Some(e) => {
                let e = EngineError::Order(e);
                self.reject(&signed, &e);
                return Err(e);
            },
            None => {},
        }
        match self.sequencer.idempotency_check(signed.trader_id.as_str(), signed.client_order_id.as_str()) {
            Some(record) => {
                let final_status = self.find_order(&record.order_id).unwrap().status;
                return Ok(
                    OrderResult {
                        order_id: record.order_id.clone(),
                        order_hash: record.order_hash,
                        seq_id: record.original_seq_id,
                        fills: Vec::new(),
                        final_status,
                        is_duplicate: true,
                    },
                );
            },
            None => {},
        }
        let ghost before = self@;
        match self.state.check_and_update_nonce(signed.trader_id.as_str(), signed.nonce) {
            Ok(()) => {},
            Err(e) => {
                let e = EngineError::Nonce(e);
                self.reject(&signed, &e);
                return Err(e);
            },
        }
        proof {
            assert(before.admits(signed, now_ms, verdict));
        }
        let seq_id: u64 = self.sequencer.peek_next_seq_id();
        let mut order = order_of(&signed, now_ms, order_hash, order_id.clone(), seq_id);
        let ghost accepted = order;
        let ghost m = before.run(signed, now_ms, order_hash, order_id);
        let ghost market_key = signed.market_id.0@;
        proof {
            assert(accepted == new_order(signed, now_ms, order_hash, order_id, seq_id));
            assert(before.accept(signed, now_ms, order_hash, order_id).next == before.next + intake_events(
                accepted,
                m,
            ).len());
        }
        append(&mut self.sequencer, Event::OrderAccepted { order: order.clone() });
        self.sequencer.register_accepted(
            signed.trader_id.as_str(),
            signed.client_order_id.as_str(),
            seq_id,
            order_id.clone(),
            order_hash,
            now_ms,
        );
        self.order_market_index.insert(order_id.0.clone(), signed.market_id.0.clone());
        let ghost books = self.books@;
        let fills = match self.books.get_mut(signed.market_id.0.as_str()) {
            Some(book) => {
                proof {
                    assert(before.books[market_key] == book@);
                }
                let fills = match_order(book, &mut order, seq_id, now_ms);
                number_fills(book, &fills, seq_id + 1);
                fills
            },
            None => {
                proof {
                    assert(before.books.contains_key(market_key));
                }
                Vec::new()
            },
        };
        order.last_update_sequence = seq_id + fills.len() as u64;
        record_fills(&mut self.sequencer, &mut self.state, &fills);
        proof {
            lemma_append_append(
                before.log,
                before.next,
                seq![Event::OrderAccepted { order: accepted }],
                fill_events(m.fills),
            );
        }
        let final_status = order.status;
        if final_status == OrderStatus::CancelledStp {
            order.last_update_sequence = self.sequencer.peek_next_seq_id();
            append(
                &mut self.sequencer,
                Event::OrderCancelled {
                    order_id: order_id.clone(),
                    order_hash,
                    reason: CancelReason::SelfTradePrevention,
                },
            );
            self.state.cancel_order(order_hash.0);
        }
        proof {
            let events = seq![Event::OrderAccepted { order: accepted }] + fill_events(m.fills);
            lemma_append_append(
                before.log,
                before.next,
                events,
                seq![cancel_event(accepted, CancelReason::SelfTradePrevention)],
            );
            if final_status != OrderStatus::CancelledStp {
                assert(events + Seq::<Event>::empty() =~= events);
            }
            assert(self@.log == appended(before.log, before.next, intake_events(accepted, m)));
            assert(self@.state =~= settled(
                before.state.with_nonce(signed.trader_id@, signed.nonce),
                accepted,
                m,
            ));
        }
        if !order.is_closed() && order.remaining_size_lots() > 0 {
            match self.books.get_mut(signed.market_id.0.as_str()) {
                Some(book) => {
                    book.insert(order);
                },
                None => {},
            }
        } else {
            self.closed_orders.insert(order_id.0.clone(), order);
        }
        proof {
            assert(self@.books =~= before.books.insert(market_key, rested(numbered(m, before.next))));
            assert(self@.index =~= before.index.insert(order_id.key(), market_key));
            assert(self@ =~= before.accept(signed, now_ms, order_hash, order_id));
            law_accept_keeps_wf(before, signed, now_ms, verdict, order_hash, order_id);
        }
        Ok(OrderResult { order_id, order_hash, seq_id, fills, final_status, is_duplicate: false })
    }

    /// As [`Engine::process_order`]; `None`, with nothing changed, where a number or
    /// a quantity would not fit in 64 bits.
    pub fn try_process_order(&mut self, signed: SignedOrder) -> (r: Option<Result<OrderResult, EngineError>>)
        requires
            old(self).wf(),
        ensures
            match r {
                Some(result) => old(self)@.has_room(signed) && exists|now: u64, hash: OrderHash, id: OrderId|
                    old(self)@.times.contains(now) && hash.0@ == signed.hash() && uuid_form(id.key()) && #[trigger] answers(
                        old(self)@,
                        signed,
                        now,
                        signed.signature_verdict(),
                        hash,
                        id,
                        final(self)@,
                        result,
                    ),
                None => !old(self)@.has_room(signed) && final(self)@ == old(self)@,
            },
            final(self).wf(),
            old(self).history().is_prefix_of(final(self).history()),
    {
        if self.has_room_for(&signed) {
            Some(self.process_order(signed))
        } else {
            None
        }
    }

    /// Whether the numbers and quantities of a submission fit in 64 bits.
    pub fn has_room_for(&self, signed: &SignedOrder) -> (b: bool)
        requires
            self.wf(),
        ensures
            b == self@.has_room(*signed),
    {
        let order_hash = signed.canonical_hash();
        if self.sequencer.peek_next_seq_id() == u64::MAX {
            return self.fits_without_number(signed, order_hash);
        }
        if self.is_comfortable(signed, &order_hash) {
            proof {
                assert forall|now: u64, hash: OrderHash, id: OrderId| hash.0@ == signed.hash() implies #[trigger] self@.submit_fits(
                    *signed,
                    now,
                    signed.signature_verdict(),
                    hash,
                    id,
                ) by {
                    if self@.admits(*signed, now, signed.signature_verdict()) {
                        law_comfortable_fits(self@, *signed, now, hash, id);
                    }
                }
            }
            return true;
        }
        let verdict = signed.verify_signature();
        if self.refusal(signed, 0, verdict).is_some() {
            proof {
                assert forall|now: u64| !self@.admits(*signed, now, signed.signature_verdict()) by {
                    if self@.admits(*signed, now, signed.signature_verdict()) {
                        lemma_admitted_early(self@, *signed, now, signed.signature_verdict());
                    }
                }
            }
            return true;
        }
        let fits: bool = self.would_fit(signed, order_hash);
        proof {
            let id = OrderId(signed.trader_id);
            assert(self@.admits(*signed, 0, signed.signature_verdict()));
            assert(self@.accept_fits(*signed, 0, order_hash, id) == fits);
            assert forall|now: u64, hash: OrderHash, id: OrderId| hash.0@ == signed.hash() implies #[trigger] self@.accept_fits(
                *signed,
                now,
                hash,
                id,
            ) == fits by {
                assert(hash.0@ == order_hash.0@);
                assert(hash.0 =~= order_hash.0);
                assert(hash == order_hash);
                assert(self@.accept_fits(*signed, now, order_hash, id) == fits);
            }
            if fits {
                assert forall|now: u64, hash: OrderHash, id: OrderId| hash.0@ == signed.hash() implies #[trigger] self@.submit_fits(
                    *signed,
                    now,
                    signed.signature_verdict(),
                    hash,
                    id,
                ) by {
                    assert(self@.accept_fits(*signed, now, hash, id) == fits);
                }
            } else {
                assert(!self@.submit_fits(*signed, 0, signed.signature_verdict(), order_hash, id));
            }
        }
        fits
    }

    /// Whether a submission fits where no number is left: it does where nothing is
    /// put into the log, whatever the time.
    fn fits_without_number(&self, signed: &SignedOrder, order_hash: OrderHash) -> (b: bool)
        requires
            self@.next == u64::MAX,
            order_hash.0@ == signed.hash(),
        ensures
            b == self@.has_room(*signed),
    {
        let verdict = signed.verify_signature();
        let refused: bool = self.refusal(signed, u64::MAX, verdict).is_some();
        let known: bool = self.sequencer.idempotency_check(
            signed.trader_id.as_str(),
            signed.client_order_id.as_str(),
        ).is_some();
        proof {
            let id = OrderId(signed.trader_id);
            if !refused && known {
                assert forall|now: u64| self@.rejection(*signed, now, verdict) is None by {
                    assert(self@.refusal(*signed, u64::MAX, verdict) is None);
                }
            } else {
                assert(!self@.submit_fits(*signed, u64::MAX, verdict, order_hash, id)) by {
                    if self@.admits(*signed, u64::MAX, verdict) {
                        let order = new_order(*signed, u64::MAX, order_hash, id, self@.next as u64);
                        let m = self@.intake(*signed, u64::MAX, order_hash, id);
                        assert(intake_events(order, m).len() >= 1);
                    }
                }
            }
        }
        !refused && known
    }

    /// Put the rejection of a submission into the log.
    fn reject(&mut self, signed: &SignedOrder, e: &EngineError)
        requires
            old(self)@.next < u64::MAX,
        ensures
            exists|event: Event| #[trigger] says_rejected(event, *signed, *e) && final(self)@ == old(self)@.record(
                event,
            ),
            old(self).wf() ==> final(self).wf(),
            old(self).history().is_prefix_of(final(self).history()),
    {
        let event = Event::OrderRejected {
            client_order_id: signed.client_order_id.clone(),
            trader_id: signed.trader_id.clone(),
            reason: e.message(),
        };
        proof {
            assert(says_rejected(event, *signed, *e));
        }
        self.record(event);
    }

    /// Whether the numbers and quantities of an acceptance fit in 64 bits, found
    /// out on a copy of the book.
    fn would_fit(&self, signed: &SignedOrder, order_hash: OrderHash) -> (fits: bool)
        requires
            self.wf(),
            self@.markets.contains_key(signed.market_id.0@),
        ensures
            forall|now: u64, id: OrderId| #[trigger] self@.accept_fits(*signed, now, order_hash, id) == fits,
    {
        proof {
            assert(self@.books.contains_key(signed.market_id.0@));
        }
        let seq_id: u64 = self.sequencer.peek_next_seq_id();
        let order_id = OrderId(signed.client_order_id.clone());
        let mut book = match self.books.get(signed.market_id.0.as_str()) {
            Some(book) => book.copy(),
            None => OrderBook::new(),
        };
        let mut order = order_of(signed, 0, order_hash, order_id.clone(), seq_id);
        let ghost start = order;
        let ghost m = self@.run(*signed, 0, order_hash, order_id);
        let fills = match_order(&mut book, &mut order, seq_id, 0);
        let stopped: u64 = if order.status == OrderStatus::CancelledStp {
            1
        } else {
            0
        };
        proof {
            assert(intake_events(start, m).len() == 1 + fills@.len() + stopped);
        }
        let events_fit: bool = seq_id <= u64::MAX - 1 - stopped && fills.len() as u64 <= u64::MAX - 1 - stopped
            - seq_id;
        let fits: bool = events_fit && self.state.can_book(&fills);
        proof {
            assert(self@.accept_fits(*signed, 0, order_hash, order_id) == fits);
            assert forall|now: u64, id: OrderId| #[trigger] self@.accept_fits(*signed, now, order_hash, id) == fits by {
                law_fit_is_timeless(self@, *signed, order_hash, now, id, 0, order_id);
            }
        }
        fits
    }

    /// Whether a submission with the given hash is sure to fit.
    fn is_comfortable(&self, signed: &SignedOrder, order_hash: &OrderHash) -> (b: bool)
        requires
            self.wf(),
        ensures
            b == comfortable(self@, *signed, order_hash.0@),
    {
        if !self.markets.contains_key(signed.market_id.0.as_str()) {
            return true;
        }
        if self.sequencer.idempotency_check(
            signed.trader_id.as_str(),
            signed.client_order_id.as_str(),
        ).is_some() || signed.nonce <= self.state.last_nonce(signed.trader_id.as_str()) {
            return true;
        }
        let book = match self.books.get(signed.market_id.0.as_str()) {
            Some(book) => book,
            None => {
                proof {
                    assert(self@.markets.contains_key(signed.market_id.0@));
                    assert(self@.books.contains_key(signed.market_id.0@));
                }
                return false;
            },
        };
        room_for_events(self.sequencer.peek_next_seq_id(), book, signed.side) && room_in_accounts(
            &self.state,
            book,
            order_hash,
            signed.size_lots,
        )
    }

    /// The first reason to refuse a submission, from its fields, the verdict on its
    /// signature, and its market.
    fn refusal(&self, signed: &SignedOrder, now_ms: u64, verdict: Result<(), OrderError>) -> (r: Option<OrderError>)
        ensures
            r == self@.refusal(*signed, now_ms, verdict),
    {
        match signed.validate_fields(now_ms) {
            Ok(()) => {},
            Err(e) => {
                return Some(e);
            },
        }
        match verdict {
            Ok(()) => {},
            Err(e) => {
                return Some(e);
            },
        }
        let expected = hex_encode(signed.trader_pubkey.as_slice());
        if !same_text(signed.trader_id.as_str(), expected.as_str()) {
            return Some(OrderError::TraderIdMismatch);
        }
        let market = match self.markets.get(signed.market_id.0.as_str()) {
            Some(market) => market,
            None => {
                return Some(OrderError::MarketNotFound(signed.market_id.0.clone()));
            },
        };
        if !market.is_active() {
            return Some(OrderError::MarketNotActive(signed.market_id.0.clone()));
        }
        match market.validate_price(signed.price_ticks) {
            Ok(()) => {},
            Err(_) => {
                return Some(
                    OrderError::InvalidTick { price: signed.price_ticks, tick_size: market.tick_size },
                );
            },
        }
        match market.validate_size(signed.size_lots) {
            Ok(()) => {},
            Err(_) => {
                return Some(
                    OrderError::InvalidLot { size: signed.size_lots, lot_size: market.lot_size },
                );
            },
        }
        None
    }

    fn find_order(&self, order_id: &OrderId) -> (r: Option<&Order>)
        ensures
            match r {
                Some(order) => self@.find(order_id.key()) == Some(*order),
                None => self@.find(order_id.key()) is None,
            },
    {
        match self.order_market_index.get(order_id.0.as_str()) {
            Some(market_id) => match self.books.get(market_id.as_str()) {
                Some(book) => match book.get(order_id) {
                    Some(order) => {
                        return Some(order);
                    },
                    None => {},
                },
                None => {},
            },
            None => {},
        }
        self.closed_orders.get(order_id.0.as_str())
    }

    /// Cancel a resting order on behalf of its trader.
    ///
    /// An order that was filled or cancelled before, on intake or later, is no error.
    pub fn process_cancel(&mut self, order_id: &OrderId, trader_id: &str) -> (r: Result<CancelResult, CancelError>)
        requires
            old(self).wf(),
            old(self)@.cancels(order_id.key(), trader_id@) ==> old(self)@.next < u64::MAX,
        ensures
            cancel_answers(old(self)@, *order_id, trader_id@, final(self)@, r),
            final(self).wf(),
            old(self).history().is_prefix_of(final(self).history()),
    {
        let order = match self.find_order(order_id) {
            Some(order) => order,
            None => {
                return Err(CancelError::NotFound(order_id.0.clone()));
            },
        };
        if !same_text(order.trader_id.as_str(), trader_id) {
            return Err(CancelError::Unauthorized(trader_id.to_owned()));
        }
        if order.is_closed() {
            return Ok(
                CancelResult { order_id: order_id.clone(), seq_id: None, was_already_closed: true },
            );
        }
        let market_id = self.order_market_index.get(order_id.0.as_str()).unwrap().clone();
        let seq_id: u64 = self.sequencer.peek_next_seq_id();
        self.cancel_open(market_id.as_str(), order_id, CancelReason::TraderRequest);
        Ok(CancelResult { order_id: order_id.clone(), seq_id: Some(seq_id), was_already_closed: false })
    }

    /// Cancel an open order of a market and put the cancel into the log.
    pub(crate) fn cancel_open(&mut self, market_id: &str, order_id: &OrderId, reason: CancelReason)
        requires
            old(self).wf(),
            old(self)@.books.contains_key(market_id@),
            old(self)@.books[market_id@].is_open(order_id.key()),
            old(self)@.next < u64::MAX,
        ensures
            final(self)@ == old(self)@.cancel(market_id@, order_id.key(), reason),
            final(self).wf(),
            old(self).history().is_prefix_of(final(self).history()),
    {
        let ghost before = self@;
        let ghost id = order_id.key();
        match self.books.get_mut(market_id) {
            Some(book) => {
                let (stored_id, order_hash) = match book.get(order_id) {
                    Some(order) => (order.order_id.clone(), order.order_hash),
                    None => {
                        return;
                    },
                };
                book.cancel(order_id);
                match book.get_mut(order_id) {
                    Some(order) => {
                        order.last_update_sequence = self.sequencer.peek_next_seq_id();
                    },
                    None => {},
                }
                append(
                    &mut self.sequencer,
                    Event::OrderCancelled { order_id: stored_id, order_hash, reason },
                );
                self.state.cancel_order(order_hash.0);
            },
            None => {},
        }
        proof {
            let order = before.books[market_id@].orders[id];
            let book = before.books[market_id@].close_as(id, cancelled(order, before.next as u64));
            assert(self@.books[market_id@].orders =~= book.orders);
            assert(self@.books[market_id@] =~= book);
            assert(self@.books =~= before.books.insert(market_id@, book));
            assert(self@ =~= before.cancel(market_id@, id, reason));
            law_cancel_keeps_wf(before, market_id@, id, reason);
        }
    }

    /// Put an event that concerns no order into the log.
    pub(crate) fn record(&mut self, event: Event) -> (seq_id: u64)
        requires
            old(self)@.next < u64::MAX,
        ensures
            seq_id == old(self)@.next,
            final(self)@ == old(self)@.record(event),
            old(self).wf() ==> final(self).wf(),
            old(self).history().is_prefix_of(final(self).history()),
    {
        let seq_id: u64 = self.sequencer.peek_next_seq_id();
        append(&mut self.sequencer, event);
        proof {
            assert(self@.books == old(self)@.books);
            assert(self@.markets == old(self)@.markets);
        }
        seq_id
    }

    /// The id of the order that was accepted under a client order id of a trader.
    pub fn accepted_order_id(&self, trader_id: &str, client_order_id: &str) -> (r: Option<OrderId>)
        ensures
            match r {
                Some(id) => self@.accepted.contains_key((trader_id@, client_order_id@)) && id
                    == self@.accepted[(trader_id@, client_order_id@)].order_id,
                None => !self@.accepted.contains_key((trader_id@, client_order_id@)),
            },
    {
        match self.sequencer.idempotency_check(trader_id, client_order_id) {
            Some(record) => Some(record.order_id.clone()),
            None => None,
        }
    }

    /// The number that the next event will get.
    pub fn next_seq_id(&self) -> (n: u64)
        ensures
            n == self@.next,
    {
        self.sequencer.peek_next_seq_id()
    }

    /// The configuration of a market.
    pub fn market(&self, market_id: &str) -> (r: Option<&MarketConfig>)
        ensures
            match r {
                Some(config) => self@.markets.contains_key(market_id@) && *config
                    == self@.markets[market_id@],
                None => !self@.markets.contains_key(market_id@),
            },
    {
        self.markets.get(market_id)
    }

    /// The ids of the open orders of a market, oldest first.
    pub fn open_orders(&self, market_id: &str) -> (r: Option<Vec<OrderId>>)
        ensures
            match r {
                Some(open) => self@.books.contains_key(market_id@) && ids(open@) == oldest_first(
                    self@.books[market_id@].orders,
                ) && open_ages(self@.books[market_id@].orders).finite(),
                None => !self@.books.contains_key(market_id@),
            },
    {
        match self.books.get(market_id) {
            Some(book) => Some(book.open_orders()),
            None => None,
        }
    }

    /// The order with this id.
    pub fn get_order(&self, order_id: &OrderId) -> (r: Option<&Order>)
        ensures
            match r {
                Some(order) => self@.find(order_id.key()) == Some(*order),
                None => self@.find(order_id.key()) is None,
            },
    {
        self.find_order(order_id)
    }

    /// The highest bid and the lowest ask of a market.
    pub fn best_prices(&self, market_id: &str) -> (r: Option<(Option<u64>, Option<u64>)>)
        ensures
            match r {
                Some((bid, ask)) => {
                    &&& self@.books.contains_key(market_id@)
                    &&& is_best_bid(self@.books[market_id@], bid)
                    &&& is_best_ask(self@.books[market_id@], ask)
                },
                None => !self@.books.contains_key(market_id@),
            },
    {
        match self.books.get(market_id) {
            Some(book) => Some((book.best_bid(), book.best_ask())),
            None => None,
        }
    }

    /// The price levels of a market, best price first, at most `depth` on each
    /// side: the bids and the asks.
    pub fn l2_snapshot(&self, market_id: &str, depth: usize) -> (r: Option<(Vec<PriceLevel>, Vec<PriceLevel>)>)
        requires
            self@.books.contains_key(market_id@) ==> depth_fits(self@.books[market_id@], depth),
        ensures
            match r {
                Some((bids, asks)) => self@.books.contains_key(market_id@) && shows_depth(
                    self@.books[market_id@],
                    depth,
                    bids@,
                    asks@,
                ),
                None => !self@.books.contains_key(market_id@),
            },
    {
        match self.books.get(market_id) {
            Some(book) => Some((book.l2_bids(depth), book.l2_asks(depth))),
            None => None,
        }
    }

    /// As [`Engine::l2_snapshot`]; the outer `None` says that a sum does not fit
    /// in 64 bits.
    pub fn try_l2_snapshot(&self, market_id: &str, depth: usize) -> (r: Option<
        Option<(Vec<PriceLevel>, Vec<PriceLevel>)>,
    >)
        ensures
            match r {
                Some(Some((bids, asks))) => self@.books.contains_key(market_id@) && depth_fits(
                    self@.books[market_id@],
                    depth,
                ) && shows_depth(self@.books[market_id@], depth, bids@, asks@),
                Some(None) => !self@.books.contains_key(market_id@),
                None => self@.books.contains_key(market_id@) && !depth_fits(
                    self@.books[market_id@],
                    depth,
                ),
            },
    {
        match self.books.get(market_id) {
            Some(book) => match book.try_l2_bids(depth) {
                Some(bids) => match book.try_l2_asks(depth) {
                    Some(asks) => Some(Some((bids, asks))),
                    None => None,
                },
                None => None,
            },
            None => Some(None),
        }
    }

    /// The markets, each once, in ascending order of their ids.
    pub fn list_markets(&self) -> (list: Vec<&MarketConfig>)
        ensures
            self@.markets.dom().finite(),
            list@.len() == listing(self@.markets).len(),
            forall|i: int| 0 <= i < list@.len() ==> *(#[trigger] list@[i]) == listing(self@.markets)[i],
            self.wf() ==> lists(listing(self@.markets), self@.markets),
    {
        let mut list: Vec<&MarketConfig> = Vec::new();
        let n: usize = self.markets.len();
        let mut i: usize = 0;
        while i < n
            invariant
                i <= n,
                n == self.markets.order().len(),
                list@.len() == i,
                forall|j: int| 0 <= j < i ==> *(#[trigger] list@[j]) == self.markets@[self.markets.order()[j]],
            decreases n - i,
        {
            list.push(self.markets.value_at(i));
            i = i + 1;
        }
        proof {
            if self.wf() {
                law_markets_listed_once(self@.markets);
            }
        }
        list
    }

    /// The fills of a market, oldest first, from sequence number `from_seq` on,
    /// at most `limit` of them (0 for no limit).
    pub fn get_fills(&self, market_id: &str, from_seq: u64, limit: usize) -> (list: Vec<&Fill>)
        ensures
            list@.len() == capped(fills_in(self@.log, market_id@, from_seq), limit).len(),
            forall|i: int|
                0 <= i < list@.len() ==> *(#[trigger] list@[i]) == capped(
                    fills_in(self@.log, market_id@, from_seq),
                    limit,
                )[i],
    {
        let mut list: Vec<&Fill> = Vec::new();
        let log = self.sequencer.events();
        let ghost all = entries(log@);
        let mut i: usize = 0;
        proof {
            assert(all.take(0) =~= Seq::<Entry>::empty());
            assert(all.take(all.len() as int) =~= all);
        }
        while i < log.len()
            invariant
                i <= log@.len(),
                all == entries(log@),
                all == self@.log,
                all.take(all.len() as int) == all,
                limit == 0 || list@.len() <= limit,
                list@.len() == fills_in(all.take(i as int), market_id@, from_seq).len(),
                forall|j: int|
                    0 <= j < list@.len() ==> *(#[trigger] list@[j]) == fills_in(
                        all.take(i as int),
                        market_id@,
                        from_seq,
                    )[j],
            decreases log@.len() - i,
        {
            let se = &log[i];
            proof {
                let next = all.take(i + 1);
                assert(next.drop_last() =~= all.take(i as int));
                assert(next.last() == Entry { seq_id: se.seq_id, event: se.event });
                lemma_fills_grow(all, market_id@, from_seq, i as int);
                lemma_fills_grow(all, market_id@, from_seq, i + 1);
            }
            match &se.event {
                Event::Fill(fill) => {
                    if se.seq_id >= from_seq && same_text(fill.market_id.0.as_str(), market_id) {
                        if limit > 0 && list.len() == limit {
                            return list;
                        }
                        list.push(fill);
                    }
                },
                _ => {},
            }
            i = i + 1;
        }
        list
    }

    /// Rebuild the engine from a log, such as one that was stored.
    ///
    /// Books, closed orders, state store, order index and sequencer are taken from
    /// the log, which is then the log of the engine, with its time stamps. The
    /// markets have to be registered before, and stay as they are. A log that cannot
    /// be replayed leaves the engine as it is, and so does an empty one.
    pub fn restore_from_events(&mut self, events: Vec<SequencedEvent>) -> (r: Result<(), ReplayError>)
        requires
            restore_fits(events@),
        ensures
            restores(old(self)@, events@, final(self)@, r),
            final(self).history() == (if r is Ok && events@.len() > 0 {
                events@
            } else {
                old(self).history()
            }),
            accepts_sane(entries(events@)) && old(self).wf() ==> final(self).wf(),
    {
        self.try_restore_from_events(events).unwrap()
    }

    /// As [`Engine::restore_from_events`]; `None`, with the engine as it was,
    /// where a quantity or a number does not fit in 64 bits.
    pub fn try_restore_from_events(&mut self, events: Vec<SequencedEvent>) -> (r: Option<Result<(), ReplayError>>)
        ensures
            match r {
                Some(result) => restore_fits(events@) && restores(old(self)@, events@, final(self)@, result),
                None => !restore_fits(events@) && final(self)@ == old(self)@,
            },
            final(self).history() == (if r is Some && r->Some_0 is Ok && events@.len() > 0 {
                events@
            } else {
                old(self).history()
            }),
            accepts_sane(entries(events@)) && old(self).wf() ==> final(self).wf(),
    {
        let n: usize = events.len();
        if n == 0 {
            return Some(Ok(()));
        }
        let result = match try_replay(events.as_slice()) {
            Some(Ok(result)) => result,
            Some(Err(e)) => {
                return Some(Err(e));
            },
            None => {
                return None;
            },
        };
        let last_seq_id: u64 = events[n - 1].seq_id;
        if last_seq_id == u64::MAX {
            return None;
        }
        let ghost before = self@;
        let ghost w = walked(entries(events@))->Done_0;
        let ghost rebuilt = book_models(result.books@);
        let books = with_books(result.books, &self.markets);
        let index = build_index(events.as_slice());
        self.books = books;
        self.state = result.state;
        self.order_market_index = index;
        self.closed_orders = result.closed;
        self.sequencer = Sequencer::resume(last_seq_id + 1, events);
        proof {
            assert(books_of(w.orders, rebuilt) && self@.books == with_empty_books(rebuilt, before.markets));
            assert(takes_over(before, events@, w, self@));
            if accepts_sane(entries(events@)) && before.wf() {
                lemma_walk_within_size(entries(events@));
                law_restore_keeps_wf(before, events@, w, self@);
            }
        }
        Some(Ok(()))
    }

    /// The log with its time stamps.
    pub closed spec fn history(&self) -> Seq<SequencedEvent> {
        self.sequencer@.log
    }

    /// The log of the model is the log without its time stamps.
    pub proof fn lemma_history(&self)
        ensures
            self@.log == entries(self.history()),
    {
    }

    /// The sequencer: its log is the history of the engine, and its next number and
    /// accepted submissions are those of the engine.
    pub fn sequencer(&self) -> (s: &Sequencer)
        ensures
            s@.log == self.history(),
            s@.next == self@.next,
            s@.accepted == self@.accepted,
    {
        &self.sequencer
    }

    /// The state store.
    pub fn state(&self) -> (s: &StateStore)
        ensures
            s@ == self@.state,
    {
        &self.state
    }
}

} // verus!
