//! Replay: rebuild the books and the state store from a log.
//!
//! The events are walked in order over a working set of orders. At the end
//! every order that is still open is put into the book of its market, oldest
//! first, so that each queue is in the order of acceptance again; the closed ones
//! are kept beside the books.
use crate::crypto::sha256;
use crate::db::{amount, check_fill, fill_fits, StateModel, StateStore};
use crate::domain::order::{Order, OrderId, OrderStatus, Side};
use crate::engine::model::{accepts_sane, entries, Entry};
use crate::engine::orderbook::{joined, open_by_age, own_ids, queue_at, Age, BookModel, Levels, OrderBook};
use crate::events::{CancelReason, Event, SequencedEvent};
use crate::ordmap::{ascending, lemma_ascending_unique, lemma_take_one_more, MapKey, OrdMap};
use crate::text::{append_decimal, decimal, quote, quoted};
use vstd::prelude::*;
use vstd::string::StringExecFns;

verus! {

/// What a walk over a log has come to.
#[verifier::ext_equal]
pub struct Walk {
    /// Every order accepted so far, by id.
    pub orders: Map<Seq<char>, Order>,
    pub state: StateModel,
    /// The number of the last event; `None` before the first.
    pub last: Option<u64>,
}

impl Walk {
    /// The number of the last event; 0 before the first.
    pub open spec fn last_number(self) -> u64 {
        match self.last {
            Some(last) => last,
            None => 0,
        }
    }
}

/// How a walk over a log ends.
#[verifier::ext_equal]
pub enum Outcome {
    Done(Walk),
    Failed(ReplayError),
    /// A number does not fit in 64 bits.
    Overflow,
}

/// An order after event `seq` filled `qty` of it.
pub open spec fn refilled(order: Order, qty: u64, seq: u64) -> Order {
    Order {
        filled_size_lots: (order.filled_size_lots + qty) as u64,
        last_update_sequence: seq,
        status: if order.filled_size_lots + qty >= order.orig_size_lots {
            OrderStatus::Filled
        } else {
            OrderStatus::PartiallyFilled
        },
        ..order
    }
}

/// The status of an order cancelled for `reason`.
pub open spec fn cancel_status(reason: CancelReason) -> OrderStatus {
    match reason {
        CancelReason::SelfTradePrevention => OrderStatus::CancelledStp,
        _ => OrderStatus::Cancelled,
    }
}

/// `event` is applied as number `seq`.
pub open spec fn applied(w: Walk, seq: u64, event: Event) -> Outcome {
    match event {
        Event::OrderAccepted { order } => Outcome::Done(
            Walk {
                orders: w.orders.insert(order.order_id.key(), order),
                state: if order.nonce > amount(w.state.nonces, order.trader_id@) {
                    w.state.with_nonce(order.trader_id@, order.nonce)
                } else {
                    w.state
                },
                last: Some(seq),
            },
        ),
        Event::Fill(fill) => {
            let taker = fill.taker_order_id.key();
            let maker = fill.maker_order_id.key();
            let qty = fill.size_lots;
            if !w.orders.contains_key(taker) {
                Outcome::Failed(ReplayError::UnknownOrder(fill.taker_order_id))
            } else if w.orders[taker].filled_size_lots + qty > u64::MAX {
                Outcome::Overflow
            } else {
                let one = w.orders.insert(taker, refilled(w.orders[taker], qty, seq));
                if !one.contains_key(maker) {
                    Outcome::Failed(ReplayError::UnknownOrder(fill.maker_order_id))
                } else if one[maker].filled_size_lots + qty > u64::MAX || !fill_fits(
                    w.state.filled,
                    fill.taker_order_hash.0@,
                    fill.maker_order_hash.0@,
                    qty,
                ) {
                    Outcome::Overflow
                } else {
                    Outcome::Done(
                        Walk {
                            orders: one.insert(maker, refilled(one[maker], qty, seq)),
                            state: w.state.fill(fill.taker_order_hash.0@, fill.maker_order_hash.0@, qty),
                            last: Some(seq),
                        },
                    )
                }
            }
        },
        Event::OrderCancelled { order_id, order_hash, reason } => {
            let id = order_id.key();
            if !w.orders.contains_key(id) {
                Outcome::Failed(ReplayError::UnknownOrder(order_id))
            } else {
                Outcome::Done(
                    Walk {
                        orders: w.orders.insert(
                            id,
                            Order {
                                status: cancel_status(reason),
                                last_update_sequence: seq,
                                ..w.orders[id]
                            },
                        ),
                        state: w.state.cancel(order_hash.0@),
                        last: Some(seq),
                    },
                )
            }
        },
        _ => Outcome::Done(Walk { last: Some(seq), ..w }),
    }
}

/// One entry of the log is applied. Its number has to follow the last one; the
/// first may be any.
pub open spec fn stepped(w: Walk, entry: Entry) -> Outcome {
    match w.last {
        None => applied(w, entry.seq_id, entry.event),
        Some(last) => if last == u64::MAX {
            Outcome::Overflow
        } else if entry.seq_id != last + 1 {
            Outcome::Failed(ReplayError::SeqIdGap { expected: (last + 1) as u64, got: entry.seq_id })
        } else {
            applied(w, entry.seq_id, entry.event)
        },
    }
}

pub open spec fn walk_start() -> Walk {
    Walk { orders: Map::empty(), state: StateModel::empty(), last: None }
}

/// The outcome of a walk over `log`. It ends with the first failure.
pub open spec fn walked(log: Seq<Entry>) -> Outcome
    decreases log.len(),
{
    if log.len() == 0 {
        Outcome::Done(walk_start())
    } else {
        match walked(log.drop_last()) {
            Outcome::Done(w) => stepped(w, log.last()),
            other => other,
        }
    }
}

/// The order `id` is open and belongs to `market`.
pub open spec fn open_in(orders: Map<Seq<char>, Order>, market: Seq<char>, id: Seq<char>) -> bool {
    orders.contains_key(id) && !orders[id].closed() && orders[id].market_id.0@ == market
}

/// The order `id` is open and belongs to the queue at `price` on `side` of `market`.
pub open spec fn rests_at(
    orders: Map<Seq<char>, Order>,
    market: Seq<char>,
    side: Side,
    price: u64,
    id: Seq<char>,
) -> bool {
    open_in(orders, market, id) && orders[id].side == side && orders[id].price_ticks == price
}

/// The ages of the orders of `queue`.
pub open spec fn ages(orders: Map<Seq<char>, Order>, queue: Seq<Seq<char>>) -> Seq<(u64, Seq<char>)> {
    Seq::new(queue.len(), |i: int| (orders[queue[i]].created_sequence, queue[i]))
}

/// `levels` holds the open orders of one side of `market`, each at its price,
/// oldest first, and nothing else.
pub open spec fn side_of(orders: Map<Seq<char>, Order>, market: Seq<char>, side: Side, levels: Levels) -> bool {
    &&& forall|p: u64| #[trigger] levels.contains_key(p) ==> levels[p].len() > 0 && ascending::<Age>(ages(orders, levels[p]))
    &&& forall|p: u64, id: Seq<char>| #[trigger] queue_at(levels, p).contains(id) <==> rests_at(orders, market, side, p, id)
}

/// `book` holds the open orders of `market` and nothing else.
pub open spec fn book_of(orders: Map<Seq<char>, Order>, market: Seq<char>, book: BookModel) -> bool {
    &&& forall|id: Seq<char>| #[trigger] book.orders.contains_key(id) <==> open_in(orders, market, id)
    &&& forall|id: Seq<char>| #[trigger] book.orders.contains_key(id) ==> book.orders[id] == orders[id]
    &&& side_of(orders, market, Side::Buy, book.bids)
    &&& side_of(orders, market, Side::Sell, book.asks)
}

/// `books` holds the open orders of every market that has some, and nothing else.
pub open spec fn books_of(orders: Map<Seq<char>, Order>, books: Map<Seq<char>, BookModel>) -> bool {
    &&& forall|m: Seq<char>| #[trigger] books.contains_key(m) ==> book_of(orders, m, books[m])
    &&& forall|m: Seq<char>| #[trigger] books.contains_key(m) ==> exists|id: Seq<char>| open_in(orders, m, id)
    &&& forall|m: Seq<char>, id: Seq<char>| #[trigger] open_in(orders, m, id) ==> books.contains_key(m)
}

/// The closed ones of `orders`.
pub open spec fn closed_in(orders: Map<Seq<char>, Order>) -> Map<Seq<char>, Order> {
    Map::new(|id: Seq<char>| orders.contains_key(id) && orders[id].closed(), |id: Seq<char>| orders[id])
}

/// The models of a map of books.
pub open spec fn book_models(books: Map<Seq<char>, OrderBook>) -> Map<Seq<char>, BookModel> {
    Map::new(|m: Seq<char>| books.contains_key(m), |m: Seq<char>| books[m]@)
}

/// What a replay rebuilds.
#[derive(Debug)]
pub struct ReplayResult {
    /// The books, by market. They hold the open orders only.
    pub books: OrdMap<str, OrderBook>,
    /// The closed orders, by id. They are in no book.
    pub closed: OrdMap<str, Order>,
    pub state: StateStore,
    /// The number of the last event; 0 for an empty log.
    pub last_seq_id: u64,
    pub event_count: usize,
}

impl ReplayResult {
    /// This is what a walk over a log of `count` events that ends in `w` rebuilds.
    pub open spec fn rebuilds(&self, w: Walk, count: nat) -> bool {
        &&& books_of(w.orders, book_models(self.books@))
        &&& self.closed@ == closed_in(w.orders)
        &&& self.state@ == w.state
        &&& self.last_seq_id == w.last_number()
        &&& self.event_count == count
    }
}

/// What can be wrong with a log.
#[derive(Debug)]
pub enum ReplayError {
    /// The numbers of the events do not follow each other.
    SeqIdGap { expected: u64, got: u64 },
    /// A fill or a cancel of an order that was not accepted before.
    UnknownOrder(OrderId),
}

fn refill(order: &mut Order, qty: u64, seq: u64)
    requires
        old(order).filled_size_lots + qty <= u64::MAX,
    ensures
        *final(order) == refilled(*old(order), qty, seq),
{
    order.filled_size_lots = order.filled_size_lots + qty;
    order.last_update_sequence = seq;
    order.status = if order.filled_size_lots >= order.orig_size_lots {
        OrderStatus::Filled
    } else {
        OrderStatus::PartiallyFilled
    };
}

/// The working set of a walk.
struct Working {
    orders: OrdMap<str, Order>,
    state: StateStore,
    last: Option<u64>,
}

impl Working {
    spec fn model(&self) -> Walk {
        Walk { orders: self.orders@, state: self.state@, last: self.last }
    }

    /// Apply an event. On `None` and on an error the working set is of no
    /// further use.
    fn apply(&mut self, seq: u64, event: &Event) -> (r: Option<Result<(), ReplayError>>)
        ensures
            match r {
                Some(Ok(())) => applied(old(self).model(), seq, *event) == Outcome::Done(final(self).model()),
                Some(Err(e)) => applied(old(self).model(), seq, *event) == Outcome::Failed(e),
                None => applied(old(self).model(), seq, *event) == Outcome::Overflow,
            },
    {
        let ghost before = self.model();
        match event {
            Event::OrderAccepted { order } => {
                let stored: u64 = self.state.last_nonce(order.trader_id.as_str());
                if order.nonce > stored {
                    self.state.nonces.insert(order.trader_id.clone(), order.nonce);
                }
                self.orders.insert(order.order_id.0.clone(), order.clone());
                self.last = Some(seq);
                Some(Ok(()))
            },
            Event::Fill(fill) => {
                let qty: u64 = fill.size_lots;
                match self.orders.get_mut(fill.taker_order_id.0.as_str()) {
                    Some(taker) => {
                        if taker.filled_size_lots > u64::MAX - qty {
                            return None;
                        }
                        refill(taker, qty, seq);
                    },
                    None => {
                        return Some(Err(ReplayError::UnknownOrder(fill.taker_order_id.clone())));
                    },
                }
                match self.orders.get_mut(fill.maker_order_id.0.as_str()) {
                    Some(maker) => {
                        if maker.filled_size_lots > u64::MAX - qty {
                            return None;
                        }
                        refill(maker, qty, seq);
                    },
                    None => {
                        return Some(Err(ReplayError::UnknownOrder(fill.maker_order_id.clone())));
                    },
                }
                if !check_fill(&self.state.filled_amounts, &fill.taker_order_hash.0, &fill.maker_order_hash.0, qty) {
                    return None;
                }
                self.state.apply_fill(fill.taker_order_hash.0, fill.maker_order_hash.0, qty);
                self.last = Some(seq);
                Some(Ok(()))
            },
            Event::OrderCancelled { order_id, order_hash, reason } => {
                match self.orders.get_mut(order_id.0.as_str()) {
                    Some(order) => {
                        order.status = match reason {
                            CancelReason::SelfTradePrevention => OrderStatus::CancelledStp,
                            _ => OrderStatus::Cancelled,
                        };
                        order.last_update_sequence = seq;
                    },
                    None => {
                        return Some(Err(ReplayError::UnknownOrder(order_id.clone())));
                    },
                }
                self.state.cancel_order(order_hash.0);
                self.last = Some(seq);
                Some(Ok(()))
            },
            Event::OrderRejected { .. } | Event::MarketPaused { .. } | Event::MarketResumed { .. } => {
                self.last = Some(seq);
                Some(Ok(()))
            },
        }
    }
}

/// Walk over a log.
fn walk(events: &[SequencedEvent]) -> (r: Option<Result<Working, ReplayError>>)
    ensures
        match r {
            Some(Ok(w)) => walked(entries(events@)) == Outcome::Done(w.model()),
            Some(Err(e)) => walked(entries(events@)) == Outcome::Failed(e),
            None => walked(entries(events@)) == Outcome::Overflow,
        },
{
    let mut w = Working { orders: OrdMap::new(), state: StateStore::new(), last: None };
    let ghost log = entries(events@);
    let mut i: usize = 0;
    proof {
        assert(log.take(0) =~= Seq::<Entry>::empty());
        assert(log.take(log.len() as int) =~= log);
    }
    while i < events.len()
        invariant
            log == entries(events@),
            log.take(log.len() as int) == log,
            i <= events@.len(),
            walked(log.take(i as int)) == Outcome::Done(w.model()),
        decreases events@.len() - i,
    {
        let se = &events[i];
        proof {
            let next = log.take(i + 1);
            assert(next.drop_last() =~= log.take(i as int));
            assert(next.last() == Entry { seq_id: se.seq_id, event: se.event });
            lemma_walk_sticks(log, i + 1);
        }
        match w.last {
            Some(last) => {
                if last == u64::MAX {
                    return None;
                }
                if se.seq_id != last + 1 {
                    return Some(Err(ReplayError::SeqIdGap { expected: last + 1, got: se.seq_id }));
                }
            },
            None => {},
        }
        match w.apply(se.seq_id, &se.event) {
            Some(Ok(())) => {},
            Some(Err(e)) => {
                return Some(Err(e));
            },
            None => {
                return None;
            },
        }
        i = i + 1;
    }
    Some(Ok(w))
}

/// A walk that ends early ends the whole walk.
proof fn lemma_walk_sticks(log: Seq<Entry>, i: int)
    requires
        0 <= i <= log.len(),
    ensures
        !(walked(log.take(i)) is Done) ==> walked(log) == walked(log.take(i)),
    decreases log.len() - i,
{
    if i < log.len() {
        lemma_walk_sticks(log, i + 1);
        assert(log.take(i + 1).drop_last() =~= log.take(i));
    } else {
        assert(log.take(i) =~= log);
    }
}

/// A walk holds every order under its own id.
pub proof fn lemma_walk_own_ids(log: Seq<Entry>)
    ensures
        walked(log) matches Outcome::Done(w) ==> own_ids(w.orders),
    decreases log.len(),
{
    if log.len() > 0 {
        lemma_walk_own_ids(log.drop_last());
    }
}

/// No open order has more filled than was ordered.
pub open spec fn open_within_size(orders: Map<Seq<char>, Order>) -> bool {
    forall|id: Seq<char>| #[trigger] orders.contains_key(id) && !orders[id].closed() ==> orders[id].within_size()
}

/// Where every order was accepted within its size, the open orders are within
/// theirs at the end of a walk.
pub proof fn lemma_walk_within_size(log: Seq<Entry>)
    requires
        accepts_sane(log),
    ensures
        walked(log) matches Outcome::Done(w) ==> open_within_size(w.orders),
    decreases log.len(),
{
    if log.len() > 0 {
        let before = log.drop_last();
        assert forall|i: int| 0 <= i < before.len() implies ((#[trigger] before[i]).event matches Event::OrderAccepted { order }
            ==> order.within_size()) by {
            assert(log[i] == before[i]);
        }
        lemma_walk_within_size(before);
        assert(log[log.len() - 1] == log.last());
        if walked(before) is Done && walked(log) is Done {
            let w0 = walked(before)->Done_0;
            let w = walked(log)->Done_0;
            assert forall|id: Seq<char>| #[trigger] w.orders.contains_key(id) && !w.orders[id].closed() implies w.orders[id].within_size() by {
                assert(w0.orders.contains_key(id) && !w0.orders[id].closed() ==> w0.orders[id].within_size());
            }
        }
    }
}

/// `order` is younger than every order of `orders`.
pub open spec fn youngest(orders: Map<Seq<char>, Order>, order: Order) -> bool {
    forall|id: Seq<char>|
        #[trigger] orders.contains_key(id) ==> Age::before(
            (orders[id].created_sequence, id),
            (order.created_sequence, order.order_id.key()),
        )
}

/// A side stays as it is when an order of another market or side is added.
pub proof fn lemma_side_apart(
    orders: Map<Seq<char>, Order>,
    order: Order,
    market: Seq<char>,
    side: Side,
    levels: Levels,
)
    requires
        side_of(orders, market, side, levels),
        !orders.contains_key(order.order_id.key()),
        order.market_id.0@ != market || order.side != side,
    ensures
        side_of(orders.insert(order.order_id.key(), order), market, side, levels),
{
    let id = order.order_id.key();
    let more = orders.insert(id, order);
    assert forall|p: u64| #[trigger] levels.contains_key(p) implies levels[p].len() > 0 && ascending::<Age>(
        ages(more, levels[p]),
    ) by {
        assert forall|i: int| 0 <= i < levels[p].len() implies levels[p][i] != id by {
            assert(queue_at(levels, p).contains(levels[p][i]));
        }
        assert(ages(more, levels[p]) =~= ages(orders, levels[p]));
    }
    assert forall|p: u64, x: Seq<char>| #[trigger] queue_at(levels, p).contains(x) <==> rests_at(
        more,
        market,
        side,
        p,
        x,
    ) by {
        assert(queue_at(levels, p).contains(x) <==> rests_at(orders, market, side, p, x));
    }
}

/// A side with its youngest order added at the end of its queue.
pub proof fn lemma_side_joins(orders: Map<Seq<char>, Order>, order: Order, levels: Levels)
    requires
        side_of(orders, order.market_id.0@, order.side, levels),
        !orders.contains_key(order.order_id.key()),
        !order.closed(),
        youngest(orders, order),
    ensures
        side_of(
            orders.insert(order.order_id.key(), order),
            order.market_id.0@,
            order.side,
            joined(levels, order.price_ticks, order.order_id.key()),
        ),
{
    let id = order.order_id.key();
    let price = order.price_ticks;
    let market = order.market_id.0@;
    let more = orders.insert(id, order);
    let after = joined(levels, price, id);
    assert forall|p: u64| #[trigger] after.contains_key(p) implies after[p].len() > 0 && ascending::<Age>(
        ages(more, after[p]),
    ) by {
        let queue = queue_at(levels, p);
        assert forall|i: int| 0 <= i < queue.len() implies orders.contains_key(#[trigger] queue[i]) by {
            assert(queue_at(levels, p).contains(queue[i]));
        }
        let old_ages = ages(orders, queue);
        let new_ages = ages(more, after[p]);
        assert(levels.contains_key(p) ==> ascending::<Age>(old_ages));
        assert forall|i: int, j: int| 0 <= i < j < new_ages.len() implies Age::before(
            #[trigger] new_ages[i],
            #[trigger] new_ages[j],
        ) by {
            if j < queue.len() {
                assert(Age::before(old_ages[i], old_ages[j]));
            }
        }
    }
    assert forall|p: u64, x: Seq<char>| #[trigger] queue_at(after, p).contains(x) <==> rests_at(
        more,
        market,
        order.side,
        p,
        x,
    ) by {
        let queue = queue_at(levels, p);
        assert(queue.contains(x) <==> rests_at(orders, market, order.side, p, x));
        if p == price {
            assert(queue.push(id)[queue.len() as int] == id);
            if queue.contains(x) {
                let i = choose|i: int| 0 <= i < queue.len() && queue[i] == x;
                assert(queue.push(id)[i] == x);
            }
        }
    }
}

/// Putting the youngest open order into the book of its market keeps the books
/// in step with the orders.
proof fn lemma_books_grow(orders: Map<Seq<char>, Order>, books: Map<Seq<char>, BookModel>, order: Order)
    requires
        books_of(orders, books),
        !orders.contains_key(order.order_id.key()),
        !order.closed(),
        youngest(orders, order),
    ensures
        ({
            let market = order.market_id.0@;
            let base = if books.contains_key(market) {
                books[market]
            } else {
                BookModel::empty()
            };
            books_of(
                orders.insert(order.order_id.key(), order),
                books.insert(market, base.insert(order)),
            )
        }),
{
    let id = order.order_id.key();
    let market = order.market_id.0@;
    let base = if books.contains_key(market) {
        books[market]
    } else {
        BookModel::empty()
    };
    let more = orders.insert(id, order);
    let after = books.insert(market, base.insert(order));
    if !books.contains_key(market) {
        assert(forall|x: Seq<char>| !open_in(orders, market, x));
        assert(book_of(orders, market, base));
    }
    assert forall|m: Seq<char>| #[trigger] after.contains_key(m) implies book_of(more, m, after[m]) by {
        if m == market {
            lemma_side_joins(orders, order, base.levels(order.side));
            match order.side {
                Side::Buy => lemma_side_apart(orders, order, m, Side::Sell, base.asks),
                Side::Sell => lemma_side_apart(orders, order, m, Side::Buy, base.bids),
            }
            assert forall|x: Seq<char>| #[trigger] after[m].orders.contains_key(x) <==> open_in(more, m, x) by {
                assert(base.orders.contains_key(x) <==> open_in(orders, m, x));
            }
        } else {
            lemma_side_apart(orders, order, m, Side::Buy, books[m].bids);
            lemma_side_apart(orders, order, m, Side::Sell, books[m].asks);
            assert forall|x: Seq<char>| #[trigger] after[m].orders.contains_key(x) <==> open_in(more, m, x) by {
                assert(books[m].orders.contains_key(x) <==> open_in(orders, m, x));
            }
        }
    }
    assert forall|m: Seq<char>| #[trigger] after.contains_key(m) implies exists|x: Seq<char>| open_in(more, m, x) by {
        if m == market {
            assert(open_in(more, m, id));
        } else {
            let x = choose|x: Seq<char>| open_in(orders, m, x);
            assert(open_in(more, m, x));
        }
    }
    assert forall|m: Seq<char>, x: Seq<char>| #[trigger] open_in(more, m, x) implies after.contains_key(m) by {
        if x != id {
            assert(open_in(orders, m, x));
        }
    }
}

/// The part of `orders` whose ids are among the first `n` of `queue`.
spec fn part(orders: Map<Seq<char>, Order>, queue: Seq<(u64, Seq<char>)>, n: int) -> Map<Seq<char>, Order> {
    Map::new(
        |id: Seq<char>| exists|i: int| 0 <= i < n && (#[trigger] queue[i]).1 == id,
        |id: Seq<char>| orders[id],
    )
}

/// Put every open order into the book of its market, oldest first.
fn build_books(orders: &OrdMap<str, Order>) -> (books: OrdMap<str, OrderBook>)
    requires
        own_ids(orders@),
    ensures
        books_of(orders@, book_models(books@)),
{
    let mut books: OrdMap<str, OrderBook> = OrdMap::new();
    let open = open_by_age(orders);
    let n: usize = open.len();
    let ghost queue = open.order();
    let mut i: usize = 0;
    while i < n
        invariant
            n == queue.len(),
            queue == open.order(),
            ascending::<Age>(queue),
            queue.to_set() == open@.dom(),
            own_ids(orders@),
            forall|age: (u64, Seq<char>)| #[trigger]
                open@.contains_key(age) <==> orders@.contains_key(age.1) && !orders@[age.1].closed()
                    && orders@[age.1].created_sequence == age.0,
            forall|age: (u64, Seq<char>)| #[trigger] open@.contains_key(age) ==> open@[age] == orders@[age.1],
            i <= n,
            books_of(part(orders@, queue, i as int), book_models(books@)),
        decreases n - i,
    {
        let order = open.value_at(i);
        let ghost cur = part(orders@, queue, i as int);
        let ghost id = queue[i as int].1;
        let ghost models = book_models(books@);
        proof {
            assert(open@.contains_key(queue[i as int]));
            assert(order.order_id.key() == id);
            assert forall|x: Seq<char>| #[trigger] cur.contains_key(x) implies Age::before(
                (cur[x].created_sequence, x),
                (order.created_sequence, id),
            ) by {
                let j = choose|j: int| 0 <= j < i && (#[trigger] queue[j]).1 == x;
                assert(queue.to_set().contains(queue[j]));
                assert(open@.contains_key(queue[j]));
                assert(Age::before(queue[j], queue[i as int]));
            }
            if cur.contains_key(id) {
                <str as MapKey>::before_irreflexive(id);
                assert(false);
            }
            lemma_books_grow(cur, models, *order);
            assert(part(orders@, queue, i + 1) =~= cur.insert(id, *order)) by {
                assert forall|x: Seq<char>| part(orders@, queue, i + 1).contains_key(x) <==> cur.insert(
                    id,
                    *order,
                ).contains_key(x) by {
                    if part(orders@, queue, i + 1).contains_key(x) && x != id {
                        let j = choose|j: int| 0 <= j < i + 1 && (#[trigger] queue[j]).1 == x;
                        assert(queue[j].1 == x && j < i);
                    }
                    if cur.contains_key(x) {
                        let j = choose|j: int| 0 <= j < i && (#[trigger] queue[j]).1 == x;
                        assert(queue[j].1 == x && j < i + 1);
                    }
                    assert(queue[i as int].1 == id);
                }
            }
        }
        let market = order.market_id.0.as_str();
        match books.get_mut(market) {
            Some(book) => {
                book.insert(order.clone());
            },
            None => {
                let mut book = OrderBook::new();
                book.insert(order.clone());
                books.insert(order.market_id.0.clone(), book);
            },
        }
        proof {
            let base = if models.contains_key(market@) {
                models[market@]
            } else {
                BookModel::empty()
            };
            assert(book_models(books@) =~= models.insert(market@, base.insert(*order)));
        }
        i = i + 1;
    }
    proof {
        let cur = part(orders@, queue, n as int);
        assert forall|m: Seq<char>, id: Seq<char>| open_in(cur, m, id) <==> open_in(orders@, m, id) by {
            if open_in(cur, m, id) {
                let j = choose|j: int| 0 <= j < n && (#[trigger] queue[j]).1 == id;
                assert(queue.to_set().contains(queue[j]));
                assert(open@.contains_key(queue[j]));
            }
            if open_in(orders@, m, id) {
                let age = (orders@[id].created_sequence, id);
                assert(open@.contains_key(age));
                assert(queue.to_set().contains(age));
                let j = choose|j: int| 0 <= j < queue.len() && queue[j] == age;
                assert(queue[j].1 == id);
            }
        }
        lemma_books_same(cur, orders@, book_models(books@));
    }
    books
}

/// The closed ones of a map of orders.
fn closed_orders(orders: &OrdMap<str, Order>) -> (closed: OrdMap<str, Order>)
    ensures
        closed@ == closed_in(orders@),
{
    let mut closed: OrdMap<str, Order> = OrdMap::new();
    let n: usize = orders.len();
    let ghost keys = orders.order();
    let mut i: usize = 0;
    while i < n
        invariant
            i <= n,
            n == keys.len(),
            keys == orders.order(),
            keys.to_set() == orders@.dom(),
            forall|id: Seq<char>| #[trigger]
                closed@.contains_key(id) <==> keys.take(i as int).contains(id) && orders@[id].closed(),
            forall|id: Seq<char>| #[trigger] closed@.contains_key(id) ==> closed@[id] == orders@[id],
        decreases n - i,
    {
        let order = orders.value_at(i);
        proof {
            lemma_take_one_more(keys, i as int);
        }
        if order.is_closed() {
            closed.insert(orders.key_at(i).to_owned(), order.clone());
        }
        i = i + 1;
    }
    proof {
        assert(keys.take(i as int) =~= keys);
        assert forall|id: Seq<char>| keys.contains(id) <==> orders@.contains_key(id) by {
            assert(keys.to_set().contains(id) <==> orders@.dom().contains(id));
        }
        assert(closed@ =~= closed_in(orders@));
    }
    closed
}

proof fn lemma_side_same(
    a: Map<Seq<char>, Order>,
    b: Map<Seq<char>, Order>,
    market: Seq<char>,
    side: Side,
    levels: Levels,
)
    requires
        side_of(a, market, side, levels),
        forall|m: Seq<char>, id: Seq<char>| open_in(a, m, id) <==> open_in(b, m, id),
        forall|m: Seq<char>, id: Seq<char>| #[trigger] open_in(a, m, id) ==> a[id] == b[id],
    ensures
        side_of(b, market, side, levels),
{
    assert forall|p: u64| #[trigger] levels.contains_key(p) implies levels[p].len() > 0 && ascending::<Age>(
        ages(b, levels[p]),
    ) by {
        assert forall|i: int| 0 <= i < levels[p].len() implies a[levels[p][i]] == b[levels[p][i]] by {
            assert(queue_at(levels, p).contains(levels[p][i]));
            assert(open_in(a, market, levels[p][i]));
        }
        assert(ages(b, levels[p]) =~= ages(a, levels[p]));
    }
    assert forall|p: u64, x: Seq<char>| #[trigger] queue_at(levels, p).contains(x) <==> rests_at(
        b,
        market,
        side,
        p,
        x,
    ) by {
        assert(queue_at(levels, p).contains(x) <==> rests_at(a, market, side, p, x));
        assert(open_in(a, market, x) <==> open_in(b, market, x));
    }
}

/// Books depend on the open orders alone.
proof fn lemma_books_same(a: Map<Seq<char>, Order>, b: Map<Seq<char>, Order>, books: Map<Seq<char>, BookModel>)
    requires
        books_of(a, books),
        forall|m: Seq<char>, id: Seq<char>| open_in(a, m, id) <==> open_in(b, m, id),
        forall|m: Seq<char>, id: Seq<char>| #[trigger] open_in(a, m, id) ==> a[id] == b[id],
    ensures
        books_of(b, books),
{
    assert forall|m: Seq<char>| #[trigger] books.contains_key(m) implies book_of(b, m, books[m]) by {
        lemma_side_same(a, b, m, Side::Buy, books[m].bids);
        lemma_side_same(a, b, m, Side::Sell, books[m].asks);
        assert forall|id: Seq<char>| #[trigger] books[m].orders.contains_key(id) <==> open_in(b, m, id) by {
            assert(open_in(a, m, id) <==> open_in(b, m, id));
        }
        assert forall|id: Seq<char>| #[trigger] books[m].orders.contains_key(id) implies books[m].orders[id]
            == b[id] by {
            assert(open_in(a, m, id));
        }
    }
    assert forall|m: Seq<char>| #[trigger] books.contains_key(m) implies exists|id: Seq<char>| open_in(b, m, id) by {
        let id = choose|id: Seq<char>| open_in(a, m, id);
        assert(open_in(b, m, id));
    }
    assert forall|m: Seq<char>, id: Seq<char>| #[trigger] open_in(b, m, id) implies books.contains_key(m) by {
        assert(open_in(a, m, id));
    }
}

/// Whether every order of a log was accepted with no more filled than was
/// ordered.
pub fn log_accepts_sane(events: &[SequencedEvent]) -> (sane: bool)
    ensures
        sane == accepts_sane(entries(events@)),
{
    let ghost log = entries(events@);
    let mut i: usize = 0;
    while i < events.len()
        invariant
            i <= events@.len(),
            log == entries(events@),
            forall|j: int|
                0 <= j < i ==> ((#[trigger] log[j]).event matches Event::OrderAccepted { order }
                    ==> order.within_size()),
        decreases events@.len() - i,
    {
        match &events[i].event {
            Event::OrderAccepted { order } => {
                if order.filled_size_lots > order.orig_size_lots {
                    proof {
                        assert(log[i as int].event == events@[i as int].event);
                    }
                    return false;
                }
            },
            _ => {},
        }
        i = i + 1;
    }
    true
}

/// Replay a log.
///
/// A log whose numbers have a gap, or that fills or cancels an order that it
/// did not accept before, is refused.
pub fn replay(events: &[SequencedEvent]) -> (r: Result<ReplayResult, ReplayError>)
    requires
        !(walked(entries(events@)) is Overflow),
    ensures
        match r {
            Ok(result) => walked(entries(events@)) matches Outcome::Done(w) && result.rebuilds(w, events@.len()),
            Err(e) => walked(entries(events@)) == Outcome::Failed(e),
        },
{
    try_replay(events).unwrap()
}

/// As [`replay`]; `None` where a quantity or a number does not fit in 64 bits.
pub fn try_replay(events: &[SequencedEvent]) -> (r: Option<Result<ReplayResult, ReplayError>>)
    ensures
        match r {
            Some(Ok(result)) => walked(entries(events@)) matches Outcome::Done(w) && result.rebuilds(
                w,
                events@.len(),
            ),
            Some(Err(e)) => walked(entries(events@)) == Outcome::Failed(e),
            None => walked(entries(events@)) == Outcome::Overflow,
        },
{
    match walk(events) {
        Some(Ok(w)) => {
            proof {
                lemma_walk_own_ids(entries(events@));
            }
            let books = build_books(&w.orders);
            Some(
                Ok(
                    ReplayResult {
                        books,
                        closed: closed_orders(&w.orders),
                        state: w.state,
                        last_seq_id: match w.last {
                            Some(last) => last,
                            None => 0,
                        },
                        event_count: events.len(),
                    },
                ),
            )
        },
        Some(Err(e)) => Some(Err(e)),
        None => None,
    }
}

/// Two sides that hold the same open orders are the same.
pub proof fn lemma_side_unique(
    a: Map<Seq<char>, Order>,
    b: Map<Seq<char>, Order>,
    market: Seq<char>,
    side: Side,
    la: Levels,
    lb: Levels,
)
    requires
        side_of(a, market, side, la),
        side_of(b, market, side, lb),
        forall|p: u64, id: Seq<char>| rests_at(a, market, side, p, id) <==> rests_at(b, market, side, p, id),
        forall|p: u64, id: Seq<char>| #[trigger]
            rests_at(a, market, side, p, id) ==> a[id].created_sequence == b[id].created_sequence,
    ensures
        la == lb,
{
    assert forall|p: u64| queue_at(la, p) == queue_at(lb, p) by {
        let qa = queue_at(la, p);
        let qb = queue_at(lb, p);
        let ga = ages(a, qa);
        let gb = ages(b, qb);
        assert forall|x: Seq<char>| qa.contains(x) <==> qb.contains(x) by {
            assert(qa.contains(x) <==> rests_at(a, market, side, p, x));
            assert(qb.contains(x) <==> rests_at(b, market, side, p, x));
        }
        assert forall|g: (u64, Seq<char>)| ga.to_set().contains(g) <==> gb.to_set().contains(g) by {
            if ga.contains(g) {
                let i = choose|i: int| 0 <= i < ga.len() && ga[i] == g;
                assert(qa.contains(qa[i]));
                assert(rests_at(a, market, side, p, qa[i]));
                assert(qb.contains(qa[i]));
                let j = choose|j: int| 0 <= j < qb.len() && qb[j] == qa[i];
                assert(gb[j] == g);
            }
            if gb.contains(g) {
                let i = choose|i: int| 0 <= i < gb.len() && gb[i] == g;
                assert(qb.contains(qb[i]));
                assert(rests_at(b, market, side, p, qb[i]));
                assert(rests_at(a, market, side, p, qb[i]));
                assert(qa.contains(qb[i]));
                let j = choose|j: int| 0 <= j < qa.len() && qa[j] == qb[i];
                assert(ga[j] == g);
            }
        }
        assert(ga.to_set() =~= gb.to_set());
        lemma_ascending_unique::<Age>(ga, gb);
        assert(qa =~= qb) by {
            assert(qa.len() == ga.len() && qb.len() == gb.len());
            assert forall|i: int| 0 <= i < qa.len() implies qa[i] == qb[i] by {
                assert(ga[i] == gb[i]);
            }
        }
    }
    assert forall|p: u64| la.contains_key(p) <==> lb.contains_key(p) by {
        assert(queue_at(la, p) == queue_at(lb, p));
    }
    assert forall|p: u64| la.contains_key(p) implies la[p] == lb[p] by {
        assert(queue_at(la, p) == queue_at(lb, p));
    }
    assert(la =~= lb);
}

/// Replay is deterministic: the books are a function of the orders of the walk,
/// so one log is rebuilt in one way.
pub proof fn law_replay_deterministic(
    orders: Map<Seq<char>, Order>,
    a: Map<Seq<char>, BookModel>,
    b: Map<Seq<char>, BookModel>,
)
    requires
        books_of(orders, a),
        books_of(orders, b),
    ensures
        a == b,
{
    assert forall|m: Seq<char>| a.contains_key(m) <==> b.contains_key(m) by {
        if a.contains_key(m) {
            let id = choose|id: Seq<char>| open_in(orders, m, id);
            assert(open_in(orders, m, id));
        }
        if b.contains_key(m) {
            let id = choose|id: Seq<char>| open_in(orders, m, id);
            assert(open_in(orders, m, id));
        }
    }
    assert forall|m: Seq<char>| a.contains_key(m) implies a[m] == b[m] by {
        assert(book_of(orders, m, a[m]) && book_of(orders, m, b[m]));
        lemma_side_unique(orders, orders, m, Side::Buy, a[m].bids, b[m].bids);
        lemma_side_unique(orders, orders, m, Side::Sell, a[m].asks, b[m].asks);
        assert forall|id: Seq<char>| a[m].orders.contains_key(id) <==> b[m].orders.contains_key(id) by {
            assert(a[m].orders.contains_key(id) <==> open_in(orders, m, id));
            assert(b[m].orders.contains_key(id) <==> open_in(orders, m, id));
        }
        assert(a[m].orders =~= b[m].orders);
        assert(a[m] =~= b[m]);
    }
    assert(a =~= b);
}

/// Replay a log twice and give the checksum of the state with the first result.
/// The two passes always come to the same checksum.
pub fn verify_replay(events: &[SequencedEvent]) -> (r: Result<([u8; 32], ReplayResult), ReplayError>)
    requires
        !(walked(entries(events@)) is Overflow),
    ensures
        match r {
            Ok((sum, result)) => (walked(entries(events@)) matches Outcome::Done(w) && result.rebuilds(
                w,
                events@.len(),
            )) && sum@ == sha256(result.state@.fingerprint()),
            Err(e) => walked(entries(events@)) == Outcome::Failed(e),
        },
{
    let first = match replay(events) {
        Ok(result) => result,
        Err(e) => {
            return Err(e);
        },
    };
    let second = match replay(events) {
        Ok(result) => result,
        Err(e) => {
            return Err(e);
        },
    };
    let c1 = first.state.checksum();
    let c2 = second.state.checksum();
    assert(c1@ == c2@);
    Ok((c1, first))
}

impl ReplayError {
    /// The text of [`ReplayError::message`].
    pub open spec fn text(&self) -> Seq<char> {
        match self {
            ReplayError::SeqIdGap { expected, got } => "seq_id gap: expected "@ + decimal(*expected as nat) + ", got "@
                + decimal(*got as nat),
            ReplayError::UnknownOrder(id) => "event references unknown order_id OrderId("@ + quoted(id.0@) + ")"@,
        }
    }

    /// The error in words.
    pub fn message(&self) -> (s: String)
        ensures
            s@ == self.text(),
    {
        match self {
            ReplayError::SeqIdGap { expected, got } => {
                let mut s = "seq_id gap: expected ".to_owned();
                append_decimal(&mut s, *expected);
                s.append(", got ");
                append_decimal(&mut s, *got);
                s
            },
            ReplayError::UnknownOrder(id) => {
                let mut s = "event references unknown order_id OrderId(".to_owned();
                s.append(quote(id.0.as_str()).as_str());
                s.append(")");
                s
            },
        }
    }
}

} // verus!
