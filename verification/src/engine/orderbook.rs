//! The order book of one market.
//!
//! Each side is a map from price to the queue of orders resting at that price,
//! oldest first. Orders themselves stay in the book for good, also when they
//! are filled or cancelled; only their place in a queue goes.
use crate::domain::order::{Order, OrderId, OrderStatus, Side};
use crate::keys::{compare_text, lemma_text_total, same_text, text_before};
use crate::ordmap::{lemma_sorted_ids, lemma_take_one_more, sorted_ids, MapKey, OrdMap, Rank};
use vstd::prelude::*;

verus! {

/// A price level as shown to the outside: all orders at one price in one row.
#[derive(Debug, Clone, Copy)]
pub struct PriceLevel {
    pub price: u64,
    /// The sum of what is left of the orders at this price.
    pub total_qty: u64,
    /// The number of orders at this price.
    pub order_count: usize,
}

/// The price levels of one side: for each price the ids in the queue, oldest first.
pub type Levels = Map<u64, Seq<Seq<char>>>;

/// What an order book holds.
#[verifier::ext_equal]
pub struct BookModel {
    pub bids: Levels,
    pub asks: Levels,
    /// Every order that ever rested here, by id.
    pub orders: Map<Seq<char>, Order>,
}

/// The queue at `price`; empty where there is no level.
pub open spec fn queue_at(levels: Levels, price: u64) -> Seq<Seq<char>> {
    if levels.contains_key(price) {
        levels[price]
    } else {
        Seq::empty()
    }
}

/// `id` joins the end of the queue at `price`.
pub open spec fn joined(levels: Levels, price: u64, id: Seq<char>) -> Levels {
    levels.insert(price, queue_at(levels, price).push(id))
}

/// A queue without `id`.
pub open spec fn without(queue: Seq<Seq<char>>, id: Seq<char>) -> Seq<Seq<char>>
    decreases queue.len(),
{
    if queue.len() == 0 {
        queue
    } else if queue.last() == id {
        without(queue.drop_last(), id)
    } else {
        without(queue.drop_last(), id).push(queue.last())
    }
}

/// `id` leaves the queue at `price`. A level without orders goes too.
pub open spec fn left(levels: Levels, price: u64, id: Seq<char>) -> Levels {
    if !levels.contains_key(price) {
        levels
    } else if without(levels[price], id).len() == 0 {
        levels.remove(price)
    } else {
        levels.insert(price, without(levels[price], id))
    }
}

/// The sum of what is left of the orders in `queue`. Ids without an order count
/// for nothing.
pub open spec fn queue_qty(orders: Map<Seq<char>, Order>, queue: Seq<Seq<char>>) -> int
    decreases queue.len(),
{
    if queue.len() == 0 {
        0
    } else {
        queue_qty(orders, queue.drop_last()) + if orders.contains_key(queue.last()) {
            orders[queue.last()].remaining()
        } else {
            0
        }
    }
}

/// The orders in `queue` are within their sizes, and the sum of what is left of
/// them fits in 64 bits.
pub open spec fn queue_fits(orders: Map<Seq<char>, Order>, queue: Seq<Seq<char>>) -> bool {
    &&& forall|i: int|
        0 <= i < queue.len() && orders.contains_key(#[trigger] queue[i]) ==> orders[queue[i]].within_size()
    &&& queue_qty(orders, queue) <= u64::MAX
}

/// The row of the level at `price`.
pub open spec fn row(orders: Map<Seq<char>, Order>, levels: Levels, price: u64) -> PriceLevel {
    PriceLevel {
        price,
        total_qty: queue_qty(orders, levels[price]) as u64,
        order_count: levels[price].len() as usize,
    }
}

/// The first `depth` of `prices`.
pub open spec fn top(prices: Seq<u64>, depth: usize) -> Seq<u64> {
    if depth < prices.len() {
        prices.take(depth as int)
    } else {
        prices
    }
}

/// The rows of the levels at `prices`.
pub open spec fn rows(orders: Map<Seq<char>, Order>, levels: Levels, prices: Seq<u64>) -> Seq<PriceLevel> {
    Seq::new(prices.len(), |i: int| row(orders, levels, prices[i]))
}

/// The rows of the levels at `prices` can be computed.
pub open spec fn rows_fit(orders: Map<Seq<char>, Order>, levels: Levels, prices: Seq<u64>) -> bool {
    forall|i: int| 0 <= i < prices.len() ==> queue_fits(orders, levels[#[trigger] prices[i]])
}

/// `best` is the highest bid, or `None` where there are no bids.
pub open spec fn is_best_bid(book: BookModel, best: Option<u64>) -> bool {
    match best {
        Some(best) => book.bids.contains_key(best) && forall|p: u64| #[trigger]
            book.bids.contains_key(p) ==> p <= best,
        None => book.bids =~= Map::empty(),
    }
}

/// `best` is the lowest ask, or `None` where there are no asks.
pub open spec fn is_best_ask(book: BookModel, best: Option<u64>) -> bool {
    match best {
        Some(best) => book.asks.contains_key(best) && forall|p: u64| #[trigger]
            book.asks.contains_key(p) ==> best <= p,
        None => book.asks =~= Map::empty(),
    }
}

impl BookModel {
    pub open spec fn empty() -> BookModel {
        BookModel { bids: Map::empty(), asks: Map::empty(), orders: Map::empty() }
    }

    pub open spec fn levels(self, side: Side) -> Levels {
        match side {
            Side::Buy => self.bids,
            Side::Sell => self.asks,
        }
    }

    pub open spec fn with_levels(self, side: Side, levels: Levels) -> BookModel {
        match side {
            Side::Buy => BookModel { bids: levels, ..self },
            Side::Sell => BookModel { asks: levels, ..self },
        }
    }

    /// No order has more filled than was ordered.
    pub open spec fn sane(self) -> bool {
        forall|id: Seq<char>| #[trigger] self.orders.contains_key(id) ==> self.orders[id].within_size()
    }

    /// The ask prices, lowest first.
    pub open spec fn ask_prices(self) -> Seq<u64> {
        sorted_ids::<u64>(self.asks.dom())
    }

    /// The bid prices, highest first.
    pub open spec fn bid_prices(self) -> Seq<u64> {
        sorted_ids::<u64>(self.bids.dom()).reverse()
    }

    /// `order` rests at the end of the queue of its price.
    pub open spec fn insert(self, order: Order) -> BookModel {
        let book = BookModel { orders: self.orders.insert(order.order_id.key(), order), ..self };
        book.with_levels(
            order.side,
            joined(self.levels(order.side), order.price_ticks, order.order_id.key()),
        )
    }

    /// The order `id` leaves its queue; its state stays.
    pub open spec fn dequeue(self, id: Seq<char>) -> BookModel {
        if self.orders.contains_key(id) {
            let order = self.orders[id];
            self.with_levels(order.side, left(self.levels(order.side), order.price_ticks, id))
        } else {
            self
        }
    }

    /// The order `id` can be cancelled.
    pub open spec fn is_open(self, id: Seq<char>) -> bool {
        self.orders.contains_key(id) && !self.orders[id].closed()
    }

    /// The order `id` is closed, is `order` from then on, and leaves its queue.
    pub open spec fn close_as(self, id: Seq<char>, order: Order) -> BookModel {
        BookModel { orders: self.orders.insert(id, order), ..self }.dequeue(id)
    }

    /// The order `id` is closed with `status` and leaves its queue.
    pub open spec fn close(self, id: Seq<char>, status: OrderStatus) -> BookModel {
        self.close_as(id, Order { status, ..self.orders[id] })
    }

    /// The state after a cancel of `id` with `status`: unchanged unless the
    /// order is open.
    pub open spec fn cancel(self, id: Seq<char>, status: OrderStatus) -> BookModel {
        if self.is_open(id) {
            self.close(id, status)
        } else {
            self
        }
    }
}

/// The age of an order among open orders: by the number of its acceptance, and
/// where that is the same, by its id.
pub struct Age {
    pub created: u64,
    pub id: String,
}

impl MapKey for Age {
    type Stored = Age;

    type Id = (u64, Seq<char>);

    open spec fn id(&self) -> (u64, Seq<char>) {
        (self.created, self.id@)
    }

    open spec fn stored_id(stored: &Age) -> (u64, Seq<char>) {
        (stored.created, stored.id@)
    }

    open spec fn before(a: (u64, Seq<char>), b: (u64, Seq<char>)) -> bool {
        a.0 < b.0 || (a.0 == b.0 && text_before(a.1, b.1))
    }

    proof fn before_irreflexive(a: (u64, Seq<char>)) {
        <str as MapKey>::before_irreflexive(a.1);
    }

    proof fn before_transitive(a: (u64, Seq<char>), b: (u64, Seq<char>), c: (u64, Seq<char>)) {
        if a.0 == b.0 && b.0 == c.0 {
            <str as MapKey>::before_transitive(a.1, b.1, c.1);
        }
    }

    proof fn before_total(a: (u64, Seq<char>), b: (u64, Seq<char>)) {
        lemma_text_total(a.1, b.1);
    }

    fn borrowed(stored: &Age) -> &Age {
        stored
    }

    fn rank(&self, other: &Age) -> Rank {
        proof {
            <str as MapKey>::before_irreflexive(self.id@);
        }
        if self.created < other.created {
            Rank::Before
        } else if self.created > other.created {
            Rank::After
        } else {
            compare_text(self.id.as_str(), other.id.as_str())
        }
    }
}

/// Every order is held under its own id.
pub open spec fn own_ids(orders: Map<Seq<char>, Order>) -> bool {
    forall|id: Seq<char>| #[trigger] orders.contains_key(id) ==> orders[id].order_id.key() == id
}

/// The ages of the open orders.
pub open spec fn open_ages(orders: Map<Seq<char>, Order>) -> Set<(u64, Seq<char>)> {
    Set::new(
        |age: (u64, Seq<char>)|
            orders.contains_key(age.1) && !orders[age.1].closed() && orders[age.1].created_sequence == age.0,
    )
}

/// The ids of the open orders, oldest first.
pub open spec fn oldest_first(orders: Map<Seq<char>, Order>) -> Seq<Seq<char>> {
    let ages = sorted_ids::<Age>(open_ages(orders));
    Seq::new(ages.len(), |i: int| ages[i].1)
}

/// The ids of the open orders, oldest first, are those of the open orders.
pub proof fn lemma_oldest_first(orders: Map<Seq<char>, Order>)
    requires
        open_ages(orders).finite(),
    ensures
        forall|id: Seq<char>| #[trigger] oldest_first(orders).contains(id) <==> orders.contains_key(id) && !orders[id].closed(),
        oldest_first(orders).no_duplicates(),
{
    let set = open_ages(orders);
    let ages = sorted_ids::<Age>(set);
    let list = oldest_first(orders);
    lemma_sorted_ids::<Age>(set);
    assert forall|id: Seq<char>| #[trigger] list.contains(id) <==> orders.contains_key(id) && !orders[id].closed() by {
        if list.contains(id) {
            let i = choose|i: int| 0 <= i < list.len() && list[i] == id;
            assert(ages.to_set().contains(ages[i]));
            assert(set.contains(ages[i]));
        }
        if orders.contains_key(id) && !orders[id].closed() {
            let age = (orders[id].created_sequence, id);
            assert(set.contains(age));
            assert(ages.to_set().contains(age));
            let i = choose|i: int| 0 <= i < ages.len() && ages[i] == age;
            assert(list[i] == id);
        }
    }
    assert forall|i: int, j: int| 0 <= i < j < list.len() implies list[i] != list[j] by {
        assert(ages.to_set().contains(ages[i]) && ages.to_set().contains(ages[j]));
        assert(set.contains(ages[i]) && set.contains(ages[j]));
        assert(Age::before(ages[i], ages[j]));
        Age::before_irreflexive(ages[i]);
    }
}

/// The ids of a queue.
pub open spec fn ids(queue: Seq<OrderId>) -> Seq<Seq<char>> {
    Seq::new(queue.len(), |i: int| queue[i].key())
}

pub open spec fn levels_of(levels: Map<u64, Vec<OrderId>>) -> Levels {
    Map::new(|price: u64| levels.contains_key(price), |price: u64| ids(levels[price]@))
}

/// The order book of one market.
#[derive(Debug)]
pub struct OrderBook {
    bids: OrdMap<u64, Vec<OrderId>>,
    asks: OrdMap<u64, Vec<OrderId>>,
    orders: OrdMap<str, Order>,
}

impl View for OrderBook {
    type V = BookModel;

    closed spec fn view(&self) -> BookModel {
        BookModel { bids: levels_of(self.bids@), asks: levels_of(self.asks@), orders: self.orders@ }
    }
}

impl Default for OrderBook {
    fn default() -> (book: OrderBook)
        ensures
            book@ == BookModel::empty(),
    {
        OrderBook::new()
    }
}

fn join(levels: &mut OrdMap<u64, Vec<OrderId>>, price: u64, id: OrderId)
    ensures
        levels_of(final(levels)@) == joined(levels_of(old(levels)@), price, id.key()),
{
    let ghost before = levels@;
    match levels.get_mut(&price) {
        Some(queue) => {
            queue.push(id);
            proof {
                assert(ids(queue@) =~= ids(before[price]@).push(id.key()));
            }
        },
        None => {
            let mut queue: Vec<OrderId> = Vec::new();
            queue.push(id);
            proof {
                assert(ids(queue@) =~= Seq::<Seq<char>>::empty().push(id.key()));
            }
            levels.insert(price, queue);
        },
    }
    proof {
        assert(levels_of(levels@) =~= joined(levels_of(before), price, id.key()));
    }
}

/// The ids of `queue` that are not `id`, in order.
fn queue_without(queue: &Vec<OrderId>, id: &OrderId) -> (rest: Vec<OrderId>)
    ensures
        ids(rest@) == without(ids(queue@), id.key()),
{
    let mut rest: Vec<OrderId> = Vec::new();
    let mut i: usize = 0;
    proof {
        assert(ids(queue@).take(0) =~= Seq::<Seq<char>>::empty());
        assert(ids(rest@) =~= Seq::<Seq<char>>::empty());
    }
    while i < queue.len()
        invariant
            i <= queue@.len(),
            ids(rest@) == without(ids(queue@).take(i as int), id.key()),
        decreases queue@.len() - i,
    {
        let ghost before = rest@;
        proof {
            let next = ids(queue@).take(i + 1);
            assert(next.drop_last() =~= ids(queue@).take(i as int));
            assert(next.last() == queue@[i as int].key());
        }
        if !same_text(queue[i].0.as_str(), id.0.as_str()) {
            rest.push(queue[i].clone());
            proof {
                assert(ids(rest@) =~= ids(before).push(queue@[i as int].key()));
            }
        }
        i = i + 1;
    }
    proof {
        assert(ids(queue@).take(i as int) =~= ids(queue@));
    }
    rest
}

fn leave(levels: &mut OrdMap<u64, Vec<OrderId>>, price: u64, id: &OrderId)
    ensures
        levels_of(final(levels)@) == left(levels_of(old(levels)@), price, id.key()),
{
    let ghost before = levels@;
    let rest = match levels.get(&price) {
        Some(queue) => queue_without(queue, id),
        None => {
            return;
        },
    };
    proof {
        assert(ids(rest@).len() == rest@.len());
    }
    if rest.len() == 0 {
        levels.remove(&price);
    } else {
        levels.insert(price, rest);
    }
    proof {
        assert(levels_of(levels@) =~= left(levels_of(before), price, id.key()));
    }
}

/// A copy of a queue.
fn copy_queue(queue: &Vec<OrderId>) -> (copy: Vec<OrderId>)
    ensures
        copy@ == queue@,
{
    let mut copy: Vec<OrderId> = Vec::new();
    let mut i: usize = 0;
    while i < queue.len()
        invariant
            i <= queue@.len(),
            copy@ == queue@.take(i as int),
        decreases queue@.len() - i,
    {
        copy.push(queue[i].clone());
        i = i + 1;
        proof {
            assert(copy@ =~= queue@.take(i as int));
        }
    }
    proof {
        assert(queue@.take(i as int) =~= queue@);
    }
    copy
}

/// A copy of the levels of a side.
fn copy_levels(levels: &OrdMap<u64, Vec<OrderId>>) -> (copy: OrdMap<u64, Vec<OrderId>>)
    ensures
        levels_of(copy@) == levels_of(levels@),
{
    let mut copy: OrdMap<u64, Vec<OrderId>> = OrdMap::new();
    let n: usize = levels.len();
    let ghost keys = levels.order();
    let mut i: usize = 0;
    while i < n
        invariant
            i <= n,
            n == keys.len(),
            keys == levels.order(),
            keys.to_set() == levels@.dom(),
            forall|p: u64| #[trigger] copy@.contains_key(p) <==> keys.take(i as int).contains(p),
            forall|p: u64| #[trigger] copy@.contains_key(p) ==> copy@[p]@ == levels@[p]@,
        decreases n - i,
    {
        copy.insert(*levels.key_at(i), copy_queue(levels.value_at(i)));
        proof {
            lemma_take_one_more(keys, i as int);
        }
        i = i + 1;
    }
    proof {
        assert(keys.take(i as int) =~= keys);
        assert forall|p: u64| copy@.contains_key(p) <==> levels@.contains_key(p) by {
            assert(keys.to_set().contains(p) <==> levels@.dom().contains(p));
        }
        assert(levels_of(copy@) =~= levels_of(levels@));
    }
    copy
}

/// A copy of the orders of a book.
fn copy_orders(orders: &OrdMap<str, Order>) -> (copy: OrdMap<str, Order>)
    ensures
        copy@ == orders@,
{
    let mut copy: OrdMap<str, Order> = OrdMap::new();
    let n: usize = orders.len();
    let ghost keys = orders.order();
    let mut i: usize = 0;
    while i < n
        invariant
            i <= n,
            n == keys.len(),
            keys == orders.order(),
            keys.to_set() == orders@.dom(),
            forall|id: Seq<char>| #[trigger] copy@.contains_key(id) <==> keys.take(i as int).contains(id),
            forall|id: Seq<char>| #[trigger] copy@.contains_key(id) ==> copy@[id] == orders@[id],
        decreases n - i,
    {
        copy.insert(orders.key_at(i).to_owned(), orders.value_at(i).clone());
        proof {
            lemma_take_one_more(keys, i as int);
        }
        i = i + 1;
    }
    proof {
        assert(keys.take(i as int) =~= keys);
        assert forall|id: Seq<char>| copy@.contains_key(id) <==> orders@.contains_key(id) by {
            assert(keys.to_set().contains(id) <==> orders@.dom().contains(id));
        }
        assert(copy@ =~= orders@);
    }
    copy
}

/// The sum of what is left of the orders in `queue`, unless it does not fit.
fn sum_queue(orders: &OrdMap<str, Order>, queue: &Vec<OrderId>) -> (r: Option<u64>)
    ensures
        match r {
            Some(n) => queue_fits(orders@, ids(queue@)) && n == queue_qty(orders@, ids(queue@)),
            None => !queue_fits(orders@, ids(queue@)),
        },
{
    let mut total: u64 = 0;
    let mut i: usize = 0;
    let ghost q = ids(queue@);
    proof {
        assert(q.take(0) =~= Seq::<Seq<char>>::empty());
    }
    while i < queue.len()
        invariant
            q == ids(queue@),
            i <= queue@.len(),
            total == queue_qty(orders@, q.take(i as int)),
            queue_fits(orders@, q.take(i as int)),
        decreases queue@.len() - i,
    {
        proof {
            let next = q.take(i + 1);
            assert(next.drop_last() =~= q.take(i as int));
            assert(next.last() == queue@[i as int].key());
            assert(q[i as int] == queue@[i as int].key());
        }
        match orders.get(queue[i].0.as_str()) {
            Some(order) => {
                if order.filled_size_lots > order.orig_size_lots {
                    return None;
                }
                let left: u64 = order.remaining_size_lots();
                if left > u64::MAX - total {
                    proof {
                        if queue_fits(orders@, q) {
                            lemma_queue_qty_grows(orders@, q, i + 1);
                        }
                    }
                    return None;
                }
                total = total + left;
            },
            None => {},
        }
        i = i + 1;
        proof {
            let done = q.take(i as int);
            assert forall|j: int| 0 <= j < done.len() && orders@.contains_key(#[trigger] done[j]) implies orders@[done[j]].within_size() by {
                if j < i - 1 {
                    assert(done[j] == q.take(i - 1)[j]);
                }
            }
        }
    }
    proof {
        assert(q.take(i as int) =~= q);
    }
    Some(total)
}

proof fn lemma_queue_qty_grows(orders: Map<Seq<char>, Order>, queue: Seq<Seq<char>>, i: int)
    requires
        0 <= i <= queue.len(),
        queue_fits(orders, queue),
    ensures
        queue_qty(orders, queue.take(i)) <= queue_qty(orders, queue),
    decreases queue.len() - i,
{
    if i < queue.len() {
        let next = queue.take(i + 1);
        assert(next.drop_last() =~= queue.take(i));
        assert(next.last() == queue[i]);
        lemma_queue_qty_grows(orders, queue, i + 1);
    } else {
        assert(queue.take(i) =~= queue);
    }
}

/// The open orders, by age.
pub(crate) fn open_by_age(orders: &OrdMap<str, Order>) -> (open: OrdMap<Age, Order>)
    ensures
        forall|age: (u64, Seq<char>)| #[trigger]
            open@.contains_key(age) <==> orders@.contains_key(age.1) && !orders@[age.1].closed()
                && orders@[age.1].created_sequence == age.0,
        forall|age: (u64, Seq<char>)| #[trigger] open@.contains_key(age) ==> open@[age] == orders@[age.1],
        open@.dom() == open_ages(orders@),
{
    let mut open: OrdMap<Age, Order> = OrdMap::new();
    let n: usize = orders.len();
    let ghost all = orders.order();
    let mut i: usize = 0;
    while i < n
        invariant
            n == all.len(),
            all == orders.order(),
            all.no_duplicates(),
            all.to_set() == orders@.dom(),
            i <= n,
            forall|age: (u64, Seq<char>)| #[trigger]
                open@.contains_key(age) <==> all.take(i as int).contains(age.1) && !orders@[age.1].closed()
                    && orders@[age.1].created_sequence == age.0,
            forall|age: (u64, Seq<char>)| #[trigger] open@.contains_key(age) ==> open@[age] == orders@[age.1],
        decreases n - i,
    {
        let order = orders.value_at(i);
        proof {
            lemma_take_one_more(all, i as int);
        }
        if !order.is_closed() {
            let key = Age { created: order.created_sequence, id: orders.key_at(i).to_owned() };
            open.insert(key, order.clone());
        }
        i = i + 1;
    }
    proof {
        assert(all.take(i as int) =~= all);
        assert forall|id: Seq<char>| all.contains(id) <==> orders@.contains_key(id) by {
            assert(all.to_set().contains(id) <==> orders@.dom().contains(id));
        }
        assert(open@.dom() =~= open_ages(orders@));
    }
    open
}

/// The place of the `k`-th best of `n` prices in ascending order.
fn place(n: usize, k: usize, highest_first: bool) -> (i: usize)
    requires
        k < n,
    ensures
        i < n,
        i == (if highest_first { n - 1 - k } else { k as int }),
{
    if highest_first {
        n - 1 - k
    } else {
        k
    }
}

/// The prices of a side in the order of the book.
pub open spec fn ranked(prices: Seq<u64>, highest_first: bool) -> Seq<u64> {
    if highest_first {
        prices.reverse()
    } else {
        prices
    }
}

fn depth_of(
    orders: &OrdMap<str, Order>,
    levels: &OrdMap<u64, Vec<OrderId>>,
    depth: usize,
    highest_first: bool,
) -> (r: Option<Vec<PriceLevel>>)
    ensures
        ({
            let prices = top(ranked(sorted_ids::<u64>(levels@.dom()), highest_first), depth);
            match r {
                Some(shown) => rows_fit(orders@, levels_of(levels@), prices) && shown@ == rows(
                    orders@,
                    levels_of(levels@),
                    prices,
                ),
                None => !rows_fit(orders@, levels_of(levels@), prices),
            }
        }),
        levels@.dom().finite(),
{
    let mut shown: Vec<PriceLevel> = Vec::new();
    let n: usize = levels.len();
    let ghost all = ranked(sorted_ids::<u64>(levels@.dom()), highest_first);
    let ghost prices = top(all, depth);
    let mut k: usize = 0;
    while k < n && k < depth
        invariant
            n == levels.order().len(),
            levels@.dom().finite(),
            levels.order() == sorted_ids::<u64>(levels@.dom()),
            all == ranked(sorted_ids::<u64>(levels@.dom()), highest_first),
            prices == top(all, depth),
            k <= prices.len(),
            prices.len() == (if depth < n { depth } else { n }),
            shown@ == rows(orders@, levels_of(levels@), prices.take(k as int)),
            rows_fit(orders@, levels_of(levels@), prices.take(k as int)),
        decreases n - k,
    {
        let i: usize = place(n, k, highest_first);
        let price: u64 = *levels.key_at(i);
        let queue = levels.value_at(i);
        proof {
            assert(price == all[k as int]);
            assert(prices[k as int] == price);
            assert(levels_of(levels@)[price] == ids(queue@));
        }
        match sum_queue(orders, queue) {
            Some(total_qty) => {
                shown.push(PriceLevel { price, total_qty, order_count: queue.len() });
            },
            None => {
                return None;
            },
        }
        k = k + 1;
        proof {
            let done = prices.take(k as int);
            assert(done.len() == k);
            assert(shown@ =~= rows(orders@, levels_of(levels@), done));
            assert forall|j: int| 0 <= j < done.len() implies queue_fits(orders@, levels_of(levels@)[#[trigger] done[j]]) by {
                if j < k - 1 {
                    assert(done[j] == prices.take(k - 1)[j]);
                }
            }
        }
    }
    proof {
        assert(prices.take(k as int) =~= prices);
    }
    Some(shown)
}

impl OrderBook {
    pub fn new() -> (book: OrderBook)
        ensures
            book@ == BookModel::empty(),
    {
        let book = OrderBook { bids: OrdMap::new(), asks: OrdMap::new(), orders: OrdMap::new() };
        proof {
            assert(book@ =~= BookModel::empty());
        }
        book
    }

    /// A copy of the book.
    pub fn copy(&self) -> (copy: OrderBook)
        ensures
            copy@ == self@,
    {
        OrderBook {
            bids: copy_levels(&self.bids),
            asks: copy_levels(&self.asks),
            orders: copy_orders(&self.orders),
        }
    }

    /// Let an order rest in the book, behind the orders at its price.
    pub fn insert(&mut self, order: Order)
        ensures
            final(self)@ == old(self)@.insert(order),
    {
        let id = order.order_id.clone();
        let price: u64 = order.price_ticks;
        let side = order.side;
        self.orders.insert(id.0.clone(), order);
        match side {
            Side::Buy => join(&mut self.bids, price, id),
            Side::Sell => join(&mut self.asks, price, id),
        }
    }

    /// Cancel an order. `false` where there is no such order or it is closed.
    pub fn cancel(&mut self, id: &OrderId) -> (done: bool)
        ensures
            done == old(self)@.is_open(id.key()),
            final(self)@ == old(self)@.cancel(id.key(), OrderStatus::Cancelled),
    {
        self.cancel_with_status(id, OrderStatus::Cancelled)
    }

    /// Close an order with the given status. `false` where there is no such
    /// order or it is closed.
    pub fn cancel_with_status(&mut self, id: &OrderId, status: OrderStatus) -> (done: bool)
        ensures
            done == old(self)@.is_open(id.key()),
            final(self)@ == old(self)@.cancel(id.key(), status),
    {
        match self.orders.get_mut(id.0.as_str()) {
            Some(order) => {
                if order.is_closed() {
                    proof {
                        assert(old(self).orders@.insert(id.key(), *order) =~= old(self).orders@);
                    }
                    return false;
                }
                order.status = status;
            },
            None => {
                return false;
            },
        }
        self.remove_from_queue_inner(id);
        true
    }

    /// Take an order out of its queue and leave its state as it is.
    pub fn remove_from_queue(&mut self, id: &OrderId)
        ensures
            final(self)@ == old(self)@.dequeue(id.key()),
    {
        self.remove_from_queue_inner(id);
    }

    /// The order with this id.
    pub fn get(&self, id: &OrderId) -> (r: Option<&Order>)
        ensures
            match r {
                Some(order) => self@.orders.contains_key(id.key()) && *order == self@.orders[id.key()],
                None => !self@.orders.contains_key(id.key()),
            },
    {
        self.orders.get(id.0.as_str())
    }

    /// The order with this id, to change it in place.
    pub fn get_mut(&mut self, id: &OrderId) -> (r: Option<&mut Order>)
        ensures
            match r {
                Some(order) => {
                    &&& old(self)@.orders.contains_key(id.key())
                    &&& *order == old(self)@.orders[id.key()]
                    &&& final(self)@ == (BookModel {
                        orders: old(self)@.orders.insert(id.key(), *final(order)),
                        ..old(self)@
                    })
                },
                None => !old(self)@.orders.contains_key(id.key()) && final(self)@ == old(self)@,
            },
    {
        self.orders.get_mut(id.0.as_str())
    }

    /// The highest bid.
    pub fn best_bid(&self) -> (r: Option<u64>)
        ensures
            is_best_bid(self@, r),
    {
        let n: usize = self.bids.len();
        if n == 0 {
            proof {
                assert forall|p: u64| !self.bids@.contains_key(p) by {
                    assert(!self.bids.order().to_set().contains(p));
                }
            }
            return None;
        }
        let best: u64 = *self.bids.key_at(n - 1);
        proof {
            assert forall|p: u64| #[trigger] self@.bids.contains_key(p) implies p <= best by {
                assert(self.bids.order().to_set().contains(p));
                let i = choose|i: int| 0 <= i < n && self.bids.order()[i] == p;
            }
        }
        Some(best)
    }

    /// The lowest ask.
    pub fn best_ask(&self) -> (r: Option<u64>)
        ensures
            is_best_ask(self@, r),
    {
        let n: usize = self.asks.len();
        if n == 0 {
            proof {
                assert forall|p: u64| !self.asks@.contains_key(p) by {
                    assert(!self.asks.order().to_set().contains(p));
                }
            }
            return None;
        }
        let best: u64 = *self.asks.key_at(0);
        proof {
            assert forall|p: u64| #[trigger] self@.asks.contains_key(p) implies best <= p by {
                assert(self.asks.order().to_set().contains(p));
                let i = choose|i: int| 0 <= i < n && self.asks.order()[i] == p;
            }
        }
        Some(best)
    }

    /// The ask prices, lowest first.
    pub fn ask_prices_asc(&self) -> (prices: Vec<u64>)
        ensures
            prices@ == self@.ask_prices(),
            self@.asks.dom().finite(),
    {
        let mut prices: Vec<u64> = Vec::new();
        let n: usize = self.asks.len();
        let mut i: usize = 0;
        while i < n
            invariant
                i <= n,
                n == self.asks.order().len(),
                prices@ == self.asks.order().take(i as int),
            decreases n - i,
        {
            prices.push(*self.asks.key_at(i));
            i = i + 1;
            proof {
                assert(prices@ =~= self.asks.order().take(i as int));
            }
        }
        proof {
            assert(self.asks.order().take(i as int) =~= self.asks.order());
            assert(self@.asks.dom() =~= self.asks@.dom());
        }
        prices
    }

    /// The bid prices, highest first.
    pub fn bid_prices_desc(&self) -> (prices: Vec<u64>)
        ensures
            prices@ == self@.bid_prices(),
            self@.bids.dom().finite(),
    {
        let mut prices: Vec<u64> = Vec::new();
        let n: usize = self.bids.len();
        let mut i: usize = 0;
        while i < n
            invariant
                i <= n,
                n == self.bids.order().len(),
                prices@ == self.bids.order().reverse().take(i as int),
            decreases n - i,
        {
            prices.push(*self.bids.key_at(n - 1 - i));
            i = i + 1;
            proof {
                assert(prices@ =~= self.bids.order().reverse().take(i as int));
            }
        }
        proof {
            assert(self.bids.order().reverse().take(i as int) =~= self.bids.order().reverse());
            assert(self@.bids.dom() =~= self.bids@.dom());
        }
        prices
    }

    /// A copy of the queue at a price, oldest order first.
    pub fn orders_at_price(&self, price: u64, side: Side) -> (queue: Vec<OrderId>)
        ensures
            ids(queue@) == queue_at(self@.levels(side), price),
    {
        let found = match side {
            Side::Buy => self.bids.get(&price),
            Side::Sell => self.asks.get(&price),
        };
        match found {
            Some(queue) => copy_queue(queue),
            None => {
                let empty: Vec<OrderId> = Vec::new();
                proof {
                    assert(ids(empty@) =~= Seq::<Seq<char>>::empty());
                }
                empty
            },
        }
    }

    /// The length of the queue at a price.
    pub fn queue_len(&self, price: u64, side: Side) -> (n: usize)
        ensures
            n == queue_at(self@.levels(side), price).len(),
    {
        let found = match side {
            Side::Buy => self.bids.get(&price),
            Side::Sell => self.asks.get(&price),
        };
        match found {
            Some(queue) => queue.len(),
            None => 0,
        }
    }

    /// The number of orders in the book, open and closed.
    pub fn order_count(&self) -> (n: usize)
        ensures
            n == self@.orders.len(),
            self@.orders.dom().finite(),
    {
        self.orders.len()
    }

    /// The ids of the open orders, oldest first.
    pub fn open_orders(&self) -> (open: Vec<OrderId>)
        ensures
            ids(open@) == oldest_first(self@.orders),
            open_ages(self@.orders).finite(),
    {
        let by_age = open_by_age(&self.orders);
        let n: usize = by_age.len();
        let ghost ages = by_age.order();
        let mut open: Vec<OrderId> = Vec::new();
        let mut i: usize = 0;
        while i < n
            invariant
                i <= n,
                n == ages.len(),
                ages == by_age.order(),
                ids(open@) == Seq::new(i as nat, |j: int| ages[j].1),
            decreases n - i,
        {
            let age = by_age.key_at(i);
            let ghost before = ids(open@);
            open.push(OrderId(age.id.clone()));
            i = i + 1;
            proof {
                assert(age.id@ == ages[i - 1].1);
                assert(ids(open@) =~= before.push(age.id@));
                assert(ids(open@) =~= Seq::new(i as nat, |j: int| ages[j].1));
            }
        }
        proof {
            assert(ids(open@) =~= oldest_first(self@.orders));
        }
        open
    }

    /// The bid levels, highest price first, at most `depth` of them.
    pub fn l2_bids(&self, depth: usize) -> (shown: Vec<PriceLevel>)
        requires
            rows_fit(self@.orders, self@.bids, top(self@.bid_prices(), depth)),
        ensures
            shown@ == rows(self@.orders, self@.bids, top(self@.bid_prices(), depth)),
            self@.bids.dom().finite(),
    {
        self.try_l2_bids(depth).unwrap()
    }

    /// The ask levels, lowest price first, at most `depth` of them.
    pub fn l2_asks(&self, depth: usize) -> (shown: Vec<PriceLevel>)
        requires
            rows_fit(self@.orders, self@.asks, top(self@.ask_prices(), depth)),
        ensures
            shown@ == rows(self@.orders, self@.asks, top(self@.ask_prices(), depth)),
            self@.asks.dom().finite(),
    {
        self.try_l2_asks(depth).unwrap()
    }

    /// As [`OrderBook::l2_bids`]; `None` where a sum does not fit in 64 bits or
    /// an order has more filled than was ordered.
    pub fn try_l2_bids(&self, depth: usize) -> (r: Option<Vec<PriceLevel>>)
        ensures
            match r {
                Some(shown) => rows_fit(self@.orders, self@.bids, top(self@.bid_prices(), depth))
                    && shown@ == rows(self@.orders, self@.bids, top(self@.bid_prices(), depth)),
                None => !rows_fit(self@.orders, self@.bids, top(self@.bid_prices(), depth)),
            },
            self@.bids.dom().finite(),
    {
        proof {
            assert(self@.bids.dom() =~= self.bids@.dom());
        }
        depth_of(&self.orders, &self.bids, depth, true)
    }

    /// As [`OrderBook::l2_asks`]; `None` where a sum does not fit in 64 bits or
    /// an order has more filled than was ordered.
    pub fn try_l2_asks(&self, depth: usize) -> (r: Option<Vec<PriceLevel>>)
        ensures
            match r {
                Some(shown) => rows_fit(self@.orders, self@.asks, top(self@.ask_prices(), depth))
                    && shown@ == rows(self@.orders, self@.asks, top(self@.ask_prices(), depth)),
                None => !rows_fit(self@.orders, self@.asks, top(self@.ask_prices(), depth)),
            },
            self@.asks.dom().finite(),
    {
        proof {
            assert(self@.asks.dom() =~= self.asks@.dom());
        }
        depth_of(&self.orders, &self.asks, depth, false)
    }

    fn remove_from_queue_inner(&mut self, id: &OrderId)
        ensures
            final(self)@ == old(self)@.dequeue(id.key()),
    {
        let (price, side) = match self.orders.get(id.0.as_str()) {
            Some(order) => (order.price_ticks, order.side),
            None => {
                return;
            },
        };
        match side {
            Side::Buy => leave(&mut self.bids, price, id),
            Side::Sell => leave(&mut self.asks, price, id),
        }
    }
}

} // verus!
