//! Checks before an order reaches the engine: how often a trader submits, how
//! large an order is, and how far its price lies from the last traded one.
use crate::clock::{Clock, Held, SystemClock};
use crate::domain::order::Fill;
use crate::ordmap::{lemma_take_one_more, OrdMap};
use crate::text::{append_decimal, decimal};
use vstd::prelude::*;
use vstd::string::StringExecFns;

verus! {

/// The limits of one market.
#[derive(Debug, Clone, Copy)]
pub struct MarketRiskConfig {
    /// The largest size of a single order, in lots.
    pub max_order_size_lots: u64,
    /// How far a price may lie from the reference price, in basis points of it.
    /// 0 for no limit.
    pub price_band_bps: u64,
}

impl Default for MarketRiskConfig {
    fn default() -> (c: MarketRiskConfig)
        ensures
            c == (MarketRiskConfig { max_order_size_lots: 1_000_000, price_band_bps: 0 }),
    {
        MarketRiskConfig { max_order_size_lots: 1_000_000, price_band_bps: 0 }
    }
}

/// The limits of the exchange.
#[derive(Debug)]
pub struct RiskConfig {
    /// How many orders a trader may submit in a window.
    pub max_orders_per_window: u64,
    /// The length of the window in milliseconds.
    pub window_ms: u64,
    /// The limits of single markets. A market that is not here has none.
    pub markets: OrdMap<str, MarketRiskConfig>,
}

impl Default for RiskConfig {
    fn default() -> (c: RiskConfig)
        ensures
            c.max_orders_per_window == 100,
            c.window_ms == 1_000,
            c.markets@ == Map::<Seq<char>, MarketRiskConfig>::empty(),
    {
        RiskConfig { max_orders_per_window: 100, window_ms: 1_000, markets: OrdMap::new() }
    }
}

impl Clone for RiskConfig {
    fn clone(&self) -> (copy: RiskConfig)
        ensures
            copy.max_orders_per_window == self.max_orders_per_window,
            copy.window_ms == self.window_ms,
            copy.markets@ == self.markets@,
    {
        let mut markets: OrdMap<str, MarketRiskConfig> = OrdMap::new();
        let n: usize = self.markets.len();
        let ghost keys = self.markets.order();
        let mut i: usize = 0;
        while i < n
            invariant
                i <= n,
                n == keys.len(),
                keys == self.markets.order(),
                keys.to_set() == self.markets@.dom(),
                forall|k: Seq<char>| #[trigger] markets@.contains_key(k) <==> keys.take(i as int).contains(k),
                forall|k: Seq<char>| #[trigger] markets@.contains_key(k) ==> markets@[k] == self.markets@[k],
            decreases n - i,
        {
            markets.insert(self.markets.key_at(i).to_owned(), *self.markets.value_at(i));
            proof {
                lemma_take_one_more(keys, i as int);
            }
            i = i + 1;
        }
        proof {
            assert(keys.take(i as int) =~= keys);
            assert forall|k: Seq<char>| markets@.contains_key(k) <==> self.markets@.contains_key(k) by {
                assert(keys.to_set().contains(k) <==> self.markets@.dom().contains(k));
            }
            assert(markets@ =~= self.markets@);
        }
        RiskConfig { max_orders_per_window: self.max_orders_per_window, window_ms: self.window_ms, markets }
    }
}

/// Why a check failed.
#[derive(Debug)]
pub enum RiskError {
    RateLimitExceeded { trader_id: String, count: u64, window_ms: u64, max: u64 },
    OrderTooLarge { market_id: String, size_lots: u64, max_lots: u64 },
    PriceOutsideBand { market_id: String, price_ticks: u64, reference_ticks: u64, band_bps: u64 },
}

impl RiskError {
    /// The text of [`RiskError::message`].
    pub open spec fn text(&self) -> Seq<char> {
        match self {
            RiskError::RateLimitExceeded { trader_id, count, window_ms, max } => "rate limit exceeded: trader '"@
                + trader_id@ + "' submitted "@ + decimal(*count as nat) + " orders in "@ + decimal(
                *window_ms as nat,
            ) + "ms (max "@ + decimal(*max as nat) + ")"@,
            RiskError::OrderTooLarge { market_id, size_lots, max_lots } => "order size "@ + decimal(
                *size_lots as nat,
            ) + " exceeds max allowed "@ + decimal(*max_lots as nat) + " for market '"@ + market_id@ + "'"@,
            RiskError::PriceOutsideBand { market_id, price_ticks, reference_ticks, band_bps } => "price "@
                + decimal(*price_ticks as nat) + " is outside the "@ + decimal(*band_bps as nat)
                + "bps band around reference price "@ + decimal(*reference_ticks as nat) + " for market '"@
                + market_id@ + "'"@,
        }
    }

    /// The error in words.
    pub fn message(&self) -> (s: String)
        ensures
            s@ == self.text(),
    {
        match self {
            RiskError::RateLimitExceeded { trader_id, count, window_ms, max } => {
                let mut s = "rate limit exceeded: trader '".to_owned();
                s.append(trader_id.as_str());
                s.append("' submitted ");
                append_decimal(&mut s, *count);
                s.append(" orders in ");
                append_decimal(&mut s, *window_ms);
                s.append("ms (max ");
                append_decimal(&mut s, *max);
                s.append(")");
                s
            },
            RiskError::OrderTooLarge { market_id, size_lots, max_lots } => {
                let mut s = "order size ".to_owned();
                append_decimal(&mut s, *size_lots);
                s.append(" exceeds max allowed ");
                append_decimal(&mut s, *max_lots);
                s.append(" for market '");
                s.append(market_id.as_str());
                s.append("'");
                s
            },
            RiskError::PriceOutsideBand { market_id, price_ticks, reference_ticks, band_bps } => {
                let mut s = "price ".to_owned();
                append_decimal(&mut s, *price_ticks);
                s.append(" is outside the ");
                append_decimal(&mut s, *band_bps);
                s.append("bps band around reference price ");
                append_decimal(&mut s, *reference_ticks);
                s.append(" for market '");
                s.append(market_id.as_str());
                s.append("'");
                s
            },
        }
    }
}

/// What a risk checker holds.
#[verifier::ext_equal]
pub struct RiskModel {
    pub max_orders: u64,
    pub window_ms: u64,
    /// The limits of single markets.
    pub limits: Map<Seq<char>, MarketRiskConfig>,
    /// The times of the submissions that are remembered, by trader.
    pub windows: Map<Seq<char>, Seq<u64>>,
    /// The reference price, by market.
    pub references: Map<Seq<char>, u64>,
    /// The times that the clock can tell.
    pub times: Set<u64>,
}

/// Those of `times` that are not before `start`.
pub open spec fn since(times: Seq<u64>, start: u64) -> Seq<u64>
    decreases times.len(),
{
    if times.len() == 0 {
        times
    } else if times.last() >= start {
        since(times.drop_last(), start).push(times.last())
    } else {
        since(times.drop_last(), start)
    }
}

/// The start of the window that ends at `now`.
pub open spec fn window_start(now: u64, window_ms: u64) -> u64 {
    if now >= window_ms {
        (now - window_ms) as u64
    } else {
        0
    }
}

/// How far a price may lie from `reference`: `bps` basis points of it. The
/// product is capped at 2^64 - 1.
pub open spec fn band_width(reference: u64, bps: u64) -> u64 {
    let product = reference * bps;
    if product <= u64::MAX {
        (product / 10_000) as u64
    } else {
        u64::MAX / 10_000
    }
}

/// `price` lies in the band of `bps` basis points around `reference`.
pub open spec fn in_band(price: u64, reference: u64, bps: u64) -> bool {
    let width = band_width(reference, bps);
    reference - width <= price <= reference + width
}

impl RiskModel {
    /// A checker that remembers nothing yet, whose clock can tell `times`.
    pub open spec fn fresh(config: RiskConfig, times: Set<u64>) -> RiskModel {
        RiskModel {
            max_orders: config.max_orders_per_window,
            window_ms: config.window_ms,
            limits: config.markets@,
            windows: Map::empty(),
            references: Map::empty(),
            times,
        }
    }

    /// The times remembered for a trader.
    pub open spec fn window(self, trader: Seq<char>) -> Seq<u64> {
        if self.windows.contains_key(trader) {
            self.windows[trader]
        } else {
            Seq::empty()
        }
    }

    /// The submissions of a trader in the window that ends at `now`.
    pub open spec fn recent(self, trader: Seq<char>, now: u64) -> Seq<u64> {
        since(self.window(trader), window_start(now, self.window_ms))
    }

    /// The state after a submission at `now`.
    pub open spec fn recorded(self, trader: Seq<char>, now: u64) -> RiskModel {
        RiskModel { windows: self.windows.insert(trader, self.recent(trader, now).push(now)), ..self }
    }

    pub open spec fn too_often(self, trader: Seq<char>, now: u64) -> bool {
        self.recent(trader, now).len() >= self.max_orders
    }

    pub open spec fn too_large(self, market: Seq<char>, size: u64) -> bool {
        self.limits.contains_key(market) && size > self.limits[market].max_order_size_lots
    }

    pub open spec fn out_of_band(self, market: Seq<char>, price: u64) -> bool {
        &&& self.limits.contains_key(market)
        &&& self.limits[market].price_band_bps > 0
        &&& self.references.contains_key(market)
        &&& !in_band(price, self.references[market], self.limits[market].price_band_bps)
    }

    /// `r` is the answer to a check at `now`, and `after` what becomes of the
    /// checker. The first check that fails decides, and then nothing changes.
    pub open spec fn answers(
        self,
        now: u64,
        trader: Seq<char>,
        market: Seq<char>,
        price: u64,
        size: u64,
        after: RiskModel,
        r: Result<(), RiskError>,
    ) -> bool {
        if self.too_often(trader, now) {
            &&& after == self
            &&& r matches Err(RiskError::RateLimitExceeded { trader_id, count, window_ms, max }) && trader_id@
                == trader && count == self.recent(trader, now).len() && window_ms == self.window_ms && max
                == self.max_orders
        } else if self.too_large(market, size) {
            &&& after == self
            &&& r matches Err(RiskError::OrderTooLarge { market_id, size_lots, max_lots }) && market_id@ == market
                && size_lots == size && max_lots == self.limits[market].max_order_size_lots
        } else if self.out_of_band(market, price) {
            &&& after == self
            &&& r matches Err(
                RiskError::PriceOutsideBand { market_id, price_ticks, reference_ticks, band_bps },
            ) && market_id@ == market && price_ticks == price && reference_ticks == self.references[market]
                && band_bps == self.limits[market].price_band_bps
        } else {
            &&& after == self.recorded(trader, now)
            &&& r is Ok
        }
    }
}

/// The times of a trader's submissions.
struct TraderWindow {
    timestamps: Vec<u64>,
}

/// The checks, with what they remember.
pub struct RiskChecker {
    config: RiskConfig,
    windows: OrdMap<str, TraderWindow>,
    reference_prices: OrdMap<str, u64>,
    clock: Held<Box<dyn Clock>>,
}

spec fn times_of(windows: Map<Seq<char>, TraderWindow>) -> Map<Seq<char>, Seq<u64>> {
    Map::new(|t: Seq<char>| windows.contains_key(t), |t: Seq<char>| windows[t].timestamps@)
}

impl View for RiskChecker {
    type V = RiskModel;

    closed spec fn view(&self) -> RiskModel {
        RiskModel {
            max_orders: self.config.max_orders_per_window,
            window_ms: self.config.window_ms,
            limits: self.config.markets@,
            windows: times_of(self.windows@),
            references: self.reference_prices@,
            times: Set::new(|now: u64| self.clock.0.tells(now)),
        }
    }
}

/// Those of `times` that are not before `start`.
fn keep_since(times: &Vec<u64>, start: u64) -> (kept: Vec<u64>)
    ensures
        kept@ == since(times@, start),
{
    let mut kept: Vec<u64> = Vec::new();
    let mut i: usize = 0;
    proof {
        assert(times@.take(0) =~= Seq::<u64>::empty());
    }
    while i < times.len()
        invariant
            i <= times@.len(),
            kept@ == since(times@.take(i as int), start),
        decreases times@.len() - i,
    {
        proof {
            let next = times@.take(i + 1);
            assert(next.drop_last() =~= times@.take(i as int));
            assert(next.last() == times@[i as int]);
        }
        if times[i] >= start {
            kept.push(times[i]);
        }
        i = i + 1;
    }
    proof {
        assert(times@.take(i as int) =~= times@);
    }
    kept
}

impl RiskChecker {
    /// A checker that goes by the system time, which can be any.
    pub fn new(config: RiskConfig) -> (c: RiskChecker)
        ensures
            c@ == RiskModel::fresh(config, Set::full()),
    {
        let c = RiskChecker::with_clock(config, Box::new(SystemClock));
        proof {
            assert(c@.times =~= Set::full());
        }
        c
    }

    /// A checker that goes by `clock`: the times it will go by are those that
    /// `clock` can tell.
    pub fn with_clock(config: RiskConfig, clock: Box<dyn Clock>) -> (c: RiskChecker)
        ensures
            c@ == RiskModel::fresh(config, Set::new(|now: u64| clock.tells(now))),
    {
        let ghost times = Set::new(|now: u64| clock.tells(now));
        let clock = Held(clock);
        let c = RiskChecker { config, windows: OrdMap::new(), reference_prices: OrdMap::new(), clock };
        proof {
            assert(c@.times =~= times);
            assert(c@.windows =~= Map::<Seq<char>, Seq<u64>>::empty());
        }
        c
    }

    /// Set the reference price of a market.
    pub fn update_reference_price(&mut self, market_id: &str, price_ticks: u64)
        ensures
            final(self)@ == (RiskModel {
                references: old(self)@.references.insert(market_id@, price_ticks),
                ..old(self)@
            }),
    {
        self.reference_prices.insert(market_id.to_owned(), price_ticks);
    }

    /// Set the reference prices by the fills of an order: the last one of a
    /// market decides.
    pub fn note_fills(&mut self, fills: &Vec<Fill>)
        ensures
            final(self)@ == (RiskModel {
                references: referenced(old(self)@.references, fills@),
                ..old(self)@
            }),
    {
        let mut i: usize = 0;
        proof {
            assert(fills@.take(0) =~= Seq::<Fill>::empty());
        }
        while i < fills.len()
            invariant
                i <= fills@.len(),
                self@ == (RiskModel {
                    references: referenced(old(self)@.references, fills@.take(i as int)),
                    ..old(self)@
                }),
            decreases fills@.len() - i,
        {
            proof {
                let next = fills@.take(i + 1);
                assert(next.drop_last() =~= fills@.take(i as int));
                assert(next.last() == fills@[i as int]);
            }
            self.update_reference_price(fills[i].market_id.0.as_str(), fills[i].price_ticks);
            i = i + 1;
        }
        proof {
            assert(fills@.take(i as int) =~= fills@);
        }
    }

    /// Check an order at the time of the clock.
    pub fn check(&mut self, trader_id: &str, market_id: &str, price_ticks: u64, size_lots: u64) -> (r: Result<
        (),
        RiskError,
    >)
        ensures
            exists|now: u64|
                old(self)@.times.contains(now) && #[trigger] old(self)@.answers(now, trader_id@, market_id@, price_ticks, size_lots, final(self)@, r),
    {
        let now: u64 = self.clock.0.now_ms();
        self.check_at(now, trader_id, market_id, price_ticks, size_lots)
    }

    /// Check an order at a given time: how often its trader submits, its size,
    /// and its price. Where all is well the submission is remembered; otherwise
    /// nothing changes.
    pub fn check_at(
        &mut self,
        now: u64,
        trader_id: &str,
        market_id: &str,
        price_ticks: u64,
        size_lots: u64,
    ) -> (r: Result<(), RiskError>)
        ensures
            old(self)@.answers(now, trader_id@, market_id@, price_ticks, size_lots, final(self)@, r),
    {
        match self.check_rate_limit(trader_id, now) {
            Ok(()) => {},
            Err(e) => {
                return Err(e);
            },
        }
        match self.config.markets.get(market_id) {
            Some(limits) => {
                if size_lots > limits.max_order_size_lots {
                    return Err(
                        RiskError::OrderTooLarge {
                            market_id: market_id.to_owned(),
                            size_lots,
                            max_lots: limits.max_order_size_lots,
                        },
                    );
                }
                if limits.price_band_bps > 0 {
                    match self.reference_prices.get(market_id) {
                        Some(reference) => {
                            match self.check_price_band(
                                market_id,
                                price_ticks,
                                *reference,
                                limits.price_band_bps,
                            ) {
                                Ok(()) => {},
                                Err(e) => {
                                    return Err(e);
                                },
                            }
                        },
                        None => {},
                    }
                }
            },
            None => {},
        }
        self.record_submission(trader_id, now);
        Ok(())
    }

    fn check_rate_limit(&self, trader_id: &str, now: u64) -> (r: Result<(), RiskError>)
        ensures
            match r {
                Ok(()) => !self@.too_often(trader_id@, now),
                Err(e) => self@.too_often(trader_id@, now) && (e matches RiskError::RateLimitExceeded {
                    trader_id: who,
                    count,
                    window_ms,
                    max,
                } && who@ == trader_id@ && count == self@.recent(trader_id@, now).len() && window_ms
                    == self@.window_ms && max == self@.max_orders),
            },
    {
        let start: u64 = now.saturating_sub(self.config.window_ms);
        let count: u64 = match self.windows.get(trader_id) {
            Some(window) => {
                let kept = keep_since(&window.timestamps, start);
                kept.len() as u64
            },
            None => 0,
        };
        if count >= self.config.max_orders_per_window {
            return Err(
                RiskError::RateLimitExceeded {
                    trader_id: trader_id.to_owned(),
                    count,
                    window_ms: self.config.window_ms,
                    max: self.config.max_orders_per_window,
                },
            );
        }
        Ok(())
    }

    fn record_submission(&mut self, trader_id: &str, now: u64)
        ensures
            final(self)@ == old(self)@.recorded(trader_id@, now),
    {
        let ghost before = self@;
        let start: u64 = now.saturating_sub(self.config.window_ms);
        let mut timestamps: Vec<u64> = match self.windows.get(trader_id) {
            Some(window) => keep_since(&window.timestamps, start),
            None => Vec::new(),
        };
        timestamps.push(now);
        self.windows.insert(trader_id.to_owned(), TraderWindow { timestamps });
        proof {
            assert(self@.windows =~= before.recorded(trader_id@, now).windows);
        }
    }

    fn check_price_band(&self, market_id: &str, price_ticks: u64, reference: u64, band_bps: u64) -> (r: Result<
        (),
        RiskError,
    >)
        ensures
            match r {
                Ok(()) => in_band(price_ticks, reference, band_bps),
                Err(e) => !in_band(price_ticks, reference, band_bps) && (e matches RiskError::PriceOutsideBand {
                    market_id: market,
                    price_ticks: price,
                    reference_ticks,
                    band_bps: bps,
                } && market@ == market_id@ && price == price_ticks && reference_ticks == reference && bps
                    == band_bps),
            },
    {
        let product: u64 = match reference.checked_mul(band_bps) {
            Some(product) => product,
            None => u64::MAX,
        };
        let band: u64 = product / 10_000;
        let lo: u64 = reference.saturating_sub(band);
        let hi: u64 = reference.saturating_add(band);
        if price_ticks < lo || price_ticks > hi {
            return Err(
                RiskError::PriceOutsideBand {
                    market_id: market_id.to_owned(),
                    price_ticks,
                    reference_ticks: reference,
                    band_bps,
                },
            );
        }
        Ok(())
    }
}

/// The reference prices after `fills`.
pub open spec fn referenced(references: Map<Seq<char>, u64>, fills: Seq<Fill>) -> Map<Seq<char>, u64>
    decreases fills.len(),
{
    if fills.len() == 0 {
        references
    } else {
        referenced(references, fills.drop_last()).insert(
            fills.last().market_id.0@,
            fills.last().price_ticks,
        )
    }
}

proof fn lemma_since(times: Seq<u64>, start: u64)
    ensures
        since(since(times, start), start) == since(times, start),
    decreases times.len(),
{
    if times.len() > 0 {
        let init = since(times.drop_last(), start);
        lemma_since(times.drop_last(), start);
        if times.last() >= start {
            assert(init.push(times.last()).drop_last() =~= init);
        }
    }
}

/// The rate limit holds: after a submission that passed, its trader has no more
/// submissions in the window than the limit allows.
pub proof fn law_rate_limit_holds(m: RiskModel, trader: Seq<char>, now: u64)
    requires
        !m.too_often(trader, now),
    ensures
        m.recorded(trader, now).recent(trader, now).len() <= m.max_orders,
{
    let start = window_start(now, m.window_ms);
    let kept = m.recent(trader, now);
    lemma_since(m.window(trader), start);
    assert(kept.push(now).drop_last() =~= kept);
}

/// A submission of one trader does not count for another.
pub proof fn law_rate_limit_per_trader(m: RiskModel, trader: Seq<char>, other: Seq<char>, now: u64, later: u64)
    requires
        trader != other,
    ensures
        m.recorded(trader, now).too_often(other, later) == m.too_often(other, later),
{
}

/// The reference price lies in every band around itself.
pub proof fn law_reference_in_band(reference: u64, bps: u64)
    ensures
        in_band(reference, reference, bps),
{
    assert(band_width(reference, bps) >= 0);
}

proof fn lemma_none_since(times: Seq<u64>, start: u64)
    requires
        forall|i: int| 0 <= i < times.len() ==> #[trigger] times[i] < start,
    ensures
        since(times, start).len() == 0,
    decreases times.len(),
{
    if times.len() > 0 {
        let init = times.drop_last();
        assert forall|i: int| 0 <= i < init.len() implies #[trigger] init[i] < start by {
            assert(times[i] == init[i]);
        }
        assert(times[times.len() - 1] < start);
        lemma_none_since(init, start);
    }
}

/// The window rolls on: submissions from before its start do not count, so a
/// trader with none since then passes any limit above 0.
pub proof fn law_window_rolls_over(m: RiskModel, trader: Seq<char>, now: u64)
    requires
        m.max_orders > 0,
        forall|i: int| 0 <= i < m.window(trader).len() ==> #[trigger] m.window(trader)[i] < window_start(now, m.window_ms),
    ensures
        !m.too_often(trader, now),
{
    lemma_none_since(m.window(trader), window_start(now, m.window_ms));
}

/// Those of the times that are not before the start are kept, in order.
pub proof fn law_since_is_filter(times: Seq<u64>, start: u64)
    ensures
        since(times, start) == times.filter(|t: u64| t >= start),
{
    lemma_since_is_filter(times, start, |t: u64| t >= start);
}

proof fn lemma_since_is_filter(times: Seq<u64>, start: u64, keep: spec_fn(u64) -> bool)
    requires
        forall|t: u64| #[trigger] keep(t) <==> t >= start,
    ensures
        since(times, start) == times.filter(keep),
    decreases times.len(),
{
    reveal(Seq::filter);
    if times.len() > 0 {
        lemma_since_is_filter(times.drop_last(), start, keep);
        assert(keep(times.last()) <==> times.last() >= start);
    }
}

/// A submission counts as long as the window, which is `window_ms` long, has not gone
/// beyond it: exactly those count that are no longer than `window_ms` ago.
pub proof fn law_recent_submissions_count(m: RiskModel, trader: Seq<char>, now: u64)
    ensures
        m.windows.contains_key(trader) ==> m.recent(trader, now) == m.windows[trader].filter(
            |t: u64| t + m.window_ms >= now,
        ),
        !m.windows.contains_key(trader) ==> m.recent(trader, now).len() == 0,
        m.too_often(trader, now) <==> m.recent(trader, now).len() >= m.max_orders,
{
    let start = window_start(now, m.window_ms);
    let keep = |t: u64| t + m.window_ms >= now;
    lemma_since_is_filter(m.window(trader), start, keep);
}

/// A price lies in a band of basis points exactly when its distance from the reference
/// price is at most that many ten-thousandths of it, with the product capped at the
/// highest number of 64 bits.
pub proof fn law_band(price: u64, reference: u64, bps: u64)
    ensures
        ({
            let distance = if price >= reference {
                price - reference
            } else {
                reference - price
            };
            let product = vstd::math::min(reference * bps, u64::MAX as int);
            in_band(price, reference, bps) <==> distance * 10_000 <= product
        }),
        in_band(price, reference, 0) <==> price == reference,
{
    assert(reference * bps >= 0) by (nonlinear_arith);
    assert(reference * 0 == 0) by (nonlinear_arith);
}

/// A wider band takes in all that a narrower one does, and a price that lies closer to
/// the reference price than one in the band is in it.
pub proof fn law_band_grows(price: u64, closer: u64, reference: u64, bps: u64, more: u64)
    requires
        bps <= more,
        in_band(price, reference, bps),
        price <= closer <= reference || reference <= closer <= price,
    ensures
        in_band(price, reference, more),
        in_band(closer, reference, bps),
{
    law_band(price, reference, bps);
    law_band(price, reference, more);
    law_band(closer, reference, bps);
    assert(reference * bps <= reference * more) by (nonlinear_arith)
        requires
            bps <= more,
    ;
}

/// An order passes exactly when its trader submitted fewer orders than allowed in the
/// last window, it is no larger than its market allows, and its price lies in the band
/// of its market where there is a band and a reference price.
pub proof fn law_order_passes(
    m: RiskModel,
    now: u64,
    trader: Seq<char>,
    market: Seq<char>,
    price: u64,
    size: u64,
    after: RiskModel,
    r: Result<(), RiskError>,
)
    requires
        m.answers(now, trader, market, price, size, after, r),
    ensures
        ({
            let count = if m.windows.contains_key(trader) {
                m.windows[trader].filter(|t: u64| t + m.window_ms >= now).len() as int
            } else {
                0
            };
            let limits = m.limits[market];
            let reference = m.references[market];
            let distance = if price >= reference {
                price - reference
            } else {
                reference - price
            };
            let limited = m.limits.contains_key(market);
            let large = limited && size > limits.max_order_size_lots;
            let far = limited && limits.price_band_bps > 0 && m.references.contains_key(market) && distance * 10_000
                > vstd::math::min(reference * limits.price_band_bps, u64::MAX as int);
            &&& r is Ok <==> count < m.max_orders && !large && !far
            &&& count >= m.max_orders <==> (r matches Err(RiskError::RateLimitExceeded { .. }))
            &&& r matches Err(RiskError::RateLimitExceeded { trader_id, count: told, window_ms, max }) ==> trader_id@
                == trader && told == count && window_ms == m.window_ms && max == m.max_orders
            &&& count < m.max_orders && large <==> (r matches Err(RiskError::OrderTooLarge { .. }))
            &&& r matches Err(RiskError::OrderTooLarge { market_id, size_lots, max_lots }) ==> market_id@ == market
                && size_lots == size && max_lots == limits.max_order_size_lots
            &&& count < m.max_orders && !large && far <==> (r matches Err(RiskError::PriceOutsideBand { .. }))
            &&& r matches Err(RiskError::PriceOutsideBand { market_id, price_ticks, reference_ticks, band_bps })
                ==> market_id@ == market && price_ticks == price && reference_ticks == reference && band_bps
                == limits.price_band_bps
        }),
{
    law_recent_submissions_count(m, trader, now);
    if m.limits.contains_key(market) && m.references.contains_key(market) {
        law_band(price, m.references[market], m.limits[market].price_band_bps);
    }
}

/// An order that passes is counted for its trader and no other, and one that does not
/// pass changes nothing. The limits and the reference prices stay either way.
pub proof fn law_only_passed_orders_count(
    m: RiskModel,
    now: u64,
    trader: Seq<char>,
    market: Seq<char>,
    price: u64,
    size: u64,
    after: RiskModel,
    r: Result<(), RiskError>,
    other: Seq<char>,
)
    requires
        m.answers(now, trader, market, price, size, after, r),
    ensures
        r is Err ==> after == m,
        after.max_orders == m.max_orders,
        after.window_ms == m.window_ms,
        after.limits == m.limits,
        after.references == m.references,
        after.times == m.times,
        other != trader ==> after.windows.contains_key(other) == m.windows.contains_key(other) && after.windows[other]
            == m.windows[other],
        r is Ok ==> after.windows.contains_key(trader) && after.windows[trader] == (if m.windows.contains_key(trader) {
            m.windows[trader].filter(|t: u64| t + m.window_ms >= now)
        } else {
            Seq::empty()
        }).push(now),
{
    law_recent_submissions_count(m, trader, now);
    if r is Ok && !m.windows.contains_key(trader) {
        assert(m.recent(trader, now) =~= Seq::<u64>::empty());
    }
}

/// The last fill of a market sets its reference price; a market without fills keeps
/// its own.
pub proof fn law_last_fill_is_reference(references: Map<Seq<char>, u64>, fills: Seq<Fill>, market: Seq<char>, k: int)
    ensures
        (forall|i: int| 0 <= i < fills.len() ==> (#[trigger] fills[i]).market_id.0@ != market) ==> {
            &&& referenced(references, fills).contains_key(market) == references.contains_key(market)
            &&& referenced(references, fills)[market] == references[market]
        },
        0 <= k < fills.len() && fills[k].market_id.0@ == market && (forall|i: int|
            k < i < fills.len() ==> (#[trigger] fills[i]).market_id.0@ != market) ==> {
            &&& referenced(references, fills).contains_key(market)
            &&& referenced(references, fills)[market] == fills[k].price_ticks
        },
    decreases fills.len(),
{
    if fills.len() > 0 {
        let init = fills.drop_last();
        let n = fills.len() - 1;
        law_last_fill_is_reference(references, init, market, k);
        assert(fills[n] == fills.last());
        if forall|i: int| 0 <= i < fills.len() ==> (#[trigger] fills[i]).market_id.0@ != market {
            assert forall|i: int| 0 <= i < init.len() implies (#[trigger] init[i]).market_id.0@ != market by {
                assert(init[i] == fills[i]);
            }
        }
        if 0 <= k < fills.len() && fills[k].market_id.0@ == market && (forall|i: int|
            k < i < fills.len() ==> (#[trigger] fills[i]).market_id.0@ != market) {
            assert forall|i: int| k < i < init.len() implies (#[trigger] init[i]).market_id.0@ != market by {
                assert(init[i] == fills[i]);
            }
            if k < n {
                assert(init[k] == fills[k]);
                assert(fills[n].market_id.0@ != market);
            }
        }
    }
}

/// A new checker remembers no submission and no price.
pub proof fn law_fresh_checker(config: RiskConfig, times: Set<u64>, trader: Seq<char>, market: Seq<char>)
    ensures
        ({
            let m = RiskModel::fresh(config, times);
            &&& !m.windows.contains_key(trader)
            &&& !m.references.contains_key(market)
            &&& m.max_orders == config.max_orders_per_window
            &&& m.window_ms == config.window_ms
            &&& m.limits == config.markets@
            &&& m.times == times
        }),
{
}

} // verus!
