//! Markets: their identity, their configuration, and what prices and sizes
//! they allow.
//!
//! Prices and sizes are integers. A market fixes the smallest step of each:
//! every price is a multiple of its tick size, every size a multiple of its lot
//! size.
use crate::text::{append_decimal, decimal};
use vstd::prelude::*;
use vstd::string::StringExecFns;

verus! {

/// The name of a market, by convention `{BASE}-{QUOTE}`, such as `BTC-USDC`.
///
/// The name is part of what a trader signs, so it has to stay as it is once
/// orders for the market exist.
#[derive(Debug, PartialEq, Eq, Hash)]
pub struct MarketId(pub String);

impl Clone for MarketId {
    fn clone(&self) -> (copy: MarketId)
        ensures
            copy == *self,
    {
        MarketId(self.0.clone())
    }
}

/// Where a market stands in its life. Settlement is final.
#[derive(Debug, Clone, Copy, PartialEq, Eq, Structural)]
pub enum MarketStatus {
    /// Orders are accepted and matched.
    Active,
    /// No new orders are accepted; the book is kept.
    Paused,
    /// Closed for good.
    Settled,
}

/// The configuration of a market.
#[derive(Debug)]
pub struct MarketConfig {
    pub id: MarketId,
    /// The asset that is bought and sold.
    pub base_asset: String,
    /// The asset that prices are quoted in.
    pub quote_asset: String,
    /// The smallest price step.
    pub tick_size: u64,
    /// The smallest size step.
    pub lot_size: u64,
    /// Maker fee in basis points.
    pub fee_bps_maker: u64,
    /// Taker fee in basis points.
    pub fee_bps_taker: u64,
    pub status: MarketStatus,
}

impl Clone for MarketConfig {
    fn clone(&self) -> (copy: MarketConfig)
        ensures
            copy == *self,
    {
        MarketConfig {
            id: self.id.clone(),
            base_asset: self.base_asset.clone(),
            quote_asset: self.quote_asset.clone(),
            tick_size: self.tick_size,
            lot_size: self.lot_size,
            fee_bps_maker: self.fee_bps_maker,
            fee_bps_taker: self.fee_bps_taker,
            status: self.status,
        }
    }
}

/// `n` is a multiple of `step`. Only 0 is a multiple of 0.
pub open spec fn aligned(n: u64, step: u64) -> bool {
    if step == 0 {
        n == 0
    } else {
        n as int % step as int == 0
    }
}

impl MarketConfig {
    /// Whether the market takes new orders.
    pub fn is_active(&self) -> (active: bool)
        ensures
            active == (self.status == MarketStatus::Active),
    {
        self.status == MarketStatus::Active
    }

    /// Check that a price is positive and a multiple of the tick size.
    pub fn validate_price(&self, price_ticks: u64) -> (r: Result<(), MarketError>)
        ensures
            r == (if price_ticks == 0 {
                Err::<(), MarketError>(MarketError::ZeroPrice)
            } else if !aligned(price_ticks, self.tick_size) {
                Err(MarketError::InvalidTick { price: price_ticks, tick_size: self.tick_size })
            } else {
                Ok(())
            }),
            r is Ok <==> price_ticks > 0 && exists|k: nat| steps(price_ticks, self.tick_size, k),
            price_ticks > 0 && price_ticks == self.tick_size ==> r is Ok,
    {
        proof {
            law_aligned_is_multiple(price_ticks, self.tick_size);
        }
        if price_ticks == 0 {
            return Err(MarketError::ZeroPrice);
        }
        if !price_ticks.is_multiple_of(self.tick_size) {
            return Err(MarketError::InvalidTick { price: price_ticks, tick_size: self.tick_size });
        }
        Ok(())
    }

    /// Check that a size is positive and a multiple of the lot size.
    pub fn validate_size(&self, size_lots: u64) -> (r: Result<(), MarketError>)
        ensures
            r == (if size_lots == 0 {
                Err::<(), MarketError>(MarketError::ZeroSize)
            } else if !aligned(size_lots, self.lot_size) {
                Err(MarketError::InvalidLot { size: size_lots, lot_size: self.lot_size })
            } else {
                Ok(())
            }),
            r is Ok <==> size_lots > 0 && exists|k: nat| steps(size_lots, self.lot_size, k),
            size_lots > 0 && size_lots == self.lot_size ==> r is Ok,
    {
        proof {
            law_aligned_is_multiple(size_lots, self.lot_size);
        }
        if size_lots == 0 {
            return Err(MarketError::ZeroSize);
        }
        if !size_lots.is_multiple_of(self.lot_size) {
            return Err(MarketError::InvalidLot { size: size_lots, lot_size: self.lot_size });
        }
        Ok(())
    }
}

/// What can be wrong with a price, a size or a market.
#[derive(Debug)]
pub enum MarketError {
    ZeroPrice,
    ZeroSize,
    InvalidTick { price: u64, tick_size: u64 },
    InvalidLot { size: u64, lot_size: u64 },
    NotActive,
    NotFound(String),
}

impl MarketError {
    /// The text of [`MarketError::message`].
    pub open spec fn text(&self) -> Seq<char> {
        match self {
            MarketError::ZeroPrice => "price must be positive (got 0)"@,
            MarketError::ZeroSize => "size must be positive (got 0)"@,
            MarketError::InvalidTick { price, tick_size } => "price "@ + decimal(*price as nat)
                + " is not aligned to tick_size "@ + decimal(*tick_size as nat)
                + " (price % tick_size != 0)"@,
            MarketError::InvalidLot { size, lot_size } => "size "@ + decimal(*size as nat)
                + " is not aligned to lot_size "@ + decimal(*lot_size as nat)
                + " (size % lot_size != 0)"@,
            MarketError::NotActive => "market is not active"@,
            MarketError::NotFound(id) => "market not found: "@ + id@,
        }
    }

    /// The error in words.
    pub fn message(&self) -> (s: String)
        ensures
            s@ == self.text(),
    {
        match self {
            MarketError::ZeroPrice => "price must be positive (got 0)".to_owned(),
            MarketError::ZeroSize => "size must be positive (got 0)".to_owned(),
            MarketError::InvalidTick { price, tick_size } => {
                let mut s = "price ".to_owned();
                append_decimal(&mut s, *price);
                s.append(" is not aligned to tick_size ");
                append_decimal(&mut s, *tick_size);
                s.append(" (price % tick_size != 0)");
                s
            },
            MarketError::InvalidLot { size, lot_size } => {
                let mut s = "size ".to_owned();
                append_decimal(&mut s, *size);
                s.append(" is not aligned to lot_size ");
                append_decimal(&mut s, *lot_size);
                s.append(" (size % lot_size != 0)");
                s
            },
            MarketError::NotActive => "market is not active".to_owned(),
            MarketError::NotFound(id) => {
                let mut s = "market not found: ".to_owned();
                s.append(id.as_str());
                s
            },
        }
    }
}

/// `n` is `k` steps of `step`.
pub open spec fn steps(n: u64, step: u64, k: nat) -> bool {
    n == k * step
}

/// A price or a size is aligned exactly when it is a whole number of steps.
pub proof fn law_aligned_is_multiple(n: u64, step: u64)
    ensures
        aligned(n, step) <==> exists|k: nat| steps(n, step, k),
        aligned(n, 1),
        aligned(0, step),
        aligned(step, step),
        0 < n < step ==> !aligned(n, step),
{
    if step > 0 {
        let s = step as int;
        if aligned(n, step) {
            let k = (n / step) as nat;
            vstd::arithmetic::div_mod::lemma_fundamental_div_mod(n as int, s);
            assert(n == k * step) by (nonlinear_arith)
                requires
                    n as int == s * (n as int / s) + n as int % s,
                    n as int % s == 0,
                    k == n as int / s,
                    s == step,
            ;
            assert(steps(n, step, k));
        }
        if exists|k: nat| steps(n, step, k) {
            let k = choose|k: nat| steps(n, step, k);
            vstd::arithmetic::div_mod::lemma_mod_multiples_basic(k as int, s);
        }
        vstd::arithmetic::div_mod::lemma_mod_self_0(s);
        if 0 < n < step {
            vstd::arithmetic::div_mod::lemma_small_mod(n as nat, step as nat);
        }
    } else {
        if n == 0 {
            assert(steps(n, step, 0));
        }
        if exists|k: nat| steps(n, step, k) {
            let k = choose|k: nat| steps(n, step, k);
            assert(k * step == 0) by (nonlinear_arith)
                requires
                    step == 0,
            ;
        }
    }
}

} // verus!
