//! The answers to requests: what each request does to the engine, the body that
//! is sent back, and the status and code of each error.
use crate::crypto::{hex_text, uuid_form};
use crate::domain::market::{MarketConfig, MarketStatus};
use crate::domain::order::{Fill, Order, OrderError, OrderHash, OrderId, OrderStatus, Side, SignedOrder};
use crate::engine::laws::{law_fills_conserve_quantity, volume};
use crate::engine::markets::{listing, lists};
use crate::engine::model::{capped, fills_in, new_order, EngineModel};
use crate::engine::orderbook::{oldest_first, rows, top, PriceLevel};
use crate::engine::{answers, cancel_answers, depth_fits, CancelError, CancelResult, Engine, EngineError, OrderResult};
use crate::events::Event;
use crate::keys::same_text;
use crate::ops::admin::{cancel_all_orders, cancelled_in_turn, pause_market, refused, resume_market, says_paused, says_resumed, stands_at, with_status, AdminError};
use crate::risk::{referenced, RiskChecker, RiskError, RiskModel};
use vstd::prelude::*;
use vstd::string::StringExecFns;

verus! {

/// The body of an error.
#[derive(Debug)]
pub struct ApiError {
    pub code: &'static str,
    pub message: String,
}

impl ApiError {
    pub fn new(code: &'static str, message: String) -> (e: ApiError)
        ensures
            e.code == code,
            e.message == message,
    {
        ApiError { code, message }
    }
}

/// An error with its HTTP status.
#[derive(Debug)]
pub struct ErrorResponse(pub u16, pub ApiError);

impl ErrorResponse {
    /// The response has this status, this code and this message.
    pub open spec fn says(&self, status: u16, code: Seq<char>, message: Seq<char>) -> bool {
        self.0 == status && self.1.code@ == code && self.1.message@ == message
    }
}

/// The status and code of a refused order.
pub open spec fn order_error_code(e: OrderError) -> (u16, Seq<char>) {
    match e {
        OrderError::InvalidSignature => (401, "INVALID_SIGNATURE"@),
        OrderError::InvalidPublicKey => (400, "INVALID_PUBLIC_KEY"@),
        OrderError::TraderIdMismatch => (400, "TRADER_ID_MISMATCH"@),
        OrderError::MarketNotFound(_) => (404, "MARKET_NOT_FOUND"@),
        OrderError::MarketNotActive(_) => (409, "MARKET_HALTED"@),
        OrderError::InvalidTick { .. } => (400, "INVALID_TICK_SIZE"@),
        OrderError::InvalidLot { .. } => (400, "INVALID_LOT_SIZE"@),
        OrderError::Expired { .. } => (400, "ORDER_EXPIRED"@),
        OrderError::ZeroPrice => (400, "ZERO_PRICE"@),
        OrderError::ZeroSize => (400, "ZERO_SIZE"@),
        OrderError::UnsupportedSchemaVersion(_) => (400, "UNSUPPORTED_SCHEMA_VERSION"@),
        OrderError::EmptyField(_) => (400, "EMPTY_FIELD"@),
        OrderError::NonceInvalid { .. } => (400, "NONCE_INVALID"@),
        OrderError::DuplicateClientOrderId(_) => (409, "DUPLICATE_CLIENT_ORDER_ID"@),
    }
}

/// The response says that the engine refused an order for `e`.
pub open spec fn says_engine_error(r: ErrorResponse, e: EngineError) -> bool {
    match e {
        EngineError::Order(inner) => r.says(order_error_code(inner).0, order_error_code(inner).1, e.text()),
        EngineError::Nonce(inner) => r.says(400, "NONCE_INVALID"@, inner.text()),
    }
}

/// The response to an order that the engine refused.
pub fn engine_err_to_response(e: EngineError) -> (r: ErrorResponse)
    ensures
        says_engine_error(r, e),
{
    match &e {
        EngineError::Order(inner) => {
            let status: u16;
            let code: &'static str;
            match inner {
                OrderError::InvalidSignature => {
                    status = 401;
                    code = "INVALID_SIGNATURE";
                },
                OrderError::InvalidPublicKey => {
                    status = 400;
                    code = "INVALID_PUBLIC_KEY";
                },
                OrderError::TraderIdMismatch => {
                    status = 400;
                    code = "TRADER_ID_MISMATCH";
                },
                OrderError::MarketNotFound(_) => {
                    status = 404;
                    code = "MARKET_NOT_FOUND";
                },
                OrderError::MarketNotActive(_) => {
                    status = 409;
                    code = "MARKET_HALTED";
                },
                OrderError::InvalidTick { .. } => {
                    status = 400;
                    code = "INVALID_TICK_SIZE";
                },
                OrderError::InvalidLot { .. } => {
                    status = 400;
                    code = "INVALID_LOT_SIZE";
                },
                OrderError::Expired { .. } => {
                    status = 400;
                    code = "ORDER_EXPIRED";
                },
                OrderError::ZeroPrice => {
                    status = 400;
                    code = "ZERO_PRICE";
                },
                OrderError::ZeroSize => {
                    status = 400;
                    code = "ZERO_SIZE";
                },
                OrderError::UnsupportedSchemaVersion(_) => {
                    status = 400;
                    code = "UNSUPPORTED_SCHEMA_VERSION";
                },
                OrderError::EmptyField(_) => {
                    status = 400;
                    code = "EMPTY_FIELD";
                },
                OrderError::NonceInvalid { .. } => {
                    status = 400;
                    code = "NONCE_INVALID";
                },
                OrderError::DuplicateClientOrderId(_) => {
                    status = 409;
                    code = "DUPLICATE_CLIENT_ORDER_ID";
                },
            }
            ErrorResponse(status, ApiError::new(code, e.message()))
        },
        EngineError::Nonce(inner) => ErrorResponse(400, ApiError::new("NONCE_INVALID", inner.message())),
    }
}

/// The response says that a check before the engine failed for `e`.
pub open spec fn says_risk_error(r: ErrorResponse, e: RiskError) -> bool {
    match e {
        RiskError::RateLimitExceeded { .. } => r.says(429, "RATE_LIMIT_EXCEEDED"@, e.text()),
        RiskError::OrderTooLarge { .. } => r.says(400, "ORDER_TOO_LARGE"@, e.text()),
        RiskError::PriceOutsideBand { .. } => r.says(400, "PRICE_OUTSIDE_BAND"@, e.text()),
    }
}

/// The response to an order that failed a check before the engine.
pub fn risk_err_to_response(e: RiskError) -> (r: ErrorResponse)
    ensures
        says_risk_error(r, e),
{
    let message = e.message();
    match e {
        RiskError::RateLimitExceeded { .. } => ErrorResponse(429, ApiError::new("RATE_LIMIT_EXCEEDED", message)),
        RiskError::OrderTooLarge { .. } => ErrorResponse(400, ApiError::new("ORDER_TOO_LARGE", message)),
        RiskError::PriceOutsideBand { .. } => ErrorResponse(400, ApiError::new("PRICE_OUTSIDE_BAND", message)),
    }
}

/// The response says that an administrative operation was refused for `e`.
pub open spec fn says_admin_error(r: ErrorResponse, e: AdminError) -> bool {
    match e {
        AdminError::MarketNotFound(_) => r.says(404, "MARKET_NOT_FOUND"@, e.text()),
        AdminError::AlreadyInState(_, _) => r.says(409, "ALREADY_IN_STATE"@, e.text()),
        AdminError::Settled(_) => r.says(409, "MARKET_SETTLED"@, e.text()),
    }
}

/// The response to an administrative operation that was refused.
pub fn admin_err_to_response(e: AdminError) -> (r: ErrorResponse)
    ensures
        says_admin_error(r, e),
{
    let message = e.message();
    match e {
        AdminError::MarketNotFound(_) => ErrorResponse(404, ApiError::new("MARKET_NOT_FOUND", message)),
        AdminError::AlreadyInState(_, _) => ErrorResponse(409, ApiError::new("ALREADY_IN_STATE", message)),
        AdminError::Settled(_) => ErrorResponse(409, ApiError::new("MARKET_SETTLED", message)),
    }
}

/// The response says that a cancel was refused for `e`.
pub open spec fn says_cancel_error(r: ErrorResponse, e: CancelError) -> bool {
    match e {
        CancelError::NotFound(id) => r.says(404, "ORDER_NOT_FOUND"@, "order "@ + id@ + " not found"@),
        CancelError::Unauthorized(who) => r.says(
            403,
            "UNAUTHORIZED_CANCEL"@,
            "trader "@ + who@ + " does not own this order"@,
        ),
    }
}

/// The response to a cancel that was refused.
pub fn cancel_err_to_response(e: CancelError) -> (r: ErrorResponse)
    ensures
        says_cancel_error(r, e),
{
    match e {
        CancelError::NotFound(id) => order_not_found(id.as_str()),
        CancelError::Unauthorized(who) => {
            let mut message = "trader ".to_owned();
            message.append(who.as_str());
            message.append(" does not own this order");
            ErrorResponse(403, ApiError::new("UNAUTHORIZED_CANCEL", message))
        },
    }
}

fn order_not_found(id: &str) -> (r: ErrorResponse)
    ensures
        r.says(404, "ORDER_NOT_FOUND"@, "order "@ + id@ + " not found"@),
{
    let mut message = "order ".to_owned();
    message.append(id);
    message.append(" not found");
    ErrorResponse(404, ApiError::new("ORDER_NOT_FOUND", message))
}

fn market_not_found(id: &str) -> (r: ErrorResponse)
    ensures
        r.says(404, "MARKET_NOT_FOUND"@, "market "@ + id@ + " not found"@),
{
    let mut message = "market ".to_owned();
    message.append(id);
    message.append(" not found");
    ErrorResponse(404, ApiError::new("MARKET_NOT_FOUND", message))
}

/// The body for an accepted order.
#[derive(Debug)]
pub struct OrderAcceptedResponse {
    pub order_id: String,
    pub order_hash: String,
    pub status: OrderStatus,
    pub seq_id: u64,
    pub fill_count: usize,
    pub filled_qty: u64,
    pub is_duplicate: bool,
}

/// The total quantity of `fills`; `None` where it does not fit in 64 bits.
fn total_filled(fills: &Vec<Fill>) -> (r: Option<u64>)
    ensures
        match r {
            Some(n) => n == volume(fills@),
            None => volume(fills@) > u64::MAX,
        },
{
    let mut total: u64 = 0;
    let mut i: usize = 0;
    proof {
        assert(fills@.take(0) =~= Seq::<Fill>::empty());
    }
    while i < fills.len()
        invariant
            i <= fills@.len(),
            total == volume(fills@.take(i as int)),
        decreases fills@.len() - i,
    {
        proof {
            let next = fills@.take(i + 1);
            assert(next.drop_last() =~= fills@.take(i as int));
            assert(next.last() == fills@[i as int]);
            lemma_volume_of_part(fills@, i + 1);
        }
        if fills[i].size_lots > u64::MAX - total {
            return None;
        }
        total = total + fills[i].size_lots;
        i = i + 1;
    }
    proof {
        assert(fills@.take(i as int) =~= fills@);
    }
    Some(total)
}

proof fn lemma_volume_of_part(fills: Seq<Fill>, i: int)
    requires
        0 <= i <= fills.len(),
    ensures
        volume(fills.take(i)) <= volume(fills),
    decreases fills.len() - i,
{
    if i < fills.len() {
        let more = fills.take(i + 1);
        assert(more.drop_last() =~= fills.take(i));
        assert(more.last() == fills[i]);
        lemma_volume_of_part(fills, i + 1);
    } else {
        assert(fills.take(i) =~= fills);
    }
}

impl OrderAcceptedResponse {
    /// This is the body for `r`.
    pub open spec fn tells(&self, r: OrderResult) -> bool {
        &&& self.order_id@ == r.order_id.0@
        &&& self.order_hash@ == hex_text(r.order_hash.0@)
        &&& self.status == r.final_status
        &&& self.seq_id == r.seq_id
        &&& self.fill_count == r.fills@.len()
        &&& self.filled_qty == volume(r.fills@)
        &&& self.is_duplicate == r.is_duplicate
    }

    /// The body for an accepted order; `None` where the total of its fills does
    /// not fit in 64 bits.
    pub fn of(r: &OrderResult) -> (body: Option<OrderAcceptedResponse>)
        ensures
            match body {
                Some(body) => body.tells(*r),
                None => volume(r.fills@) > u64::MAX,
            },
    {
        match total_filled(&r.fills) {
            Some(filled_qty) => Some(
                OrderAcceptedResponse {
                    order_id: r.order_id.0.clone(),
                    order_hash: r.order_hash.to_hex(),
                    status: r.final_status,
                    seq_id: r.seq_id,
                    fill_count: r.fills.len(),
                    filled_qty,
                    is_duplicate: r.is_duplicate,
                },
            ),
            None => None,
        }
    }
}

/// The status for an accepted order: 200 where it was accepted before, 201
/// otherwise.
pub fn accepted_status(r: &OrderResult) -> (status: u16)
    ensures
        status == (if r.is_duplicate {
            200u16
        } else {
            201u16
        }),
{
    if r.is_duplicate {
        200
    } else {
        201
    }
}

/// The body for a cancel.
#[derive(Debug)]
pub struct CancelledResponse {
    pub order_id: String,
    pub seq_id: Option<u64>,
    pub was_already_closed: bool,
}

/// The body for an order.
#[derive(Debug)]
pub struct OrderStateResponse {
    pub order_id: String,
    pub client_order_id: String,
    pub order_hash: String,
    pub market_id: String,
    pub trader_id: String,
    pub side: Side,
    pub price_ticks: u64,
    pub orig_size_lots: u64,
    pub filled_size_lots: u64,
    pub remaining_size_lots: u64,
    pub status: OrderStatus,
    pub created_sequence: u64,
    pub last_update_sequence: u64,
    pub accepted_at_ms: u64,
}

impl OrderStateResponse {
    /// This is the body for `o`. Nothing is left of an order that has more filled
    /// than was ordered.
    pub open spec fn tells(&self, o: Order) -> bool {
        &&& self.order_id == o.order_id.0
        &&& self.client_order_id == o.client_order_id
        &&& self.order_hash@ == hex_text(o.order_hash.0@)
        &&& self.market_id == o.market_id.0
        &&& self.trader_id == o.trader_id
        &&& self.side == o.side
        &&& self.price_ticks == o.price_ticks
        &&& self.orig_size_lots == o.orig_size_lots
        &&& self.filled_size_lots == o.filled_size_lots
        &&& self.remaining_size_lots == (if o.within_size() {
            o.remaining()
        } else {
            0
        })
        &&& self.status == o.status
        &&& self.created_sequence == o.created_sequence
        &&& self.last_update_sequence == o.last_update_sequence
        &&& self.accepted_at_ms == o.accepted_at_ms
    }

    pub fn of(o: &Order) -> (body: OrderStateResponse)
        ensures
            body.tells(*o),
    {
        let left: u64 = if o.filled_size_lots <= o.orig_size_lots {
            o.remaining_size_lots()
        } else {
            0
        };
        OrderStateResponse {
            order_id: o.order_id.0.clone(),
            client_order_id: o.client_order_id.clone(),
            order_hash: o.order_hash.to_hex(),
            market_id: o.market_id.0.clone(),
            trader_id: o.trader_id.clone(),
            side: o.side,
            price_ticks: o.price_ticks,
            orig_size_lots: o.orig_size_lots,
            filled_size_lots: o.filled_size_lots,
            remaining_size_lots: left,
            status: o.status,
            created_sequence: o.created_sequence,
            last_update_sequence: o.last_update_sequence,
            accepted_at_ms: o.accepted_at_ms,
        }
    }
}

/// A price level in a body.
#[derive(Debug, Clone, Copy)]
pub struct BookLevel {
    pub price_ticks: u64,
    pub total_qty_lots: u64,
    pub order_count: usize,
}

/// The body for a book.
#[derive(Debug)]
pub struct BookResponse {
    pub market_id: String,
    pub bids: Vec<BookLevel>,
    pub asks: Vec<BookLevel>,
}

pub open spec fn book_levels(shown: Seq<PriceLevel>) -> Seq<BookLevel> {
    Seq::new(
        shown.len(),
        |i: int|
            BookLevel {
                price_ticks: shown[i].price,
                total_qty_lots: shown[i].total_qty,
                order_count: shown[i].order_count,
            },
    )
}

fn to_book_levels(shown: &Vec<PriceLevel>) -> (levels: Vec<BookLevel>)
    ensures
        levels@ == book_levels(shown@),
{
    let mut levels: Vec<BookLevel> = Vec::new();
    let mut i: usize = 0;
    while i < shown.len()
        invariant
            i <= shown@.len(),
            levels@ == book_levels(shown@).take(i as int),
        decreases shown@.len() - i,
    {
        levels.push(
            BookLevel {
                price_ticks: shown[i].price,
                total_qty_lots: shown[i].total_qty,
                order_count: shown[i].order_count,
            },
        );
        i = i + 1;
        proof {
            assert(levels@ =~= book_levels(shown@).take(i as int));
        }
    }
    proof {
        assert(book_levels(shown@).take(i as int) =~= book_levels(shown@));
    }
    levels
}

/// The body for a fill.
#[derive(Debug)]
pub struct TradeResponse {
    pub sequence_id: u64,
    pub market_id: String,
    pub price_ticks: u64,
    pub size_lots: u64,
    pub taker_order_id: String,
    pub taker_trader_id: String,
    pub maker_order_id: String,
    pub maker_trader_id: String,
    pub executed_at_ms: u64,
}

impl TradeResponse {
    /// This is the body for `f`.
    pub open spec fn tells(&self, f: Fill) -> bool {
        &&& self.sequence_id == f.sequence_id
        &&& self.market_id == f.market_id.0
        &&& self.price_ticks == f.price_ticks
        &&& self.size_lots == f.size_lots
        &&& self.taker_order_id == f.taker_order_id.0
        &&& self.taker_trader_id == f.taker_trader_id
        &&& self.maker_order_id == f.maker_order_id.0
        &&& self.maker_trader_id == f.maker_trader_id
        &&& self.executed_at_ms == f.executed_at_ms
    }

    pub fn of(f: &Fill) -> (body: TradeResponse)
        ensures
            body.tells(*f),
    {
        TradeResponse {
            sequence_id: f.sequence_id,
            market_id: f.market_id.0.clone(),
            price_ticks: f.price_ticks,
            size_lots: f.size_lots,
            taker_order_id: f.taker_order_id.0.clone(),
            taker_trader_id: f.taker_trader_id.clone(),
            maker_order_id: f.maker_order_id.0.clone(),
            maker_trader_id: f.maker_trader_id.clone(),
            executed_at_ms: f.executed_at_ms,
        }
    }
}

/// The body for a market.
#[derive(Debug)]
pub struct MarketResponse {
    pub market_id: String,
    pub base_asset: String,
    pub quote_asset: String,
    pub tick_size: u64,
    pub lot_size: u64,
    pub fee_bps_maker: u64,
    pub fee_bps_taker: u64,
    pub status: MarketStatus,
}

impl MarketResponse {
    /// This is the body for `m`.
    pub open spec fn tells(&self, m: MarketConfig) -> bool {
        &&& self.market_id == m.id.0
        &&& self.base_asset == m.base_asset
        &&& self.quote_asset == m.quote_asset
        &&& self.tick_size == m.tick_size
        &&& self.lot_size == m.lot_size
        &&& self.fee_bps_maker == m.fee_bps_maker
        &&& self.fee_bps_taker == m.fee_bps_taker
        &&& self.status == m.status
    }

    pub fn of(m: &MarketConfig) -> (body: MarketResponse)
        ensures
            body.tells(*m),
    {
        MarketResponse {
            market_id: m.id.0.clone(),
            base_asset: m.base_asset.clone(),
            quote_asset: m.quote_asset.clone(),
            tick_size: m.tick_size,
            lot_size: m.lot_size,
            fee_bps_maker: m.fee_bps_maker,
            fee_bps_taker: m.fee_bps_taker,
            status: m.status,
        }
    }
}

/// The number of levels shown where a request does not say.
pub fn default_depth() -> (n: usize)
    ensures
        n == 20,
{
    20
}

/// The number of trades shown where a request does not say.
pub fn default_limit() -> (n: usize)
    ensures
        n == 100,
{
    100
}

/// `r` is the response to a submission, and `risk1` and `e1` what becomes of the
/// risk checker and the engine. Both go by times of their clocks, and an order
/// that is accepted gets an id in the form of a random UUID. An order that fails a check before
/// the engine does not reach it; the fills of one that is accepted set the reference prices.
pub open spec fn posts(
    risk0: RiskModel,
    e0: EngineModel,
    signed: SignedOrder,
    risk1: RiskModel,
    e1: EngineModel,
    r: Result<(u16, OrderAcceptedResponse), ErrorResponse>,
) -> bool {
    exists|now: u64, mid: RiskModel, checked: Result<(), RiskError>|
        risk0.times.contains(now) && #[trigger] risk0.answers(
            now,
            signed.trader_id@,
            signed.market_id.0@,
            signed.price_ticks,
            signed.size_lots,
            mid,
            checked,
        ) && match checked {
            Err(e) => risk1 == mid && e1 == e0 && (r matches Err(said) && says_risk_error(said, e)),
            Ok(()) => posts_on(mid, e0, signed, risk1, e1, r),
        }
}

/// As [`posts`], for an order that passed the checks before the engine.
pub open spec fn posts_on(
    mid: RiskModel,
    e0: EngineModel,
    signed: SignedOrder,
    risk1: RiskModel,
    e1: EngineModel,
    r: Result<(u16, OrderAcceptedResponse), ErrorResponse>,
) -> bool {
    exists|at: u64, hash: OrderHash, id: OrderId, answer: Result<OrderResult, EngineError>|
        e0.times.contains(at) && hash.0@ == signed.hash() && uuid_form(id.key()) && #[trigger] answers(
            e0,
            signed,
            at,
            signed.signature_verdict(),
            hash,
            id,
            e1,
            answer,
        ) && match answer {
            Err(e) => risk1 == mid && (r matches Err(said) && says_engine_error(said, e)),
            Ok(result) => {
                &&& risk1 == (RiskModel { references: referenced(mid.references, result.fills@), ..mid })
                &&& r matches Ok((status, body)) && body.tells(result) && status == (if result.is_duplicate {
                    200u16
                } else {
                    201u16
                })
            },
        }
}

/// The fills of an answer do not add up to more than the order's size.
proof fn lemma_answer_volume(
    e: EngineModel,
    signed: SignedOrder,
    now: u64,
    verdict: Result<(), OrderError>,
    hash: OrderHash,
    id: OrderId,
    after: EngineModel,
    r: OrderResult,
)
    requires
        e.wf(),
        answers(e, signed, now, verdict, hash, id, after, Ok(r)),
    ensures
        volume(r.fills@) <= signed.size_lots,
{
    if e.admits(signed, now, verdict) {
        let market = signed.market_id.0@;
        assert(e.markets.contains_key(market));
        assert(e.books.contains_key(market));
        let order = new_order(signed, now, hash, id, e.next as u64);
        law_fills_conserve_quantity(e.books[market], order, e.next as u64, now);
    }
}

/// Submit an order: check it, hand it to the engine, and take its fills as
/// reference prices. `None`, with nothing changed, where a number or a quantity
/// would not fit in 64 bits.
pub fn post_order(risk: &mut RiskChecker, engine: &mut Engine, signed: SignedOrder) -> (r: Option<
    Result<(u16, OrderAcceptedResponse), ErrorResponse>,
>)
    requires
        old(engine).wf(),
    ensures
        match r {
            Some(result) => old(engine)@.has_room(signed) && posts(
                old(risk)@,
                old(engine)@,
                signed,
                final(risk)@,
                final(engine)@,
                result,
            ),
            None => {
                &&& !old(engine)@.has_room(signed)
                &&& final(risk)@ == old(risk)@
                &&& final(engine)@ == old(engine)@
            },
        },
        final(engine).wf(),
{
    if !engine.has_room_for(&signed) {
        return None;
    }
    match risk.check(
        signed.trader_id.as_str(),
        signed.market_id.0.as_str(),
        signed.price_ticks,
        signed.size_lots,
    ) {
        Ok(()) => {},
        Err(e) => {
            return Some(Err(risk_err_to_response(e)));
        },
    }
    let ghost mid = risk@;
    let ghost e0 = engine@;
    let ghost order = signed;
    let answer = engine.process_order(signed);
    match answer {
        Ok(result) => {
            risk.note_fills(&result.fills);
            let body = OrderAcceptedResponse::of(&result);
            proof {
                let (at, hash, id) = choose|at: u64, hash: OrderHash, id: OrderId|
                    e0.times.contains(at) && hash.0@ == order.hash() && uuid_form(id.key()) && #[trigger] answers(
                        e0,
                        order,
                        at,
                        order.signature_verdict(),
                        hash,
                        id,
                        engine@,
                        Ok(result),
                    );
                lemma_answer_volume(e0, order, at, order.signature_verdict(), hash, id, engine@, result);
            }
            let response = Some(Ok((accepted_status(&result), body.unwrap())));
            assert(posts_on(mid, e0, order, risk@, engine@, response->Some_0));
            response
        },
        Err(e) => {
            let response = Some(Err(engine_err_to_response(e)));
            assert(posts_on(mid, e0, order, risk@, engine@, response->Some_0));
            response
        },
    }
}

/// `r` is the response to a cancel of `order_id` by `trader`.
pub open spec fn cancels_with(
    e0: EngineModel,
    order_id: OrderId,
    trader: Seq<char>,
    e1: EngineModel,
    r: Result<CancelledResponse, ErrorResponse>,
) -> bool {
    exists|answer: Result<CancelResult, CancelError>| #[trigger]
        cancel_answers(e0, order_id, trader, e1, answer) && match answer {
            Ok(result) => r matches Ok(body) && body.order_id == result.order_id.0 && body.seq_id
                == result.seq_id && body.was_already_closed == result.was_already_closed,
            Err(e) => r matches Err(said) && says_cancel_error(said, e),
        }
}

fn cancel_and_tell(engine: &mut Engine, order_id: &OrderId, trader_id: &str) -> (r: Result<
    CancelledResponse,
    ErrorResponse,
>)
    requires
        old(engine).wf(),
        old(engine)@.cancels(order_id.key(), trader_id@) ==> old(engine)@.next < u64::MAX,
    ensures
        cancels_with(old(engine)@, *order_id, trader_id@, final(engine)@, r),
        final(engine).wf(),
{
    match engine.process_cancel(order_id, trader_id) {
        Ok(result) => Ok(
            CancelledResponse {
                order_id: result.order_id.0,
                seq_id: result.seq_id,
                was_already_closed: result.was_already_closed,
            },
        ),
        Err(e) => Err(cancel_err_to_response(e)),
    }
}

/// Cancel an order by its id. The trader has to be named in the request.
pub fn delete_order(engine: &mut Engine, order_id: String, trader_id: Option<String>) -> (r: Result<
    CancelledResponse,
    ErrorResponse,
>)
    requires
        old(engine).wf(),
        (trader_id matches Some(trader) && old(engine)@.cancels(order_id@, trader@)) ==> old(engine)@.next
            < u64::MAX,
    ensures
        match trader_id {
            Some(trader) => cancels_with(
                old(engine)@,
                OrderId(order_id),
                trader@,
                final(engine)@,
                r,
            ),
            None => final(engine)@ == old(engine)@ && (r matches Err(said) && said.says(
                400,
                "MISSING_TRADER_ID"@,
                "X-Trader-Id header is required"@,
            )),
        },
        final(engine).wf(),
{
    match trader_id {
        Some(trader) => {
            let id = OrderId(order_id);
            cancel_and_tell(engine, &id, trader.as_str())
        },
        None => Err(
            ErrorResponse(
                400,
                ApiError::new("MISSING_TRADER_ID", "X-Trader-Id header is required".to_owned()),
            ),
        ),
    }
}

/// Cancel an order by the trader's own name for it.
pub fn cancel_by_client_id(engine: &mut Engine, trader_id: &str, client_order_id: &str) -> (r: Result<
    CancelledResponse,
    ErrorResponse,
>)
    requires
        old(engine).wf(),
        old(engine)@.accepted.contains_key((trader_id@, client_order_id@)) && old(engine)@.cancels(
            old(engine)@.accepted[(trader_id@, client_order_id@)].order_id.key(),
            trader_id@,
        ) ==> old(engine)@.next < u64::MAX,
    ensures
        if old(engine)@.accepted.contains_key((trader_id@, client_order_id@)) {
            cancels_with(
                old(engine)@,
                old(engine)@.accepted[(trader_id@, client_order_id@)].order_id,
                trader_id@,
                final(engine)@,
                r,
            )
        } else {
            final(engine)@ == old(engine)@ && (r matches Err(said) && said.says(
                404,
                "ORDER_NOT_FOUND"@,
                "no order found for this client_order_id"@,
            ))
        },
        final(engine).wf(),
{
    match engine.accepted_order_id(trader_id, client_order_id) {
        Some(order_id) => cancel_and_tell(engine, &order_id, trader_id),
        None => Err(
            ErrorResponse(
                404,
                ApiError::new("ORDER_NOT_FOUND", "no order found for this client_order_id".to_owned()),
            ),
        ),
    }
}

/// Tell the state of an order.
pub fn get_order(engine: &Engine, order_id: String) -> (r: Result<OrderStateResponse, ErrorResponse>)
    ensures
        match engine@.find(order_id@) {
            Some(order) => r matches Ok(body) && body.tells(order),
            None => r matches Err(said) && said.says(404, "ORDER_NOT_FOUND"@, "order "@ + order_id@ + " not found"@),
        },
{
    let id = OrderId(order_id);
    match engine.get_order(&id) {
        Some(order) => Ok(OrderStateResponse::of(order)),
        None => Err(order_not_found(id.0.as_str())),
    }
}

/// The number of levels that a request for `depth` is shown: 200 at most.
pub open spec fn shown_depth(depth: usize) -> usize {
    if depth <= 200 {
        depth
    } else {
        200
    }
}

/// Show the levels of a book. `None` where a sum does not fit in 64 bits.
pub fn get_book(engine: &Engine, market_id: &str, depth: usize) -> (r: Option<Result<BookResponse, ErrorResponse>>)
    ensures
        if engine@.books.contains_key(market_id@) {
            let book = engine@.books[market_id@];
            let n = shown_depth(depth);
            match r {
                Some(result) => book.bids.dom().finite() && book.asks.dom().finite() && depth_fits(book, n)
                    && (result matches Ok(body) && body.market_id@ == market_id@
                    && body.bids@ == book_levels(rows(book.orders, book.bids, top(book.bid_prices(), n)))
                    && body.asks@ == book_levels(rows(book.orders, book.asks, top(book.ask_prices(), n)))),
                None => !depth_fits(book, n),
            }
        } else {
            r matches Some(Err(said)) && said.says(
                404,
                "MARKET_NOT_FOUND"@,
                "market "@ + market_id@ + " not found"@,
            )
        },
{
    let n: usize = if depth <= 200 {
        depth
    } else {
        200
    };
    match engine.try_l2_snapshot(market_id, n) {
        Some(Some((bids, asks))) => Some(
            Ok(
                BookResponse {
                    market_id: market_id.to_owned(),
                    bids: to_book_levels(&bids),
                    asks: to_book_levels(&asks),
                },
            ),
        ),
        Some(None) => Some(Err(market_not_found(market_id))),
        None => None,
    }
}

/// The number of trades that a request for `limit` is shown: 1000 at most, and
/// all for a limit of 0.
pub open spec fn shown_limit(limit: usize) -> usize {
    if limit <= 1000 {
        limit
    } else {
        1000
    }
}

/// Show the fills of a market, oldest first.
pub fn get_trades(engine: &Engine, market_id: &str, limit: usize, from_seq: u64) -> (r: Result<
    Vec<TradeResponse>,
    ErrorResponse,
>)
    ensures
        if engine@.books.contains_key(market_id@) {
            let fills = capped(fills_in(engine@.log, market_id@, from_seq), shown_limit(limit));
            r matches Ok(trades) && trades@.len() == fills.len() && forall|i: int|
                0 <= i < fills.len() ==> (#[trigger] trades@[i]).tells(fills[i])
        } else {
            r matches Err(said) && said.says(404, "MARKET_NOT_FOUND"@, "market "@ + market_id@ + " not found"@)
        },
{
    if engine.best_prices(market_id).is_none() {
        return Err(market_not_found(market_id));
    }
    let n: usize = if limit <= 1000 {
        limit
    } else {
        1000
    };
    let fills = engine.get_fills(market_id, from_seq, n);
    let mut trades: Vec<TradeResponse> = Vec::new();
    let mut i: usize = 0;
    while i < fills.len()
        invariant
            i <= fills@.len(),
            trades@.len() == i,
            forall|j: int| 0 <= j < i ==> (#[trigger] trades@[j]).tells(*fills@[j]),
        decreases fills@.len() - i,
    {
        trades.push(TradeResponse::of(fills[i]));
        i = i + 1;
    }
    proof {
        let wanted = capped(fills_in(engine@.log, market_id@, from_seq), n);
        assert forall|j: int| 0 <= j < wanted.len() implies (#[trigger] trades@[j]).tells(wanted[j]) by {
            assert(*fills@[j] == wanted[j]);
        }
    }
    Ok(trades)
}

/// List the markets, each once, in ascending order of their ids.
pub fn list_markets(engine: &Engine) -> (list: Vec<MarketResponse>)
    ensures
        engine@.markets.dom().finite(),
        list@.len() == listing(engine@.markets).len(),
        forall|i: int| 0 <= i < list@.len() ==> (#[trigger] list@[i]).tells(listing(engine@.markets)[i]),
        engine.wf() ==> lists(listing(engine@.markets), engine@.markets),
{
    let markets = engine.list_markets();
    let mut list: Vec<MarketResponse> = Vec::new();
    let mut i: usize = 0;
    while i < markets.len()
        invariant
            i <= markets@.len(),
            list@.len() == i,
            forall|j: int| 0 <= j < i ==> (#[trigger] list@[j]).tells(*markets@[j]),
        decreases markets@.len() - i,
    {
        list.push(MarketResponse::of(markets[i]));
        i = i + 1;
    }
    proof {
        assert forall|j: int| 0 <= j < list@.len() implies (#[trigger] list@[j]).tells(listing(engine@.markets)[j]) by {
            assert(*markets@[j] == listing(engine@.markets)[j]);
        }
    }
    list
}

/// An administrative request is let through: it names the key that was set, and
/// one was set.
pub open spec fn admin_allowed(expected: Option<String>, given: Option<String>) -> bool {
    expected matches Some(key) && given matches Some(named) && key@ == named@
}

/// The response says that the key of an administrative request is missing or
/// wrong.
pub open spec fn says_wrong_key(said: ErrorResponse) -> bool {
    said.says(401, "INVALID_ADMIN_KEY"@, "X-Admin-Key header is missing or wrong"@)
}

/// Check the key of an administrative request. Where no key was set, none is
/// right.
pub fn check_admin_key(expected: &Option<String>, given: &Option<String>) -> (r: Result<(), ErrorResponse>)
    ensures
        match r {
            Ok(()) => admin_allowed(*expected, *given),
            Err(said) => !admin_allowed(*expected, *given) && says_wrong_key(said),
        },
{
    let allowed: bool = match (expected, given) {
        (Some(key), Some(named)) => same_text(key.as_str(), named.as_str()),
        _ => false,
    };
    if allowed {
        Ok(())
    } else {
        Err(
            ErrorResponse(
                401,
                ApiError::new("INVALID_ADMIN_KEY", "X-Admin-Key header is missing or wrong".to_owned()),
            ),
        )
    }
}

/// Pause a market and tell the number of the event. Where the key is missing or
/// wrong, the request is refused and nothing changes.
pub fn admin_pause_market(
    engine: &mut Engine,
    expected_key: &Option<String>,
    given_key: &Option<String>,
    market_id: &str,
    triggered_by: &str,
) -> (r: Result<u64, ErrorResponse>)
    requires
        old(engine).wf(),
        admin_allowed(*expected_key, *given_key) && stands_at(old(engine)@, market_id@, MarketStatus::Active)
            ==> old(engine)@.next < u64::MAX,
    ensures
        match r {
            Ok(seq_id) => admin_allowed(*expected_key, *given_key) && stands_at(old(engine)@, market_id@, MarketStatus::Active) && seq_id == old(engine)@.next
                && exists|event: Event| #[trigger]
                says_paused(event, market_id@, triggered_by@) && final(engine)@ == with_status(
                    old(engine)@,
                    market_id@,
                    MarketStatus::Paused,
                ).record(event),
            Err(said) => final(engine)@ == old(engine)@ && if admin_allowed(*expected_key, *given_key) {
                !stands_at(old(engine)@, market_id@, MarketStatus::Active) && exists|e: AdminError| #[trigger]
                    refused(old(engine)@, market_id@, MarketStatus::Active, e) && says_admin_error(said, e)
            } else {
                says_wrong_key(said)
            },
        },
        final(engine).wf(),
{
    match check_admin_key(expected_key, given_key) {
        Ok(()) => {},
        Err(said) => {
            return Err(said);
        },
    }
    match pause_market(engine, market_id, triggered_by) {
        Ok(seq_id) => Ok(seq_id),
        Err(e) => Err(admin_err_to_response(e)),
    }
}

/// Resume a market and tell the number of the event. Where the key is missing or
/// wrong, the request is refused and nothing changes.
pub fn admin_resume_market(
    engine: &mut Engine,
    expected_key: &Option<String>,
    given_key: &Option<String>,
    market_id: &str,
    triggered_by: &str,
) -> (r: Result<u64, ErrorResponse>)
    requires
        old(engine).wf(),
        admin_allowed(*expected_key, *given_key) && stands_at(old(engine)@, market_id@, MarketStatus::Paused)
            ==> old(engine)@.next < u64::MAX,
    ensures
        match r {
            Ok(seq_id) => admin_allowed(*expected_key, *given_key) && stands_at(old(engine)@, market_id@, MarketStatus::Paused) && seq_id == old(engine)@.next
                && exists|event: Event| #[trigger]
                says_resumed(event, market_id@, triggered_by@) && final(engine)@ == with_status(
                    old(engine)@,
                    market_id@,
                    MarketStatus::Active,
                ).record(event),
            Err(said) => final(engine)@ == old(engine)@ && if admin_allowed(*expected_key, *given_key) {
                !stands_at(old(engine)@, market_id@, MarketStatus::Paused) && exists|e: AdminError| #[trigger]
                    refused(old(engine)@, market_id@, MarketStatus::Paused, e) && says_admin_error(said, e)
            } else {
                says_wrong_key(said)
            },
        },
        final(engine).wf(),
{
    match check_admin_key(expected_key, given_key) {
        Ok(()) => {},
        Err(said) => {
            return Err(said);
        },
    }
    match resume_market(engine, market_id, triggered_by) {
        Ok(seq_id) => Ok(seq_id),
        Err(e) => Err(admin_err_to_response(e)),
    }
}

/// Cancel everything that rests in a market and tell how many orders it were.
/// Where the key is missing or wrong, the request is refused and nothing changes.
pub fn admin_cancel_all(
    engine: &mut Engine,
    expected_key: &Option<String>,
    given_key: &Option<String>,
    market_id: &str,
) -> (r: Result<usize, ErrorResponse>)
    requires
        old(engine).wf(),
        admin_allowed(*expected_key, *given_key) && old(engine)@.markets.contains_key(market_id@) ==> old(engine)@.next + oldest_first(
            old(engine)@.books[market_id@].orders,
        ).len() <= u64::MAX,
    ensures
        match r {
            Ok(count) => {
                let open = oldest_first(old(engine)@.books[market_id@].orders);
                &&& admin_allowed(*expected_key, *given_key)
                &&& old(engine)@.markets.contains_key(market_id@)
                &&& count == open.len()
                &&& final(engine)@ == cancelled_in_turn(old(engine)@, market_id@, open)
            },
            Err(said) => final(engine)@ == old(engine)@ && if admin_allowed(*expected_key, *given_key) {
                !old(engine)@.markets.contains_key(market_id@) && said.says(
                    404,
                    "MARKET_NOT_FOUND"@,
                    "market '"@ + market_id@ + "' not found"@,
                )
            } else {
                says_wrong_key(said)
            },
        },
        final(engine).wf(),
{
    match check_admin_key(expected_key, given_key) {
        Ok(()) => {},
        Err(said) => {
            return Err(said);
        },
    }
    match cancel_all_orders(engine, market_id) {
        Ok(count) => Ok(count),
        Err(e) => Err(admin_err_to_response(e)),
    }
}

} // verus!
