//! What holds of the responses to requests.
use crate::api::rest::{admin_allowed, book_levels, cancels_with, posts, posts_on, says_admin_error, says_cancel_error, says_engine_error, says_risk_error, says_wrong_key, shown_depth, shown_limit, CancelledResponse, ErrorResponse, MarketResponse, OrderAcceptedResponse, OrderStateResponse, TradeResponse};
use crate::crypto::{hex_bytes, lemma_hex_round_trip, uuid_form};
use crate::domain::market::MarketConfig;
use crate::domain::order::{Fill, Order, OrderError, OrderHash, OrderId, OrderStatus, SignedOrder};
use crate::engine::laws::{law_fills_conserve_quantity, law_volume_is_sum};
use crate::engine::model::{new_order, EngineModel};
use crate::engine::orderbook::PriceLevel;
use crate::engine::priority::law_fill_tells;
use crate::engine::recovery::tidy_engine;
use crate::engine::submissions::{law_acceptance_is_logged, law_answer_to_cancel, law_answer_to_submission};
use crate::engine::{answers, cancel_answers, CancelError, CancelResult, EngineError, OrderResult};
use crate::events::Event;
use crate::ops::admin::AdminError;
use crate::risk::{law_last_fill_is_reference, law_only_passed_orders_count, referenced, RiskError, RiskModel};
use crate::wording::{in_turn, lemma_one};
use vstd::prelude::*;
use vstd::utf8::encode_utf8;

verus! {

/// The status of a refused order: 401 for a bad signature, 404 for an unknown market, 409
/// for a market that is halted and for a name used twice, and 400 for everything else.
pub proof fn law_status_of_refused_order(r: ErrorResponse, e: EngineError)
    requires
        says_engine_error(r, e),
    ensures
        r.0 == 401 <==> e == EngineError::Order(OrderError::InvalidSignature),
        r.0 == 404 <==> (e matches EngineError::Order(OrderError::MarketNotFound(_))),
        r.0 == 409 <==> ((e matches EngineError::Order(OrderError::MarketNotActive(_))) || (e matches EngineError::Order(
            OrderError::DuplicateClientOrderId(_),
        ))),
        r.0 == 400 || r.0 == 401 || r.0 == 404 || r.0 == 409,
        e matches EngineError::Order(_) ==> r.1.message@ == e.text(),
        e matches EngineError::Nonce(inner) ==> r.1.message@ == inner.text(),
{
}

/// The code of a refused order tells the reason.
pub proof fn law_code_of_refused_order(r: ErrorResponse, e: EngineError)
    requires
        says_engine_error(r, e),
    ensures
        e == EngineError::Order(OrderError::InvalidSignature) ==> r.1.code@ == "INVALID_SIGNATURE"@,
        e == EngineError::Order(OrderError::InvalidPublicKey) ==> r.1.code@ == "INVALID_PUBLIC_KEY"@,
        e == EngineError::Order(OrderError::TraderIdMismatch) ==> r.1.code@ == "TRADER_ID_MISMATCH"@,
        (e matches EngineError::Order(OrderError::MarketNotFound(_))) ==> r.1.code@ == "MARKET_NOT_FOUND"@,
        (e matches EngineError::Order(OrderError::MarketNotActive(_))) ==> r.1.code@ == "MARKET_HALTED"@,
        (e matches EngineError::Order(OrderError::InvalidTick { .. })) ==> r.1.code@ == "INVALID_TICK_SIZE"@,
        (e matches EngineError::Order(OrderError::InvalidLot { .. })) ==> r.1.code@ == "INVALID_LOT_SIZE"@,
        (e matches EngineError::Order(OrderError::Expired { .. })) ==> r.1.code@ == "ORDER_EXPIRED"@,
        e == EngineError::Order(OrderError::ZeroPrice) ==> r.1.code@ == "ZERO_PRICE"@,
        e == EngineError::Order(OrderError::ZeroSize) ==> r.1.code@ == "ZERO_SIZE"@,
        (e matches EngineError::Order(OrderError::UnsupportedSchemaVersion(_))) ==> r.1.code@
            == "UNSUPPORTED_SCHEMA_VERSION"@,
        (e matches EngineError::Order(OrderError::EmptyField(_))) ==> r.1.code@ == "EMPTY_FIELD"@,
        (e matches EngineError::Order(OrderError::NonceInvalid { .. })) ==> r.1.code@ == "NONCE_INVALID"@,
        e is Nonce ==> r.1.code@ == "NONCE_INVALID"@,
        (e matches EngineError::Order(OrderError::DuplicateClientOrderId(_))) ==> r.1.code@
            == "DUPLICATE_CLIENT_ORDER_ID"@,
{
}

/// The response to an order that failed a check before the engine: 429 for too many, 400
/// for too large and for a price too far away.
pub proof fn law_response_to_failed_check(r: ErrorResponse, e: RiskError)
    requires
        says_risk_error(r, e),
    ensures
        e is RateLimitExceeded <==> r.0 == 429,
        !(e is RateLimitExceeded) <==> r.0 == 400,
        e is RateLimitExceeded ==> r.1.code@ == "RATE_LIMIT_EXCEEDED"@,
        e is OrderTooLarge ==> r.1.code@ == "ORDER_TOO_LARGE"@,
        e is PriceOutsideBand ==> r.1.code@ == "PRICE_OUTSIDE_BAND"@,
        r.1.message@ == e.text(),
{
}

/// The response to a refused administrative request: 404 for an unknown market, 409 for
/// one that is settled or already as asked for.
pub proof fn law_response_to_admin_refusal(r: ErrorResponse, e: AdminError)
    requires
        says_admin_error(r, e),
    ensures
        e is MarketNotFound <==> r.0 == 404,
        !(e is MarketNotFound) <==> r.0 == 409,
        e is MarketNotFound ==> r.1.code@ == "MARKET_NOT_FOUND"@,
        e is AlreadyInState ==> r.1.code@ == "ALREADY_IN_STATE"@,
        e is Settled ==> r.1.code@ == "MARKET_SETTLED"@,
        r.1.message@ == e.text(),
{
}

/// An administrative request is let through exactly when a key was set and the request
/// names that key.
pub proof fn law_admin_key(expected: Option<String>, given: Option<String>, said: ErrorResponse)
    ensures
        admin_allowed(expected, given) <==> expected is Some && given is Some && (expected->Some_0)@ == (given->Some_0)@,
        says_wrong_key(said) ==> said.0 == 401 && said.1.code@ == "INVALID_ADMIN_KEY"@,
{
}

/// The body for an accepted order: its id, its hash as hexadecimal notation, its status,
/// its number, how many fills there were and what they add up to.
pub proof fn law_accepted_body(body: OrderAcceptedResponse, r: OrderResult)
    requires
        body.tells(r),
    ensures
        body.order_id@ == r.order_id.0@,
        hex_bytes(encode_utf8(body.order_hash@)) == Some(r.order_hash.0@),
        body.status == r.final_status,
        body.seq_id == r.seq_id,
        body.fill_count == r.fills@.len(),
        body.filled_qty == r.fills@.fold_left(0int, |sum: int, f: Fill| sum + f.size_lots),
        body.is_duplicate == r.is_duplicate,
{
    lemma_hex_round_trip(r.order_hash.0@);
    law_volume_is_sum(r.fills@, r.fills@[0]);
}

/// The body for an order tells each of its fields, and filled and remaining quantity make
/// up what was ordered.
pub proof fn law_order_body(body: OrderStateResponse, o: Order)
    requires
        body.tells(o),
    ensures
        body.order_id@ == o.order_id.0@ && body.client_order_id@ == o.client_order_id@ && body.market_id@
            == o.market_id.0@ && body.trader_id@ == o.trader_id@,
        hex_bytes(encode_utf8(body.order_hash@)) == Some(o.order_hash.0@),
        body.side == o.side && body.price_ticks == o.price_ticks && body.status == o.status,
        body.orig_size_lots == o.orig_size_lots && body.filled_size_lots == o.filled_size_lots,
        o.filled_size_lots <= o.orig_size_lots ==> body.filled_size_lots + body.remaining_size_lots
            == body.orig_size_lots,
        o.filled_size_lots > o.orig_size_lots ==> body.remaining_size_lots == 0,
        body.created_sequence == o.created_sequence && body.last_update_sequence == o.last_update_sequence
            && body.accepted_at_ms == o.accepted_at_ms,
{
    lemma_hex_round_trip(o.order_hash.0@);
}

/// The body for a fill tells each of its fields, taker as taker and maker as maker.
pub proof fn law_trade_body(body: TradeResponse, f: Fill)
    requires
        body.tells(f),
    ensures
        body.sequence_id == f.sequence_id,
        body.market_id@ == f.market_id.0@,
        body.price_ticks == f.price_ticks,
        body.size_lots == f.size_lots,
        body.taker_order_id@ == f.taker_order_id.0@ && body.taker_trader_id@ == f.taker_trader_id@,
        body.maker_order_id@ == f.maker_order_id.0@ && body.maker_trader_id@ == f.maker_trader_id@,
        body.executed_at_ms == f.executed_at_ms,
{
}

/// The body for a market tells each field of its configuration.
pub proof fn law_market_body(body: MarketResponse, m: MarketConfig)
    requires
        body.tells(m),
    ensures
        body.market_id@ == m.id.0@ && body.base_asset@ == m.base_asset@ && body.quote_asset@ == m.quote_asset@,
        body.tick_size == m.tick_size && body.lot_size == m.lot_size,
        body.fee_bps_maker == m.fee_bps_maker && body.fee_bps_taker == m.fee_bps_taker,
        body.status == m.status,
{
}

/// The levels in a body are those of the book, each in its place.
pub proof fn law_book_body(shown: Seq<PriceLevel>, i: int)
    ensures
        book_levels(shown).len() == shown.len(),
        0 <= i < shown.len() ==> book_levels(shown)[i].price_ticks == shown[i].price
            && book_levels(shown)[i].total_qty_lots == shown[i].total_qty && book_levels(shown)[i].order_count
            == shown[i].order_count,
{
}

/// As many levels are shown as are asked for, up to 200, and as many trades, up to 1000.
pub proof fn law_what_is_shown(n: usize)
    ensures
        shown_depth(n) == vstd::math::min(n as int, 200),
        shown_limit(n) == vstd::math::min(n as int, 1000),
{
}

/// What a cancel is answered to a request: 404 where there is no such order, 403 where it
/// is another trader's, and otherwise the id, whether it was closed before, and the number
/// of the cancel where it was not. Where it was closed before, or is not the trader's, or
/// is not there, nothing changes.
pub proof fn law_response_to_cancel(
    e0: EngineModel,
    order_id: OrderId,
    trader: Seq<char>,
    e1: EngineModel,
    r: Result<CancelledResponse, ErrorResponse>,
)
    requires
        cancels_with(e0, order_id, trader, e1, r),
    ensures
        ({
            let found = e0.find(order_id.0@);
            let order = found->Some_0;
            let theirs = found is Some && order.trader_id@ == trader;
            let open = order.status == OrderStatus::Open || order.status == OrderStatus::PartiallyFilled;
            &&& found is None <==> (r is Err && r->Err_0.0 == 404)
            &&& found is None ==> r->Err_0.1.code@ == "ORDER_NOT_FOUND"@
            &&& found is Some && !theirs <==> (r is Err && r->Err_0.0 == 403)
            &&& found is Some && !theirs ==> r->Err_0.1.code@ == "UNAUTHORIZED_CANCEL"@
            &&& theirs <==> r is Ok
            &&& r matches Ok(body) ==> body.order_id@ == order_id.0@ && body.was_already_closed == !open
            &&& r matches Ok(body) ==> body.seq_id == (if open {
                Some(e0.next as u64)
            } else {
                None
            })
            &&& !(theirs && open) ==> e1 == e0
        }),
{
    let answer = choose|answer: Result<CancelResult, CancelError>| #[trigger]
        cancel_answers(e0, order_id, trader, e1, answer) && match answer {
            Ok(result) => r matches Ok(body) && body.order_id == result.order_id.0 && body.seq_id == result.seq_id
                && body.was_already_closed == result.was_already_closed,
            Err(e) => r matches Err(said) && says_cancel_error(said, e),
        };
    law_answer_to_cancel(e0, order_id, trader, e1, answer);
}

/// What a submission is answered to a request. 201 goes with an order that is then there
/// for the first time, under the next number, in the state that the body tells, and a log
/// that starts with its acceptance; 200 with one that was accepted before, and nothing
/// changes. Every other status is an error, after which no order, no book and nothing of
/// the state has changed; after 429 the log has not changed either.
pub proof fn law_response_to_submission(
    risk0: RiskModel,
    e0: EngineModel,
    signed: SignedOrder,
    risk1: RiskModel,
    e1: EngineModel,
    r: Result<(u16, OrderAcceptedResponse), ErrorResponse>,
)
    requires
        e0.wf(),
        e1.next <= u64::MAX,
        posts(risk0, e0, signed, risk1, e1, r),
    ensures
        ({
            let key = (signed.trader_id@, signed.client_order_id@);
            &&& r matches Ok(said) ==> {
                &&& said.0 == 201 <==> !e0.accepted.contains_key(key)
                &&& said.0 == 200 <==> e0.accepted.contains_key(key)
                &&& said.1.is_duplicate <==> said.0 == 200
                &&& said.0 == 200 ==> e1 == e0 && said.1.fill_count == 0 && said.1.filled_qty == 0
                &&& e1.accepted.contains_key(key) && e1.accepted[key].order_id.0@ == said.1.order_id@
                &&& said.0 == 201 ==> said.1.seq_id == e0.next && uuid_form(said.1.order_id@)
                &&& said.0 == 201 ==> e1.log.len() > e0.log.len() && e1.log[e0.log.len() as int].seq_id == e0.next
                    && (e1.log[e0.log.len() as int].event matches Event::OrderAccepted { order } && order.order_id.0@
                    == said.1.order_id@ && order.trader_id@ == signed.trader_id@ && order.side == signed.side
                    && order.price_ticks == signed.price_ticks && order.orig_size_lots == signed.size_lots)
                &&& said.1.filled_qty <= signed.size_lots || said.0 == 200
            }
            &&& r matches Err(said) ==> {
                &&& e1.books == e0.books && e1.state == e0.state && e1.accepted == e0.accepted && e1.index == e0.index
                    && e1.closed == e0.closed && e1.markets == e0.markets
                &&& said.0 == 400 || said.0 == 401 || said.0 == 404 || said.0 == 409 || said.0 == 429
                &&& said.0 == 429 ==> e1 == e0
            }
        }),
{
    let (now, mid, checked) = choose|now: u64, mid: RiskModel, checked: Result<(), RiskError>|
        risk0.times.contains(now) && #[trigger] risk0.answers(
            now,
            signed.trader_id@,
            signed.market_id.0@,
            signed.price_ticks,
            signed.size_lots,
            mid,
            checked,
        ) && match checked {
            Err(e) => risk1 == mid && e1 == e0 && (r matches Err(said) && says_risk_error(said, e)),
            Ok(()) => posts_on(mid, e0, signed, risk1, e1, r),
        };
    if checked is Ok {
        let (at, hash, id, answer) = choose|
            at: u64,
            hash: OrderHash,
            id: OrderId,
            answer: Result<OrderResult, EngineError>,
        |
            e0.times.contains(at) && hash.0@ == signed.hash() && uuid_form(id.0@) && #[trigger] answers(
                e0,
                signed,
                at,
                signed.signature_verdict(),
                hash,
                id,
                e1,
                answer,
            ) && match answer {
                Err(e) => r matches Err(said) && says_engine_error(said, e),
                Ok(result) => r matches Ok((status, body)) && body.tells(result) && status == (if result.is_duplicate {
                    200u16
                } else {
                    201u16
                }),
            };
        law_answer_to_submission(e0, signed, at, signed.signature_verdict(), hash, id, e1, answer);
        match answer {
            Ok(result) => {
                law_accepted_body(r->Ok_0.1, result);
                if !result.is_duplicate {
                    let market = signed.market_id.0@;
                    assert(e0.books.contains_key(market));
                    law_fills_conserve_quantity(
                        e0.books[market],
                        new_order(signed, at, hash, id, e0.next as u64),
                        e0.next as u64,
                        at,
                    );
                    law_volume_is_sum(result.fills@, result.fills@[0]);
                    law_acceptance_is_logged(e0, signed, at, signed.signature_verdict(), hash, id, e1, result);
                }
            },
            Err(e) => {
                law_status_of_refused_order(r->Err_0, e);
            },
        }
    }
}

/// What a submission does to the checks before the engine. One that fails them changes
/// nothing of them. One that passes counts for its trader and for no other, whatever the
/// engine says; and where it is filled, the price of its last fill becomes the reference
/// price of the market, while every other reference price stays.
pub proof fn law_submission_and_checks(
    risk0: RiskModel,
    e0: EngineModel,
    signed: SignedOrder,
    risk1: RiskModel,
    e1: EngineModel,
    r: Result<(u16, OrderAcceptedResponse), ErrorResponse>,
    other: Seq<char>,
)
    requires
        e0.wf(),
        tidy_engine(e0),
        e1.next <= u64::MAX,
        posts(risk0, e0, signed, risk1, e1, r),
    ensures
        risk1.limits == risk0.limits && risk1.max_orders == risk0.max_orders && risk1.window_ms == risk0.window_ms
            && risk1.times == risk0.times,
        other != signed.trader_id@ ==> risk1.windows.contains_key(other) == risk0.windows.contains_key(other)
            && risk1.windows[other] == risk0.windows[other],
        r is Ok ==> risk1.windows.contains_key(signed.trader_id@) && risk1.windows[signed.trader_id@].len() > 0
            && risk0.times.contains(risk1.windows[signed.trader_id@].last()),
        other != signed.market_id.0@ ==> risk1.references.contains_key(other) == risk0.references.contains_key(other)
            && risk1.references[other] == risk0.references[other],
        r is Err || (r->Ok_0).1.fill_count == 0 ==> risk1.references == risk0.references,
        r matches Ok(said) ==> said.1.fill_count > 0 ==> risk1.references.contains_key(signed.market_id.0@) && (e1.log[e0.log.len()
            + said.1.fill_count].event matches Event::Fill(fill) && risk1.references[signed.market_id.0@]
            == fill.price_ticks),
        r is Err && (r->Err_0).0 == 429 ==> risk1 == risk0,
{
    let market = signed.market_id.0@;
    let (now, mid, checked) = choose|now: u64, mid: RiskModel, checked: Result<(), RiskError>|
        risk0.times.contains(now) && #[trigger] risk0.answers(
            now,
            signed.trader_id@,
            market,
            signed.price_ticks,
            signed.size_lots,
            mid,
            checked,
        ) && match checked {
            Err(e) => risk1 == mid && e1 == e0 && (r matches Err(said) && says_risk_error(said, e)),
            Ok(()) => posts_on(mid, e0, signed, risk1, e1, r),
        };
    law_only_passed_orders_count(
        risk0,
        now,
        signed.trader_id@,
        market,
        signed.price_ticks,
        signed.size_lots,
        mid,
        checked,
        other,
    );
    if checked is Ok {
        let (at, hash, id, answer) = choose|
            at: u64,
            hash: OrderHash,
            id: OrderId,
            answer: Result<OrderResult, EngineError>,
        |
            e0.times.contains(at) && hash.0@ == signed.hash() && uuid_form(id.0@) && #[trigger] answers(
                e0,
                signed,
                at,
                signed.signature_verdict(),
                hash,
                id,
                e1,
                answer,
            ) && match answer {
                Err(e) => risk1 == mid && (r matches Err(said) && says_engine_error(said, e)),
                Ok(result) => {
                    &&& risk1 == (RiskModel { references: referenced(mid.references, result.fills@), ..mid })
                    &&& r matches Ok((status, body)) && body.tells(result)
                },
            };
        law_answer_to_submission(e0, signed, at, signed.signature_verdict(), hash, id, e1, answer);
        match answer {
            Ok(result) => {
                let fills = result.fills@;
                if !result.is_duplicate {
                    law_acceptance_is_logged(e0, signed, at, signed.signature_verdict(), hash, id, e1, result);
                    let book = e0.books[market];
                    assert(e0.books.contains_key(market));
                    let order = new_order(signed, at, hash, id, e0.next as u64);
                    assert forall|k: int| 0 <= k < fills.len() implies (#[trigger] fills[k]).market_id.0@ == market by {
                        law_fill_tells(book, market, order, e0.next as u64, at, k);
                    }
                    if fills.len() > 0 {
                        assert(e1.log[e0.log.len() + 1 + (fills.len() - 1)].event == Event::Fill(fills[fills.len() - 1]));
                        law_last_fill_is_reference(mid.references, fills, market, fills.len() - 1);
                    }
                    law_last_fill_is_reference(mid.references, fills, other, 0);
                }
            },
            Err(e) => {
                law_status_of_refused_order(r->Err_0, e);
            },
        }
    }
}

/// The response to a refused cancel names the order that was not found, or the trader who
/// does not own it.
pub proof fn law_refused_cancel_tells(r: ErrorResponse, e: CancelError)
    requires
        says_cancel_error(r, e),
    ensures
        match e {
            CancelError::NotFound(id) => r.0 == 404 && in_turn(r.1.message@, seq![id@]),
            CancelError::Unauthorized(who) => r.0 == 403 && in_turn(r.1.message@, seq![who@]),
        },
{
    match e {
        CancelError::NotFound(id) => lemma_one("order "@, id@, " not found"@),
        CancelError::Unauthorized(who) => lemma_one("trader "@, who@, " does not own this order"@),
    }
}

} // verus!
