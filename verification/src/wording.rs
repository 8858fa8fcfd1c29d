//! What the messages of errors tell.
use crate::db::{InsufficientFunds, NonceError};
use crate::domain::market::{MarketError, MarketStatus};
use crate::domain::order::OrderError;
use crate::engine::{CancelError, EngineError};
use crate::ops::admin::{status_name, AdminError};
use crate::replay::ReplayError;
use crate::risk::RiskError;
use crate::snapshot::SnapshotError;
use crate::text::decimal;
use vstd::prelude::*;

verus! {

/// `part` stands in `text` at place `k`.
pub open spec fn stands_in(text: Seq<char>, part: Seq<char>, k: int) -> bool {
    0 <= k && k + part.len() <= text.len() && text.subrange(k, k + part.len()) == part
}

/// `parts` stand in `text` one after the other.
pub open spec fn in_turn(text: Seq<char>, parts: Seq<Seq<char>>) -> bool
    decreases parts.len(),
{
    parts.len() == 0 || exists|k: int| #[trigger]
        stands_in(text, parts[0], k) && in_turn(text.skip(k + parts[0].len()), parts.drop_first())
}

proof fn lemma_in_turn(lead: Seq<char>, part: Seq<char>, tail: Seq<char>, rest: Seq<Seq<char>>)
    requires
        in_turn(tail, rest),
    ensures
        in_turn(lead + part + tail, seq![part] + rest),
{
    let text = lead + part + tail;
    let parts = seq![part] + rest;
    let k = lead.len() as int;
    assert(parts.drop_first() =~= rest);
    assert(text.subrange(k, k + part.len()) =~= part);
    assert(text.skip(k + part.len()) =~= tail);
    assert(stands_in(text, parts[0], k));
}

/// A part between two others stands in the whole.
pub proof fn lemma_one(a: Seq<char>, x: Seq<char>, b: Seq<char>)
    ensures
        in_turn(a + x + b, seq![x]),
{
    lemma_in_turn(a, x, b, Seq::empty());
    assert(seq![x] + Seq::<Seq<char>>::empty() =~= seq![x]);
}

proof fn lemma_two(a: Seq<char>, x: Seq<char>, b: Seq<char>, y: Seq<char>, c: Seq<char>)
    ensures
        in_turn(a + x + b + y + c, seq![x, y]),
{
    lemma_one(b, y, c);
    lemma_in_turn(a, x, b + y + c, seq![y]);
    assert(a + x + (b + y + c) =~= a + x + b + y + c);
    assert(seq![x] + seq![y] =~= seq![x, y]);
}

proof fn lemma_three(a: Seq<char>, x: Seq<char>, b: Seq<char>, y: Seq<char>, c: Seq<char>, z: Seq<char>, d: Seq<char>)
    ensures
        in_turn(a + x + b + y + c + z + d, seq![x, y, z]),
{
    lemma_two(b, y, c, z, d);
    lemma_in_turn(a, x, b + y + c + z + d, seq![y, z]);
    assert(a + x + (b + y + c + z + d) =~= a + x + b + y + c + z + d);
    assert(seq![x] + seq![y, z] =~= seq![x, y, z]);
}

proof fn lemma_four(
    a: Seq<char>,
    w: Seq<char>,
    b: Seq<char>,
    x: Seq<char>,
    c: Seq<char>,
    y: Seq<char>,
    d: Seq<char>,
    z: Seq<char>,
    e: Seq<char>,
)
    ensures
        in_turn(a + w + b + x + c + y + d + z + e, seq![w, x, y, z]),
{
    lemma_three(b, x, c, y, d, z, e);
    lemma_in_turn(a, w, b + x + c + y + d + z + e, seq![x, y, z]);
    assert(a + w + (b + x + c + y + d + z + e) =~= a + w + b + x + c + y + d + z + e);
    assert(seq![w] + seq![x, y, z] =~= seq![w, x, y, z]);
}

/// The message of a refused order tells what was found and what it was held against.
pub proof fn law_order_error_tells(e: OrderError)
    ensures
        match e {
            OrderError::UnsupportedSchemaVersion(found) => in_turn(e.text(), seq![decimal(found as nat)]),
            OrderError::EmptyField(field) => in_turn(e.text(), seq![field@]),
            OrderError::Expired { expiry_ts_ms, now_ms } => in_turn(
                e.text(),
                seq![decimal(expiry_ts_ms as nat), decimal(now_ms as nat)],
            ),
            OrderError::InvalidTick { price, tick_size } => in_turn(
                e.text(),
                seq![decimal(price as nat), decimal(tick_size as nat)],
            ),
            OrderError::InvalidLot { size, lot_size } => in_turn(
                e.text(),
                seq![decimal(size as nat), decimal(lot_size as nat)],
            ),
            OrderError::NonceInvalid { nonce, last_nonce } => in_turn(
                e.text(),
                seq![decimal(nonce as nat), decimal(last_nonce as nat)],
            ),
            OrderError::DuplicateClientOrderId(id) => in_turn(e.text(), seq![id@]),
            OrderError::MarketNotFound(id) => in_turn(e.text(), seq![id@, "not found"@]),
            OrderError::MarketNotActive(id) => in_turn(e.text(), seq![id@, "not active"@]),
            _ => true,
        },
{
    let none = Seq::<char>::empty();
    match e {
        OrderError::UnsupportedSchemaVersion(found) => lemma_one(
            "unsupported schema_version "@,
            decimal(found as nat),
            " (engine expects 1)"@,
        ),
        OrderError::EmptyField(field) => lemma_one("field '"@, field@, "' must not be empty"@),
        OrderError::Expired { expiry_ts_ms, now_ms } => {
            lemma_two(
                "order expired: expiry_ts_ms="@,
                decimal(expiry_ts_ms as nat),
                " <= now_ms="@,
                decimal(now_ms as nat),
                none,
            );
            assert(e.text() + none =~= e.text());
        },
        OrderError::InvalidTick { price, tick_size } => {
            lemma_two(
                "price "@,
                decimal(price as nat),
                " not aligned to tick_size "@,
                decimal(tick_size as nat),
                none,
            );
            assert(e.text() + none =~= e.text());
        },
        OrderError::InvalidLot { size, lot_size } => {
            lemma_two("size "@, decimal(size as nat), " not aligned to lot_size "@, decimal(lot_size as nat), none);
            assert(e.text() + none =~= e.text());
        },
        OrderError::NonceInvalid { nonce, last_nonce } => lemma_two(
            "nonce "@,
            decimal(nonce as nat),
            " is not > last accepted nonce "@,
            decimal(last_nonce as nat),
            " for this trader"@,
        ),
        OrderError::DuplicateClientOrderId(id) => lemma_one(
            "client_order_id '"@,
            id@,
            "' has already been used by this trader"@,
        ),
        OrderError::MarketNotFound(id) => {
            reveal_strlit("' not found");
            reveal_strlit("' ");
            reveal_strlit("not found");
            lemma_two("market '"@, id@, "' "@, "not found"@, none);
            assert("market '"@ + id@ + "' "@ + "not found"@ + none =~= e.text());
        },
        OrderError::MarketNotActive(id) => {
            reveal_strlit("' is not active");
            reveal_strlit("' is ");
            reveal_strlit("not active");
            lemma_two("market '"@, id@, "' is "@, "not active"@, none);
            assert("market '"@ + id@ + "' is "@ + "not active"@ + none =~= e.text());
        },
        _ => {},
    }
}

/// The message of a price or a size that a market does not take tells both numbers.
pub proof fn law_market_error_tells(e: MarketError)
    ensures
        match e {
            MarketError::InvalidTick { price, tick_size } => in_turn(
                e.text(),
                seq![decimal(price as nat), decimal(tick_size as nat)],
            ),
            MarketError::InvalidLot { size, lot_size } => in_turn(
                e.text(),
                seq![decimal(size as nat), decimal(lot_size as nat)],
            ),
            MarketError::NotFound(id) => in_turn(e.text(), seq![id@]),
            _ => true,
        },
{
    match e {
        MarketError::InvalidTick { price, tick_size } => lemma_two(
            "price "@,
            decimal(price as nat),
            " is not aligned to tick_size "@,
            decimal(tick_size as nat),
            " (price % tick_size != 0)"@,
        ),
        MarketError::InvalidLot { size, lot_size } => lemma_two(
            "size "@,
            decimal(size as nat),
            " is not aligned to lot_size "@,
            decimal(lot_size as nat),
            " (size % lot_size != 0)"@,
        ),
        MarketError::NotFound(id) => {
            lemma_one("market not found: "@, id@, Seq::empty());
            assert(e.text() + Seq::<char>::empty() =~= e.text());
        },
        _ => {},
    }
}

/// The message of a failed check tells what was found, what is allowed, and of whom or of
/// which market.
pub proof fn law_risk_error_tells(e: RiskError)
    ensures
        match e {
            RiskError::RateLimitExceeded { trader_id, count, window_ms, max } => in_turn(
                e.text(),
                seq![trader_id@, decimal(count as nat), decimal(window_ms as nat), decimal(max as nat)],
            ),
            RiskError::OrderTooLarge { market_id, size_lots, max_lots } => in_turn(
                e.text(),
                seq![decimal(size_lots as nat), decimal(max_lots as nat), market_id@],
            ),
            RiskError::PriceOutsideBand { market_id, price_ticks, reference_ticks, band_bps } => in_turn(
                e.text(),
                seq![
                    decimal(price_ticks as nat),
                    decimal(band_bps as nat),
                    decimal(reference_ticks as nat),
                    market_id@,
                ],
            ),
        },
{
    match e {
        RiskError::RateLimitExceeded { trader_id, count, window_ms, max } => lemma_four(
            "rate limit exceeded: trader '"@,
            trader_id@,
            "' submitted "@,
            decimal(count as nat),
            " orders in "@,
            decimal(window_ms as nat),
            "ms (max "@,
            decimal(max as nat),
            ")"@,
        ),
        RiskError::OrderTooLarge { market_id, size_lots, max_lots } => lemma_three(
            "order size "@,
            decimal(size_lots as nat),
            " exceeds max allowed "@,
            decimal(max_lots as nat),
            " for market '"@,
            market_id@,
            "'"@,
        ),
        RiskError::PriceOutsideBand { market_id, price_ticks, reference_ticks, band_bps } => lemma_four(
            "price "@,
            decimal(price_ticks as nat),
            " is outside the "@,
            decimal(band_bps as nat),
            "bps band around reference price "@,
            decimal(reference_ticks as nat),
            " for market '"@,
            market_id@,
            "'"@,
        ),
    }
}

/// The messages about a nonce and about a balance tell what was asked for before what was
/// there to hold it against.
pub proof fn law_state_errors_tell(nonce: NonceError, funds: InsufficientFunds)
    ensures
        in_turn(nonce.text(), seq![decimal(nonce.submitted as nat), decimal(nonce.last_nonce as nat)]),
        in_turn(funds.text(), seq![decimal(funds.required as nat), decimal(funds.available as nat)]),
{
    let none = Seq::<char>::empty();
    lemma_two(
        "nonce "@,
        decimal(nonce.submitted as nat),
        " is not > last accepted nonce "@,
        decimal(nonce.last_nonce as nat),
        none,
    );
    assert(nonce.text() + none =~= nonce.text());
    lemma_two(
        "insufficient balance: required "@,
        decimal(funds.required as nat),
        ", available "@,
        decimal(funds.available as nat),
        none,
    );
    assert(funds.text() + none =~= funds.text());
}

/// The message of a refused submission ends in that of its reason.
pub proof fn law_engine_error_tells(e: EngineError)
    ensures
        match e {
            EngineError::Order(inner) => in_turn(e.text(), seq![inner.text()]),
            EngineError::Nonce(inner) => in_turn(e.text(), seq![inner.text()]),
        },
{
    let none = Seq::<char>::empty();
    match e {
        EngineError::Order(inner) => lemma_one("order validation failed: "@, inner.text(), none),
        EngineError::Nonce(inner) => lemma_one("nonce rejected: "@, inner.text(), none),
    }
    assert(e.text() + none =~= e.text());
}

/// The messages of refused cancels and administrative requests name the order, the trader
/// or the market.
pub proof fn law_request_errors_tell(cancel: CancelError, admin: AdminError)
    ensures
        match cancel {
            CancelError::NotFound(id) => in_turn(cancel.text(), seq![id@]),
            CancelError::Unauthorized(who) => in_turn(cancel.text(), seq![who@]),
        },
        match admin {
            AdminError::MarketNotFound(id) => in_turn(admin.text(), seq![id@]),
            AdminError::AlreadyInState(id, status) => in_turn(
                admin.text(),
                seq![
                    id@,
                    if status == MarketStatus::Active {
                        "Active"@
                    } else if status == MarketStatus::Paused {
                        "Paused"@
                    } else {
                        "Settled"@
                    },
                ],
            ),
            AdminError::Settled(id) => in_turn(admin.text(), seq![id@]),
        },
{
    let none = Seq::<char>::empty();
    match cancel {
        CancelError::NotFound(id) => {
            lemma_one("order not found: "@, id@, none);
            assert(cancel.text() + none =~= cancel.text());
        },
        CancelError::Unauthorized(who) => lemma_one("trader '"@, who@, "' does not own this order"@),
    }
    match admin {
        AdminError::MarketNotFound(id) => lemma_one("market '"@, id@, "' not found"@),
        AdminError::AlreadyInState(id, status) => {
            lemma_two("market '"@, id@, "' is already "@, status_name(status), none);
            assert(admin.text() + none =~= admin.text());
        },
        AdminError::Settled(id) => lemma_one("market '"@, id@, "' is settled — cannot be modified"@),
    }
}

/// The messages about logs and snapshots tell the numbers that were expected and found,
/// the version, both checksums, or what was wrong with the log.
pub proof fn law_log_errors_tell(replay: ReplayError, snapshot: SnapshotError)
    ensures
        replay matches ReplayError::SeqIdGap { expected, got } ==> in_turn(
            replay.text(),
            seq![decimal(expected as nat), decimal(got as nat)],
        ),
        match snapshot {
            SnapshotError::UnsupportedVersion { found } => in_turn(snapshot.text(), seq![decimal(found as nat)]),
            SnapshotError::ChecksumMismatch { stored, computed } => in_turn(snapshot.text(), seq![stored@, computed@]),
            SnapshotError::ReplayFailed(e) => in_turn(snapshot.text(), seq![e.text()]),
        },
{
    let none = Seq::<char>::empty();
    if let ReplayError::SeqIdGap { expected, got } = replay {
        lemma_two("seq_id gap: expected "@, decimal(expected as nat), ", got "@, decimal(got as nat), none);
        assert(replay.text() + none =~= replay.text());
    }
    match snapshot {
        SnapshotError::UnsupportedVersion { found } => lemma_one(
            "unsupported snapshot schema version "@,
            decimal(found as nat),
            " (expected 1)"@,
        ),
        SnapshotError::ChecksumMismatch { stored, computed } => {
            lemma_two("checksum mismatch: stored "@, stored@, ", computed "@, computed@, none);
            assert(snapshot.text() + none =~= snapshot.text());
        },
        SnapshotError::ReplayFailed(e) => {
            lemma_one("replay failed: "@, e.text(), none);
            assert(snapshot.text() + none =~= snapshot.text());
        },
    }
}

} // verus!
