//! Orders: what a trader signs, what the engine tracks, and what a match yields.
//!
//! The canonical encoding of an order is frozen: every signature that exists
//! was made over its digest.
use crate::bytes::{be, be_value, law_be_value, lemma_be_injective, lemma_be_len, lemma_pow256_values, push_bytes, push_u16, push_u64};
use crate::crypto::{digest, hex_encode, hex_text, is_public_key, is_signature, public_key_decodes, sha256, signature_verifies};
use crate::domain::market::MarketId;
use crate::keys::lemma_utf8_injective;
use crate::text::{append_decimal, decimal};
use vstd::prelude::*;
use vstd::string::StringExecFns;
use vstd::utf8::encode_utf8;

verus! {

/// The version of the canonical encoding. It is part of the encoding, so an
/// order signed for one version is no order of another.
pub const CURRENT_SCHEMA_VERSION: u16 = 1;

/// The side of the book that an order belongs to.
#[derive(Debug, Clone, Copy, PartialEq, Eq, Structural)]
pub enum Side {
    /// A bid: the trader buys the base asset.
    Buy,
    /// An ask: the trader sells the base asset.
    Sell,
}

/// How long an order stays in force.
#[derive(Debug, Clone, Copy, PartialEq, Eq, Structural)]
pub enum TimeInForce {
    /// Until it is filled or cancelled.
    Gtc,
}

/// Where an order stands in its life.
#[derive(Debug, Clone, Copy, PartialEq, Eq, Structural)]
pub enum OrderStatus {
    /// Resting, nothing filled.
    Open,
    /// Resting, partly filled.
    PartiallyFilled,
    /// Filled in full and off the book.
    Filled,
    /// Cancelled and off the book.
    Cancelled,
    /// Cancelled because it would have matched an order of the same trader.
    CancelledStp,
}

/// An order as a trader signs and submits it.
#[derive(Debug)]
pub struct SignedOrder {
    /// Has to be [`CURRENT_SCHEMA_VERSION`].
    pub schema_version: u16,
    /// The trader's own name for the order. A second submission under the same
    /// name gets the answer of the first.
    pub client_order_id: String,
    pub market_id: MarketId,
    /// The hexadecimal notation of `trader_pubkey`.
    pub trader_id: String,
    pub side: Side,
    /// Limit price in ticks.
    pub price_ticks: u64,
    /// Size in lots.
    pub size_lots: u64,
    pub time_in_force: TimeInForce,
    /// Has to grow from order to order of a trader.
    pub nonce: u64,
    /// The order is refused from this time on; 0 for no expiry.
    pub expiry_ts_ms: u64,
    /// When the trader made the order; for information.
    pub created_at_ms: u64,
    /// Entropy, so that orders alike in all else differ in their digest.
    pub salt: u64,
    /// The trader's ed25519 public key.
    pub trader_pubkey: [u8; 32],
    /// The ed25519 signature over the canonical hash.
    pub signature: [u8; 64],
}

impl Clone for SignedOrder {
    fn clone(&self) -> (copy: SignedOrder)
        ensures
            copy == *self,
    {
        SignedOrder {
            schema_version: self.schema_version,
            client_order_id: self.client_order_id.clone(),
            market_id: self.market_id.clone(),
            trader_id: self.trader_id.clone(),
            side: self.side,
            price_ticks: self.price_ticks,
            size_lots: self.size_lots,
            time_in_force: self.time_in_force,
            nonce: self.nonce,
            expiry_ts_ms: self.expiry_ts_ms,
            created_at_ms: self.created_at_ms,
            salt: self.salt,
            trader_pubkey: self.trader_pubkey,
            signature: self.signature,
        }
    }
}

/// The digest of an order's canonical encoding. Fills and cancels are booked
/// under it.
#[derive(Debug, Clone, Copy, PartialEq, Eq, Hash)]
pub struct OrderHash(pub [u8; 32]);

impl OrderHash {
    /// The hash in hexadecimal notation.
    pub fn to_hex(&self) -> (s: String)
        ensures
            s@ == hex_text(self.0@),
            s@.len() == 64,
    {
        hex_encode(self.0.as_slice())
    }
}

/// The identifier that the engine gives to an order.
#[derive(Debug, PartialEq, Eq, Hash)]
pub struct OrderId(pub String);

impl Clone for OrderId {
    fn clone(&self) -> (copy: OrderId)
        ensures
            copy == *self,
    {
        OrderId(self.0.clone())
    }
}

impl OrderId {
    /// The characters of the identifier: two orders with the same are one.
    pub open spec fn key(&self) -> Seq<char> {
        self.0@
    }
}

/// An order as the engine tracks it. Fills and cancels change
/// `filled_size_lots`, `status` and `last_update_sequence`; the rest stays.
#[derive(Debug)]
pub struct Order {
    pub order_id: OrderId,
    pub client_order_id: String,
    pub order_hash: OrderHash,
    pub market_id: MarketId,
    pub trader_id: String,
    pub trader_pubkey: [u8; 32],
    pub side: Side,
    pub price_ticks: u64,
    pub orig_size_lots: u64,
    pub filled_size_lots: u64,
    pub time_in_force: TimeInForce,
    pub nonce: u64,
    pub expiry_ts_ms: u64,
    pub status: OrderStatus,
    /// The sequence number of acceptance. Within a price level the lower one
    /// goes first.
    pub created_sequence: u64,
    /// The sequence number of the last change.
    pub last_update_sequence: u64,
    /// When the engine accepted the order.
    pub accepted_at_ms: u64,
}

impl Clone for Order {
    fn clone(&self) -> (copy: Order)
        ensures
            copy == *self,
    {
        Order {
            order_id: self.order_id.clone(),
            client_order_id: self.client_order_id.clone(),
            order_hash: self.order_hash,
            market_id: self.market_id.clone(),
            trader_id: self.trader_id.clone(),
            trader_pubkey: self.trader_pubkey,
            side: self.side,
            price_ticks: self.price_ticks,
            orig_size_lots: self.orig_size_lots,
            filled_size_lots: self.filled_size_lots,
            time_in_force: self.time_in_force,
            nonce: self.nonce,
            expiry_ts_ms: self.expiry_ts_ms,
            status: self.status,
            created_sequence: self.created_sequence,
            last_update_sequence: self.last_update_sequence,
            accepted_at_ms: self.accepted_at_ms,
        }
    }
}

impl OrderStatus {
    /// No further match is possible.
    pub open spec fn closed(self) -> bool {
        self == OrderStatus::Filled || self == OrderStatus::Cancelled || self
            == OrderStatus::CancelledStp
    }
}

impl Order {
    /// The quantity that is left to match.
    pub open spec fn remaining(&self) -> int {
        self.orig_size_lots - self.filled_size_lots
    }

    /// No more has been filled than was ordered.
    pub open spec fn within_size(&self) -> bool {
        self.filled_size_lots <= self.orig_size_lots
    }

    pub open spec fn closed(&self) -> bool {
        self.status.closed()
    }

    /// The quantity that is left to match.
    pub fn remaining_size_lots(&self) -> (n: u64)
        requires
            self.within_size(),
        ensures
            n == self.remaining(),
    {
        self.orig_size_lots - self.filled_size_lots
    }

    /// Whether the order is filled or cancelled.
    pub fn is_closed(&self) -> (closed: bool)
        ensures
            closed == self.closed(),
    {
        match self.status {
            OrderStatus::Filled | OrderStatus::Cancelled | OrderStatus::CancelledStp => true,
            _ => false,
        }
    }
}

/// One match between an incoming order (the taker) and a resting one (the maker).
#[derive(Debug)]
pub struct Fill {
    pub market_id: MarketId,
    pub taker_order_id: OrderId,
    pub taker_order_hash: OrderHash,
    pub taker_trader_id: String,
    pub maker_order_id: OrderId,
    pub maker_order_hash: OrderHash,
    pub maker_trader_id: String,
    /// The price of the maker.
    pub price_ticks: u64,
    pub size_lots: u64,
    /// The sequence number of the taker's acceptance.
    pub sequence_id: u64,
    pub executed_at_ms: u64,
}

impl Clone for Fill {
    fn clone(&self) -> (copy: Fill)
        ensures
            copy == *self,
    {
        Fill {
            market_id: self.market_id.clone(),
            taker_order_id: self.taker_order_id.clone(),
            taker_order_hash: self.taker_order_hash,
            taker_trader_id: self.taker_trader_id.clone(),
            maker_order_id: self.maker_order_id.clone(),
            maker_order_hash: self.maker_order_hash,
            maker_trader_id: self.maker_trader_id.clone(),
            price_ticks: self.price_ticks,
            size_lots: self.size_lots,
            sequence_id: self.sequence_id,
            executed_at_ms: self.executed_at_ms,
        }
    }
}

/// A text with its length in bytes, modulo 2^16, in front.
pub open spec fn prefixed(text: Seq<char>) -> Seq<u8> {
    be(encode_utf8(text).len() % 0x1_0000, 2) + encode_utf8(text)
}

pub open spec fn side_code(side: Side) -> u8 {
    match side {
        Side::Buy => 0,
        Side::Sell => 1,
    }
}

/// Append a text with its length in front.
pub fn push_prefixed(out: &mut Vec<u8>, text: &str)
    ensures
        final(out)@ == old(out)@ + prefixed(text@),
{
    let bytes = text.as_bytes();
    push_u16(out, (bytes.len() % 0x1_0000) as u16);
    push_bytes(out, bytes);
    proof {
        assert(out@ =~= old(out)@ + prefixed(text@));
    }
}

impl SignedOrder {
    /// The fields of fixed width, which end the encoding.
    pub open spec fn fixed_part(&self) -> Seq<u8> {
        seq![side_code(self.side)] + be(self.price_ticks as nat, 8) + be(self.size_lots as nat, 8)
            + seq![0u8] + be(self.nonce as nat, 8) + be(self.expiry_ts_ms as nat, 8) + be(
            self.created_at_ms as nat,
            8,
        ) + be(self.salt as nat, 8) + self.trader_pubkey@
    }

    /// The canonical encoding. The signature is not part of it.
    pub open spec fn canonical(&self) -> Seq<u8> {
        be(self.schema_version as nat, 2) + prefixed(self.market_id.0@) + prefixed(self.trader_id@)
            + prefixed(self.client_order_id@) + self.fixed_part()
    }

    /// The digest of the canonical encoding.
    pub open spec fn hash(&self) -> Seq<u8> {
        sha256(self.canonical())
    }

    /// The canonical encoding:
    ///
    /// | field             | encoding                                          |
    /// |-------------------|---------------------------------------------------|
    /// | `schema_version`  | 2 bytes, big-endian                               |
    /// | `market_id`       | length in 2 bytes, then UTF-8                     |
    /// | `trader_id`       | length in 2 bytes, then UTF-8                     |
    /// | `client_order_id` | length in 2 bytes, then UTF-8                     |
    /// | `side`            | 1 byte: 0 to buy, 1 to sell                       |
    /// | `price_ticks`     | 8 bytes, big-endian                               |
    /// | `size_lots`       | 8 bytes, big-endian                               |
    /// | `time_in_force`   | 1 byte: 0                                         |
    /// | `nonce`           | 8 bytes, big-endian                               |
    /// | `expiry_ts_ms`    | 8 bytes, big-endian                               |
    /// | `created_at_ms`   | 8 bytes, big-endian                               |
    /// | `salt`            | 8 bytes, big-endian                               |
    /// | `trader_pubkey`   | 32 bytes                                          |
    pub fn canonical_bytes(&self) -> (out: Vec<u8>)
        ensures
            out@ == self.canonical(),
    {
        let mut out: Vec<u8> = Vec::new();
        push_u16(&mut out, self.schema_version);
        push_prefixed(&mut out, self.market_id.0.as_str());
        push_prefixed(&mut out, self.trader_id.as_str());
        push_prefixed(&mut out, self.client_order_id.as_str());
        let ghost head = out@;
        out.push(match self.side {
            Side::Buy => 0u8,
            Side::Sell => 1u8,
        });
        push_u64(&mut out, self.price_ticks);
        push_u64(&mut out, self.size_lots);
        out.push(match self.time_in_force {
            TimeInForce::Gtc => 0u8,
        });
        push_u64(&mut out, self.nonce);
        push_u64(&mut out, self.expiry_ts_ms);
        push_u64(&mut out, self.created_at_ms);
        push_u64(&mut out, self.salt);
        push_bytes(&mut out, self.trader_pubkey.as_slice());
        proof {
            assert(head =~= be(self.schema_version as nat, 2) + prefixed(self.market_id.0@)
                + prefixed(self.trader_id@) + prefixed(self.client_order_id@));
            assert(out@ =~= head + self.fixed_part());
        }
        out
    }

    /// The SHA-256 digest of the canonical encoding.
    pub fn canonical_hash(&self) -> (h: OrderHash)
        ensures
            h.0@ == self.hash(),
    {
        let bytes = self.canonical_bytes();
        OrderHash(digest(bytes.as_slice()))
    }

    /// What [`SignedOrder::verify_signature`] answers.
    pub open spec fn signature_verdict(&self) -> Result<(), OrderError> {
        if !is_public_key(self.trader_pubkey@) {
            Err(OrderError::InvalidPublicKey)
        } else if !is_signature(self.trader_pubkey@, self.hash(), self.signature@) {
            Err(OrderError::InvalidSignature)
        } else {
            Ok(())
        }
    }

    /// Check the ed25519 signature over the canonical hash.
    pub fn verify_signature(&self) -> (r: Result<(), OrderError>)
        ensures
            r == self.signature_verdict(),
    {
        let hash = self.canonical_hash();
        if !public_key_decodes(&self.trader_pubkey) {
            return Err(OrderError::InvalidPublicKey);
        }
        if !signature_verifies(&self.trader_pubkey, hash.0.as_slice(), &self.signature) {
            return Err(OrderError::InvalidSignature);
        }
        Ok(())
    }

    /// What [`SignedOrder::validate_fields`] answers: the first fault in the
    /// order of the fields.
    pub open spec fn fields_verdict(&self, now_ms: u64) -> Result<(), OrderError> {
        if self.schema_version != CURRENT_SCHEMA_VERSION {
            Err(OrderError::UnsupportedSchemaVersion(self.schema_version))
        } else if self.market_id.0@.len() == 0 {
            Err(OrderError::EmptyField("market_id"))
        } else if self.trader_id@.len() == 0 {
            Err(OrderError::EmptyField("trader_id"))
        } else if self.client_order_id@.len() == 0 {
            Err(OrderError::EmptyField("client_order_id"))
        } else if self.price_ticks == 0 {
            Err(OrderError::ZeroPrice)
        } else if self.size_lots == 0 {
            Err(OrderError::ZeroSize)
        } else if self.expiry_ts_ms != 0 && self.expiry_ts_ms <= now_ms {
            Err(OrderError::Expired { expiry_ts_ms: self.expiry_ts_ms, now_ms })
        } else {
            Ok(())
        }
    }

    /// Check the fields that can be checked without any state: the schema
    /// version, that no name is empty, that price and size are positive, and that
    /// the order has not expired.
    pub fn validate_fields(&self, now_ms: u64) -> (r: Result<(), OrderError>)
        ensures
            r == self.fields_verdict(now_ms),
            r is Ok <==> self.schema_version == 1 && self.market_id.0@.len() > 0 && self.trader_id@.len() > 0
                && self.client_order_id@.len() > 0 && self.price_ticks > 0 && self.size_lots > 0 && (
            self.expiry_ts_ms == 0 || now_ms < self.expiry_ts_ms),
            r matches Err(OrderError::Expired { expiry_ts_ms, now_ms: at }) ==> expiry_ts_ms == self.expiry_ts_ms && at
                == now_ms && 0 < expiry_ts_ms <= at,
    {
        if self.schema_version != CURRENT_SCHEMA_VERSION {
            return Err(OrderError::UnsupportedSchemaVersion(self.schema_version));
        }
        if self.market_id.0.as_str().is_empty() {
            return Err(OrderError::EmptyField("market_id"));
        }
        if self.trader_id.as_str().is_empty() {
            return Err(OrderError::EmptyField("trader_id"));
        }
        if self.client_order_id.as_str().is_empty() {
            return Err(OrderError::EmptyField("client_order_id"));
        }
        if self.price_ticks == 0 {
            return Err(OrderError::ZeroPrice);
        }
        if self.size_lots == 0 {
            return Err(OrderError::ZeroSize);
        }
        if self.expiry_ts_ms != 0 && self.expiry_ts_ms <= now_ms {
            return Err(OrderError::Expired { expiry_ts_ms: self.expiry_ts_ms, now_ms });
        }
        Ok(())
    }
}

/// What can be wrong with an order.
#[derive(Debug)]
pub enum OrderError {
    UnsupportedSchemaVersion(u16),
    EmptyField(&'static str),
    ZeroPrice,
    ZeroSize,
    Expired { expiry_ts_ms: u64, now_ms: u64 },
    InvalidPublicKey,
    InvalidSignature,
    InvalidTick { price: u64, tick_size: u64 },
    InvalidLot { size: u64, lot_size: u64 },
    NonceInvalid { nonce: u64, last_nonce: u64 },
    DuplicateClientOrderId(String),
    MarketNotFound(String),
    MarketNotActive(String),
    TraderIdMismatch,
}

impl OrderError {
    /// The text of [`OrderError::message`].
    pub open spec fn text(&self) -> Seq<char> {
        match self {
            OrderError::UnsupportedSchemaVersion(found) => "unsupported schema_version "@ + decimal(
                *found as nat,
            ) + " (engine expects 1)"@,
            OrderError::EmptyField(field) => "field '"@ + field@ + "' must not be empty"@,
            OrderError::ZeroPrice => "price_ticks must be > 0"@,
            OrderError::ZeroSize => "size_lots must be > 0"@,
            OrderError::Expired { expiry_ts_ms, now_ms } => "order expired: expiry_ts_ms="@
                + decimal(*expiry_ts_ms as nat) + " <= now_ms="@ + decimal(*now_ms as nat),
            OrderError::InvalidPublicKey => "trader_pubkey is not a valid ed25519 public key"@,
            OrderError::InvalidSignature => "ed25519 signature verification failed"@,
            OrderError::InvalidTick { price, tick_size } => "price "@ + decimal(*price as nat)
                + " not aligned to tick_size "@ + decimal(*tick_size as nat),
            OrderError::InvalidLot { size, lot_size } => "size "@ + decimal(*size as nat)
                + " not aligned to lot_size "@ + decimal(*lot_size as nat),
            OrderError::NonceInvalid { nonce, last_nonce } => "nonce "@ + decimal(*nonce as nat)
                + " is not > last accepted nonce "@ + decimal(*last_nonce as nat)
                + " for this trader"@,
            OrderError::DuplicateClientOrderId(id) => "client_order_id '"@ + id@
                + "' has already been used by this trader"@,
            OrderError::MarketNotFound(id) => "market '"@ + id@ + "' not found"@,
            OrderError::MarketNotActive(id) => "market '"@ + id@ + "' is not active"@,
            OrderError::TraderIdMismatch => "trader_id does not match hex(trader_pubkey)"@,
        }
    }

    /// The error in words.
    pub fn message(&self) -> (s: String)
        ensures
            s@ == self.text(),
    {
        match self {
            OrderError::UnsupportedSchemaVersion(found) => {
                let mut s = "unsupported schema_version ".to_owned();
                append_decimal(&mut s, *found as u64);
                s.append(" (engine expects 1)");
                s
            },
            OrderError::EmptyField(field) => {
                let mut s = "field '".to_owned();
                s.append(field);
                s.append("' must not be empty");
                s
            },
            OrderError::ZeroPrice => "price_ticks must be > 0".to_owned(),
            OrderError::ZeroSize => "size_lots must be > 0".to_owned(),
            OrderError::Expired { expiry_ts_ms, now_ms } => {
                let mut s = "order expired: expiry_ts_ms=".to_owned();
                append_decimal(&mut s, *expiry_ts_ms);
                s.append(" <= now_ms=");
                append_decimal(&mut s, *now_ms);
                s
            },
            OrderError::InvalidPublicKey => "trader_pubkey is not a valid ed25519 public key".to_owned(),
            OrderError::InvalidSignature => "ed25519 signature verification failed".to_owned(),
            OrderError::InvalidTick { price, tick_size } => {
                let mut s = "price ".to_owned();
                append_decimal(&mut s, *price);
                s.append(" not aligned to tick_size ");
                append_decimal(&mut s, *tick_size);
                s
            },
            OrderError::InvalidLot { size, lot_size } => {
                let mut s = "size ".to_owned();
                append_decimal(&mut s, *size);
                s.append(" not aligned to lot_size ");
                append_decimal(&mut s, *lot_size);
                s
            },
            OrderError::NonceInvalid { nonce, last_nonce } => {
                let mut s = "nonce ".to_owned();
                append_decimal(&mut s, *nonce);
                s.append(" is not > last accepted nonce ");
                append_decimal(&mut s, *last_nonce);
                s.append(" for this trader");
                s
            },
            OrderError::DuplicateClientOrderId(id) => {
                let mut s = "client_order_id '".to_owned();
                s.append(id.as_str());
                s.append("' has already been used by this trader");
                s
            },
            OrderError::MarketNotFound(id) => {
                let mut s = "market '".to_owned();
                s.append(id.as_str());
                s.append("' not found");
                s
            },
            OrderError::MarketNotActive(id) => {
                let mut s = "market '".to_owned();
                s.append(id.as_str());
                s.append("' is not active");
                s
            },
            OrderError::TraderIdMismatch => "trader_id does not match hex(trader_pubkey)".to_owned(),
        }
    }
}

proof fn lemma_split(a: Seq<u8>, b: Seq<u8>, c: Seq<u8>, d: Seq<u8>)
    requires
        a + b == c + d,
        a.len() == c.len(),
    ensures
        a == c,
        b == d,
{
    assert(a =~= (a + b).take(a.len() as int));
    assert(c =~= (c + d).take(c.len() as int));
    assert(b =~= (a + b).skip(a.len() as int));
    assert(d =~= (c + d).skip(c.len() as int));
}

proof fn lemma_split_end(a: Seq<u8>, b: Seq<u8>, c: Seq<u8>, d: Seq<u8>)
    requires
        a + b == c + d,
        b.len() == d.len(),
    ensures
        a == c,
        b == d,
{
    assert((a + b).len() == a.len() + b.len());
    assert((c + d).len() == c.len() + d.len());
    lemma_split(a, b, c, d);
}

proof fn lemma_be8(m: u64, n: u64)
    requires
        be(m as nat, 8) == be(n as nat, 8),
    ensures
        m == n,
{
    lemma_pow256_values();
    lemma_be_injective(m as nat, n as nat, 8);
}

proof fn lemma_fixed_part_len(o: SignedOrder)
    ensures
        o.fixed_part().len() == 82,
{
    lemma_be_len(o.price_ticks as nat, 8);
    lemma_be_len(o.size_lots as nat, 8);
    lemma_be_len(o.nonce as nat, 8);
    lemma_be_len(o.expiry_ts_ms as nat, 8);
    lemma_be_len(o.created_at_ms as nat, 8);
    lemma_be_len(o.salt as nat, 8);
    assert(o.trader_pubkey@.len() == 32);
}

/// The fields of fixed width of two orders are the same.
pub open spec fn same_fixed_fields(a: SignedOrder, b: SignedOrder) -> bool {
    &&& a.side == b.side
    &&& a.price_ticks == b.price_ticks
    &&& a.size_lots == b.size_lots
    &&& a.time_in_force == b.time_in_force
    &&& a.nonce == b.nonce
    &&& a.expiry_ts_ms == b.expiry_ts_ms
    &&& a.created_at_ms == b.created_at_ms
    &&& a.salt == b.salt
    &&& a.trader_pubkey@ == b.trader_pubkey@
}

/// Whatever the lengths of their names, two orders with one encoding have the
/// same side, price, size, nonce, times, salt and public key.
pub proof fn law_canonical_fixes_numbers(a: SignedOrder, b: SignedOrder)
    requires
        a.canonical() == b.canonical(),
    ensures
        same_fixed_fields(a, b),
{
    lemma_fixed_part_len(a);
    lemma_fixed_part_len(b);
    let ha = be(a.schema_version as nat, 2) + prefixed(a.market_id.0@) + prefixed(a.trader_id@)
        + prefixed(a.client_order_id@);
    let hb = be(b.schema_version as nat, 2) + prefixed(b.market_id.0@) + prefixed(b.trader_id@)
        + prefixed(b.client_order_id@);
    lemma_split_end(ha, a.fixed_part(), hb, b.fixed_part());
    lemma_fixed_parts(a, b);
}

proof fn lemma_fixed_parts(a: SignedOrder, b: SignedOrder)
    requires
        a.fixed_part() == b.fixed_part(),
    ensures
        same_fixed_fields(a, b),
{
    let a1 = seq![side_code(a.side)];
    let b1 = seq![side_code(b.side)];
    let a2 = a1 + be(a.price_ticks as nat, 8);
    let b2 = b1 + be(b.price_ticks as nat, 8);
    let a3 = a2 + be(a.size_lots as nat, 8);
    let b3 = b2 + be(b.size_lots as nat, 8);
    let a4 = a3 + seq![0u8];
    let b4 = b3 + seq![0u8];
    let a5 = a4 + be(a.nonce as nat, 8);
    let b5 = b4 + be(b.nonce as nat, 8);
    let a6 = a5 + be(a.expiry_ts_ms as nat, 8);
    let b6 = b5 + be(b.expiry_ts_ms as nat, 8);
    let a7 = a6 + be(a.created_at_ms as nat, 8);
    let b7 = b6 + be(b.created_at_ms as nat, 8);
    let a8 = a7 + be(a.salt as nat, 8);
    let b8 = b7 + be(b.salt as nat, 8);
    lemma_be_len(a.price_ticks as nat, 8);
    lemma_be_len(b.price_ticks as nat, 8);
    lemma_be_len(a.size_lots as nat, 8);
    lemma_be_len(b.size_lots as nat, 8);
    lemma_be_len(a.nonce as nat, 8);
    lemma_be_len(b.nonce as nat, 8);
    lemma_be_len(a.expiry_ts_ms as nat, 8);
    lemma_be_len(b.expiry_ts_ms as nat, 8);
    lemma_be_len(a.created_at_ms as nat, 8);
    lemma_be_len(b.created_at_ms as nat, 8);
    lemma_be_len(a.salt as nat, 8);
    lemma_be_len(b.salt as nat, 8);
    assert(a.trader_pubkey@.len() == b.trader_pubkey@.len());
    lemma_split_end(a8, a.trader_pubkey@, b8, b.trader_pubkey@);
    lemma_split_end(a7, be(a.salt as nat, 8), b7, be(b.salt as nat, 8));
    lemma_split_end(a6, be(a.created_at_ms as nat, 8), b6, be(b.created_at_ms as nat, 8));
    lemma_split_end(a5, be(a.expiry_ts_ms as nat, 8), b5, be(b.expiry_ts_ms as nat, 8));
    lemma_split_end(a4, be(a.nonce as nat, 8), b4, be(b.nonce as nat, 8));
    lemma_split_end(a3, seq![0u8], b3, seq![0u8]);
    lemma_split_end(a2, be(a.size_lots as nat, 8), b2, be(b.size_lots as nat, 8));
    lemma_split_end(a1, be(a.price_ticks as nat, 8), b1, be(b.price_ticks as nat, 8));
    assert(a1[0] == b1[0]);
    lemma_be8(a.salt, b.salt);
    lemma_be8(a.created_at_ms, b.created_at_ms);
    lemma_be8(a.expiry_ts_ms, b.expiry_ts_ms);
    lemma_be8(a.nonce, b.nonce);
    lemma_be8(a.size_lots, b.size_lots);
    lemma_be8(a.price_ticks, b.price_ticks);
}

/// A name fits in the length prefix.
pub open spec fn fits_prefix(text: Seq<char>) -> bool {
    encode_utf8(text).len() < 0x1_0000
}

proof fn lemma_prefixed(a: Seq<char>, x: Seq<u8>, b: Seq<char>, y: Seq<u8>)
    requires
        fits_prefix(a),
        fits_prefix(b),
        prefixed(a) + x == prefixed(b) + y,
    ensures
        a == b,
        x == y,
{
    let la = encode_utf8(a).len();
    let lb = encode_utf8(b).len();
    lemma_be_len(la, 2);
    lemma_be_len(lb, 2);
    let ra = encode_utf8(a) + x;
    let rb = encode_utf8(b) + y;
    assert(prefixed(a) + x =~= be(la, 2) + ra);
    assert(prefixed(b) + y =~= be(lb, 2) + rb);
    lemma_split(be(la, 2), ra, be(lb, 2), rb);
    lemma_pow256_values();
    lemma_be_injective(la, lb, 2);
    lemma_split(encode_utf8(a), x, encode_utf8(b), y);
    lemma_utf8_injective(a, b);
}

proof fn lemma_regroup(a: Seq<u8>, b: Seq<u8>, c: Seq<u8>, d: Seq<u8>, e: Seq<u8>)
    ensures
        a + b + c + d + e == a + (b + (c + (d + e))),
{
    assert(a + b + c + d + e =~= a + (b + (c + (d + e))));
}

/// The encoding is unambiguous where every name fits in its length prefix: two
/// orders with one encoding agree in every field but the signature. So a change
/// of any signed field changes the bytes that are hashed.
pub proof fn law_canonical_injective(a: SignedOrder, b: SignedOrder)
    requires
        fits_prefix(a.market_id.0@),
        fits_prefix(a.trader_id@),
        fits_prefix(a.client_order_id@),
        fits_prefix(b.market_id.0@),
        fits_prefix(b.trader_id@),
        fits_prefix(b.client_order_id@),
        a.canonical() == b.canonical(),
    ensures
        a.schema_version == b.schema_version,
        a.market_id.0@ == b.market_id.0@,
        a.trader_id@ == b.trader_id@,
        a.client_order_id@ == b.client_order_id@,
        same_fixed_fields(a, b),
{
    law_canonical_fixes_numbers(a, b);
    let a3 = prefixed(a.client_order_id@) + a.fixed_part();
    let b3 = prefixed(b.client_order_id@) + b.fixed_part();
    let a2 = prefixed(a.trader_id@) + a3;
    let b2 = prefixed(b.trader_id@) + b3;
    let a1 = prefixed(a.market_id.0@) + a2;
    let b1 = prefixed(b.market_id.0@) + b2;
    lemma_regroup(
        be(a.schema_version as nat, 2),
        prefixed(a.market_id.0@),
        prefixed(a.trader_id@),
        prefixed(a.client_order_id@),
        a.fixed_part(),
    );
    lemma_regroup(
        be(b.schema_version as nat, 2),
        prefixed(b.market_id.0@),
        prefixed(b.trader_id@),
        prefixed(b.client_order_id@),
        b.fixed_part(),
    );
    lemma_be_len(a.schema_version as nat, 2);
    lemma_be_len(b.schema_version as nat, 2);
    lemma_split(be(a.schema_version as nat, 2), a1, be(b.schema_version as nat, 2), b1);
    lemma_pow256_values();
    lemma_be_injective(a.schema_version as nat, b.schema_version as nat, 2);
    lemma_prefixed(a.market_id.0@, a2, b.market_id.0@, b2);
    lemma_prefixed(a.trader_id@, a3, b.trader_id@, b3);
    lemma_prefixed(a.client_order_id@, a.fixed_part(), b.client_order_id@, b.fixed_part());
}

/// The signature is no part of what is hashed.
pub proof fn law_hash_ignores_signature(order: SignedOrder, signature: [u8; 64])
    ensures
        (SignedOrder { signature, ..order }).hash() == order.hash(),
{
}

/// An order rests as long as it is open or partly filled, and is closed otherwise.
pub proof fn law_closed_statuses(order: Order)
    ensures
        !order.closed() <==> order.status == OrderStatus::Open || order.status == OrderStatus::PartiallyFilled,
        order.remaining() + order.filled_size_lots == order.orig_size_lots,
        order.within_size() <==> order.remaining() >= 0,
{
}

/// The fields of an order pass exactly when the version is the current one, no name is
/// empty, price and size are positive, and the order never expires or expires after
/// the time of the check.
pub proof fn law_fields_pass(order: SignedOrder, now: u64)
    ensures
        order.fields_verdict(now) is Ok <==> {
            &&& order.schema_version == 1
            &&& order.market_id.0@.len() > 0
            &&& order.trader_id@.len() > 0
            &&& order.client_order_id@.len() > 0
            &&& order.price_ticks > 0
            &&& order.size_lots > 0
            &&& order.expiry_ts_ms == 0 || now < order.expiry_ts_ms
        },
{
}

/// An order that is in order otherwise is refused as expired from its expiry on and
/// not before, and never where it has no expiry.
pub proof fn law_expired_from_its_time_on(order: SignedOrder, now: u64)
    requires
        order.schema_version == 1,
        order.market_id.0@.len() > 0,
        order.trader_id@.len() > 0,
        order.client_order_id@.len() > 0,
        order.price_ticks > 0,
        order.size_lots > 0,
    ensures
        0 < order.expiry_ts_ms <= now <==> order.fields_verdict(now) == Err::<(), OrderError>(
            OrderError::Expired { expiry_ts_ms: order.expiry_ts_ms, now_ms: now },
        ),
        order.expiry_ts_ms > now ==> order.fields_verdict(now) == Ok::<(), OrderError>(()),
        order.expiry_ts_ms == 0 ==> order.fields_verdict(now) == Ok::<(), OrderError>(()),
{
}

/// An expiry is a deadline: an order that passes without one passes with one at every
/// time before it, and at no other.
pub proof fn law_expiry_is_a_deadline(order: SignedOrder, deadline: u64, now: u64)
    requires
        order.expiry_ts_ms == 0,
        order.fields_verdict(now) is Ok,
        deadline > 0,
    ensures
        (SignedOrder { expiry_ts_ms: deadline, ..order }).fields_verdict(now) is Ok <==> now < deadline,
{
}

/// The first fault in the order of the fields is told: the version, the names of the
/// market, the trader and the order, the price, the size, the expiry.
pub proof fn law_first_fault_is_told(order: SignedOrder, now: u64)
    ensures
        order.schema_version != 1 <==> (order.fields_verdict(now) matches Err(
            OrderError::UnsupportedSchemaVersion(found),
        ) && found == order.schema_version),
        order.schema_version == 1 && order.market_id.0@.len() == 0 <==> (order.fields_verdict(now) matches Err(
            OrderError::EmptyField(name),
        ) && name@ == "market_id"@),
        order.schema_version == 1 && order.market_id.0@.len() > 0 && order.trader_id@.len() == 0
            <==> (order.fields_verdict(now) matches Err(OrderError::EmptyField(name)) && name@ == "trader_id"@),
        order.schema_version == 1 && order.market_id.0@.len() > 0 && order.trader_id@.len() > 0
            && order.client_order_id@.len() == 0 <==> (order.fields_verdict(now) matches Err(OrderError::EmptyField(name))
            && name@ == "client_order_id"@),
        order.fields_verdict(now) matches Err(OrderError::ZeroPrice) ==> order.price_ticks == 0,
        order.fields_verdict(now) matches Err(OrderError::ZeroSize) ==> order.size_lots == 0 && order.price_ticks > 0,
        order.schema_version == 1 && order.market_id.0@.len() > 0 && order.trader_id@.len() > 0
            && order.client_order_id@.len() > 0 ==> {
            &&& order.price_ticks == 0 <==> order.fields_verdict(now) == Err::<(), OrderError>(OrderError::ZeroPrice)
            &&& order.price_ticks > 0 && order.size_lots == 0 <==> order.fields_verdict(now) == Err::<(), OrderError>(
                OrderError::ZeroSize,
            )
        },
{
    reveal_strlit("market_id");
    reveal_strlit("trader_id");
    reveal_strlit("client_order_id");
    assert("trader_id"@[0] == 't');
    assert("market_id"@[0] == 'm');
    assert("client_order_id"@[0] == 'c');
}

/// A signature passes exactly when the public key is one and the signature is one of
/// the digest of the canonical encoding under it. A bad key is told before a bad
/// signature.
pub proof fn law_signature_passes(order: SignedOrder)
    ensures
        order.signature_verdict() is Ok <==> is_public_key(order.trader_pubkey@) && is_signature(
            order.trader_pubkey@,
            sha256(order.canonical()),
            order.signature@,
        ),
        !is_public_key(order.trader_pubkey@) <==> order.signature_verdict() == Err::<(), OrderError>(
            OrderError::InvalidPublicKey,
        ),
        order.signature_verdict() is Err ==> order.signature_verdict() == Err::<(), OrderError>(
            OrderError::InvalidPublicKey,
        ) || order.signature_verdict() == Err::<(), OrderError>(OrderError::InvalidSignature),
{
}

/// The layout of the fields of fixed width: the side, the price, the size, the time in
/// force, the nonce, the expiry, the time of making, the salt, and the public key.
pub proof fn law_fixed_part_layout(o: SignedOrder)
    ensures
        ({
            let f = o.fixed_part();
            &&& f.len() == 82
            &&& f[0] == (if o.side == Side::Buy {
                0u8
            } else {
                1u8
            })
            &&& be_value(f.subrange(1, 9)) == o.price_ticks
            &&& be_value(f.subrange(9, 17)) == o.size_lots
            &&& f[17] == 0
            &&& be_value(f.subrange(18, 26)) == o.nonce
            &&& be_value(f.subrange(26, 34)) == o.expiry_ts_ms
            &&& be_value(f.subrange(34, 42)) == o.created_at_ms
            &&& be_value(f.subrange(42, 50)) == o.salt
            &&& f.subrange(50, 82) == o.trader_pubkey@
        }),
{
    let f = o.fixed_part();
    lemma_fixed_part_len(o);
    lemma_pow256_values();
    lemma_be_len(o.price_ticks as nat, 8);
    lemma_be_len(o.size_lots as nat, 8);
    lemma_be_len(o.nonce as nat, 8);
    lemma_be_len(o.expiry_ts_ms as nat, 8);
    lemma_be_len(o.created_at_ms as nat, 8);
    lemma_be_len(o.salt as nat, 8);
    law_be_value(o.price_ticks as nat, 8);
    law_be_value(o.size_lots as nat, 8);
    law_be_value(o.nonce as nat, 8);
    law_be_value(o.expiry_ts_ms as nat, 8);
    law_be_value(o.created_at_ms as nat, 8);
    law_be_value(o.salt as nat, 8);
    assert(f.subrange(1, 9) =~= be(o.price_ticks as nat, 8));
    assert(f.subrange(9, 17) =~= be(o.size_lots as nat, 8));
    assert(f.subrange(18, 26) =~= be(o.nonce as nat, 8));
    assert(f.subrange(26, 34) =~= be(o.expiry_ts_ms as nat, 8));
    assert(f.subrange(34, 42) =~= be(o.created_at_ms as nat, 8));
    assert(f.subrange(42, 50) =~= be(o.salt as nat, 8));
    assert(f.subrange(50, 82) =~= o.trader_pubkey@);
}

/// The layout of the canonical encoding: the version in two bytes, then the names of
/// the market, the trader and the order, each in UTF-8 with its length in two bytes in
/// front, then the fields of fixed width.
pub proof fn law_canonical_layout(o: SignedOrder)
    ensures
        ({
            let all = o.canonical();
            let market = encode_utf8(o.market_id.0@);
            let trader = encode_utf8(o.trader_id@);
            let client = encode_utf8(o.client_order_id@);
            let t = 4 + market.len() as int;
            let c = t + 2 + trader.len();
            let f = c + 2 + client.len();
            &&& all.len() == f + 82
            &&& be_value(all.subrange(0, 2)) == o.schema_version
            &&& be_value(all.subrange(2, 4)) == market.len() % 0x1_0000
            &&& all.subrange(4, t) == market
            &&& be_value(all.subrange(t, t + 2)) == trader.len() % 0x1_0000
            &&& all.subrange(t + 2, c) == trader
            &&& be_value(all.subrange(c, c + 2)) == client.len() % 0x1_0000
            &&& all.subrange(c + 2, f) == client
            &&& all.skip(f) == o.fixed_part()
        }),
{
    let all = o.canonical();
    let market = encode_utf8(o.market_id.0@);
    let trader = encode_utf8(o.trader_id@);
    let client = encode_utf8(o.client_order_id@);
    let t = 4 + market.len() as int;
    let c = t + 2 + trader.len();
    let f = c + 2 + client.len();
    lemma_fixed_part_len(o);
    lemma_pow256_values();
    lemma_be_len(o.schema_version as nat, 2);
    lemma_be_len(market.len() % 0x1_0000, 2);
    lemma_be_len(trader.len() % 0x1_0000, 2);
    lemma_be_len(client.len() % 0x1_0000, 2);
    law_be_value(o.schema_version as nat, 2);
    law_be_value(market.len() % 0x1_0000, 2);
    law_be_value(trader.len() % 0x1_0000, 2);
    law_be_value(client.len() % 0x1_0000, 2);
    assert(all.subrange(0, 2) =~= be(o.schema_version as nat, 2));
    assert(all.subrange(2, 4) =~= be(market.len() % 0x1_0000, 2));
    assert(all.subrange(4, t) =~= market);
    assert(all.subrange(t, t + 2) =~= be(trader.len() % 0x1_0000, 2));
    assert(all.subrange(t + 2, c) =~= trader);
    assert(all.subrange(c, c + 2) =~= be(client.len() % 0x1_0000, 2));
    assert(all.subrange(c + 2, f) =~= client);
    assert(all.skip(f) =~= o.fixed_part());
}

} // verus!
