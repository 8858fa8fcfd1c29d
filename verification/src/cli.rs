//! The trader's side: key files, and orders made and signed from a command line.
use crate::clock::current_time_ms;
use crate::crypto::{hex_bytes, hex_decode, hex_digit, hex_digit_value, hex_encode, hex_fault, hex_text, is_public_key, is_signature, lemma_hex_round_trip, public_key, public_key_of, random_id, random_salt, random_secret, sign, signature_of, uuid_form};
use crate::domain::market::{aligned, MarketId, MarketStatus};
use crate::domain::order::{CURRENT_SCHEMA_VERSION, OrderError, Side, SignedOrder, TimeInForce};
use crate::engine::model::EngineModel;
use crate::keys::same_text;
use vstd::prelude::*;
use vstd::string::StringExecFns;
use vstd::utf8::encode_utf8;

verus! {

/// The current time in epoch milliseconds.
pub fn unix_ms() -> u64 {
    current_time_ms()
}

/// What can be wrong with the text of a key file.
#[derive(Debug)]
pub enum KeyError {
    /// It is not hexadecimal, for this reason.
    InvalidHex(String),
    /// It is not 32 bytes long.
    WrongLength,
}

impl KeyError {
    /// The text of [`KeyError::message`].
    pub open spec fn text(&self, path: Seq<char>) -> Seq<char> {
        match self {
            KeyError::InvalidHex(reason) => "invalid hex in key file '"@ + path + "': "@ + reason@,
            KeyError::WrongLength => "key file '"@ + path + "' must contain exactly 32 bytes (64 hex chars)"@,
        }
    }

    /// The error in words, for the key file at `path`.
    pub fn message(&self, path: &str) -> (s: String)
        ensures
            s@ == self.text(path@),
    {
        match self {
            KeyError::InvalidHex(reason) => {
                let mut s = "invalid hex in key file '".to_owned();
                s.append(path);
                s.append("': ");
                s.append(reason.as_str());
                s
            },
            KeyError::WrongLength => {
                let mut s = "key file '".to_owned();
                s.append(path);
                s.append("' must contain exactly 32 bytes (64 hex chars)");
                s
            },
        }
    }
}

/// The character has the Unicode property `White_Space`.
pub open spec fn white_space(c: char) -> bool {
    let n = c as u32;
    ||| 0x9 <= n <= 0xd
    ||| n == 0x20 || n == 0x85 || n == 0xa0 || n == 0x1680
    ||| 0x2000 <= n <= 0x200a
    ||| n == 0x2028 || n == 0x2029 || n == 0x202f || n == 0x205f || n == 0x3000
}

/// `text` without white space at its ends.
pub open spec fn trimmed(text: Seq<char>) -> Seq<char>
    decreases text.len(),
{
    if text.len() == 0 {
        text
    } else if white_space(text[0]) {
        trimmed(text.drop_first())
    } else if white_space(text.last()) {
        trimmed(text.drop_last())
    } else {
        text
    }
}

/// `text` in lower case.
pub uninterp spec fn lowercased(text: Seq<char>) -> Seq<char>;

/// `str::trim`: the text without the white space, in the sense of the Unicode
/// property `White_Space`, at its start and its end.
#[verifier::external_body]
fn trim(text: &str) -> (s: String)
    ensures
        s@ == trimmed(text@),
{
    text.trim().to_string()
}

/// `str::to_lowercase`: the result is a function of the text alone.
#[verifier::external_body]
fn lowercase(text: &str) -> (s: String)
    ensures
        s@ == lowercased(text@),
{
    text.to_lowercase()
}

/// `r` is the secret key that `text` writes in hexadecimal notation.
pub open spec fn reads_key(text: Seq<char>, r: Result<[u8; 32], KeyError>) -> bool {
    match hex_bytes(encode_utf8(text)) {
        Some(bytes) => if bytes.len() == 32 {
            r matches Ok(key) && key@ == bytes
        } else {
            r matches Err(e) && e is WrongLength
        },
        None => r matches Err(KeyError::InvalidHex(reason)) && reason@ == hex_fault(text),
    }
}

/// Read a secret key from the text of a key file.
pub fn parse_key(text: &str) -> (r: Result<[u8; 32], KeyError>)
    ensures
        reads_key(trimmed(text@), r),
{
    let s = trim(text);
    decode_key(s.as_str())
}

/// Read a secret key from its hexadecimal notation.
pub fn decode_key(text: &str) -> (r: Result<[u8; 32], KeyError>)
    ensures
        reads_key(text@, r),
{
    match hex_decode(text) {
        Ok(bytes) => {
            if bytes.len() != 32 {
                return Err(KeyError::WrongLength);
            }
            let mut key: [u8; 32] = [0u8; 32];
            let mut i: usize = 0;
            while i < 32
                invariant
                    i <= 32,
                    bytes@.len() == 32,
                    key@.len() == 32,
                    forall|j: int| 0 <= j < i ==> key@[j] == bytes@[j],
                decreases 32 - i,
            {
                key[i] = bytes[i];
                i = i + 1;
            }
            proof {
                assert(key@ =~= bytes@);
            }
            Ok(key)
        },
        Err(reason) => Err(KeyError::InvalidHex(reason)),
    }
}

/// A new key: the text of its key file, and the trader id that goes with it.
pub fn keygen() -> (key: (String, String))
    ensures
        exists|secret: [u8; 32]| key.0@ == hex_text(#[trigger] secret@) && key.1@ == hex_text(public_key_of(secret@)),
{
    let secret = random_secret();
    let key = (hex_encode(secret.as_slice()), trader_id(&secret));
    proof {
        assert(key.0@ == hex_text(secret@));
    }
    key
}

/// The trader id that goes with a secret key.
pub fn trader_id(secret: &[u8; 32]) -> (id: String)
    ensures
        id@ == hex_text(public_key_of(secret@)),
{
    hex_encode(public_key(secret).as_slice())
}

/// Only white space.
pub open spec fn blank(text: Seq<char>) -> bool {
    forall|i: int| 0 <= i < text.len() ==> white_space(#[trigger] text[i])
}

/// White space around a text that does not start or end with any is trimmed.
proof fn lemma_trimmed(before: Seq<char>, text: Seq<char>, after: Seq<char>)
    requires
        blank(before),
        blank(after),
        text.len() > 0,
        !white_space(text[0]),
        !white_space(text.last()),
    ensures
        trimmed(before + text + after) == text,
    decreases before.len() + after.len(),
{
    let all = before + text + after;
    if before.len() > 0 {
        let rest = before.drop_first();
        assert(all[0] == before[0]);
        assert forall|i: int| 0 <= i < rest.len() implies white_space(#[trigger] rest[i]) by {
            assert(rest[i] == before[i + 1]);
        }
        assert(all.drop_first() =~= rest + text + after);
        lemma_trimmed(rest, text, after);
    } else if after.len() > 0 {
        let rest = after.drop_last();
        assert(all[0] == text[0]);
        assert(all.last() == after[after.len() - 1]);
        assert forall|i: int| 0 <= i < rest.len() implies white_space(#[trigger] rest[i]) by {
            assert(rest[i] == after[i]);
        }
        assert(all.drop_last() =~= before + text + rest);
        lemma_trimmed(before, text, rest);
    } else {
        assert(all =~= text);
    }
}

/// What is written to a key file reads back as the key, with any white space
/// around it.
pub proof fn law_key_file_round_trip(
    secret: [u8; 32],
    before: Seq<char>,
    after: Seq<char>,
    r: Result<[u8; 32], KeyError>,
)
    requires
        blank(before),
        blank(after),
        reads_key(trimmed(before + hex_text(secret@) + after), r),
    ensures
        r matches Ok(key) && key@ == secret@,
{
    lemma_hex_round_trip(secret@);
    let text = hex_text(secret@);
    assert(text.len() == 64);
    lemma_hex_digit_prints(secret@[0] as int / 16);
    lemma_hex_digit_prints(secret@[31] as int % 16);
    assert(text[0] == hex_digit(secret@[0] as int / 16));
    assert(text.last() == hex_digit(secret@[31] as int % 16));
    lemma_trimmed(before, text, after);
}

proof fn lemma_hex_digit_prints(d: int)
    requires
        0 <= d < 16,
    ensures
        !white_space(hex_digit(d)),
{
}

/// The side that a word in lower case names.
pub open spec fn side_named(word: Seq<char>) -> Option<Side> {
    if word == "buy"@ || word == "b"@ {
        Some(Side::Buy)
    } else if word == "sell"@ || word == "s"@ {
        Some(Side::Sell)
    } else {
        None
    }
}

/// The side that a word in lower case names.
pub fn side_of_word(word: &str) -> (r: Option<Side>)
    ensures
        r == side_named(word@),
{
    if same_text(word, "buy") || same_text(word, "b") {
        Some(Side::Buy)
    } else if same_text(word, "sell") || same_text(word, "s") {
        Some(Side::Sell)
    } else {
        None
    }
}

/// Read the side of an order, in any case of letters.
pub fn parse_side(text: &str) -> (r: Result<Side, String>)
    ensures
        match side_named(lowercased(text@)) {
            Some(side) => r == Ok::<Side, String>(side),
            None => r matches Err(message) && message@ == "unknown side '"@ + lowercased(text@)
                + "' — use 'buy' or 'sell'"@,
        },
{
    let word = lowercase(text);
    match side_of_word(word.as_str()) {
        Some(side) => Ok(side),
        None => {
            let mut message = "unknown side '".to_owned();
            message.append(word.as_str());
            message.append("' — use 'buy' or 'sell'");
            Err(message)
        },
    }
}

/// `order` is signed with `secret`, in the name of its trader.
pub open spec fn signed_with(order: SignedOrder, secret: Seq<u8>) -> bool {
    &&& order.schema_version == CURRENT_SCHEMA_VERSION
    &&& order.time_in_force == TimeInForce::Gtc
    &&& order.expiry_ts_ms == 0
    &&& order.trader_id@ == hex_text(public_key_of(secret))
    &&& order.trader_pubkey@ == public_key_of(secret)
    &&& order.signature@ == signature_of(secret, order.hash())
    &&& is_public_key(order.trader_pubkey@)
    &&& is_signature(order.trader_pubkey@, order.hash(), order.signature@)
}

/// Make an order without expiry and sign it.
pub fn make_order(
    secret: &[u8; 32],
    market: String,
    side: Side,
    price: u64,
    size: u64,
    client_order_id: String,
    nonce: u64,
    now_ms: u64,
    salt: u64,
) -> (order: SignedOrder)
    ensures
        signed_with(order, secret@),
        order.market_id == MarketId(market),
        order.side == side,
        order.price_ticks == price,
        order.size_lots == size,
        order.client_order_id == client_order_id,
        order.nonce == nonce,
        order.created_at_ms == now_ms,
        order.salt == salt,
{
    let mut order = SignedOrder {
        schema_version: CURRENT_SCHEMA_VERSION,
        client_order_id,
        market_id: MarketId(market),
        trader_id: trader_id(secret),
        side,
        price_ticks: price,
        size_lots: size,
        time_in_force: TimeInForce::Gtc,
        nonce,
        expiry_ts_ms: 0,
        created_at_ms: now_ms,
        salt,
        trader_pubkey: public_key(secret),
        signature: [0u8; 64],
    };
    let hash = order.canonical_hash();
    let signature = sign(secret, hash.0.as_slice());
    order.signature = signature;
    order
}

/// Make the order that a trader asks for. The client order id is random and the
/// nonce is the current time where they are not given.
pub fn place_order(
    secret: &[u8; 32],
    market: String,
    side: &str,
    price: u64,
    size: u64,
    client_id: Option<String>,
    nonce: Option<u64>,
) -> (r: Result<SignedOrder, String>)
    ensures
        match side_named(lowercased(side@)) {
            Some(named) => r matches Ok(order) && {
                &&& signed_with(order, secret@)
                &&& order.market_id == MarketId(market)
                &&& order.side == named
                &&& order.price_ticks == price
                &&& order.size_lots == size
                &&& client_id matches Some(id) ==> order.client_order_id == id
                &&& client_id is None ==> uuid_form(order.client_order_id@)
                &&& order.nonce == (match nonce {
                    Some(nonce) => nonce,
                    None => order.created_at_ms,
                })
            },
            None => r matches Err(message) && message@ == "unknown side '"@ + lowercased(side@)
                + "' — use 'buy' or 'sell'"@,
        },
{
    let side = match parse_side(side) {
        Ok(side) => side,
        Err(message) => {
            return Err(message);
        },
    };
    let now_ms: u64 = unix_ms();
    let nonce: u64 = match nonce {
        Some(nonce) => nonce,
        None => now_ms,
    };
    let client_order_id = match client_id {
        Some(id) => id,
        None => random_id(),
    };
    Ok(make_order(secret, market, side, price, size, client_order_id, nonce, now_ms, random_salt()))
}

/// What a trader signs the engine verifies: an order signed with a secret key in
/// the name of its trader passes the check of its signature.
pub proof fn law_signed_order_verifies(order: SignedOrder, secret: Seq<u8>)
    requires
        signed_with(order, secret),
    ensures
        order.signature_verdict() == Ok::<(), OrderError>(()),
        order.trader_id@ == hex_text(order.trader_pubkey@),
{
}

/// An order that a trader signed is refused for nothing but what it asks for: it
/// passes every check before idempotency and nonce where its market is active, its
/// names are not empty, and price and size are positive multiples of tick and lot.
pub proof fn law_signed_order_admissible(e: EngineModel, order: SignedOrder, secret: Seq<u8>, now: u64)
    requires
        signed_with(order, secret),
        order.market_id.0@.len() > 0,
        order.client_order_id@.len() > 0,
        order.price_ticks > 0,
        order.size_lots > 0,
        e.markets.contains_key(order.market_id.0@),
        e.markets[order.market_id.0@].status == MarketStatus::Active,
        aligned(order.price_ticks, e.markets[order.market_id.0@].tick_size),
        aligned(order.size_lots, e.markets[order.market_id.0@].lot_size),
    ensures
        e.refusal(order, now, order.signature_verdict()) is None,
{
    assert(order.trader_pubkey@.len() == 32);
    assert(order.trader_id@.len() == 64);
}

/// Trimming takes nothing but white space off the two ends, and all of it.
pub proof fn law_trimmed(text: Seq<char>) -> (ends: (Seq<char>, Seq<char>))
    ensures
        ends.0 + trimmed(text) + ends.1 == text,
        forall|i: int| 0 <= i < ends.0.len() ==> white_space(#[trigger] ends.0[i]),
        forall|i: int| 0 <= i < ends.1.len() ==> white_space(#[trigger] ends.1[i]),
        trimmed(text).len() > 0 ==> !white_space(trimmed(text)[0]) && !white_space(trimmed(text).last()),
    decreases text.len(),
{
    let none = Seq::<char>::empty();
    if text.len() == 0 {
        assert(none + text + none =~= text);
        (none, none)
    } else if white_space(text[0]) {
        let (before, after) = law_trimmed(text.drop_first());
        let ends = (seq![text[0]] + before, after);
        assert(ends.0 + trimmed(text) + ends.1 =~= seq![text[0]] + (before + trimmed(text) + after));
        assert(seq![text[0]] + text.drop_first() =~= text);
        ends
    } else if white_space(text.last()) {
        let (before, after) = law_trimmed(text.drop_last());
        let ends = (before, after.push(text.last()));
        assert(ends.0 + trimmed(text) + ends.1 =~= (before + trimmed(text) + after).push(text.last()));
        assert(text.drop_last().push(text.last()) =~= text);
        ends
    } else {
        assert(none + text + none =~= text);
        (none, none)
    }
}

/// A word names a side exactly when it is the side's name or its first letter.
pub proof fn law_side_words(word: Seq<char>)
    ensures
        side_named(word) == Some(Side::Buy) <==> word == "buy"@ || word == "b"@,
        side_named(word) == Some(Side::Sell) <==> word == "sell"@ || word == "s"@,
{
    reveal_strlit("buy");
    reveal_strlit("b");
    reveal_strlit("sell");
    reveal_strlit("s");
    assert("buy"@.len() == 3 && "b"@.len() == 1 && "sell"@.len() == 4 && "s"@.len() == 1);
    assert("b"@[0] == 'b' && "s"@[0] == 's');
}

/// A key is read exactly from the 64 digits of its hexadecimal notation: each byte from
/// two of them, the high half first. Anything else is refused, as too long or too short
/// where it is hexadecimal.
pub proof fn law_key_is_read(text: Seq<char>, r: Result<[u8; 32], KeyError>, i: int)
    requires
        reads_key(text, r),
    ensures
        ({
            let raw = encode_utf8(text);
            let digits = forall|k: int| 0 <= k < raw.len() ==> hex_digit_value(#[trigger] raw[k]) is Some;
            &&& r is Ok <==> digits && raw.len() == 64
            &&& (r matches Err(KeyError::WrongLength)) <==> digits && raw.len() % 2 == 0 && raw.len() != 64
            &&& r matches Ok(key) ==> (0 <= i < 32 ==> key@[i] == 16 * hex_digit_value(raw[2 * i])->Some_0
                + hex_digit_value(raw[2 * i + 1])->Some_0)
        }),
{
    let raw = encode_utf8(text);
    if r is Ok && 0 <= i < 32 {
        assert(hex_digit_value(raw[2 * i]) is Some && hex_digit_value(raw[2 * i + 1]) is Some);
    }
}

/// What a signed order says: it is of version 1, stays until it is cancelled, does not
/// expire, and names the trader that its key belongs to.
pub proof fn law_signed_order_says(order: SignedOrder, secret: Seq<u8>)
    requires
        signed_with(order, secret),
    ensures
        order.schema_version == 1,
        order.time_in_force == TimeInForce::Gtc,
        order.expiry_ts_ms == 0,
        order.trader_pubkey@ == public_key_of(secret),
        hex_bytes(encode_utf8(order.trader_id@)) == Some(order.trader_pubkey@),
        is_signature(order.trader_pubkey@, order.hash(), order.signature@),
{
    lemma_hex_round_trip(public_key_of(secret));
}

} // verus!
