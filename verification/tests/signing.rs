use clob_api::cli::{decode_key, keygen, make_order, parse_key, parse_side, place_order, side_of_word, trader_id, unix_ms, KeyError};
use clob_api::clock::{Clock, FixedClock, SystemClock};
use clob_api::db::StateStore;
use clob_api::domain::market::MarketId;
use clob_api::domain::order::{OrderError, OrderHash, Side, SignedOrder, TimeInForce};
use sha2::{Digest, Sha256};

const SECRET: [u8; 32] = [
    0x9d, 0x61, 0xb1, 0x9d, 0xef, 0xfd, 0x5a, 0x60, 0xba, 0x84, 0x4a, 0xf4, 0x92, 0xec, 0x2c, 0xc4, 0x44, 0x49, 0xc5,
    0x69, 0x7b, 0x32, 0x69, 0x19, 0x70, 0x3b, 0xac, 0x03, 0x1c, 0xae, 0x7f, 0x60,
];

fn order() -> SignedOrder {
    make_order(&SECRET, "BTC-USDC".into(), Side::Sell, 51_000, 3, "mine".into(), 9, 1_000, 77)
}

#[test]
fn public_key_of_a_known_secret() {
    assert_eq!(trader_id(&SECRET), "d75a980182b10ab7d54bfed3c964073a0ee172f3daa62325af021a68f707511a");
}

#[test]
fn made_order_verifies_and_a_changed_one_does_not() {
    let o = order();
    assert_eq!(o.trader_id, hex::encode(o.trader_pubkey));
    assert_eq!(o.schema_version, 1);
    assert_eq!(o.expiry_ts_ms, 0);
    assert_eq!((o.price_ticks, o.size_lots, o.nonce, o.created_at_ms, o.salt), (51_000, 3, 9, 1_000, 77));
    assert!(o.verify_signature().is_ok());
    assert!(o.validate_fields(u64::MAX).is_ok());

    let mut price = o.clone();
    price.price_ticks += 1;
    assert!(matches!(price.verify_signature(), Err(OrderError::InvalidSignature)));
    let mut salt = o.clone();
    salt.salt += 1;
    assert!(matches!(salt.verify_signature(), Err(OrderError::InvalidSignature)));
    let mut signature = o;
    signature.signature[0] ^= 1;
    assert!(signature.verify_signature().is_err());
}

#[test]
fn bytes_that_are_no_public_key_are_refused() {
    let refused = (0u8..=255).any(|b| {
        let mut o = order();
        o.trader_pubkey = [b; 32];
        matches!(o.verify_signature(), Err(OrderError::InvalidPublicKey))
    });
    assert!(refused);
}

#[test]
fn canonical_bytes_have_the_documented_layout() {
    let o = SignedOrder {
        schema_version: 0x0102,
        client_order_id: "c".into(),
        market_id: MarketId("MK".into()),
        trader_id: "tr€".into(),
        side: Side::Sell,
        price_ticks: 1,
        size_lots: 2,
        time_in_force: TimeInForce::Gtc,
        nonce: 3,
        expiry_ts_ms: 4,
        created_at_ms: 5,
        salt: 0x0600_0000_0000_0000,
        trader_pubkey: [0xaa; 32],
        signature: [0xbb; 64],
    };
    let mut expected: Vec<u8> = vec![1, 2];
    expected.extend([0, 2]);
    expected.extend("MK".as_bytes());
    expected.extend([0, 5]);
    expected.extend("tr€".as_bytes());
    expected.extend([0, 1]);
    expected.extend("c".as_bytes());
    expected.push(1);
    expected.extend(1u64.to_be_bytes());
    expected.extend(2u64.to_be_bytes());
    expected.push(0);
    expected.extend(3u64.to_be_bytes());
    expected.extend(4u64.to_be_bytes());
    expected.extend(5u64.to_be_bytes());
    expected.extend([6, 0, 0, 0, 0, 0, 0, 0]);
    expected.extend([0xaa; 32]);
    assert_eq!(o.canonical_bytes(), expected);

    let digest: [u8; 32] = Sha256::digest(&expected).into();
    assert_eq!(o.canonical_hash(), OrderHash(digest));
    assert_eq!(o.canonical_hash().to_hex(), hex::encode(digest));

    let mut resigned = o.clone();
    resigned.signature = [0; 64];
    assert_eq!(resigned.canonical_hash(), o.canonical_hash());
}

#[test]
fn long_names_wrap_in_their_length_prefix() {
    let mut o = order();
    o.client_order_id = "x".repeat(65_536 + 3);
    let bytes = o.canonical_bytes();
    // version, then market and trader with their prefixes
    let at = 2 + (2 + 8) + (2 + 64);
    assert_eq!(&bytes[at..at + 2], &[0, 3]);
    assert_eq!(bytes.len(), at + 2 + 65_539 + 82);
}

#[test]
fn digest_of_an_empty_state() {
    assert_eq!(
        hex::encode(StateStore::new().checksum()),
        "e3b0c44298fc1c149afbf4c8996fb92427ae41e4649b934ca495991b7852b855"
    );
}

#[test]
fn fingerprint_is_sorted_and_framed() {
    let mut s = StateStore::new();
    s.apply_fill([2; 32], [1; 32], 5);
    s.cancel_order([9; 32]);
    s.check_and_update_nonce("zed", 7).unwrap();
    s.check_and_update_nonce("amy", 8).unwrap();
    s.credit("amy", "USDC", 100);
    let mut expected: Vec<u8> = Vec::new();
    expected.extend([1; 32]);
    expected.extend(5u64.to_be_bytes());
    expected.extend([2; 32]);
    expected.extend(5u64.to_be_bytes());
    expected.extend([9; 32]);
    expected.push(1);
    expected.extend([0, 3]);
    expected.extend("amy".as_bytes());
    expected.extend(8u64.to_be_bytes());
    expected.extend([0, 3]);
    expected.extend("zed".as_bytes());
    expected.extend(7u64.to_be_bytes());
    assert_eq!(s.fingerprint_bytes(), expected);
    let digest: [u8; 32] = Sha256::digest(&expected).into();
    assert_eq!(s.checksum(), digest);
}

#[test]
fn key_file_round_trip() {
    let (text, id) = keygen();
    assert_eq!(text.len(), 64);
    let secret = parse_key(&text).unwrap();
    assert_eq!(hex::encode(secret), text);
    assert_eq!(trader_id(&secret), id);
    assert_eq!(parse_key(&format!("  {text}\n")).unwrap(), secret);
    assert_eq!(parse_key(&format!("\u{85}\u{3000}{text}\t\u{a0}\u{2003}\r\n")).unwrap(), secret);
    // A zero width space is no white space.
    assert!(matches!(parse_key(&format!("{text}\u{200b}")), Err(KeyError::InvalidHex(_))));
    assert_eq!(decode_key(&text.to_uppercase()).unwrap(), secret);
    let (other, _) = keygen();
    assert_ne!(text, other);
}

#[test]
fn bad_key_files() {
    let odd = decode_key("abc").unwrap_err();
    assert_eq!(odd.message("k"), "invalid hex in key file 'k': Odd number of digits");
    let bad = decode_key("zz").unwrap_err();
    assert_eq!(bad.message("k"), "invalid hex in key file 'k': Invalid character 'z' at position 0");
    let short = decode_key("abcd").unwrap_err();
    assert!(matches!(short, KeyError::WrongLength));
    assert_eq!(short.message("k"), "key file 'k' must contain exactly 32 bytes (64 hex chars)");
}

#[test]
fn sides_in_words() {
    assert_eq!(side_of_word("buy"), Some(Side::Buy));
    assert_eq!(side_of_word("s"), Some(Side::Sell));
    assert_eq!(side_of_word("BUY"), None);
    assert_eq!(parse_side("BUY"), Ok(Side::Buy));
    assert_eq!(parse_side("b"), Ok(Side::Buy));
    assert_eq!(parse_side("Sell"), Ok(Side::Sell));
    assert_eq!(parse_side("HOLD"), Err("unknown side 'hold' — use 'buy' or 'sell'".to_string()));
}

#[test]
fn placed_order_takes_what_is_given() {
    let given = place_order(&SECRET, "M".into(), "Buy", 5, 6, Some("cid".into()), Some(42)).unwrap();
    assert_eq!(given.client_order_id, "cid");
    assert_eq!(given.nonce, 42);
    assert_eq!(given.side, Side::Buy);
    assert!(given.verify_signature().is_ok());

    let a = place_order(&SECRET, "M".into(), "s", 5, 6, None, None).unwrap();
    let b = place_order(&SECRET, "M".into(), "s", 5, 6, None, None).unwrap();
    assert_eq!(a.client_order_id.len(), 36);
    assert_ne!(a.client_order_id, b.client_order_id);
    assert_ne!(a.salt, b.salt);
    assert_eq!(a.nonce, a.created_at_ms);
    assert!(place_order(&SECRET, "M".into(), "up", 5, 6, None, None).is_err());
}

#[test]
fn clocks() {
    assert_eq!(FixedClock(7).now_ms(), 7);
    let before = unix_ms();
    let now = SystemClock.now_ms();
    assert!(before <= now);
    // Later than the start of 2020.
    assert!(now > 1_577_836_800_000);
}

#[test]
fn every_signed_field_is_in_the_encoding() {
    let base = order().canonical_bytes();
    let changes: Vec<fn(&mut SignedOrder)> = vec![
        |o| o.schema_version += 1,
        |o| o.client_order_id.push('x'),
        |o| o.market_id.0.push('x'),
        |o| o.trader_id.push('x'),
        |o| o.side = Side::Buy,
        |o| o.price_ticks += 1,
        |o| o.size_lots += 1,
        |o| o.nonce += 1,
        |o| o.expiry_ts_ms += 1,
        |o| o.created_at_ms += 1,
        |o| o.salt += 1,
        |o| o.trader_pubkey[31] ^= 1,
    ];
    for change in changes {
        let mut o = order();
        change(&mut o);
        assert_ne!(o.canonical_bytes(), base);
        assert_ne!(o.canonical_hash(), order().canonical_hash());
    }
    let mut moved = order();
    moved.market_id = MarketId("BTC-USDCx".into());
    let mut shifted = order();
    shifted.trader_id = format!("x{}", shifted.trader_id);
    assert_ne!(moved.canonical_bytes(), shifted.canonical_bytes());
}

#[test]
fn keys_have_different_trader_ids() {
    assert_ne!(trader_id(&[1; 32]), trader_id(&[2; 32]));
}
