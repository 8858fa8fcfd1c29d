use clob_api::db::StateStore;
use clob_api::domain::market::MarketId;
use clob_api::domain::order::{Fill, OrderHash, OrderId};

#[test]
fn apply_fill_increments_both_sides() {
    let mut s = StateStore::new();
    let taker = [1u8; 32];
    let maker = [2u8; 32];

    s.apply_fill(taker, maker, 10);
    assert_eq!(s.filled_amount(&taker), 10);
    assert_eq!(s.filled_amount(&maker), 10);

    // Second fill adds to the same counters
    s.apply_fill(taker, maker, 5);
    assert_eq!(s.filled_amount(&taker), 15);
    assert_eq!(s.filled_amount(&maker), 15);
}

#[test]
fn filled_amount_defaults_to_zero() {
    let s = StateStore::new();
    assert_eq!(s.filled_amount(&[0u8; 32]), 0);
}

#[test]
fn cancel_order_is_idempotent() {
    let mut s = StateStore::new();
    let hash = [3u8; 32];

    assert!(!s.is_cancelled(&hash));
    s.cancel_order(hash);
    assert!(s.is_cancelled(&hash));
    s.cancel_order(hash); // second call is safe
    assert!(s.is_cancelled(&hash));
}

#[test]
fn nonce_first_order_any_positive_value_passes() {
    let mut s = StateStore::new();
    // No prior nonce — any value > 0 should pass
    assert!(s.check_and_update_nonce("trader-1", 1).is_ok());
}

#[test]
fn nonce_must_be_strictly_greater() {
    let mut s = StateStore::new();
    s.check_and_update_nonce("trader-1", 5).unwrap();

    // Equal nonce rejected
    assert!(s.check_and_update_nonce("trader-1", 5).is_err());
    // Lower nonce rejected
    assert!(s.check_and_update_nonce("trader-1", 3).is_err());
    // Higher nonce accepted
    assert!(s.check_and_update_nonce("trader-1", 6).is_ok());
}

#[test]
fn nonce_is_per_trader() {
    let mut s = StateStore::new();
    s.check_and_update_nonce("trader-1", 10).unwrap();

    // trader-2 has no prior nonce — starts fresh
    assert!(s.check_and_update_nonce("trader-2", 1).is_ok());
}

#[test]
fn credit_and_debit_balance() {
    let mut s = StateStore::new();
    s.credit("alice", "USDC", 1000);
    assert_eq!(s.balance("alice", "USDC"), 1000);

    s.debit("alice", "USDC", 400).unwrap();
    assert_eq!(s.balance("alice", "USDC"), 600);
}

#[test]
fn debit_insufficient_returns_error() {
    let mut s = StateStore::new();
    s.credit("alice", "USDC", 100);
    assert!(s.debit("alice", "USDC", 200).is_err());
    // Balance unchanged after failed debit
    assert_eq!(s.balance("alice", "USDC"), 100);
}

#[test]
fn balance_defaults_to_zero() {
    let s = StateStore::new();
    assert_eq!(s.balance("unknown", "BTC"), 0);
}

#[test]
fn checksum_is_deterministic() {
    let mut s = StateStore::new();
    s.apply_fill([1u8; 32], [2u8; 32], 10);
    s.cancel_order([3u8; 32]);
    s.check_and_update_nonce("trader-1", 5).unwrap();

    let c1 = s.checksum();
    let c2 = s.checksum();
    assert_eq!(c1, c2);
}

#[test]
fn checksum_changes_after_state_mutation() {
    let mut s = StateStore::new();
    let before = s.checksum();

    s.apply_fill([1u8; 32], [2u8; 32], 10);
    let after = s.checksum();

    assert_ne!(before, after);
}

#[test]
fn two_identical_state_paths_produce_same_checksum() {
    let mut s1 = StateStore::new();
    s1.apply_fill([1u8; 32], [2u8; 32], 10);
    s1.cancel_order([3u8; 32]);
    s1.check_and_update_nonce("trader-1", 7).unwrap();

    let mut s2 = StateStore::new();
    s2.apply_fill([1u8; 32], [2u8; 32], 10);
    s2.cancel_order([3u8; 32]);
    s2.check_and_update_nonce("trader-1", 7).unwrap();

    assert_eq!(s1.checksum(), s2.checksum());
}

#[test]
fn debit_leaves_an_entry_either_way() {
    let mut s = StateStore::new();
    let err = s.debit("t", "USDC", 5).unwrap_err();
    assert_eq!((err.available, err.required), (0, 5));
    assert_eq!(s.balances.len(), 1);
    assert!(s.debit("t", "BTC", 0).is_ok());
    assert_eq!(s.balances.len(), 2);
    assert_eq!(s.balance("t", "BTC"), 0);
}

#[test]
fn fill_of_an_order_with_itself_counts_twice() {
    let mut s = StateStore::new();
    s.apply_fill([4; 32], [4; 32], 3);
    assert_eq!(s.filled_amount(&[4; 32]), 6);
}

#[test]
fn cancel_marks_are_permanent() {
    let mut s = StateStore::new();
    s.cancel_order([5; 32]);
    s.apply_fill([5; 32], [6; 32], 1);
    s.cancel_order([6; 32]);
    s.check_and_update_nonce("t", 1).unwrap();
    assert!(s.is_cancelled(&[5; 32]));
}

#[test]
fn checksum_does_not_depend_on_balances() {
    let mut s = StateStore::new();
    s.apply_fill([5; 32], [6; 32], 1);
    let before = s.checksum();
    s.credit("t", "USDC", 100);
    s.debit("t", "USDC", 40).unwrap();
    assert_eq!(s.checksum(), before);
}

#[test]
fn fills_that_do_not_fit_are_found_out() {
    let fill = |size_lots| Fill {
        market_id: MarketId("M".into()),
        taker_order_id: OrderId("t".into()),
        taker_order_hash: OrderHash([1; 32]),
        taker_trader_id: "a".into(),
        maker_order_id: OrderId("m".into()),
        maker_order_hash: OrderHash([2; 32]),
        maker_trader_id: "b".into(),
        price_ticks: 1,
        size_lots,
        sequence_id: 1,
        executed_at_ms: 1,
    };
    let s = StateStore::new();
    assert!(s.can_book(&vec![fill(u64::MAX - 1), fill(1)]));
    assert!(!s.can_book(&vec![fill(u64::MAX), fill(1)]));
    assert_eq!(s.filled_amount(&[1; 32]), 0);
}
