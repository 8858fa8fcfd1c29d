//! The state store: what was filled, what was cancelled, the nonces and the
//! balances.
//!
//! It is kept apart from the order books: they are made for matching, it is
//! made to be audited. The engine keeps the two in step.
use crate::bytes::{be, lemma_be_injective, lemma_be_len, lemma_pow256_values, push_bytes, push_u64};
use crate::crypto::{digest, sha256};
use crate::domain::order::{prefixed, push_prefixed, Fill};
use crate::ordmap::{lemma_sorted_ids, lemma_take_one_more, sorted_ids, MapKey, OrdMap, Rank};
use crate::text::{append_decimal, decimal};
use vstd::prelude::*;
use vstd::string::StringExecFns;
use vstd::utf8::encode_utf8;

verus! {

/// The filled quantities after `fills` are booked in turn.
pub open spec fn filled_after(filled: Map<Seq<u8>, u64>, fills: Seq<Fill>) -> Map<Seq<u8>, u64>
    decreases fills.len(),
{
    if fills.len() == 0 {
        filled
    } else {
        let fill = fills.last();
        booked(
            booked(filled_after(filled, fills.drop_last()), fill.taker_order_hash.0@, fill.size_lots),
            fill.maker_order_hash.0@,
            fill.size_lots,
        )
    }
}

/// The `i`-th of `fills` can be booked after those before it.
pub open spec fn next_fits(filled: Map<Seq<u8>, u64>, fills: Seq<Fill>, i: int) -> bool {
    fill_fits(
        filled_after(filled, fills.take(i)),
        fills[i].taker_order_hash.0@,
        fills[i].maker_order_hash.0@,
        fills[i].size_lots,
    )
}

/// Each of `fills` can be booked in its turn.
pub open spec fn fills_fit(filled: Map<Seq<u8>, u64>, fills: Seq<Fill>) -> bool {
    forall|i: int| 0 <= i < fills.len() ==> #[trigger] next_fits(filled, fills, i)
}

proof fn lemma_filled_one_more(filled: Map<Seq<u8>, u64>, fills: Seq<Fill>, i: int)
    requires
        0 <= i < fills.len(),
    ensures
        filled_after(filled, fills.take(i + 1)) == booked(
            booked(filled_after(filled, fills.take(i)), fills[i].taker_order_hash.0@, fills[i].size_lots),
            fills[i].maker_order_hash.0@,
            fills[i].size_lots,
        ),
{
    let more = fills.take(i + 1);
    assert(more.drop_last() =~= fills.take(i));
    assert(more.last() == fills[i]);
}

/// What a state store holds.
#[verifier::ext_equal]
pub struct StateModel {
    /// The quantity filled, by order hash.
    pub filled: Map<Seq<u8>, u64>,
    /// The cancel marks, by order hash.
    pub cancelled: Map<Seq<u8>, bool>,
    /// The highest accepted nonce, by trader.
    pub nonces: Map<Seq<char>, u64>,
    /// The balances, by trader and asset.
    pub balances: Map<(Seq<char>, Seq<char>), u64>,
}

/// The value of `key`, or 0.
pub open spec fn amount<K>(m: Map<K, u64>, key: K) -> u64 {
    if m.contains_key(key) {
        m[key]
    } else {
        0
    }
}

/// `qty` more is booked under `hash`.
pub open spec fn booked(filled: Map<Seq<u8>, u64>, hash: Seq<u8>, qty: u64) -> Map<Seq<u8>, u64> {
    filled.insert(hash, (amount(filled, hash) + qty) as u64)
}

/// `qty` more can be booked under `taker` and then under `maker`.
pub open spec fn fill_fits(filled: Map<Seq<u8>, u64>, taker: Seq<u8>, maker: Seq<u8>, qty: u64) -> bool {
    &&& amount(filled, taker) + qty <= u64::MAX
    &&& amount(booked(filled, taker, qty), maker) + qty <= u64::MAX
}

impl StateModel {
    pub open spec fn empty() -> StateModel {
        StateModel { filled: Map::empty(), cancelled: Map::empty(), nonces: Map::empty(), balances: Map::empty() }
    }

    /// What the checksum digests is finite.
    pub open spec fn finite(self) -> bool {
        self.filled.dom().finite() && self.cancelled.dom().finite() && self.nonces.dom().finite()
    }

    /// A fill of `qty` is booked on both sides.
    pub open spec fn fill(self, taker: Seq<u8>, maker: Seq<u8>, qty: u64) -> StateModel {
        StateModel { filled: booked(booked(self.filled, taker, qty), maker, qty), ..self }
    }

    pub open spec fn cancel(self, hash: Seq<u8>) -> StateModel {
        StateModel { cancelled: self.cancelled.insert(hash, true), ..self }
    }

    pub open spec fn is_cancelled(self, hash: Seq<u8>) -> bool {
        self.cancelled.contains_key(hash) && self.cancelled[hash]
    }

    pub open spec fn with_nonce(self, trader: Seq<char>, nonce: u64) -> StateModel {
        StateModel { nonces: self.nonces.insert(trader, nonce), ..self }
    }

    /// `n` more is on the balance of `trader` in `asset`.
    pub open spec fn credited(self, trader: Seq<char>, asset: Seq<char>, n: u64) -> StateModel {
        StateModel {
            balances: self.balances.insert((trader, asset), (amount(self.balances, (trader, asset)) + n) as u64),
            ..self
        }
    }

    /// `n` less is on the balance of `trader` in `asset`, if it is high enough. Either
    /// way the balance has an entry.
    pub open spec fn debited(self, trader: Seq<char>, asset: Seq<char>, n: u64) -> StateModel {
        let before = amount(self.balances, (trader, asset));
        StateModel {
            balances: self.balances.insert(
                (trader, asset),
                if before < n {
                    before
                } else {
                    (before - n) as u64
                },
            ),
            ..self
        }
    }

    /// The bytes that [`StateStore::checksum`] digests: filled quantities,
    /// cancel marks and nonces, each in ascending order of its key. Balances
    /// are left out.
    pub open spec fn fingerprint(self) -> Seq<u8> {
        filled_bytes(sorted_ids::<[u8; 32]>(self.filled.dom()), self.filled) + cancelled_bytes(
            sorted_ids::<[u8; 32]>(self.cancelled.dom()),
            self.cancelled,
        ) + nonce_bytes(sorted_ids::<str>(self.nonces.dom()), self.nonces)
    }
}

/// For each hash: the hash and its quantity in 8 bytes.
pub open spec fn filled_bytes(hashes: Seq<Seq<u8>>, filled: Map<Seq<u8>, u64>) -> Seq<u8>
    decreases hashes.len(),
{
    if hashes.len() == 0 {
        seq![]
    } else {
        filled_bytes(hashes.drop_last(), filled) + hashes.last() + be(filled[hashes.last()] as nat, 8)
    }
}

/// For each hash: the hash and its mark in 1 byte.
pub open spec fn cancelled_bytes(hashes: Seq<Seq<u8>>, cancelled: Map<Seq<u8>, bool>) -> Seq<u8>
    decreases hashes.len(),
{
    if hashes.len() == 0 {
        seq![]
    } else {
        cancelled_bytes(hashes.drop_last(), cancelled) + hashes.last() + seq![
            if cancelled[hashes.last()] {
                1u8
            } else {
                0u8
            },
        ]
    }
}

/// For each trader: the name with its length in front, and the nonce in 8 bytes.
pub open spec fn nonce_bytes(traders: Seq<Seq<char>>, nonces: Map<Seq<char>, u64>) -> Seq<u8>
    decreases traders.len(),
{
    if traders.len() == 0 {
        seq![]
    } else {
        nonce_bytes(traders.drop_last(), nonces) + prefixed(traders.last()) + be(
            nonces[traders.last()] as nat,
            8,
        )
    }
}

/// The authoritative state of orders, nonces and balances.
#[derive(Debug)]
pub struct StateStore {
    /// The quantity filled, by order hash.
    pub filled_amounts: OrdMap<[u8; 32], u64>,
    /// The cancel marks, by order hash. A mark is never taken back.
    pub cancelled: OrdMap<[u8; 32], bool>,
    /// The highest accepted nonce, by trader.
    pub nonces: OrdMap<str, u64>,
    /// The balances, by trader and asset.
    pub balances: OrdMap<(String, String), u64>,
}

impl View for StateStore {
    type V = StateModel;

    open spec fn view(&self) -> StateModel {
        StateModel {
            filled: self.filled_amounts@,
            cancelled: self.cancelled@,
            nonces: self.nonces@,
            balances: self.balances@,
        }
    }
}

fn book(filled: &mut OrdMap<[u8; 32], u64>, hash: [u8; 32], qty: u64)
    requires
        amount(old(filled)@, hash@) + qty <= u64::MAX,
    ensures
        final(filled)@ == booked(old(filled)@, hash@, qty),
{
    let before: u64 = match filled.get(&hash) {
        Some(n) => *n,
        None => 0,
    };
    filled.insert(hash, before + qty);
}

/// Whether `qty` more can be booked under `taker` and then under `maker`.
pub(crate) fn check_fill(filled: &OrdMap<[u8; 32], u64>, taker: &[u8; 32], maker: &[u8; 32], qty: u64) -> (fits: bool)
    ensures
        fits == fill_fits(filled@, taker@, maker@, qty),
{
    let taker_before: u64 = match filled.get(taker) {
        Some(n) => *n,
        None => 0,
    };
    if taker_before > u64::MAX - qty {
        return false;
    }
    let same: bool = match taker.rank(maker) {
        Rank::Same => true,
        _ => false,
    };
    let maker_before: u64 = if same {
        taker_before + qty
    } else {
        match filled.get(maker) {
            Some(n) => *n,
            None => 0,
        }
    };
    maker_before <= u64::MAX - qty
}

/// A copy of filled quantities.
fn copy_filled(filled: &OrdMap<[u8; 32], u64>) -> (copy: OrdMap<[u8; 32], u64>)
    ensures
        copy@ == filled@,
{
    let mut copy: OrdMap<[u8; 32], u64> = OrdMap::new();
    let n: usize = filled.len();
    let ghost keys = filled.order();
    let mut i: usize = 0;
    while i < n
        invariant
            i <= n,
            n == keys.len(),
            keys == filled.order(),
            keys.to_set() == filled@.dom(),
            forall|h: Seq<u8>| #[trigger] copy@.contains_key(h) <==> keys.take(i as int).contains(h),
            forall|h: Seq<u8>| #[trigger] copy@.contains_key(h) ==> copy@[h] == filled@[h],
        decreases n - i,
    {
        copy.insert(*filled.key_at(i), *filled.value_at(i));
        proof {
            lemma_take_one_more(keys, i as int);
        }
        i = i + 1;
    }
    proof {
        assert(keys.take(i as int) =~= keys);
        assert forall|h: Seq<u8>| copy@.contains_key(h) <==> filled@.contains_key(h) by {
            assert(keys.to_set().contains(h) <==> filled@.dom().contains(h));
        }
        assert(copy@ =~= filled@);
    }
    copy
}

impl Default for StateStore {
    fn default() -> (s: StateStore)
        ensures
            s@ == StateModel::empty(),
    {
        StateStore::new()
    }
}

impl StateStore {
    pub fn new() -> (s: StateStore)
        ensures
            s@ == StateModel::empty(),
    {
        StateStore {
            filled_amounts: OrdMap::new(),
            cancelled: OrdMap::new(),
            nonces: OrdMap::new(),
            balances: OrdMap::new(),
        }
    }

    /// Book a fill of `qty` on the taker and on the maker.
    pub fn apply_fill(&mut self, taker_hash: [u8; 32], maker_hash: [u8; 32], qty: u64)
        requires
            fill_fits(old(self)@.filled, taker_hash@, maker_hash@, qty),
        ensures
            final(self)@ == old(self)@.fill(taker_hash@, maker_hash@, qty),
    {
        book(&mut self.filled_amounts, taker_hash, qty);
        book(&mut self.filled_amounts, maker_hash, qty);
    }

    /// Whether `fills` can be booked in turn.
    #[verifier::rlimit(40)]
    pub fn can_book(&self, fills: &Vec<Fill>) -> (fits: bool)
        ensures
            fits == fills_fit(self@.filled, fills@),
    {
        let mut filled = copy_filled(&self.filled_amounts);
        let mut i: usize = 0;
        proof {
            assert(fills@.take(0) =~= Seq::<Fill>::empty());
        }
        while i < fills.len()
            invariant
                i <= fills@.len(),
                filled@ == filled_after(self@.filled, fills@.take(i as int)),
                forall|j: int| 0 <= j < i ==> #[trigger] next_fits(self@.filled, fills@, j),
            decreases fills@.len() - i,
        {
            let fill = &fills[i];
            let qty: u64 = fill.size_lots;
            if !check_fill(&filled, &fill.taker_order_hash.0, &fill.maker_order_hash.0, qty) {
                proof {
                    assert(!next_fits(self@.filled, fills@, i as int));
                }
                return false;
            }
            book(&mut filled, fill.taker_order_hash.0, qty);
            book(&mut filled, fill.maker_order_hash.0, qty);
            proof {
                lemma_filled_one_more(self@.filled, fills@, i as int);
                assert(next_fits(self@.filled, fills@, i as int));
            }
            i = i + 1;
        }
        true
    }

    /// The quantity of an order that was filled so far.
    pub fn filled_amount(&self, order_hash: &[u8; 32]) -> (n: u64)
        ensures
            n == amount(self@.filled, order_hash@),
    {
        match self.filled_amounts.get(order_hash) {
            Some(n) => *n,
            None => 0,
        }
    }

    /// Mark an order as cancelled.
    pub fn cancel_order(&mut self, order_hash: [u8; 32])
        ensures
            final(self)@ == old(self)@.cancel(order_hash@),
    {
        self.cancelled.insert(order_hash, true);
    }

    /// Whether an order is marked as cancelled.
    pub fn is_cancelled(&self, order_hash: &[u8; 32]) -> (b: bool)
        ensures
            b == self@.is_cancelled(order_hash@),
    {
        match self.cancelled.get(order_hash) {
            Some(b) => *b,
            None => false,
        }
    }

    /// Take over `nonce` as the trader's last one, if it is higher than the one
    /// before; refuse it otherwise.
    pub fn check_and_update_nonce(&mut self, trader_id: &str, nonce: u64) -> (r: Result<(), NonceError>)
        ensures
            nonce > amount(old(self)@.nonces, trader_id@) ==> r is Ok && final(self)@ == old(
                self,
            )@.with_nonce(trader_id@, nonce),
            nonce <= amount(old(self)@.nonces, trader_id@) ==> r == Err::<(), NonceError>(
                NonceError { last_nonce: amount(old(self)@.nonces, trader_id@), submitted: nonce },
            ) && final(self)@ == old(self)@,
    {
        let last: u64 = self.last_nonce(trader_id);
        if nonce <= last {
            return Err(NonceError { last_nonce: last, submitted: nonce });
        }
        self.nonces.insert(trader_id.to_owned(), nonce);
        Ok(())
    }

    /// The highest accepted nonce of a trader; 0 before the first.
    pub fn last_nonce(&self, trader_id: &str) -> (n: u64)
        ensures
            n == amount(self@.nonces, trader_id@),
    {
        match self.nonces.get(trader_id) {
            Some(n) => *n,
            None => 0,
        }
    }

    /// Add to a balance.
    pub fn credit(&mut self, trader_id: &str, asset: &str, amount: u64)
        requires
            self::amount(old(self)@.balances, (trader_id@, asset@)) + amount <= u64::MAX,
        ensures
            final(self)@ == (StateModel {
                balances: old(self)@.balances.insert(
                    (trader_id@, asset@),
                    (self::amount(old(self)@.balances, (trader_id@, asset@)) + amount) as u64,
                ),
                ..old(self)@
            }),            final(self)@ == old(self)@.credited(trader_id@, asset@, amount),
            self::amount(final(self)@.balances, (trader_id@, asset@)) == self::amount(
                old(self)@.balances,
                (trader_id@, asset@),
            ) + amount,
    {
        let before: u64 = self.balance(trader_id, asset);
        self.balances.insert((trader_id.to_owned(), asset.to_owned()), before + amount);
    }

    /// Take from a balance, if it is high enough. Either way the balance has an
    /// entry afterwards.
    pub fn debit(&mut self, trader_id: &str, asset: &str, amount: u64) -> (r: Result<(), InsufficientFunds>)
        ensures
            ({
                let key = (trader_id@, asset@);
                let before = self::amount(old(self)@.balances, key);
                if before < amount {
                    &&& r == Err::<(), InsufficientFunds>(
                        InsufficientFunds { available: before, required: amount },
                    )
                    &&& final(self)@ == (StateModel {
                        balances: old(self)@.balances.insert(key, before),
                        ..old(self)@
                    })
                } else {
                    &&& r is Ok
                    &&& final(self)@ == (StateModel {
                        balances: old(self)@.balances.insert(key, (before - amount) as u64),
                        ..old(self)@
                    })
                }
            }),            final(self)@ == old(self)@.debited(trader_id@, asset@, amount),
            r is Ok <==> amount <= self::amount(old(self)@.balances, (trader_id@, asset@)),
    {
        let before: u64 = self.balance(trader_id, asset);
        let key = (trader_id.to_owned(), asset.to_owned());
        if before < amount {
            self.balances.insert(key, before);
            return Err(InsufficientFunds { available: before, required: amount });
        }
        self.balances.insert(key, before - amount);
        Ok(())
    }

    /// A balance; 0 where none is known.
    pub fn balance(&self, trader_id: &str, asset: &str) -> (n: u64)
        ensures
            n == amount(self@.balances, (trader_id@, asset@)),
    {
        let key = (trader_id.to_owned(), asset.to_owned());
        match self.balances.get(&key) {
            Some(n) => *n,
            None => 0,
        }
    }

    /// The bytes that the checksum digests.
    pub fn fingerprint_bytes(&self) -> (out: Vec<u8>)
        ensures
            out@ == self@.fingerprint(),
            self@.finite(),
    {
        let mut out: Vec<u8> = Vec::new();
        let n: usize = self.filled_amounts.len();
        let ghost hashes = self.filled_amounts.order();
        let mut i: usize = 0;
        while i < n
            invariant
                i <= n,
                n == hashes.len(),
                hashes == self.filled_amounts.order(),
                out@ == filled_bytes(hashes.take(i as int), self.filled_amounts@),
            decreases n - i,
        {
            push_bytes(&mut out, self.filled_amounts.key_at(i).as_slice());
            push_u64(&mut out, *self.filled_amounts.value_at(i));
            proof {
                let next = hashes.take(i + 1);
                assert(next.drop_last() =~= hashes.take(i as int));
                assert(next.last() == hashes[i as int]);
            }
            i = i + 1;
        }
        let ghost part1 = out@;
        proof {
            assert(hashes.take(i as int) =~= hashes);
        }
        let n: usize = self.cancelled.len();
        let ghost marked = self.cancelled.order();
        i = 0;
        proof {
            assert(part1 + cancelled_bytes(marked.take(0), self.cancelled@) =~= part1);
        }
        while i < n
            invariant
                i <= n,
                n == marked.len(),
                marked == self.cancelled.order(),
                out@ == part1 + cancelled_bytes(marked.take(i as int), self.cancelled@),
            decreases n - i,
        {
            push_bytes(&mut out, self.cancelled.key_at(i).as_slice());
            out.push(if *self.cancelled.value_at(i) {
                1u8
            } else {
                0u8
            });
            proof {
                let next = marked.take(i + 1);
                assert(next.drop_last() =~= marked.take(i as int));
                assert(next.last() == marked[i as int]);
                assert(out@ =~= part1 + cancelled_bytes(next, self.cancelled@));
            }
            i = i + 1;
        }
        let ghost part2 = out@;
        proof {
            assert(marked.take(i as int) =~= marked);
        }
        let n: usize = self.nonces.len();
        let ghost traders = self.nonces.order();
        i = 0;
        proof {
            assert(part2 + nonce_bytes(traders.take(0), self.nonces@) =~= part2);
        }
        while i < n
            invariant
                i <= n,
                n == traders.len(),
                traders == self.nonces.order(),
                out@ == part2 + nonce_bytes(traders.take(i as int), self.nonces@),
            decreases n - i,
        {
            push_prefixed(&mut out, self.nonces.key_at(i));
            push_u64(&mut out, *self.nonces.value_at(i));
            proof {
                let next = traders.take(i + 1);
                assert(next.drop_last() =~= traders.take(i as int));
                assert(next.last() == traders[i as int]);
                assert(out@ =~= part2 + nonce_bytes(next, self.nonces@));
            }
            i = i + 1;
        }
        proof {
            assert(traders.take(i as int) =~= traders);
        }
        out
    }

    /// The SHA-256 digest of filled quantities, cancel marks and nonces. It
    /// depends on what the maps hold alone.
    pub fn checksum(&self) -> (sum: [u8; 32])
        ensures
            sum@ == sha256(self@.fingerprint()),
            self@.finite(),
    {
        let bytes = self.fingerprint_bytes();
        digest(bytes.as_slice())
    }
}

/// A nonce that does not go beyond the last one.
#[derive(Debug)]
pub struct NonceError {
    pub last_nonce: u64,
    pub submitted: u64,
}

impl NonceError {
    /// The text of [`NonceError::message`].
    pub open spec fn text(&self) -> Seq<char> {
        "nonce "@ + decimal(self.submitted as nat) + " is not > last accepted nonce "@ + decimal(
            self.last_nonce as nat,
        )
    }

    /// The error in words.
    pub fn message(&self) -> (s: String)
        ensures
            s@ == self.text(),
    {
        let mut s = "nonce ".to_owned();
        append_decimal(&mut s, self.submitted);
        s.append(" is not > last accepted nonce ");
        append_decimal(&mut s, self.last_nonce);
        s
    }
}

/// A debit beyond the balance.
#[derive(Debug)]
pub struct InsufficientFunds {
    pub available: u64,
    pub required: u64,
}

impl InsufficientFunds {
    /// The text of [`InsufficientFunds::message`].
    pub open spec fn text(&self) -> Seq<char> {
        "insufficient balance: required "@ + decimal(self.required as nat) + ", available "@
            + decimal(self.available as nat)
    }

    /// The error in words.
    pub fn message(&self) -> (s: String)
        ensures
            s@ == self.text(),
    {
        let mut s = "insufficient balance: required ".to_owned();
        append_decimal(&mut s, self.required);
        s.append(", available ");
        append_decimal(&mut s, self.available);
        s
    }
}

/// A cancel mark is permanent: neither fills nor cancels nor nonces take it back.
pub proof fn law_cancelled_is_permanent(
    s: StateModel,
    hash: Seq<u8>,
    other: Seq<u8>,
    taker: Seq<u8>,
    maker: Seq<u8>,
    qty: u64,
    trader: Seq<char>,
    nonce: u64,
)
    requires
        s.is_cancelled(hash),
    ensures
        s.cancel(other).is_cancelled(hash),
        s.fill(taker, maker, qty).is_cancelled(hash),
        s.with_nonce(trader, nonce).is_cancelled(hash),
{
}

/// Cancelling twice is cancelling once.
pub proof fn law_cancel_idempotent(s: StateModel, hash: Seq<u8>)
    ensures
        s.cancel(hash).cancel(hash) == s.cancel(hash),
{
    assert(s.cancel(hash).cancel(hash) =~= s.cancel(hash));
}

/// The checksum does not depend on balances.
pub proof fn law_checksum_ignores_balances(s: StateModel, balances: Map<(Seq<char>, Seq<char>), u64>)
    ensures
        (StateModel { balances, ..s }).fingerprint() == s.fingerprint(),
{
}

/// What fills book: under every hash the sum of the sizes of the fills in which it is
/// the taker's and of those in which it is the maker's, and nothing under another.
pub proof fn law_booked_by_fills(filled: Map<Seq<u8>, u64>, fills: Seq<Fill>, h: Seq<u8>)
    requires
        fills_fit(filled, fills),
    ensures
        amount(filled_after(filled, fills), h) == amount(filled, h) + fills.fold_left(
            0int,
            |sum: int, fill: Fill|
                sum + (if fill.taker_order_hash.0@ == h {
                    fill.size_lots as int
                } else {
                    0
                }) + (if fill.maker_order_hash.0@ == h {
                    fill.size_lots as int
                } else {
                    0
                }),
        ),
{
    let plus = |sum: int, fill: Fill|
        sum + (if fill.taker_order_hash.0@ == h {
            fill.size_lots as int
        } else {
            0
        }) + (if fill.maker_order_hash.0@ == h {
            fill.size_lots as int
        } else {
            0
        });
    lemma_booked_is_fold(filled, fills, h, plus);
}

proof fn lemma_booked_is_fold(filled: Map<Seq<u8>, u64>, fills: Seq<Fill>, h: Seq<u8>, plus: spec_fn(int, Fill) -> int)
    requires
        fills_fit(filled, fills),
        forall|sum: int, fill: Fill| #[trigger]
            plus(sum, fill) == sum + (if fill.taker_order_hash.0@ == h {
                fill.size_lots as int
            } else {
                0
            }) + (if fill.maker_order_hash.0@ == h {
                fill.size_lots as int
            } else {
                0
            }),
    ensures
        amount(filled_after(filled, fills), h) == amount(filled, h) + fills.fold_left(0int, plus),
    decreases fills.len(),
{
    if fills.len() > 0 {
        let init = fills.drop_last();
        let n = fills.len() - 1;
        assert forall|i: int| 0 <= i < init.len() implies #[trigger] next_fits(filled, init, i) by {
            assert(next_fits(filled, fills, i));
            assert(init.take(i) =~= fills.take(i));
        }
        lemma_booked_is_fold(filled, init, h, plus);
        assert(next_fits(filled, fills, n));
        assert(fills.take(n) =~= init);
        assert(fills[n] == fills.last());
    }
}

/// What is known of a key is told, and 0 of any other.
pub proof fn law_amount<K>(m: Map<K, u64>, key: K, other: K, n: u64)
    ensures
        amount(Map::<K, u64>::empty(), key) == 0,
        amount(m.insert(key, n), key) == n,
        key != other ==> amount(m.insert(key, n), other) == amount(m, other),
{
}

/// A fill is booked in full on both sides, and on no other order. Nothing else changes.
pub proof fn law_fill_is_booked(s: StateModel, taker: Seq<u8>, maker: Seq<u8>, qty: u64, other: Seq<u8>)
    requires
        fill_fits(s.filled, taker, maker, qty),
    ensures
        ({
            let after = s.fill(taker, maker, qty);
            &&& taker != maker ==> amount(after.filled, taker) == amount(s.filled, taker) + qty
            &&& taker != maker ==> amount(after.filled, maker) == amount(s.filled, maker) + qty
            &&& taker == maker ==> amount(after.filled, taker) == amount(s.filled, taker) + 2 * qty
            &&& other != taker && other != maker ==> amount(after.filled, other) == amount(s.filled, other)
            &&& after.cancelled == s.cancelled && after.nonces == s.nonces && after.balances == s.balances
        }),
{
}

/// A cancel marks its order, and no other. Nothing else changes.
pub proof fn law_cancel_marks(s: StateModel, hash: Seq<u8>, other: Seq<u8>)
    ensures
        s.cancel(hash).is_cancelled(hash),
        other != hash ==> s.cancel(hash).is_cancelled(other) == s.is_cancelled(other),
        s.cancel(hash).filled == s.filled,
        s.cancel(hash).nonces == s.nonces,
        s.cancel(hash).balances == s.balances,
        !StateModel::empty().is_cancelled(hash),
        s.is_cancelled(hash) ==> s.cancelled.contains_key(hash),
{
}

/// The nonce of a trader is the one that was taken over last, and that of any other
/// trader stays. Nothing else changes.
pub proof fn law_nonce_is_kept(s: StateModel, trader: Seq<char>, nonce: u64, other: Seq<char>)
    ensures
        amount(s.with_nonce(trader, nonce).nonces, trader) == nonce,
        other != trader ==> amount(s.with_nonce(trader, nonce).nonces, other) == amount(s.nonces, other),
        s.with_nonce(trader, nonce).filled == s.filled,
        s.with_nonce(trader, nonce).cancelled == s.cancelled,
        s.with_nonce(trader, nonce).balances == s.balances,
{
}

/// A credit adds to one balance and a debit that is covered takes from it, so a debit of
/// what was credited gives the balance back; a debit that is not covered leaves it. No
/// other balance changes, and nothing else of the state.
pub proof fn law_balances(s: StateModel, trader: Seq<char>, asset: Seq<char>, n: u64, other: (Seq<char>, Seq<char>))
    ensures
        ({
            let key = (trader, asset);
            let before = amount(s.balances, key);
            let credited = s.credited(trader, asset, n);
            let debited = s.debited(trader, asset, n);
            &&& before + n <= u64::MAX ==> amount(credited.balances, key) == before + n
            &&& before + n <= u64::MAX ==> amount(credited.debited(trader, asset, n).balances, key) == before
            &&& n <= before ==> amount(debited.balances, key) == before - n
            &&& n <= before ==> amount(debited.credited(trader, asset, n).balances, key) == before
            &&& n > before ==> amount(debited.balances, key) == before
            &&& other != key ==> amount(credited.balances, other) == amount(s.balances, other)
            &&& other != key ==> amount(debited.balances, other) == amount(s.balances, other)
            &&& credited.filled == s.filled && credited.cancelled == s.cancelled && credited.nonces == s.nonces
            &&& debited.filled == s.filled && debited.cancelled == s.cancelled && debited.nonces == s.nonces
        }),
{
}

proof fn lemma_filled_flat(hashes: Seq<Seq<u8>>, filled: Map<Seq<u8>, u64>, f: spec_fn(Seq<u8>) -> Seq<u8>)
    requires
        forall|h: Seq<u8>| #[trigger] f(h) == h + be(filled[h] as nat, 8),
    ensures
        filled_bytes(hashes, filled) == hashes.map_values(f).flatten(),
    decreases hashes.len(),
{
    let all = hashes.map_values(f);
    all.lemma_flatten_and_flatten_alt_are_equivalent();
    if hashes.len() > 0 {
        let init = hashes.drop_last();
        lemma_filled_flat(init, filled, f);
        init.map_values(f).lemma_flatten_and_flatten_alt_are_equivalent();
        assert(all.drop_last() =~= init.map_values(f));
        assert(all.last() == f(hashes.last()));
        assert(filled_bytes(hashes, filled) =~= all.drop_last().flatten_alt() + all.last());
    }
}

proof fn lemma_cancelled_flat(hashes: Seq<Seq<u8>>, cancelled: Map<Seq<u8>, bool>, f: spec_fn(Seq<u8>) -> Seq<u8>)
    requires
        forall|h: Seq<u8>| #[trigger]
            f(h) == h.push(
                if cancelled[h] {
                    1u8
                } else {
                    0u8
                },
            ),
    ensures
        cancelled_bytes(hashes, cancelled) == hashes.map_values(f).flatten(),
    decreases hashes.len(),
{
    let all = hashes.map_values(f);
    all.lemma_flatten_and_flatten_alt_are_equivalent();
    if hashes.len() > 0 {
        let init = hashes.drop_last();
        lemma_cancelled_flat(init, cancelled, f);
        init.map_values(f).lemma_flatten_and_flatten_alt_are_equivalent();
        assert(all.drop_last() =~= init.map_values(f));
        assert(all.last() == f(hashes.last()));
        assert(cancelled_bytes(hashes, cancelled) =~= all.drop_last().flatten_alt() + all.last());
    }
}

proof fn lemma_nonces_flat(traders: Seq<Seq<char>>, nonces: Map<Seq<char>, u64>, f: spec_fn(Seq<char>) -> Seq<u8>)
    requires
        forall|t: Seq<char>| #[trigger]
            f(t) == be(encode_utf8(t).len() % 0x1_0000, 2) + encode_utf8(t) + be(nonces[t] as nat, 8),
    ensures
        nonce_bytes(traders, nonces) == traders.map_values(f).flatten(),
    decreases traders.len(),
{
    let all = traders.map_values(f);
    all.lemma_flatten_and_flatten_alt_are_equivalent();
    if traders.len() > 0 {
        let init = traders.drop_last();
        lemma_nonces_flat(init, nonces, f);
        init.map_values(f).lemma_flatten_and_flatten_alt_are_equivalent();
        assert(all.drop_last() =~= init.map_values(f));
        assert(all.last() == f(traders.last()));
        assert(nonce_bytes(traders, nonces) =~= all.drop_last().flatten_alt() + all.last());
    }
}

/// What the checksum digests: for every order hash, in ascending order, the hash and the
/// quantity filled in eight bytes; then for every marked hash the hash and the mark; then
/// for every trader the name with its length in front and the nonce in eight bytes.
pub proof fn law_fingerprint_layout(s: StateModel)
    ensures
        s.fingerprint() == sorted_ids::<[u8; 32]>(s.filled.dom()).map_values(
            |h: Seq<u8>| h + be(s.filled[h] as nat, 8),
        ).flatten() + sorted_ids::<[u8; 32]>(s.cancelled.dom()).map_values(
            |h: Seq<u8>|
                h.push(
                    if s.cancelled[h] {
                        1u8
                    } else {
                        0u8
                    },
                ),
        ).flatten() + sorted_ids::<str>(s.nonces.dom()).map_values(
            |t: Seq<char>| be(encode_utf8(t).len() % 0x1_0000, 2) + encode_utf8(t) + be(s.nonces[t] as nat, 8),
        ).flatten(),
{
    lemma_filled_flat(
        sorted_ids::<[u8; 32]>(s.filled.dom()),
        s.filled,
        |h: Seq<u8>| h + be(s.filled[h] as nat, 8),
    );
    lemma_cancelled_flat(
        sorted_ids::<[u8; 32]>(s.cancelled.dom()),
        s.cancelled,
        |h: Seq<u8>|
            h.push(
                if s.cancelled[h] {
                    1u8
                } else {
                    0u8
                },
            ),
    );
    lemma_nonces_flat(
        sorted_ids::<str>(s.nonces.dom()),
        s.nonces,
        |t: Seq<char>| be(encode_utf8(t).len() % 0x1_0000, 2) + encode_utf8(t) + be(s.nonces[t] as nat, 8),
    );
}

proof fn lemma_filled_apart(hashes: Seq<Seq<u8>>, a: Map<Seq<u8>, u64>, b: Map<Seq<u8>, u64>)
    ensures
        filled_bytes(hashes, a).len() == filled_bytes(hashes, b).len(),
        filled_bytes(hashes, a) == filled_bytes(hashes, b) ==> forall|i: int|
            0 <= i < hashes.len() ==> a[#[trigger] hashes[i]] == b[hashes[i]],
    decreases hashes.len(),
{
    if hashes.len() > 0 {
        let init = hashes.drop_last();
        let h = hashes.last();
        lemma_filled_apart(init, a, b);
        lemma_be_len(a[h] as nat, 8);
        lemma_be_len(b[h] as nat, 8);
        if filled_bytes(hashes, a) == filled_bytes(hashes, b) {
            let x = filled_bytes(init, a) + h;
            let y = filled_bytes(init, b) + h;
            lemma_apart(x, be(a[h] as nat, 8), y, be(b[h] as nat, 8));
            lemma_apart(filled_bytes(init, a), h, filled_bytes(init, b), h);
            lemma_pow256_values();
            lemma_be_injective(a[h] as nat, b[h] as nat, 8);
            assert forall|i: int| 0 <= i < hashes.len() implies a[#[trigger] hashes[i]] == b[hashes[i]] by {
                if i < init.len() {
                    assert(init[i] == hashes[i]);
                }
            }
        }
    }
}

proof fn lemma_cancelled_apart(hashes: Seq<Seq<u8>>, a: Map<Seq<u8>, bool>, b: Map<Seq<u8>, bool>)
    ensures
        cancelled_bytes(hashes, a).len() == cancelled_bytes(hashes, b).len(),
        cancelled_bytes(hashes, a) == cancelled_bytes(hashes, b) ==> forall|i: int|
            0 <= i < hashes.len() ==> a[#[trigger] hashes[i]] == b[hashes[i]],
    decreases hashes.len(),
{
    if hashes.len() > 0 {
        let init = hashes.drop_last();
        let h = hashes.last();
        lemma_cancelled_apart(init, a, b);
        if cancelled_bytes(hashes, a) == cancelled_bytes(hashes, b) {
            let x = cancelled_bytes(init, a) + h;
            let y = cancelled_bytes(init, b) + h;
            let p = seq![if a[h] { 1u8 } else { 0u8 }];
            let q = seq![if b[h] { 1u8 } else { 0u8 }];
            lemma_apart(x, p, y, q);
            lemma_apart(cancelled_bytes(init, a), h, cancelled_bytes(init, b), h);
            assert(p[0] == q[0]);
            assert forall|i: int| 0 <= i < hashes.len() implies a[#[trigger] hashes[i]] == b[hashes[i]] by {
                if i < init.len() {
                    assert(init[i] == hashes[i]);
                }
            }
        }
    }
}

proof fn lemma_nonces_apart(traders: Seq<Seq<char>>, a: Map<Seq<char>, u64>, b: Map<Seq<char>, u64>)
    ensures
        nonce_bytes(traders, a).len() == nonce_bytes(traders, b).len(),
        nonce_bytes(traders, a) == nonce_bytes(traders, b) ==> forall|i: int|
            0 <= i < traders.len() ==> a[#[trigger] traders[i]] == b[traders[i]],
    decreases traders.len(),
{
    if traders.len() > 0 {
        let init = traders.drop_last();
        let t = traders.last();
        lemma_nonces_apart(init, a, b);
        lemma_be_len(a[t] as nat, 8);
        lemma_be_len(b[t] as nat, 8);
        if nonce_bytes(traders, a) == nonce_bytes(traders, b) {
            let x = nonce_bytes(init, a) + prefixed(t);
            let y = nonce_bytes(init, b) + prefixed(t);
            lemma_apart(x, be(a[t] as nat, 8), y, be(b[t] as nat, 8));
            lemma_apart(nonce_bytes(init, a), prefixed(t), nonce_bytes(init, b), prefixed(t));
            lemma_pow256_values();
            lemma_be_injective(a[t] as nat, b[t] as nat, 8);
            assert forall|i: int| 0 <= i < traders.len() implies a[#[trigger] traders[i]] == b[traders[i]] by {
                if i < init.len() {
                    assert(init[i] == traders[i]);
                }
            }
        }
    }
}

proof fn lemma_apart(a: Seq<u8>, b: Seq<u8>, c: Seq<u8>, d: Seq<u8>)
    requires
        a + b == c + d,
        b.len() == d.len(),
    ensures
        a == c,
        b == d,
{
    assert((a + b).len() == a.len() + b.len() && (c + d).len() == c.len() + d.len());
    assert(a =~= (a + b).take(a.len() as int));
    assert(c =~= (c + d).take(c.len() as int));
    assert(b =~= (a + b).skip(a.len() as int));
    assert(d =~= (c + d).skip(c.len() as int));
}

/// What the checksum digests tells states apart: two states with entries for the same
/// orders and traders that differ in a filled quantity, a cancel mark or a nonce are
/// digested differently.
pub proof fn law_fingerprint_tells_apart(a: StateModel, b: StateModel)
    requires
        a.finite(),
        a.filled.dom() == b.filled.dom(),
        a.cancelled.dom() == b.cancelled.dom(),
        a.nonces.dom() == b.nonces.dom(),
        a.fingerprint() == b.fingerprint(),
    ensures
        a.filled == b.filled,
        a.cancelled == b.cancelled,
        a.nonces == b.nonces,
{
    let f = sorted_ids::<[u8; 32]>(a.filled.dom());
    let c = sorted_ids::<[u8; 32]>(a.cancelled.dom());
    let n = sorted_ids::<str>(a.nonces.dom());
    lemma_sorted_ids::<[u8; 32]>(a.filled.dom());
    lemma_sorted_ids::<[u8; 32]>(a.cancelled.dom());
    lemma_sorted_ids::<str>(a.nonces.dom());
    lemma_filled_apart(f, a.filled, b.filled);
    lemma_cancelled_apart(c, a.cancelled, b.cancelled);
    lemma_nonces_apart(n, a.nonces, b.nonces);
    let x = filled_bytes(f, a.filled) + cancelled_bytes(c, a.cancelled);
    let y = filled_bytes(f, b.filled) + cancelled_bytes(c, b.cancelled);
    lemma_apart(x, nonce_bytes(n, a.nonces), y, nonce_bytes(n, b.nonces));
    lemma_apart(
        filled_bytes(f, a.filled),
        cancelled_bytes(c, a.cancelled),
        filled_bytes(f, b.filled),
        cancelled_bytes(c, b.cancelled),
    );
    assert forall|h: Seq<u8>| a.filled.contains_key(h) implies a.filled[h] == b.filled[h] by {
        assert(f.to_set().contains(h));
        let i = choose|i: int| 0 <= i < f.len() && f[i] == h;
        assert(a.filled[f[i]] == b.filled[f[i]]);
    }
    assert forall|h: Seq<u8>| a.cancelled.contains_key(h) implies a.cancelled[h] == b.cancelled[h] by {
        assert(c.to_set().contains(h));
        let i = choose|i: int| 0 <= i < c.len() && c[i] == h;
        assert(a.cancelled[c[i]] == b.cancelled[c[i]]);
    }
    assert forall|t: Seq<char>| a.nonces.contains_key(t) implies a.nonces[t] == b.nonces[t] by {
        assert(n.to_set().contains(t));
        let i = choose|i: int| 0 <= i < n.len() && n[i] == t;
        assert(a.nonces[n[i]] == b.nonces[n[i]]);
    }
    assert(a.filled =~= b.filled);
    assert(a.cancelled =~= b.cancelled);
    assert(a.nonces =~= b.nonces);
}

} // verus!
