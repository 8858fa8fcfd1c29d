//! The key types of the maps that the engine keeps.
use crate::bytes::{compare, lemma_lex_irreflexive, lemma_lex_total, lemma_lex_transitive, lex_before};
use crate::ordmap::{MapKey, Rank};
use vstd::prelude::*;
use vstd::utf8::{encode_utf8, encode_utf8_decode_utf8};

verus! {

/// `a` comes before `b` in the order of strings: dictionary order of the
/// UTF-8 encodings.
pub open spec fn text_before(a: Seq<char>, b: Seq<char>) -> bool {
    lex_before(encode_utf8(a), encode_utf8(b))
}

/// Different texts have different UTF-8 encodings.
pub proof fn lemma_utf8_injective(a: Seq<char>, b: Seq<char>)
    requires
        encode_utf8(a) == encode_utf8(b),
    ensures
        a == b,
{
    encode_utf8_decode_utf8(a);
    encode_utf8_decode_utf8(b);
}

pub proof fn lemma_text_total(a: Seq<char>, b: Seq<char>)
    ensures
        text_before(a, b) || a == b || text_before(b, a),
{
    lemma_lex_total(encode_utf8(a), encode_utf8(b));
    if encode_utf8(a) == encode_utf8(b) {
        lemma_utf8_injective(a, b);
    }
}

/// Compare two strings in the order of strings.
pub fn compare_text(a: &str, b: &str) -> (rank: Rank)
    ensures
        rank == Rank::Before <==> text_before(a@, b@),
        rank == Rank::Same <==> a@ == b@,
        rank == Rank::After <==> text_before(b@, a@),
{
    let rank = compare(a.as_bytes(), b.as_bytes());
    proof {
        if rank == Rank::Same {
            lemma_utf8_injective(a@, b@);
        }
    }
    rank
}

/// Whether two strings are the same text.
pub fn same_text(a: &str, b: &str) -> (same: bool)
    ensures
        same == (a@ == b@),
{
    match compare_text(a, b) {
        Rank::Same => true,
        _ => false,
    }
}

impl MapKey for u64 {
    type Stored = u64;

    type Id = u64;

    open spec fn id(&self) -> u64 {
        *self
    }

    open spec fn stored_id(stored: &u64) -> u64 {
        *stored
    }

    open spec fn before(a: u64, b: u64) -> bool {
        a < b
    }

    proof fn before_irreflexive(a: u64) {
    }

    proof fn before_transitive(a: u64, b: u64, c: u64) {
    }

    proof fn before_total(a: u64, b: u64) {
    }

    fn borrowed(stored: &u64) -> &u64 {
        stored
    }

    fn rank(&self, other: &u64) -> Rank {
        if *self < *other {
            Rank::Before
        } else if *self == *other {
            Rank::Same
        } else {
            Rank::After
        }
    }
}

impl MapKey for str {
    type Stored = String;

    type Id = Seq<char>;

    open spec fn id(&self) -> Seq<char> {
        self@
    }

    open spec fn stored_id(stored: &String) -> Seq<char> {
        stored@
    }

    open spec fn before(a: Seq<char>, b: Seq<char>) -> bool {
        text_before(a, b)
    }

    proof fn before_irreflexive(a: Seq<char>) {
        lemma_lex_irreflexive(encode_utf8(a));
        assert(!<str as MapKey>::before(a, a));
    }

    proof fn before_transitive(a: Seq<char>, b: Seq<char>, c: Seq<char>) {
        lemma_lex_transitive(encode_utf8(a), encode_utf8(b), encode_utf8(c));
    }

    proof fn before_total(a: Seq<char>, b: Seq<char>) {
        lemma_text_total(a, b);
    }

    fn borrowed(stored: &String) -> &str {
        stored.as_str()
    }

    fn rank(&self, other: &str) -> Rank {
        compare_text(self, other)
    }
}

impl MapKey for [u8; 32] {
    type Stored = [u8; 32];

    type Id = Seq<u8>;

    open spec fn id(&self) -> Seq<u8> {
        self@
    }

    open spec fn stored_id(stored: &[u8; 32]) -> Seq<u8> {
        stored@
    }

    open spec fn before(a: Seq<u8>, b: Seq<u8>) -> bool {
        lex_before(a, b)
    }

    proof fn before_irreflexive(a: Seq<u8>) {
        lemma_lex_irreflexive(a);
    }

    proof fn before_transitive(a: Seq<u8>, b: Seq<u8>, c: Seq<u8>) {
        lemma_lex_transitive(a, b, c);
    }

    proof fn before_total(a: Seq<u8>, b: Seq<u8>) {
        lemma_lex_total(a, b);
    }

    fn borrowed(stored: &[u8; 32]) -> &[u8; 32] {
        stored
    }

    fn rank(&self, other: &[u8; 32]) -> Rank {
        compare(self.as_slice(), other.as_slice())
    }
}

/// `a` comes before `b` in the order of pairs of strings: by the first part,
/// and where that is the same, by the second.
pub open spec fn pair_before(a: (Seq<char>, Seq<char>), b: (Seq<char>, Seq<char>)) -> bool {
    text_before(a.0, b.0) || (a.0 == b.0 && text_before(a.1, b.1))
}

pub proof fn lemma_pair_irreflexive(a: (Seq<char>, Seq<char>))
    ensures
        !pair_before(a, a),
{
    lemma_lex_irreflexive(encode_utf8(a.0));
    lemma_lex_irreflexive(encode_utf8(a.1));
}

pub proof fn lemma_pair_transitive(
    a: (Seq<char>, Seq<char>),
    b: (Seq<char>, Seq<char>),
    c: (Seq<char>, Seq<char>),
)
    requires
        pair_before(a, b),
        pair_before(b, c),
    ensures
        pair_before(a, c),
{
    if text_before(a.0, b.0) && text_before(b.0, c.0) {
        lemma_lex_transitive(encode_utf8(a.0), encode_utf8(b.0), encode_utf8(c.0));
    } else if a.0 == b.0 && b.0 == c.0 {
        lemma_lex_irreflexive(encode_utf8(a.0));
        lemma_lex_transitive(encode_utf8(a.1), encode_utf8(b.1), encode_utf8(c.1));
    }
}

pub proof fn lemma_pair_total(a: (Seq<char>, Seq<char>), b: (Seq<char>, Seq<char>))
    ensures
        pair_before(a, b) || a == b || pair_before(b, a),
{
    lemma_text_total(a.0, b.0);
    lemma_text_total(a.1, b.1);
}

/// Compare two pairs of strings in the order of pairs.
pub fn compare_pairs(a: (&str, &str), b: (&str, &str)) -> (rank: Rank)
    ensures
        rank == Rank::Before <==> pair_before((a.0@, a.1@), (b.0@, b.1@)),
        rank == Rank::Same <==> a.0@ == b.0@ && a.1@ == b.1@,
        rank == Rank::After <==> pair_before((b.0@, b.1@), (a.0@, a.1@)),
{
    proof {
        lemma_lex_irreflexive(encode_utf8(a.0@));
    }
    match compare_text(a.0, b.0) {
        Rank::Same => compare_text(a.1, b.1),
        rank => rank,
    }
}

impl MapKey for (String, String) {
    type Stored = (String, String);

    type Id = (Seq<char>, Seq<char>);

    open spec fn id(&self) -> (Seq<char>, Seq<char>) {
        (self.0@, self.1@)
    }

    open spec fn stored_id(stored: &(String, String)) -> (Seq<char>, Seq<char>) {
        (stored.0@, stored.1@)
    }

    open spec fn before(a: (Seq<char>, Seq<char>), b: (Seq<char>, Seq<char>)) -> bool {
        pair_before(a, b)
    }

    proof fn before_irreflexive(a: (Seq<char>, Seq<char>)) {
        lemma_pair_irreflexive(a);
    }

    proof fn before_transitive(a: (Seq<char>, Seq<char>), b: (Seq<char>, Seq<char>), c: (Seq<char>, Seq<char>)) {
        lemma_pair_transitive(a, b, c);
    }

    proof fn before_total(a: (Seq<char>, Seq<char>), b: (Seq<char>, Seq<char>)) {
        lemma_pair_total(a, b);
    }

    fn borrowed(stored: &(String, String)) -> &(String, String) {
        stored
    }

    fn rank(&self, other: &(String, String)) -> Rank {
        compare_pairs((self.0.as_str(), self.1.as_str()), (other.0.as_str(), other.1.as_str()))
    }
}

} // verus!
