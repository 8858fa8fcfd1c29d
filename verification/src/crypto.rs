//! Digests, signatures, hexadecimal notation and random identifiers.
use ed25519_dalek::{Signature, Signer, SigningKey, Verifier, VerifyingKey};
use rand::rngs::OsRng;
use sha2::{Digest, Sha256};
use uuid::Uuid;
use vstd::prelude::*;
use vstd::utf8::{encode_utf8, is_ascii_chars, is_ascii_chars_encode_utf8};

verus! {

/// The SHA-256 digest of `data`.
pub uninterp spec fn sha256(data: Seq<u8>) -> Seq<u8>;

/// Whether `key` encodes an ed25519 public key.
pub uninterp spec fn is_public_key(key: Seq<u8>) -> bool;

/// Whether `signature` is an ed25519 signature of `message` under the public key `key`.
pub uninterp spec fn is_signature(key: Seq<u8>, message: Seq<u8>, signature: Seq<u8>) -> bool;

/// The ed25519 public key of the secret key `secret`.
pub uninterp spec fn public_key_of(secret: Seq<u8>) -> Seq<u8>;

/// The ed25519 signature of `message` with the secret key `secret`.
pub uninterp spec fn signature_of(secret: Seq<u8>, message: Seq<u8>) -> Seq<u8>;

/// `sha2::Sha256::digest`: the digest is a function of the bytes alone.
#[verifier::external_body]
pub(crate) fn digest(data: &[u8]) -> (out: [u8; 32])
    ensures
        out@ == sha256(data@),
{
    Sha256::digest(data).into()
}

/// `ed25519_dalek::VerifyingKey::from_bytes`: whether the bytes decode to a key
/// is a function of the bytes alone.
#[verifier::external_body]
pub(crate) fn public_key_decodes(key: &[u8; 32]) -> (ok: bool)
    ensures
        ok == is_public_key(key@),
{
    VerifyingKey::from_bytes(key).is_ok()
}

/// `<ed25519_dalek::VerifyingKey as Verifier>::verify`: the verdict is a
/// function of the key, the message and the signature alone. The key is one
/// that decodes.
#[verifier::external_body]
pub(crate) fn signature_verifies(key: &[u8; 32], message: &[u8], signature: &[u8; 64]) -> (ok: bool)
    requires
        is_public_key(key@),
    ensures
        ok == is_signature(key@, message@, signature@),
{
    VerifyingKey::from_bytes(key).unwrap().verify(message, &Signature::from_bytes(signature)).is_ok()
}

/// `ed25519_dalek::SigningKey::verifying_key`: the public key is a function of
/// the secret key alone, and it decodes.
#[verifier::external_body]
pub(crate) fn public_key(secret: &[u8; 32]) -> (key: [u8; 32])
    ensures
        key@ == public_key_of(secret@),
        is_public_key(key@),
{
    SigningKey::from_bytes(secret).verifying_key().to_bytes()
}

/// `<ed25519_dalek::SigningKey as Signer>::sign`: the signature is a function of
/// the secret key and the message alone, and it verifies under the public key
/// of the secret key.
#[verifier::external_body]
pub(crate) fn sign(secret: &[u8; 32], message: &[u8]) -> (signature: [u8; 64])
    ensures
        signature@ == signature_of(secret@, message@),
        is_signature(public_key_of(secret@), message@, signature@),
{
    SigningKey::from_bytes(secret).sign(message).to_bytes()
}

/// The lower-case hexadecimal digit of `d`, for `d` under sixteen.
pub open spec fn hex_digit(d: int) -> char {
    if d < 10 {
        (48 + d) as u8 as char
    } else {
        (87 + d) as u8 as char
    }
}

/// The hexadecimal notation of `bytes`: two lower-case digits for each, the
/// high half first.
pub open spec fn hex_text(bytes: Seq<u8>) -> Seq<char> {
    Seq::new(
        2 * bytes.len(),
        |i: int|
            hex_digit(
                if i % 2 == 0 {
                    bytes[i / 2] as int / 16
                } else {
                    bytes[i / 2] as int % 16
                },
            ),
    )
}

/// `hex::encode`: two lower-case digits for each byte, the high half first.
#[verifier::external_body]
pub(crate) fn hex_encode(bytes: &[u8]) -> (s: String)
    ensures
        s@ == hex_text(bytes@),
{
    hex::encode(bytes)
}

/// The value of a hexadecimal digit in either case.
pub open spec fn hex_digit_value(c: u8) -> Option<int> {
    if 48 <= c <= 57 {
        Some(c - 48)
    } else if 97 <= c <= 102 {
        Some(c - 87)
    } else if 65 <= c <= 70 {
        Some(c - 55)
    } else {
        None
    }
}

/// The bytes that `text` writes in hexadecimal notation: two digits for each,
/// the high half first, in either case.
pub open spec fn hex_bytes(text: Seq<u8>) -> Option<Seq<u8>> {
    if text.len() % 2 == 0 && forall|i: int| 0 <= i < text.len() ==> hex_digit_value(#[trigger] text[i]) is Some {
        Some(
            Seq::new(
                (text.len() / 2) as nat,
                |i: int|
                    (16 * hex_digit_value(text[2 * i])->Some_0 + hex_digit_value(text[2 * i + 1])->Some_0) as u8,
            ),
        )
    } else {
        None
    }
}

/// What is said of a text that is not hexadecimal.
pub uninterp spec fn hex_fault(text: Seq<char>) -> Seq<char>;

/// `hex::decode`: the bytes where the text is hexadecimal notation of an even
/// number of digits, and otherwise what the error says in words, which is a
/// function of the text alone.
#[verifier::external_body]
pub(crate) fn hex_decode(text: &str) -> (r: Result<Vec<u8>, String>)
    ensures
        match r {
            Ok(bytes) => hex_bytes(encode_utf8(text@)) == Some(bytes@),
            Err(reason) => hex_bytes(encode_utf8(text@)) is None && reason@ == hex_fault(text@),
        },
{
    hex::decode(text).map_err(|e| e.to_string())
}

/// A digit of hexadecimal notation, in lower case.
pub open spec fn lower_hex(c: char) -> bool {
    ('0' <= c <= '9') || ('a' <= c <= 'f')
}

/// The hyphenated form of a random UUID: 36 characters, hyphens in four places,
/// lower-case hexadecimal digits in the others, among them the digit that tells
/// the version, 4, and one that tells the variant.
pub open spec fn uuid_form(text: Seq<char>) -> bool {
    &&& text.len() == 36
    &&& text[8] == '-' && text[13] == '-' && text[18] == '-' && text[23] == '-'
    &&& forall|i: int|
        0 <= i < 36 && i != 8 && i != 13 && i != 18 && i != 23 ==> lower_hex(#[trigger] text[i])
    &&& text[14] == '4'
    &&& text[19] == '8' || text[19] == '9' || text[19] == 'a' || text[19] == 'b'
}

/// `uuid::Uuid::new_v4` in its hyphenated form, with the digits of version 4 and of
/// the variant in their places. The other digits are random: nothing more is
/// claimed of them.
#[verifier::external_body]
pub(crate) fn random_id() -> (s: String)
    ensures
        uuid_form(s@),
{
    Uuid::new_v4().to_string()
}

/// `rand::random`: nothing is claimed of the number.
#[verifier::external_body]
pub(crate) fn random_salt() -> u64
{
    rand::random()
}

/// `ed25519_dalek::SigningKey::generate` with the randomness of the system:
/// nothing is claimed of the key.
#[verifier::external_body]
pub(crate) fn random_secret() -> [u8; 32]
{
    SigningKey::generate(&mut OsRng).to_bytes()
}

/// Reading the hexadecimal notation of bytes gives them back.
pub proof fn lemma_hex_round_trip(bytes: Seq<u8>)
    ensures
        hex_bytes(encode_utf8(hex_text(bytes))) == Some(bytes),
{
    let text = hex_text(bytes);
    assert forall|i: int| 0 <= i < text.len() implies (#[trigger] text[i]) as u32 == (if hex_half(bytes, i) < 10 {
        48 + hex_half(bytes, i)
    } else {
        87 + hex_half(bytes, i)
    }) && 0 <= hex_half(bytes, i) < 16 by {
        assert(text[i] == hex_digit(hex_half(bytes, i)));
    }
    assert(is_ascii_chars(text));
    is_ascii_chars_encode_utf8(text);
    let raw = encode_utf8(text);
    assert forall|i: int| 0 <= i < raw.len() implies hex_digit_value(#[trigger] raw[i]) == Some(hex_half(bytes, i)) by {
        assert(raw[i] == text[i] as u8);
        assert(text[i] as u32 <= 127);
    }
    let back = hex_bytes(raw)->Some_0;
    assert forall|i: int| 0 <= i < bytes.len() implies back[i] == bytes[i] by {
        assert((2 * i) / 2 == i && (2 * i + 1) / 2 == i);
        assert(hex_digit_value(raw[2 * i]) == Some(bytes[i] as int / 16));
        assert(hex_digit_value(raw[2 * i + 1]) == Some(bytes[i] as int % 16));
    }
    assert(back =~= bytes);
}

/// The half of a byte that stands at place `i` of hexadecimal notation.
spec fn hex_half(bytes: Seq<u8>, i: int) -> int {
    if i % 2 == 0 {
        bytes[i / 2] as int / 16
    } else {
        bytes[i / 2] as int % 16
    }
}

/// Hexadecimal notation tells byte strings apart, so no two public keys have one
/// trader id.
pub proof fn law_hex_injective(a: Seq<u8>, b: Seq<u8>)
    requires
        hex_text(a) == hex_text(b),
    ensures
        a == b,
{
    assert(hex_text(a).len() == 2 * a.len());
    assert forall|i: int| 0 <= i < a.len() implies a[i] == b[i] by {
        let hi = hex_text(a)[2 * i];
        let lo = hex_text(a)[2 * i + 1];
        assert(hi == hex_text(b)[2 * i] && lo == hex_text(b)[2 * i + 1]);
        assert((2 * i) / 2 == i && (2 * i + 1) / 2 == i);
        assert(hi == hex_digit(a[i] as int / 16) && hi == hex_digit(b[i] as int / 16));
        assert(lo == hex_digit(a[i] as int % 16) && lo == hex_digit(b[i] as int % 16));
        lemma_hex_digit(a[i] as int / 16, b[i] as int / 16);
        lemma_hex_digit(a[i] as int % 16, b[i] as int % 16);
    }
    assert(a =~= b);
}

proof fn lemma_hex_digit(c: int, d: int)
    requires
        0 <= c < 16,
        0 <= d < 16,
        hex_digit(c) == hex_digit(d),
    ensures
        c == d,
{
    assert(hex_digit(c) as u32 == (if c < 10 { 48 + c } else { 87 + c }));
    assert(hex_digit(d) as u32 == (if d < 10 { 48 + d } else { 87 + d }));
}

} // verus!
