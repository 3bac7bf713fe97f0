use ed25519_dalek::{Signature, Signer, SigningKey, Verifier, VerifyingKey};
use vstd::prelude::*;

use crate::text::{chars_of, digit_char, is_digit, push_char};

verus! {

/// The Ed25519 public (verifying) key, in its 32-byte compressed form,
/// that belongs to a 32-byte secret key.
pub uninterp spec fn ed25519_public_key(secret: Seq<u8>) -> Seq<u8>;

/// The 64-byte Ed25519 signature that a 32-byte secret key makes on a message.
pub uninterp spec fn ed25519_signature(secret: Seq<u8>, message: Seq<u8>) -> Seq<u8>;

/// Whether 32 bytes are the compressed form of a curve point, so that they can
/// stand as an Ed25519 verifying key.
pub uninterp spec fn ed25519_key_decodes(public: Seq<u8>) -> bool;

/// Whether a verifying key accepts a 64-byte signature on a message.
pub uninterp spec fn ed25519_accepts(public: Seq<u8>, message: Seq<u8>, signature: Seq<u8>) -> bool;

/// Converts a private key to its public variant
///
/// Calls `SigningKey::from_bytes` and `SigningKey::verifying_key` of ed25519-dalek. Trusted:
/// the result is the verifying key of the secret key (a function of the secret key alone),
/// and that key decodes again as a curve point, as every compressed point does.
#[verifier::external_body]
pub fn get_public(privkey: &[u8; 32]) -> (res: [u8; 32])
    ensures
        res@ == ed25519_public_key(privkey@),
        ed25519_key_decodes(res@),
{
    let key = SigningKey::from_bytes(privkey);
    *key.verifying_key().as_bytes()
}

/// Calls `SigningKey::from_bytes` and `Signer::sign` of ed25519-dalek and returns the
/// signature's bytes. Trusted: Ed25519 signing is deterministic, so the result is a function of
/// the secret key and the message; and a signature so made is accepted by the verifying key of
/// the same secret key (the correctness of the signature scheme that the crate documents).
#[verifier::external_body]
fn signature_bytes(key: &[u8; 32], message: &[u8]) -> (res: [u8; 64])
    ensures
        res@ == ed25519_signature(key@, message@),
        ed25519_accepts(ed25519_public_key(key@), message@, res@),
{
    SigningKey::from_bytes(key).sign(message).to_bytes()
}

/// Calls `VerifyingKey::from_bytes` of ed25519-dalek. Trusted: it succeeds exactly when the
/// bytes decompress to a curve point, which depends on the bytes alone.
#[verifier::external_body]
fn verifying_key_decodes(key: &[u8; 32]) -> (res: bool)
    ensures
        res == ed25519_key_decodes(key@),
{
    VerifyingKey::from_bytes(key).is_ok()
}

/// Calls `Verifier::verify` of ed25519-dalek with a key that decodes (turned into a
/// `VerifyingKey` by `from_bytes`, which then succeeds). Trusted: whether the signature is
/// accepted depends on the key, the message and the signature bytes alone.
#[verifier::external_body]
fn signature_accepted(key: &[u8; 32], message: &[u8], signature: &[u8; 64]) -> (res: bool)
    requires
        ed25519_key_decodes(key@),
    ensures
        res == ed25519_accepts(key@, message@, signature@),
{
    match VerifyingKey::from_bytes(key) {
        Ok(verifying_key) => verifying_key.verify(message, &Signature::from_bytes(signature)).is_ok(),
        Err(_) => false,
    }
}

/// The hexadecimal digit of `d < 16` in upper case.
pub open spec fn hex_digit_upper(d: nat) -> char {
    if d < 10 {
        digit_char(d)
    } else {
        ((55 + d) as u32) as char
    }
}

/// The upper-case hexadecimal text of some bytes, two digits per byte. This is how the ed25519
/// crate displays a `Signature`, and `parse_signature_text` is how its `FromStr` reads one;
/// both are a few lines, so they are written and proved here.
pub open spec fn hex_upper(bytes: Seq<u8>) -> Seq<char> {
    Seq::new(
        2 * bytes.len(),
        |k: int|
            if k % 2 == 0 {
                hex_digit_upper((bytes[k / 2] / 16) as nat)
            } else {
                hex_digit_upper((bytes[k / 2] % 16) as nat)
            },
    )
}

pub open spec fn is_lower_letter(c: char) -> bool {
    'a' <= c && c <= 'z'
}

pub open spec fn is_upper_letter(c: char) -> bool {
    'A' <= c && c <= 'Z'
}

pub open spec fn is_hex_digit(c: char) -> bool {
    is_digit(c) || ('a' <= c && c <= 'f') || ('A' <= c && c <= 'F')
}

/// The value of a hexadecimal digit.
pub open spec fn hex_value(c: char) -> nat {
    if is_digit(c) {
        ((c as u32) - 48) as nat
    } else if is_lower_letter(c) {
        ((c as u32) - 87) as nat
    } else {
        ((c as u32) - 55) as nat
    }
}

/// Whether a text holds both lower-case and upper-case letters.
pub open spec fn mixed_case(s: Seq<char>) -> bool {
    (exists|i: int| 0 <= i < s.len() && is_lower_letter(#[trigger] s[i])) && (exists|j: int|
        0 <= j < s.len() && is_upper_letter(#[trigger] s[j]))
}

/// The signature bytes that a text stands for, as `Signature::from_str` reads it:
/// 128 hexadecimal digits, not mixing upper and lower case, two per byte.
pub open spec fn parse_signature_text(s: Seq<char>) -> Option<Seq<u8>> {
    if s.len() == 128 && (forall|i: int| 0 <= i < s.len() ==> is_hex_digit(#[trigger] s[i]))
        && !mixed_case(s) {
        Some(Seq::new(64, |i: int| (hex_value(s[2 * i]) * 16 + hex_value(s[2 * i + 1])) as u8))
    } else {
        None
    }
}

/// Whether a signed text is accepted for an expected message: it is not empty and the key
/// accepts the signature it stands for on the UTF-8 bytes of the message.
pub open spec fn verifies(key: Seq<u8>, signed: Seq<char>, expected: Seq<char>) -> bool {
    signed.len() != 0 && ed25519_accepts(
        key,
        vstd::utf8::encode_utf8(expected),
        parse_signature_text(signed)->0,
    )
}

/// Empty evidence is refused, whatever the key and the message.
pub proof fn lemma_empty_evidence_refused(key: Seq<u8>, message: Seq<char>)
    ensures
        !verifies(key, Seq::empty(), message),
{
}

/// The text of the signature that a secret key makes on the UTF-8 bytes of a message.
pub open spec fn signature_text(key: Seq<u8>, message: Seq<char>) -> Seq<char> {
    hex_upper(ed25519_signature(key, vstd::utf8::encode_utf8(message)))
}

proof fn lemma_hex_digit_upper(d: nat)
    requires
        d < 16,
    ensures
        is_hex_digit(hex_digit_upper(d)),
        !is_lower_letter(hex_digit_upper(d)),
        hex_value(hex_digit_upper(d)) == d,
{
}

/// Reading the upper-case hexadecimal text of 64 bytes as a signature gives the bytes back.
pub proof fn lemma_hex_roundtrip(bytes: Seq<u8>)
    requires
        bytes.len() == 64,
    ensures
        parse_signature_text(hex_upper(bytes)) == Some(bytes),
{
    let s = hex_upper(bytes);
    assert forall|k: int| 0 <= k < s.len() implies is_hex_digit(#[trigger] s[k]) && !is_lower_letter(
        s[k],
    ) by {
        lemma_hex_digit_upper((bytes[k / 2] / 16) as nat);
        lemma_hex_digit_upper((bytes[k / 2] % 16) as nat);
    }
    assert(!mixed_case(s));
    assert forall|i: int| 0 <= i < 64 implies #[trigger] bytes[i] == (hex_value(s[2 * i]) * 16
        + hex_value(s[2 * i + 1])) as u8 by {
        assert((2 * i) / 2 == i);
        assert((2 * i + 1) / 2 == i);
        assert((2 * i) % 2 == 0);
        assert((2 * i + 1) % 2 == 1);
        lemma_hex_digit_upper((bytes[i] / 16) as nat);
        lemma_hex_digit_upper((bytes[i] % 16) as nat);
        assert(bytes[i] == (bytes[i] / 16) * 16 + bytes[i] % 16);
    }
    assert(Seq::new(64, |i: int| (hex_value(s[2 * i]) * 16 + hex_value(s[2 * i + 1])) as u8)
        =~= bytes);
}

fn hex_digit_char(d: u8) -> (c: char)
    requires
        d < 16,
    ensures
        c == hex_digit_upper(d as nat),
{
    if d < 10 {
        (48u8 + d) as char
    } else {
        (55u8 + d) as char
    }
}

/// The upper-case hexadecimal text of `bytes`.
fn hex_upper_string(bytes: &[u8]) -> (res: String)
    ensures
        res@ == hex_upper(bytes@),
{
    let mut res = String::new();
    let mut i: usize = 0;
    while i < bytes.len()
        invariant
            i <= bytes@.len(),
            res@ == hex_upper(bytes@.take(i as int)),
        decreases bytes@.len() - i,
    {
        let b = bytes[i];
        push_char(&mut res, hex_digit_char(b / 16));
        push_char(&mut res, hex_digit_char(b % 16));
        i = i + 1;
        assert(res@ =~= hex_upper(bytes@.take(i as int)));
    }
    assert(bytes@.take(bytes@.len() as int) == bytes@);
    res
}

fn char_hex_value(c: char) -> (v: u8)
    requires
        is_hex_digit(c),
    ensures
        v as nat == hex_value(c),
        v < 16,
{
    if '0' <= c && c <= '9' {
        ((c as u32) - 48) as u8
    } else if 'a' <= c && c <= 'z' {
        ((c as u32) - 87) as u8
    } else {
        ((c as u32) - 55) as u8
    }
}

/// Reads a signature from its hexadecimal text (`Signature::from_str`).
fn parse_signature(text: &str) -> (res: Option<[u8; 64]>)
    ensures
        match res {
            Some(sig) => parse_signature_text(text@) == Some(sig@),
            None => parse_signature_text(text@) is None,
        },
{
    let s = chars_of(text);
    if s.len() != 128 {
        return None;
    }
    let mut seen_lower = false;
    let mut seen_upper = false;
    let mut i: usize = 0;
    while i < 128
        invariant
            i <= 128,
            s@.len() == 128,
            s@ == text@,
            forall|k: int| 0 <= k < i ==> is_hex_digit(#[trigger] s@[k]),
            seen_lower == exists|k: int| 0 <= k < i && is_lower_letter(#[trigger] s@[k]),
            seen_upper == exists|k: int| 0 <= k < i && is_upper_letter(#[trigger] s@[k]),
        decreases 128 - i,
    {
        let c = s[i];
        if !(('0' <= c && c <= '9') || ('a' <= c && c <= 'f') || ('A' <= c && c <= 'F')) {
            assert(!is_hex_digit(s@[i as int]));
            return None;
        }
        if 'a' <= c && c <= 'z' {
            seen_lower = true;
        }
        if 'A' <= c && c <= 'Z' {
            seen_upper = true;
        }
        i = i + 1;
    }
    if seen_lower && seen_upper {
        return None;
    }
    let mut sig: [u8; 64] = [0; 64];
    let mut j: usize = 0;
    while j < 64
        invariant
            j <= 64,
            s@.len() == 128,
            s@ == text@,
            forall|k: int| 0 <= k < 128 ==> is_hex_digit(#[trigger] s@[k]),
            forall|k: int|
                0 <= k < j ==> #[trigger] sig@[k] == (hex_value(s@[2 * k]) * 16 + hex_value(
                    s@[2 * k + 1],
                )) as u8,
        decreases 64 - j,
    {
        let hi = char_hex_value(s[2 * j]);
        let lo = char_hex_value(s[2 * j + 1]);
        sig[j] = hi * 16 + lo;
        j = j + 1;
    }
    assert(sig@ =~= Seq::new(
        64,
        |k: int| (hex_value(s@[2 * k]) * 16 + hex_value(s@[2 * k + 1])) as u8,
    ));
    Some(sig)
}

/// Sign a message with your private key
pub fn sign(key: &[u8; 32], message: &str) -> (res: String)
    ensures
        res@ == signature_text(key@, message@),
        parse_signature_text(res@) == Some(ed25519_signature(key@, vstd::utf8::encode_utf8(message@))),
        verifies(ed25519_public_key(key@), res@, message@),
{
    let signature = signature_bytes(key, message.as_bytes());
    proof {
        lemma_hex_roundtrip(signature@);
    }
    hex_upper_string(signature.as_slice())
}

/// Make sure that a signed messages matches
/// with an expected message using some public key
pub fn verify(key: &[u8; 32], signed_message: &str, expected_message: &str) -> (res: bool)
    requires
        signed_message@.len() == 0 || (ed25519_key_decodes(key@) && parse_signature_text(
            signed_message@,
        ) is Some),
    ensures
        res == verifies(key@, signed_message@, expected_message@),
{
    if signed_message.is_empty() {
        return false;
    }
    match parse_signature(signed_message) {
        Some(sign) => signature_accepted(key, expected_message.as_bytes(), &sign),
        None => false,
    }
}

/// `verify`, for any input: `None` where `verify` cannot read the key or the signature,
/// which is a nonempty signed text with a key that does not decode or a text that is no signature.
pub fn try_verify(key: &[u8; 32], signed_message: &str, expected_message: &str) -> (res: Option<
    bool,
>)
    ensures
        match res {
            Some(b) => (signed_message@.len() == 0 || (ed25519_key_decodes(key@)
                && parse_signature_text(signed_message@) is Some)) && b == verifies(
                key@,
                signed_message@,
                expected_message@,
            ),
            None => !(signed_message@.len() == 0 || (ed25519_key_decodes(key@)
                && parse_signature_text(signed_message@) is Some)),
        },
{
    if signed_message.is_empty() {
        return Some(false);
    }
    if !verifying_key_decodes(key) {
        return None;
    }
    match parse_signature(signed_message) {
        Some(_) => Some(verify(key, signed_message, expected_message)),
        None => None,
    }
}

} // verus!
