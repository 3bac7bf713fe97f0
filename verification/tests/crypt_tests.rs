use netcom::crypt::{get_public, sign, try_verify, verify};

fn hex_bytes(s: &str) -> Vec<u8> {
    (0..s.len()).step_by(2).map(|i| u8::from_str_radix(&s[i..i + 2], 16).unwrap()).collect()
}

fn rfc_secret() -> [u8; 32] {
    let v = hex_bytes("9d61b19deffd5a60ba844af492ec2cc44449c5697b326919703bac031cae7f60");
    v.try_into().unwrap()
}

const RFC_PUBLIC: &str = "d75a980182b10ab7d54bfed3c964073a0ee172f3daa62325af021a68f707511a";
const RFC_SIGNATURE: &str = "E5564300C360AC729086E2CC806E828A84877F1EB8E5D974D873E065224901555FB8821590A33BACC61E39701CF9B46BD25BF5F0595BBE24655141438E7A100B";

#[test]
fn get_public_gives_the_rfc_8032_public_key() {
    let public = get_public(&rfc_secret());
    assert_eq!(public.to_vec(), hex_bytes(RFC_PUBLIC));
}

#[test]
fn sign_gives_the_rfc_8032_signature_in_upper_case_hex() {
    assert_eq!(sign(&rfc_secret(), ""), RFC_SIGNATURE);
}

#[test]
fn signatures_made_verify() {
    let secret = [42u8; 32];
    let public = get_public(&secret);
    let signed = sign(&secret, "JOIN\0alice\0");
    assert_eq!(signed.len(), 128);
    assert!(verify(&public, &signed, "JOIN\0alice\0"));
    assert!(!verify(&public, &signed, "JOIN\0mallory\0"));
}

#[test]
fn verify_accepts_lower_case_signature_text() {
    let secret = rfc_secret();
    let public = get_public(&secret);
    let lower = RFC_SIGNATURE.to_lowercase();
    assert!(verify(&public, &lower, ""));
}

#[test]
fn verify_refuses_empty_evidence() {
    let public = get_public(&[1u8; 32]);
    assert!(!verify(&public, "", "anything"));
    assert_eq!(try_verify(&public, "", "anything"), Some(false));
}

#[test]
fn verify_refuses_a_signature_by_another_key() {
    let signed = sign(&[1u8; 32], "hello");
    let other = get_public(&[2u8; 32]);
    assert!(!verify(&other, &signed, "hello"));
}

#[test]
fn try_verify_is_none_on_unreadable_signatures() {
    let public = get_public(&[3u8; 32]);
    assert_eq!(try_verify(&public, "ABCD", "x"), None);
    let mut mixed = RFC_SIGNATURE.to_string();
    mixed.replace_range(1..2, "5");
    mixed.replace_range(10..11, "c");
    assert_eq!(try_verify(&public, &mixed, "x"), None);
    let not_hex = "G".repeat(128);
    assert_eq!(try_verify(&public, &not_hex, "x"), None);
}

#[test]
fn try_verify_is_none_on_keys_that_do_not_decode() {
    let signed = sign(&[4u8; 32], "x");
    let bad = (0u8..=255)
        .map(|b| {
            let mut k = [0u8; 32];
            k[0] = b;
            k
        })
        .find(|k| ed25519_dalek::VerifyingKey::from_bytes(k).is_err())
        .unwrap();
    assert_eq!(try_verify(&bad, &signed, "x"), None);
}

#[test]
fn try_verify_agrees_with_verify_on_readable_input() {
    let secret = [5u8; 32];
    let public = get_public(&secret);
    let signed = sign(&secret, "m");
    assert_eq!(try_verify(&public, &signed, "m"), Some(true));
    assert_eq!(try_verify(&public, &signed, "n"), Some(false));
}

#[test]
fn empty_evidence_is_refused_for_any_message() {
    let public = get_public(&[8u8; 32]);
    assert!(!verify(&public, "", ""));
    assert!(!verify(&public, "", "JOIN\0a\0"));
}
