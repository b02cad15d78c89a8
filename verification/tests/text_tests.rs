use bech32::{FromBase32, ToBase32, Variant};
use rgb_disclosure::digest::{id_text_round_trip, parse_disclosure_id, DisclosureId, IdParseError};
use rgb_disclosure::disclosure::Disclosure;

#[test]
fn identifier_text_round_trip() {
    let id = Disclosure::new().disclosure_id();
    let text = id.to_text();
    assert_eq!(parse_disclosure_id(&text), Ok(id.clone()));
    assert_eq!(id_text_round_trip(&id), id);
}

#[test]
fn identifier_text_is_bech32m_with_id_prefix() {
    let id = Disclosure::new().disclosure_id();
    let text = id.to_text();
    assert!(text.starts_with("id1"));
    let (hrp, data, variant) = bech32::decode(&text).unwrap();
    assert_eq!(hrp, "id");
    assert_eq!(variant, Variant::Bech32m);
    assert_eq!(Vec::<u8>::from_base32(&data).unwrap(), id.digest);
}

#[test]
fn parse_rejects_wrong_prefix() {
    let id = Disclosure::new().disclosure_id();
    let other = bech32::encode("data", id.digest.to_base32(), Variant::Bech32m).unwrap();
    assert_eq!(parse_disclosure_id(&other), Err(IdParseError::WrongPrefix));
}

#[test]
fn parse_rejects_wrong_variant() {
    let id = Disclosure::new().disclosure_id();
    let plain = bech32::encode("id", id.digest.to_base32(), Variant::Bech32).unwrap();
    assert_eq!(parse_disclosure_id(&plain), Err(IdParseError::WrongVariant));
}

#[test]
fn parse_rejects_wrong_length() {
    let short = bech32::encode("id", vec![1u8; 16].to_base32(), Variant::Bech32m).unwrap();
    assert_eq!(parse_disclosure_id(&short), Err(IdParseError::WrongLength));
}

#[test]
fn parse_rejects_non_canonical_case() {
    let id = Disclosure::new().disclosure_id();
    let upper = id.to_text().to_uppercase();
    assert_eq!(parse_disclosure_id(&upper), Err(IdParseError::NotCanonical));
}

#[test]
fn parse_rejects_malformed_text() {
    assert_eq!(parse_disclosure_id("not bech32 at all"), Err(IdParseError::Bech32));
    assert_eq!(parse_disclosure_id(""), Err(IdParseError::Bech32));
}

#[test]
fn distinct_digests_render_distinctly() {
    let a = DisclosureId { digest: vec![1u8; 32] };
    let b = DisclosureId { digest: vec![2u8; 32] };
    assert_ne!(a.to_text(), b.to_text());
    assert_eq!(parse_disclosure_id(&a.to_text()), Ok(a));
    assert_eq!(parse_disclosure_id(&b.to_text()), Ok(b));
}
