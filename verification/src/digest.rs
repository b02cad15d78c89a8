//! Domain-tagged hash identifiers.
//!
//! Both identifier kinds are 256-bit digests of SHA-256 resumed from a fixed
//! midstate, one midstate per domain tag, so that equal messages hashed under
//! the two domains are cryptographically unrelated.  The disclosure
//! identifier additionally renders to and parses from a bech32m string with
//! the human-readable prefix `id`.

use vstd::prelude::*;

use bech32::{FromBase32, ToBase32, Variant};
use bitcoin::hashes::{sha256, HashEngine};

verus! {

/// Midstate of SHA-256 after absorbing `sha256(t) || sha256(t)` for the
/// domain tag `t = "rgb:disclosure"`.
pub const MIDSTATE_DISCLOSURE_ID: [u8; 32] = [230, 128, 38, 245, 29, 214, 250, 240, 128, 2, 99,
    77, 116, 110, 36, 100, 173, 187, 58, 179, 73, 121, 157, 241, 96, 84, 44, 86, 141, 48, 95, 119];

/// Midstate of SHA-256 after absorbing `sha256(t) || sha256(t)` for the
/// domain tag `t = "rgb:disclosure:sighash"`.
pub const MIDSTATE_DISCLOSURE_SIG_HASH: [u8; 32] = [140, 213, 168, 56, 70, 106, 191, 1, 83, 233,
    1, 100, 218, 177, 13, 8, 222, 50, 200, 107, 105, 5, 58, 80, 37, 77, 178, 238, 18, 252, 96, 98];

/// Tag of the [`DisclosureId`] hash domain.
pub struct DisclosureIdTag;

impl DisclosureIdTag {
    /// The domain's fixed midstate.
    pub fn midstate() -> (r: [u8; 32])
        ensures
            r@ == MIDSTATE_DISCLOSURE_ID@,
    {
        MIDSTATE_DISCLOSURE_ID
    }
}

/// Tag of the [`SigHash`] hash domain.
pub struct SigHashTag;

impl SigHashTag {
    /// The domain's fixed midstate.
    pub fn midstate() -> (r: [u8; 32])
        ensures
            r@ == MIDSTATE_DISCLOSURE_SIG_HASH@,
    {
        MIDSTATE_DISCLOSURE_SIG_HASH
    }
}

/// The SHA-256 digest of `msg` when the compression run is resumed from
/// `midstate` with 64 bytes already counted.
pub uninterp spec fn tagged_sha256(midstate: Seq<u8>, msg: Seq<u8>) -> Seq<u8>;

/// The plain SHA-256 digest of `msg`.
pub uninterp spec fn sha256_digest(msg: Seq<u8>) -> Seq<u8>;

/// The bech32m rendering of `data` under the human-readable prefix `id`.
pub uninterp spec fn id_text_of(data: Seq<u8>) -> Seq<char>;

/// Relies on bitcoin's sha256: `HashEngine::from_midstate` resumes the
/// compression function from the given 32-byte state, `input` absorbs the
/// message and `Hash::from_engine` pads and finalizes; the digest is a
/// function of the midstate and the message alone.
#[verifier::external_body]
pub fn tagged_hash(midstate: &[u8; 32], msg: &Vec<u8>) -> (r: Vec<u8>)
    ensures
        r@ == tagged_sha256(midstate@, msg@),
        r@.len() == 32,
{
    let mut engine = sha256::HashEngine::from_midstate(sha256::Midstate::from_inner(*midstate), 64);
    engine.input(msg.as_slice());
    let h = <sha256::Hash as bitcoin::hashes::Hash>::from_engine(engine);
    bitcoin::hashes::Hash::into_inner(h).to_vec()
}

/// Relies on bitcoin's sha256: `Hash::hash` is the plain SHA-256 digest of
/// the input bytes alone.
#[verifier::external_body]
pub fn sha256_bytes(msg: &Vec<u8>) -> (r: Vec<u8>)
    ensures
        r@ == sha256_digest(msg@),
        r@.len() == 32,
{
    let h = <sha256::Hash as bitcoin::hashes::Hash>::hash(msg.as_slice());
    bitcoin::hashes::Hash::into_inner(h).to_vec()
}

/// Relies on bech32::encode with the fixed valid prefix `id` and variant
/// Bech32m: the rendering is a function of the data alone.
#[verifier::external_body]
fn id_bech32_encode(data: &Vec<u8>) -> (r: String)
    ensures
        r@ == id_text_of(data@),
{
    bech32::encode("id", data.to_base32(), Variant::Bech32m).unwrap_or_default()
}

#[verifier::external_type_specification]
#[verifier::external_body]
pub struct ExBech32Error(bech32::Error);

/// Relies on bech32::decode and `Vec::<u8>::from_base32`: decoding a string
/// produced by bech32::encode under prefix `id` and variant Bech32m returns
/// that prefix, the original data bytes and the Bech32m marker.
#[verifier::external_body]
fn id_bech32_decode(s: &str) -> (r: Result<(String, Vec<u8>, bool), bech32::Error>)
    ensures
        (match r {
            Result::Ok(t) => forall|d: Seq<u8>|
                s@ == #[trigger] id_text_of(d) ==> t.0@ == "id"@ && t.1@ == d && t.2 == true,
            Result::Err(_) => forall|d: Seq<u8>| s@ != #[trigger] id_text_of(d),
        }),
{
    let (hrp, data, variant) = bech32::decode(s)?;
    let bytes = Vec::<u8>::from_base32(&data)?;
    Ok((hrp, bytes, matches!(variant, Variant::Bech32m)))
}

/// Unique disclosure identifier: the commitment hash of the aggregate.
#[derive(Clone, PartialEq, Eq, Debug)]
pub struct DisclosureId {
    pub digest: Vec<u8>,
}

impl View for DisclosureId {
    type V = Seq<u8>;

    open spec fn view(&self) -> Seq<u8> {
        self.digest@
    }
}

/// The digest a signer commits to: commitment plus comment hash.
#[derive(Clone, PartialEq, Eq, Debug)]
pub struct SigHash {
    pub digest: Vec<u8>,
}

impl View for SigHash {
    type V = Seq<u8>;

    open spec fn view(&self) -> Seq<u8> {
        self.digest@
    }
}

/// Why a disclosure identifier failed to parse from text.
#[derive(Clone, Copy, PartialEq, Eq, Debug)]
pub enum IdParseError {
    /// Not a well-formed bech32 string.
    Bech32,
    /// The human-readable prefix is not `id`.
    WrongPrefix,
    /// The string is bech32 but not bech32m.
    WrongVariant,
    /// The payload is not exactly 32 bytes.
    WrongLength,
    /// Decodable, but not the canonical rendering of its own payload
    /// (an upper-case or mixed-case spelling, for instance).
    NotCanonical,
}

impl DisclosureId {
    /// A 256-bit digest.
    pub open spec fn wf(self) -> bool {
        self.digest@.len() == 32
    }

    /// Render as a bech32m string with prefix `id`.
    pub fn to_text(&self) -> (r: String)
        ensures
            r@ == id_text_of(self@),
    {
        id_bech32_encode(&self.digest)
    }
}

/// Parse a disclosure identifier from its textual form.  Parsing is strict:
/// a string is accepted exactly when it is the canonical rendering of a
/// 256-bit digest, which the body checks by re-encoding what it decoded.
pub fn parse_disclosure_id(s: &str) -> (r: Result<DisclosureId, IdParseError>)
    ensures
        forall|d: Seq<u8>|
            d.len() == 32 && s@ == #[trigger] id_text_of(d) ==> (r matches Ok(v) && v@ == d),
        (r matches Ok(v) ==> v.wf() && s@ == id_text_of(v@)),
        (r matches Err(_) ==> forall|d: Seq<u8>|
            d.len() == 32 ==> s@ != #[trigger] id_text_of(d)),
{
    match id_bech32_decode(s) {
        Err(_) => Err(IdParseError::Bech32),
        Ok((hrp, bytes, is_m)) => {
            let expected: String = "id".to_owned();
            if hrp != expected {
                Err(IdParseError::WrongPrefix)
            } else if !is_m {
                Err(IdParseError::WrongVariant)
            } else if bytes.len() != 32 {
                Err(IdParseError::WrongLength)
            } else {
                let reencoded = id_bech32_encode(&bytes);
                let owned: String = s.to_owned();
                if reencoded != owned {
                    Err(IdParseError::NotCanonical)
                } else {
                    Ok(DisclosureId { digest: bytes })
                }
            }
        },
    }
}

/// Law: rendering a well-formed identifier to text and parsing the text back
/// returns the identifier's digest unchanged.
pub fn id_text_round_trip(id: &DisclosureId) -> (r: DisclosureId)
    requires
        id.wf(),
    ensures
        r@ == id@,
{
    let s = id.to_text();
    match parse_disclosure_id(s.as_str()) {
        Ok(v) => v,
        Err(_) => {
            proof {
                assert(false);
            }
            vstd::pervasive::unreached()
        },
    }
}

} // verus!
