//! The disclosure aggregate.
//!
//! A `Disclosure` collects partial knowledge about anchored transition
//! bundles and state extensions, keyed canonically, together with an optional
//! comment and third-party signatures.  Its identifier is the domain-tagged
//! hash of a deterministic commitment encoding covering exactly `version`,
//! `anchored_bundles` and `extensions`; the sign-hash additionally commits to
//! the comment.  Every content mutation clears the signature map; the
//! signature operations themselves touch nothing else.

use vstd::prelude::*;

use vstd::string::StrSliceExecFns;

use crate::bytes::copy_bytes;
use crate::digest::{sha256_digest, sha256_bytes, tagged_hash, tagged_sha256, DisclosureId,
    SigHash, MIDSTATE_DISCLOSURE_ID, MIDSTATE_DISCLOSURE_SIG_HASH};
use crate::encode::{cat, count_sum, enc_bytes, enc_list, enc_u8, lemma_cat_pointwise,
    lemma_cat_step, lemma_count_bound, lemma_count_step, lemma_take_all, push_bytes, push_u16,
    push_u8};
use crate::ordmap::{key_at, lemma_map_of_index, lemma_sorted_canonical, lemma_sorted_distinct,
    OrdMap};
use crate::stash::{anchor_wf, bundle_wf, enc_anchor, enc_bundle, enc_extension, extension_wf,
    push_anchor, push_bundle, push_extension, Anchor, Extension, TransitionBundle};

verus! {

/// Encoding version in use for new disclosures.
pub const RGB_DISCLOSURE_VERSION: u16 = 0;

/// Per-contract bundle maps are well formed and fit the 16-bit counters of
/// the encoding.
pub open spec fn inner_map_wf(m: OrdMap<TransitionBundle>) -> bool {
    &&& m.wf()
    &&& m.spec_len() < 65536
    &&& forall|j: int| 0 <= j < m.entries@.len() ==> #[trigger] key_at(m.entries@, j).len() < 65536
    &&& forall|j: int| 0 <= j < m.entries@.len() ==> bundle_wf((#[trigger] m.entries@[j]).1)
}

/// An anchored-bundle entry: keyed by the anchor's own identifier.
pub open spec fn anchored_entry_wf(e: (Vec<u8>, (Anchor, OrdMap<TransitionBundle>))) -> bool {
    &&& e.0@.len() < 65536
    &&& anchor_wf(e.1.0)
    &&& e.1.0.anchor_id@ == e.0@
    &&& inner_map_wf(e.1.1)
}

pub open spec fn ext_entry_wf(e: (Vec<u8>, Vec<Extension>)) -> bool {
    &&& e.0@.len() < 65536
    &&& e.1@.len() < 65536
    &&& forall|j: int| 0 <= j < e.1@.len() ==> extension_wf(#[trigger] e.1@[j])
}

/// The aggregate root.
#[derive(Clone, PartialEq, Eq, Debug)]
pub struct Disclosure {
    /// Encoding version; not consensus critical.
    pub version: u8,
    /// Transition bundles keyed by anchor identifier, then by contract
    /// identifier.
    pub anchored_bundles: OrdMap<(Anchor, OrdMap<TransitionBundle>)>,
    /// State extensions keyed by contract identifier, in insertion order
    /// within each contract.
    pub extensions: OrdMap<Vec<Extension>>,
    /// Optional human-readable comment; excluded from the commitment,
    /// included in the sign-hash.
    pub comment: Option<String>,
    /// Third-party signatures: public key bytes to signature bytes.
    pub signatures: OrdMap<Vec<u8>>,
}

impl Disclosure {
    /// Well-formed: canonical maps, consistent anchor keys, every counter in
    /// 16-bit range.
    pub open spec fn wf(self) -> bool {
        &&& self.anchored_bundles.wf()
        &&& self.anchored_bundles.spec_len() < 65536
        &&& forall|i: int|
            0 <= i < self.anchored_bundles.entries@.len() ==> anchored_entry_wf(
                #[trigger] self.anchored_bundles.entries@[i],
            )
        &&& self.extensions.wf()
        &&& self.extensions.spec_len() < 65536
        &&& forall|i: int|
            0 <= i < self.extensions.entries@.len() ==> ext_entry_wf(
                #[trigger] self.extensions.entries@[i],
            )
        &&& self.signatures.wf()
    }
}

// --- commitment encoding ---------------------------------------------------

pub open spec fn enc_inner_entry(e: (Vec<u8>, TransitionBundle)) -> Seq<u8> {
    enc_bytes(e.0@) + enc_bundle(e.1)
}

pub open spec fn enc_anchored_entry(e: (Vec<u8>, (Anchor, OrdMap<TransitionBundle>))) -> Seq<u8> {
    enc_bytes(e.0@) + enc_anchor(e.1.0) + enc_list(
        e.1.1.entries@,
        |ie: (Vec<u8>, TransitionBundle)| enc_inner_entry(ie),
    )
}

pub open spec fn enc_ext_entry(e: (Vec<u8>, Vec<Extension>)) -> Seq<u8> {
    enc_bytes(e.0@) + enc_list(e.1@, |x: Extension| enc_extension(x))
}

/// The commitment preimage: `version`, the anchored bundles and the
/// extensions, in canonical key order — never the comment or the signatures.
pub open spec fn commit_encoding(d: Disclosure) -> Seq<u8> {
    enc_u8(d.version) + enc_list(
        d.anchored_bundles.entries@,
        |e: (Vec<u8>, (Anchor, OrdMap<TransitionBundle>))| enc_anchored_entry(e),
    ) + enc_list(d.extensions.entries@, |e: (Vec<u8>, Vec<Extension>)| enc_ext_entry(e))
}

/// The disclosure identifier: the commitment encoding hashed under the
/// `rgb:disclosure` domain tag.
pub open spec fn spec_disclosure_id(d: Disclosure) -> Seq<u8> {
    tagged_sha256(MIDSTATE_DISCLOSURE_ID@, commit_encoding(d))
}

/// The sign-hash preimage: the commitment encoding, then — when a comment is
/// present — the SHA-256 digest of the comment's UTF-8 bytes.
pub open spec fn sig_preimage(d: Disclosure) -> Seq<u8> {
    commit_encoding(d) + match d.comment {
        Option::None => Seq::<u8>::empty(),
        Option::Some(c) => sha256_digest(vstd::utf8::encode_utf8(c@)),
    }
}

/// The digest a signer commits to, under the `rgb:disclosure:sighash` tag.
pub open spec fn spec_sig_hash(d: Disclosure) -> Seq<u8> {
    tagged_sha256(MIDSTATE_DISCLOSURE_SIG_HASH@, sig_preimage(d))
}

impl Disclosure {
    /// An empty disclosure: version 0, no bundles, no extensions, no
    /// comment, no signatures.
    pub fn new() -> (r: Disclosure)
        ensures
            r.wf(),
            r.version == 0,
            r.anchored_bundles.spec_len() == 0,
            r.extensions.spec_len() == 0,
            r.comment is None,
            r.signatures.spec_len() == 0,
            r.anchored_bundles.as_map() == Map::<Seq<u8>, (Anchor, OrdMap<TransitionBundle>)>::empty(),
            r.extensions.as_map() == Map::<Seq<u8>, Vec<Extension>>::empty(),
    {
        Disclosure {
            version: 0,
            anchored_bundles: OrdMap::new(),
            extensions: OrdMap::new(),
            comment: None,
            signatures: OrdMap::new(),
        }
    }

    /// Serialize the commitment preimage.
    pub fn commit_serialize(&self) -> (out: Vec<u8>)
        requires
            self.wf(),
        ensures
            out@ == commit_encoding(*self),
    {
        let ghost fa = |e: (Vec<u8>, (Anchor, OrdMap<TransitionBundle>))| enc_anchored_entry(e);
        let ghost fi = |ie: (Vec<u8>, TransitionBundle)| enc_inner_entry(ie);
        let ghost fe = |e: (Vec<u8>, Vec<Extension>)| enc_ext_entry(e);
        let ghost fx = |x: Extension| enc_extension(x);
        let mut out: Vec<u8> = Vec::new();
        push_u8(&mut out, self.version);
        let n = self.anchored_bundles.entries.len();
        push_u16(&mut out, n as u16);
        let ghost mid = out@;
        let mut i: usize = 0;
        while i < n
            invariant
                self.wf(),
                n == self.anchored_bundles.entries@.len(),
                0 <= i <= n,
                fa == (|e: (Vec<u8>, (Anchor, OrdMap<TransitionBundle>))| enc_anchored_entry(e)),
                fi == (|ie: (Vec<u8>, TransitionBundle)| enc_inner_entry(ie)),
                out@ == mid + cat(self.anchored_bundles.entries@.take(i as int), fa),
            decreases n - i,
        {
            proof {
                assert(anchored_entry_wf(self.anchored_bundles.entries@[i as int]));
            }
            let ghost head = out@;
            push_bytes(&mut out, &self.anchored_bundles.entries[i].0);
            push_anchor(&mut out, &self.anchored_bundles.entries[i].1.0);
            let m2 = self.anchored_bundles.entries[i].1.1.entries.len();
            push_u16(&mut out, m2 as u16);
            let ghost mid2 = out@;
            let ghost inner = self.anchored_bundles.entries@[i as int].1.1.entries@;
            let mut j: usize = 0;
            while j < m2
                invariant
                    self.wf(),
                    i < self.anchored_bundles.entries@.len(),
                    inner == self.anchored_bundles.entries@[i as int].1.1.entries@,
                    inner_map_wf(self.anchored_bundles.entries@[i as int].1.1),
                    m2 == inner.len(),
                    0 <= j <= m2,
                    fi == (|ie: (Vec<u8>, TransitionBundle)| enc_inner_entry(ie)),
                    out@ == mid2 + cat(inner.take(j as int), fi),
                decreases m2 - j,
            {
                proof {
                    assert(key_at(inner, j as int).len() < 65536);
                    assert(bundle_wf(inner[j as int].1));
                }
                push_bytes(&mut out, &self.anchored_bundles.entries[i].1.1.entries[j].0);
                push_bundle(&mut out, &self.anchored_bundles.entries[i].1.1.entries[j].1);
                proof {
                    lemma_cat_step(inner, fi, j as int);
                    assert(out@ =~= mid2 + cat(inner.take(j + 1), fi));
                }
                j = j + 1;
            }
            proof {
                lemma_take_all(inner);
                lemma_cat_step(self.anchored_bundles.entries@, fa, i as int);
                assert(out@ =~= mid + cat(self.anchored_bundles.entries@.take(i + 1), fa));
            }
            i = i + 1;
        }
        proof {
            lemma_take_all(self.anchored_bundles.entries@);
        }
        let ne = self.extensions.entries.len();
        push_u16(&mut out, ne as u16);
        let ghost mide = out@;
        let mut i2: usize = 0;
        while i2 < ne
            invariant
                self.wf(),
                ne == self.extensions.entries@.len(),
                0 <= i2 <= ne,
                fe == (|e: (Vec<u8>, Vec<Extension>)| enc_ext_entry(e)),
                fx == (|x: Extension| enc_extension(x)),
                out@ == mide + cat(self.extensions.entries@.take(i2 as int), fe),
            decreases ne - i2,
        {
            proof {
                assert(ext_entry_wf(self.extensions.entries@[i2 as int]));
            }
            push_bytes(&mut out, &self.extensions.entries[i2].0);
            let m3 = self.extensions.entries[i2].1.len();
            push_u16(&mut out, m3 as u16);
            let ghost mid3 = out@;
            let ghost xs = self.extensions.entries@[i2 as int].1@;
            let mut j2: usize = 0;
            while j2 < m3
                invariant
                    self.wf(),
                    i2 < self.extensions.entries@.len(),
                    xs == self.extensions.entries@[i2 as int].1@,
                    ext_entry_wf(self.extensions.entries@[i2 as int]),
                    m3 == xs.len(),
                    0 <= j2 <= m3,
                    fx == (|x: Extension| enc_extension(x)),
                    out@ == mid3 + cat(xs.take(j2 as int), fx),
                decreases m3 - j2,
            {
                proof {
                    assert(extension_wf(xs[j2 as int]));
                }
                push_extension(&mut out, &self.extensions.entries[i2].1[j2]);
                proof {
                    lemma_cat_step(xs, fx, j2 as int);
                    assert(out@ =~= mid3 + cat(xs.take(j2 + 1), fx));
                }
                j2 = j2 + 1;
            }
            proof {
                lemma_take_all(xs);
                lemma_cat_step(self.extensions.entries@, fe, i2 as int);
                assert(out@ =~= mide + cat(self.extensions.entries@.take(i2 + 1), fe));
            }
            i2 = i2 + 1;
        }
        proof {
            lemma_take_all(self.extensions.entries@);
            assert(out@ =~= commit_encoding(*self));
        }
        out
    }

    /// Compute the disclosure identifier from the current content.
    pub fn disclosure_id(&self) -> (r: DisclosureId)
        requires
            self.wf(),
        ensures
            r@ == spec_disclosure_id(*self),
            r.wf(),
    {
        let bytes = self.commit_serialize();
        let mid = crate::digest::DisclosureIdTag::midstate();
        let digest = tagged_hash(&mid, &bytes);
        DisclosureId { digest }
    }

    /// Compute the digest a signer must sign: the commitment plus, when a
    /// comment is present, the comment's own SHA-256 digest.
    pub fn sig_hash(&self) -> (r: SigHash)
        requires
            self.wf(),
        ensures
            r@ == spec_sig_hash(*self),
            r@.len() == 32,
    {
        let mut msg = self.commit_serialize();
        match &self.comment {
            None => {},
            Some(c) => {
                let cb = c.as_str().as_bytes_vec();
                let mut h = sha256_bytes(&cb);
                msg.append(&mut h);
                proof {
                    assert(msg@ =~= sig_preimage(*self));
                }
            },
        }
        let mid = crate::digest::SigHashTag::midstate();
        let digest = tagged_hash(&mid, &msg);
        proof {
            if self.comment is None {
                assert(msg@ =~= sig_preimage(*self));
            }
        }
        SigHash { digest }
    }

    /// Set the comment, clearing all signatures; reports whether a comment
    /// was present before.
    pub fn change_comment(&mut self, comment: String) -> (had: bool)
        requires
            old(self).wf(),
        ensures
            final(self).wf(),
            final(self).version == old(self).version,
            final(self).anchored_bundles == old(self).anchored_bundles,
            final(self).extensions == old(self).extensions,
            final(self).comment == Some(comment),
            final(self).signatures.spec_len() == 0,
            had == (old(self).comment is Some),
    {
        self.signatures.clear();
        let had_comment = self.comment.is_some();
        self.comment = Some(comment);
        had_comment
    }

    /// Drop the comment, clearing all signatures; reports whether a comment
    /// was present before.
    pub fn remove_comment(&mut self) -> (had: bool)
        requires
            old(self).wf(),
        ensures
            final(self).wf(),
            final(self).version == old(self).version,
            final(self).anchored_bundles == old(self).anchored_bundles,
            final(self).extensions == old(self).extensions,
            final(self).comment is None,
            final(self).signatures.spec_len() == 0,
            had == (old(self).comment is Some),
    {
        self.signatures.clear();
        let had_comment = self.comment.is_some();
        self.comment = None;
        had_comment
    }

    /// Record a signature under a public key, returning the signature that
    /// key carried before, if any.  No other field is touched and no other
    /// signature entry is altered.
    pub fn add_signature(&mut self, pubkey: Vec<u8>, signature: Vec<u8>) -> (prev: Option<
        Vec<u8>,
    >)
        requires
            old(self).wf(),
        ensures
            final(self).wf(),
            final(self).version == old(self).version,
            final(self).anchored_bundles == old(self).anchored_bundles,
            final(self).extensions == old(self).extensions,
            final(self).comment == old(self).comment,
            final(self).signatures.as_map() == old(self).signatures.as_map().insert(
                pubkey@,
                signature,
            ),
            match prev {
                Option::Some(w) => old(self).signatures.as_map().contains_key(pubkey@) && w == old(
                    self,
                ).signatures.as_map()[pubkey@],
                Option::None => !old(self).signatures.as_map().contains_key(pubkey@),
            },
    {
        self.signatures.insert(pubkey, signature)
    }

    /// Remove the signature under a public key, returning it if present.  No
    /// other field is touched and no other signature entry is altered.
    pub fn remove_signature(&mut self, pubkey: Vec<u8>) -> (prev: Option<Vec<u8>>)
        requires
            old(self).wf(),
        ensures
            final(self).wf(),
            final(self).version == old(self).version,
            final(self).anchored_bundles == old(self).anchored_bundles,
            final(self).extensions == old(self).extensions,
            final(self).comment == old(self).comment,
            final(self).signatures.as_map() == old(self).signatures.as_map().remove(pubkey@),
            match prev {
                Option::Some(w) => old(self).signatures.as_map().contains_key(pubkey@) && w == old(
                    self,
                ).signatures.as_map()[pubkey@],
                Option::None => !old(self).signatures.as_map().contains_key(pubkey@),
            },
    {
        self.signatures.remove(&pubkey)
    }

    /// Clear all signatures, returning how many were removed.
    pub fn empty_signatures(&mut self) -> (n: usize)
        requires
            old(self).wf(),
        ensures
            final(self).wf(),
            final(self).version == old(self).version,
            final(self).anchored_bundles == old(self).anchored_bundles,
            final(self).extensions == old(self).extensions,
            final(self).comment == old(self).comment,
            final(self).signatures.spec_len() == 0,
            n == old(self).signatures.spec_len(),
    {
        let n = self.signatures.len();
        self.signatures.clear();
        n
    }
}

// --- mutation: inserts -----------------------------------------------------

/// Bundle maps whose union the merged entry must carry stay inside the
/// 16-bit counters; their contents stay well formed.
proof fn lemma_inner_map_wf_union(
    t: OrdMap<TransitionBundle>,
    a: OrdMap<TransitionBundle>,
    b: OrdMap<TransitionBundle>,
)
    requires
        t.wf(),
        t.spec_len() < 65536,
        inner_map_wf(a),
        inner_map_wf(b),
        t.as_map() == a.as_map().union_prefer_right(b.as_map()),
    ensures
        inner_map_wf(t),
{
    assert forall|j: int| 0 <= j < t.entries@.len() implies #[trigger] key_at(
        t.entries@,
        j,
    ).len() < 65536 by {
        lemma_inner_value_wf(t, a, b, j);
    }
    assert forall|j: int| 0 <= j < t.entries@.len() implies bundle_wf(
        (#[trigger] t.entries@[j]).1,
    ) by {
        lemma_inner_value_wf(t, a, b, j);
    }
}

/// The entry at `j` of a union table has a short key and a well-formed
/// bundle, both inherited from whichever source table supplied it.
proof fn lemma_inner_value_wf(
    t: OrdMap<TransitionBundle>,
    a: OrdMap<TransitionBundle>,
    b: OrdMap<TransitionBundle>,
    j: int,
)
    requires
        t.wf(),
        inner_map_wf(a),
        inner_map_wf(b),
        t.as_map() == a.as_map().union_prefer_right(b.as_map()),
        0 <= j < t.entries@.len(),
    ensures
        key_at(t.entries@, j).len() < 65536,
        bundle_wf(t.entries@[j].1),
{
    let k = key_at(t.entries@, j);
    lemma_sorted_distinct(t.entries@);
    lemma_map_of_index(t.entries@, j);
    if b.as_map().contains_key(k) {
        crate::ordmap::lemma_as_map_index(b.entries@, k);
        let w = choose|w: int|
            0 <= w < b.entries@.len() && #[trigger] key_at(b.entries@, w) == k && b.entries@[w].1
                == b.as_map()[k];
        assert(key_at(b.entries@, w).len() < 65536);
        assert(bundle_wf(b.entries@[w].1));
    } else {
        assert(a.as_map().contains_key(k));
        crate::ordmap::lemma_as_map_index(a.entries@, k);
        let w = choose|w: int|
            0 <= w < a.entries@.len() && #[trigger] key_at(a.entries@, w) == k && a.entries@[w].1
                == a.as_map()[k];
        assert(key_at(a.entries@, w).len() < 65536);
        assert(bundle_wf(a.entries@[w].1));
    }
}

impl Disclosure {
    /// Insert transition bundles under an anchor, clearing all signatures
    /// first.  A first entry for the anchor's identifier is stored as given;
    /// a second one merges: the anchors merge-reveal into one revealing the
    /// union, and colliding contract keys take the newly supplied bundle.
    pub fn insert_anchored_bundles(
        &mut self,
        anchor: Anchor,
        bundles: OrdMap<TransitionBundle>,
    )
        requires
            old(self).wf(),
            anchor_wf(anchor),
            inner_map_wf(bundles),
            old(self).anchored_bundles.spec_len() < 65535,
            old(self).anchored_bundles.as_map().contains_key(anchor.anchor_id@) ==> old(
                self,
            ).anchored_bundles.as_map()[anchor.anchor_id@].0.proof.spec_len()
                + anchor.proof.spec_len() < 65536,
            old(self).anchored_bundles.as_map().contains_key(anchor.anchor_id@) ==> old(
                self,
            ).anchored_bundles.as_map()[anchor.anchor_id@].1.spec_len() + bundles.spec_len()
                < 65536,
        ensures
            final(self).wf(),
            final(self).version == old(self).version,
            final(self).extensions == old(self).extensions,
            final(self).comment == old(self).comment,
            final(self).signatures.spec_len() == 0,
            final(self).anchored_bundles.spec_len() == old(self).anchored_bundles.spec_len()
                + if old(self).anchored_bundles.as_map().contains_key(anchor.anchor_id@) {
                0int
            } else {
                1int
            },
            final(self).anchored_bundles.as_map().remove(anchor.anchor_id@) == old(
                self,
            ).anchored_bundles.as_map().remove(anchor.anchor_id@),
            final(self).anchored_bundles.as_map().contains_key(anchor.anchor_id@),
            final(self).anchored_bundles.as_map()[anchor.anchor_id@].0.anchor_id@
                == anchor.anchor_id@,
            final(self).anchored_bundles.as_map()[anchor.anchor_id@].0.proof.as_map() == if old(
                self,
            ).anchored_bundles.as_map().contains_key(anchor.anchor_id@) {
                crate::stash::proof_union(
                    old(self).anchored_bundles.as_map()[anchor.anchor_id@].0.proof.as_map(),
                    anchor.proof.as_map(),
                )
            } else {
                anchor.proof.as_map()
            },
            final(self).anchored_bundles.as_map()[anchor.anchor_id@].1.as_map() == if old(
                self,
            ).anchored_bundles.as_map().contains_key(anchor.anchor_id@) {
                old(self).anchored_bundles.as_map()[anchor.anchor_id@].1.as_map()
                    .union_prefer_right(bundles.as_map())
            } else {
                bundles.as_map()
            },
    {
        self.signatures.clear();
        let ghost id = anchor.anchor_id@;
        let id_key = copy_bytes(&anchor.anchor_id);
        let prev = self.anchored_bundles.remove(&id_key);
        match prev {
            Some(p) => {
                let (mut a, mut t) = p;
                proof {
                    crate::ordmap::lemma_as_map_index(old(self).anchored_bundles.entries@, id);
                    let w = choose|w: int|
                        0 <= w < old(self).anchored_bundles.entries@.len() && #[trigger] key_at(
                            old(self).anchored_bundles.entries@,
                            w,
                        ) == id && old(self).anchored_bundles.entries@[w].1 == old(
                            self,
                        ).anchored_bundles.as_map()[id];
                    assert(anchored_entry_wf(old(self).anchored_bundles.entries@[w]));
                }
                crate::stash::anchor_merge_reveal(&mut a, anchor);
                t.extend(bundles);
                proof {
                    lemma_inner_map_wf_union(
                        t,
                        old(self).anchored_bundles.as_map()[id].1,
                        bundles,
                    );
                }
                let ghost newpair = (a, t);
                self.anchored_bundles.insert(id_key, (a, t));
                proof {
                    Self::lemma_bundles_entries_wf(*self, *old(self), id, newpair);
                    assert(bundles_frame_outside(*self, *old(self), id));
                }
            },
            None => {
                let ghost newpair = (anchor, bundles);
                self.anchored_bundles.insert(id_key, (anchor, bundles));
                proof {
                    Self::lemma_bundles_entries_wf(*self, *old(self), id, newpair);
                    assert(bundles_frame_outside(*self, *old(self), id));
                }
            },
        }
    }

    /// After removing and re-inserting the key `id`, every entry of the new
    /// bundle table is well formed: the entry under `id` was checked
    /// directly, every other entry is one of the old table.
    proof fn lemma_bundles_entries_wf(
        cur: Disclosure,
        prev: Disclosure,
        id: Seq<u8>,
        newpair: (Anchor, OrdMap<TransitionBundle>),
    )
        requires
            prev.wf(),
            cur.anchored_bundles.wf(),
            cur.anchored_bundles.as_map() == prev.anchored_bundles.as_map().remove(id).insert(
                id,
                newpair,
            ),
            anchor_wf(newpair.0),
            newpair.0.anchor_id@ == id,
            id.len() < 65536,
            inner_map_wf(newpair.1),
        ensures
            forall|i: int|
                0 <= i < cur.anchored_bundles.entries@.len() ==> anchored_entry_wf(
                    #[trigger] cur.anchored_bundles.entries@[i],
                ),
    {
        assert forall|i: int|
            0 <= i < cur.anchored_bundles.entries@.len() implies anchored_entry_wf(
            #[trigger] cur.anchored_bundles.entries@[i],
        ) by {
            let k = key_at(cur.anchored_bundles.entries@, i);
            lemma_sorted_distinct(cur.anchored_bundles.entries@);
            lemma_map_of_index(cur.anchored_bundles.entries@, i);
            if k == id {
                assert(cur.anchored_bundles.entries@[i].1 == newpair);
            } else {
                assert(prev.anchored_bundles.as_map().contains_key(k));
                crate::ordmap::lemma_as_map_index(prev.anchored_bundles.entries@, k);
                let w = choose|w: int|
                    0 <= w < prev.anchored_bundles.entries@.len() && #[trigger] key_at(
                        prev.anchored_bundles.entries@,
                        w,
                    ) == k && prev.anchored_bundles.entries@[w].1 == prev.anchored_bundles.as_map()[
                        k
                    ];
                assert(anchored_entry_wf(prev.anchored_bundles.entries@[w]));
            }
        }
    }

    /// Append extensions under a contract identifier (creating the entry if
    /// absent), clearing all signatures first.
    pub fn insert_extensions(&mut self, contract_id: Vec<u8>, extensions: Vec<Extension>)
        requires
            old(self).wf(),
            contract_id@.len() < 65536,
            extensions@.len() < 65536,
            forall|i: int| 0 <= i < extensions@.len() ==> extension_wf(#[trigger] extensions@[i]),
            old(self).extensions.spec_len() < 65535,
            old(self).extensions.as_map().contains_key(contract_id@) ==> old(
                self,
            ).extensions.as_map()[contract_id@]@.len() + extensions@.len() < 65536,
        ensures
            final(self).wf(),
            final(self).version == old(self).version,
            final(self).anchored_bundles == old(self).anchored_bundles,
            final(self).comment == old(self).comment,
            final(self).signatures.spec_len() == 0,
            final(self).extensions.spec_len() == old(self).extensions.spec_len() + if old(
                self,
            ).extensions.as_map().contains_key(contract_id@) {
                0int
            } else {
                1int
            },
            final(self).extensions.as_map().remove(contract_id@) == old(
                self,
            ).extensions.as_map().remove(contract_id@),
            final(self).extensions.as_map().contains_key(contract_id@),
            final(self).extensions.as_map()[contract_id@]@ == (if old(
                self,
            ).extensions.as_map().contains_key(contract_id@) {
                old(self).extensions.as_map()[contract_id@]@
            } else {
                Seq::<Extension>::empty()
            }) + extensions@,
    {
        self.signatures.clear();
        let ghost cid = contract_id@;
        let prev = self.extensions.remove(&contract_id);
        let ghost had = old(self).extensions.as_map().contains_key(cid);
        let mut list = match prev {
            Some(l) => l,
            None => Vec::new(),
        };
        let mut exts = extensions;
        list.append(&mut exts);
        let ghost newlist = list;
        self.extensions.insert(contract_id, list);
        proof {
            assert(extensions_frame_outside(*self, *old(self), cid));
            if had {
                crate::ordmap::lemma_as_map_index(old(self).extensions.entries@, cid);
                let w = choose|w: int|
                    0 <= w < old(self).extensions.entries@.len() && #[trigger] key_at(
                        old(self).extensions.entries@,
                        w,
                    ) == cid && old(self).extensions.entries@[w].1 == old(
                        self,
                    ).extensions.as_map()[cid];
                assert(ext_entry_wf(old(self).extensions.entries@[w]));
            }
            assert(newlist@ =~= (if had {
                old(self).extensions.as_map()[cid]@
            } else {
                Seq::<Extension>::empty()
            }) + extensions@);
            assert forall|i: int|
                0 <= i < self.extensions.entries@.len() implies ext_entry_wf(
                #[trigger] self.extensions.entries@[i],
            ) by {
                let k = key_at(self.extensions.entries@, i);
                lemma_sorted_distinct(self.extensions.entries@);
                lemma_map_of_index(self.extensions.entries@, i);
                if k == cid {
                    assert(self.extensions.entries@[i].1 == newlist);
                } else {
                    assert(old(self).extensions.as_map().contains_key(k));
                    crate::ordmap::lemma_as_map_index(old(self).extensions.entries@, k);
                    let w = choose|w: int|
                        0 <= w < old(self).extensions.entries@.len() && #[trigger] key_at(
                            old(self).extensions.entries@,
                            w,
                        ) == k && old(self).extensions.entries@[w].1 == old(
                            self,
                        ).extensions.as_map()[k];
                    assert(ext_entry_wf(old(self).extensions.entries@[w]));
                }
            }
        }
    }
}

/// The bundle table, outside the key `id`, is untouched.
pub open spec fn bundles_frame_outside(cur: Disclosure, prev: Disclosure, id: Seq<u8>) -> bool {
    cur.anchored_bundles.as_map().remove(id) =~= prev.anchored_bundles.as_map().remove(id)
}

/// The extension table outside `cid` is untouched.
pub open spec fn extensions_frame_outside(cur: Disclosure, prev: Disclosure, cid: Seq<u8>) -> bool {
    cur.extensions.as_map().remove(cid) =~= prev.extensions.as_map().remove(cid)
}

// --- concealment -----------------------------------------------------------

pub open spec fn conceal_seal_map_count(m: OrdMap<TransitionBundle>, keep: Seq<Vec<u8>>) -> int {
    count_sum(
        m.entries@,
        |e: (Vec<u8>, TransitionBundle)| crate::stash::conceal_seal_bundle_count(e.1, keep),
    )
}

pub open spec fn conceal_state_map_count(m: OrdMap<TransitionBundle>, keep: Seq<Vec<u8>>) -> int {
    count_sum(
        m.entries@,
        |e: (Vec<u8>, TransitionBundle)| crate::stash::conceal_state_bundle_count(e.1, keep),
    )
}

/// Total number of seals that concealing the whole aggregate touches.
pub open spec fn conceal_seal_total(d: Disclosure, keep: Seq<Vec<u8>>) -> int {
    count_sum(
        d.anchored_bundles.entries@,
        |e: (Vec<u8>, (Anchor, OrdMap<TransitionBundle>))| conceal_seal_map_count(e.1.1, keep),
    )
}

pub open spec fn conceal_state_total(d: Disclosure, keep: Seq<Vec<u8>>) -> int {
    count_sum(
        d.anchored_bundles.entries@,
        |e: (Vec<u8>, (Anchor, OrdMap<TransitionBundle>))| conceal_state_map_count(e.1.1, keep),
    )
}

/// Total number of multi-proof leaves that narrowing the whole aggregate
/// conceals.
pub open spec fn conceal_anchor_total(d: Disclosure, keep: Seq<Vec<u8>>) -> int {
    count_sum(
        d.anchored_bundles.entries@,
        |e: (Vec<u8>, (Anchor, OrdMap<TransitionBundle>))| crate::stash::anchor_conceal_count(
            e.1.0,
            keep,
        ),
    )
}

pub open spec fn inner_seals_concealed(
    nm: OrdMap<TransitionBundle>,
    om: OrdMap<TransitionBundle>,
    keep: Seq<Vec<u8>>,
) -> bool {
    &&& nm.entries@.len() == om.entries@.len()
    &&& forall|j: int|
        0 <= j < om.entries@.len() ==> (#[trigger] nm.entries@[j]).0 == om.entries@[j].0
            && crate::stash::bundle_seals_concealed(nm.entries@[j].1, om.entries@[j].1, keep)
}

pub open spec fn inner_state_concealed(
    nm: OrdMap<TransitionBundle>,
    om: OrdMap<TransitionBundle>,
    keep: Seq<Vec<u8>>,
) -> bool {
    &&& nm.entries@.len() == om.entries@.len()
    &&& forall|j: int|
        0 <= j < om.entries@.len() ==> (#[trigger] nm.entries@[j]).0 == om.entries@[j].0
            && crate::stash::bundle_state_concealed(nm.entries@[j].1, om.entries@[j].1, keep)
}

/// The whole bundle table after concealing seals: keys and anchors
/// untouched, every bundle concealed.
pub open spec fn bundles_seals_concealed(
    nm: OrdMap<(Anchor, OrdMap<TransitionBundle>)>,
    om: OrdMap<(Anchor, OrdMap<TransitionBundle>)>,
    keep: Seq<Vec<u8>>,
) -> bool {
    &&& nm.entries@.len() == om.entries@.len()
    &&& forall|i: int|
        0 <= i < om.entries@.len() ==> (#[trigger] nm.entries@[i]).0 == om.entries@[i].0
            && nm.entries@[i].1.0 == om.entries@[i].1.0 && inner_seals_concealed(
            nm.entries@[i].1.1,
            om.entries@[i].1.1,
            keep,
        )
}

pub open spec fn bundles_state_concealed(
    nm: OrdMap<(Anchor, OrdMap<TransitionBundle>)>,
    om: OrdMap<(Anchor, OrdMap<TransitionBundle>)>,
    keep: Seq<Vec<u8>>,
) -> bool {
    &&& nm.entries@.len() == om.entries@.len()
    &&& forall|i: int|
        0 <= i < om.entries@.len() ==> (#[trigger] nm.entries@[i]).0 == om.entries@[i].0
            && nm.entries@[i].1.0 == om.entries@[i].1.0 && inner_state_concealed(
            nm.entries@[i].1.1,
            om.entries@[i].1.1,
            keep,
        )
}

impl Disclosure {
    /// Conceal every revealed seal whose confidential form is not in
    /// `seals`, across all bundles; the count of newly concealed seals comes
    /// back.  Concealment rewrites commitment content, so, as with every
    /// content mutation, all signatures are cleared first.
    pub fn conceal_seals(&mut self, seals: &Vec<Vec<u8>>) -> (n: u64)
        requires
            old(self).wf(),
        ensures
            final(self).wf(),
            final(self).version == old(self).version,
            final(self).extensions == old(self).extensions,
            final(self).comment == old(self).comment,
            final(self).signatures.spec_len() == 0,
            bundles_seals_concealed(
                final(self).anchored_bundles,
                old(self).anchored_bundles,
                seals@,
            ),
            n == conceal_seal_total(*old(self), seals@),
    {
        self.signatures.clear();
        let ghost s0 = self.anchored_bundles.entries@;
        let ghost fo = |e: (Vec<u8>, (Anchor, OrdMap<TransitionBundle>))| conceal_seal_map_count(
            e.1.1,
            seals@,
        );
        let ghost fi = |e: (Vec<u8>, TransitionBundle)| crate::stash::conceal_seal_bundle_count(
            e.1,
            seals@,
        );
        let mut done: Vec<(Vec<u8>, (Anchor, OrdMap<TransitionBundle>))> = Vec::new();
        let mut n: u64 = 0;
        while self.anchored_bundles.entries.len() > 0
            invariant
                old(self).wf(),
                s0 == old(self).anchored_bundles.entries@,
                self.version == old(self).version,
                self.extensions == old(self).extensions,
                self.comment == old(self).comment,
                self.signatures.spec_len() == 0,
                self.signatures.wf(),
                fo == (|e: (Vec<u8>, (Anchor, OrdMap<TransitionBundle>))| conceal_seal_map_count(
                    e.1.1,
                    seals@,
                )),
                fi == (|e: (Vec<u8>, TransitionBundle)| crate::stash::conceal_seal_bundle_count(
                    e.1,
                    seals@,
                )),
                done@.len() + self.anchored_bundles.entries@.len() == s0.len(),
                forall|j: int|
                    0 <= j < done@.len() ==> (#[trigger] done@[j]).0 == s0[j].0 && done@[j].1.0
                        == s0[j].1.0 && inner_seals_concealed(done@[j].1.1, s0[j].1.1, seals@)
                        && anchored_entry_wf(done@[j]),
                forall|j: int|
                    0 <= j < self.anchored_bundles.entries@.len()
                        ==> #[trigger] self.anchored_bundles.entries@[j] == s0[done@.len() + j],
                n == count_sum(s0.take(done@.len() as int), fo),
                0 <= n <= done@.len() * 65535 * 65535 * 65535,
            decreases self.anchored_bundles.entries@.len(),
        {
            let ghost k = done@.len();
            let ghost pv = self.anchored_bundles.entries@;
            let e = self.anchored_bundles.entries.remove(0);
            proof {
                pv.remove_ensures(0);
                assert(e == s0[k as int]);
                assert(anchored_entry_wf(s0[k as int]));
                assert forall|j: int|
                    0 <= j < self.anchored_bundles.entries@.len()
                        implies #[trigger] self.anchored_bundles.entries@[j] == s0[k + 1 + j] by {
                    assert(self.anchored_bundles.entries@[j] == pv[j + 1]);
                }
            }
            let (key, pair) = e;
            let (anchor, mut inner) = pair;
            let ghost is0 = inner.entries@;
            let mut new_inner: Vec<(Vec<u8>, TransitionBundle)> = Vec::new();
            let mut n2: u64 = 0;
            while inner.entries.len() > 0
                invariant
                    inner_map_wf(s0[k as int].1.1),
                    is0 == s0[k as int].1.1.entries@,
                    fi == (
                    |e: (Vec<u8>, TransitionBundle)| crate::stash::conceal_seal_bundle_count(
                        e.1,
                        seals@,
                    )),
                    new_inner@.len() + inner.entries@.len() == is0.len(),
                    forall|j: int|
                        0 <= j < new_inner@.len() ==> (#[trigger] new_inner@[j]).0 == is0[j].0
                            && crate::stash::bundle_seals_concealed(
                            new_inner@[j].1,
                            is0[j].1,
                            seals@,
                        ) && bundle_wf(new_inner@[j].1),
                    forall|j: int|
                        0 <= j < inner.entries@.len() ==> #[trigger] inner.entries@[j] == is0[
                            new_inner@.len() + j
                        ],
                    n2 == count_sum(is0.take(new_inner@.len() as int), fi),
                    0 <= n2 <= new_inner@.len() * 65535 * 65535,
                decreases inner.entries@.len(),
            {
                let ghost k2 = new_inner@.len();
                let ghost ipv = inner.entries@;
                let ie = inner.entries.remove(0);
                proof {
                    ipv.remove_ensures(0);
                    assert(ie == is0[k2 as int]);
                    assert(key_at(is0, k2 as int).len() < 65536);
                    assert(bundle_wf(is0[k2 as int].1));
                    assert forall|j: int|
                        0 <= j < inner.entries@.len() implies #[trigger] inner.entries@[j] == is0[
                        k2 + 1 + j
                    ] by {
                        assert(inner.entries@[j] == ipv[j + 1]);
                    }
                }
                let (k2v, mut bundle) = ie;
                let c = crate::stash::conceal_seals_bundle(&mut bundle, seals);
                proof {
                    assert(c <= 65535int * 65535);
                    lemma_count_step(is0, fi, k2 as int);
                }
                n2 = n2 + c;
                new_inner.push((k2v, bundle));
            }
            proof {
                lemma_take_all(is0);
                lemma_count_step(s0, fo, k as int);
            }
            n = n + n2;
            let new_map = OrdMap { entries: new_inner };
            proof {
                assert forall|p: int, q: int|
                    0 <= p < q < new_map.entries@.len() implies crate::bytes::lex_lt(
                    #[trigger] key_at(new_map.entries@, p),
                    #[trigger] key_at(new_map.entries@, q),
                ) by {
                    assert(key_at(new_map.entries@, p) == key_at(is0, p));
                    assert(key_at(new_map.entries@, q) == key_at(is0, q));
                }
                assert forall|j: int|
                    0 <= j < new_map.entries@.len() implies #[trigger] key_at(
                    new_map.entries@,
                    j,
                ).len() < 65536 by {
                    assert(key_at(new_map.entries@, j) == key_at(is0, j));
                }
                assert(inner_map_wf(new_map));
            }
            done.push((key, (anchor, new_map)));
        }
        self.anchored_bundles.entries = done;
        proof {
            lemma_take_all(s0);
            assert forall|p: int, q: int|
                0 <= p < q < self.anchored_bundles.entries@.len() implies crate::bytes::lex_lt(
                #[trigger] key_at(self.anchored_bundles.entries@, p),
                #[trigger] key_at(self.anchored_bundles.entries@, q),
            ) by {
                assert(key_at(self.anchored_bundles.entries@, p) == key_at(s0, p));
                assert(key_at(self.anchored_bundles.entries@, q) == key_at(s0, q));
            }
        }
        n
    }

    /// Conceal every revealed state value whose owning seal is not in
    /// `seals`, across all bundles; the count of newly concealed values
    /// comes back.  Clears all signatures first.
    pub fn conceal_state_except(&mut self, seals: &Vec<Vec<u8>>) -> (n: u64)
        requires
            old(self).wf(),
        ensures
            final(self).wf(),
            final(self).version == old(self).version,
            final(self).extensions == old(self).extensions,
            final(self).comment == old(self).comment,
            final(self).signatures.spec_len() == 0,
            bundles_state_concealed(
                final(self).anchored_bundles,
                old(self).anchored_bundles,
                seals@,
            ),
            n == conceal_state_total(*old(self), seals@),
    {
        self.signatures.clear();
        let ghost s0 = self.anchored_bundles.entries@;
        let ghost fo = |e: (Vec<u8>, (Anchor, OrdMap<TransitionBundle>))| conceal_state_map_count(
            e.1.1,
            seals@,
        );
        let ghost fi = |e: (Vec<u8>, TransitionBundle)| crate::stash::conceal_state_bundle_count(
            e.1,
            seals@,
        );
        let mut done: Vec<(Vec<u8>, (Anchor, OrdMap<TransitionBundle>))> = Vec::new();
        let mut n: u64 = 0;
        while self.anchored_bundles.entries.len() > 0
            invariant
                old(self).wf(),
                s0 == old(self).anchored_bundles.entries@,
                self.version == old(self).version,
                self.extensions == old(self).extensions,
                self.comment == old(self).comment,
                self.signatures.spec_len() == 0,
                self.signatures.wf(),
                fo == (|e: (Vec<u8>, (Anchor, OrdMap<TransitionBundle>))| conceal_state_map_count(
                    e.1.1,
                    seals@,
                )),
                fi == (|e: (Vec<u8>, TransitionBundle)| crate::stash::conceal_state_bundle_count(
                    e.1,
                    seals@,
                )),
                done@.len() + self.anchored_bundles.entries@.len() == s0.len(),
                forall|j: int|
                    0 <= j < done@.len() ==> (#[trigger] done@[j]).0 == s0[j].0 && done@[j].1.0
                        == s0[j].1.0 && inner_state_concealed(done@[j].1.1, s0[j].1.1, seals@)
                        && anchored_entry_wf(done@[j]),
                forall|j: int|
                    0 <= j < self.anchored_bundles.entries@.len()
                        ==> #[trigger] self.anchored_bundles.entries@[j] == s0[done@.len() + j],
                n == count_sum(s0.take(done@.len() as int), fo),
                0 <= n <= done@.len() * 65535 * 65535 * 65535,
            decreases self.anchored_bundles.entries@.len(),
        {
            let ghost k = done@.len();
            let ghost pv = self.anchored_bundles.entries@;
            let e = self.anchored_bundles.entries.remove(0);
            proof {
                pv.remove_ensures(0);
                assert(e == s0[k as int]);
                assert(anchored_entry_wf(s0[k as int]));
                assert forall|j: int|
                    0 <= j < self.anchored_bundles.entries@.len()
                        implies #[trigger] self.anchored_bundles.entries@[j] == s0[k + 1 + j] by {
                    assert(self.anchored_bundles.entries@[j] == pv[j + 1]);
                }
            }
            let (key, pair) = e;
            let (anchor, mut inner) = pair;
            let ghost is0 = inner.entries@;
            let mut new_inner: Vec<(Vec<u8>, TransitionBundle)> = Vec::new();
            let mut n2: u64 = 0;
            while inner.entries.len() > 0
                invariant
                    inner_map_wf(s0[k as int].1.1),
                    is0 == s0[k as int].1.1.entries@,
                    fi == (
                    |e: (Vec<u8>, TransitionBundle)| crate::stash::conceal_state_bundle_count(
                        e.1,
                        seals@,
                    )),
                    new_inner@.len() + inner.entries@.len() == is0.len(),
                    forall|j: int|
                        0 <= j < new_inner@.len() ==> (#[trigger] new_inner@[j]).0 == is0[j].0
                            && crate::stash::bundle_state_concealed(
                            new_inner@[j].1,
                            is0[j].1,
                            seals@,
                        ) && bundle_wf(new_inner@[j].1),
                    forall|j: int|
                        0 <= j < inner.entries@.len() ==> #[trigger] inner.entries@[j] == is0[
                            new_inner@.len() + j
                        ],
                    n2 == count_sum(is0.take(new_inner@.len() as int), fi),
                    0 <= n2 <= new_inner@.len() * 65535 * 65535,
                decreases inner.entries@.len(),
            {
                let ghost k2 = new_inner@.len();
                let ghost ipv = inner.entries@;
                let ie = inner.entries.remove(0);
                proof {
                    ipv.remove_ensures(0);
                    assert(ie == is0[k2 as int]);
                    assert(key_at(is0, k2 as int).len() < 65536);
                    assert(bundle_wf(is0[k2 as int].1));
                    assert forall|j: int|
                        0 <= j < inner.entries@.len() implies #[trigger] inner.entries@[j] == is0[
                        k2 + 1 + j
                    ] by {
                        assert(inner.entries@[j] == ipv[j + 1]);
                    }
                }
                let (k2v, mut bundle) = ie;
                let c = crate::stash::conceal_state_bundle(&mut bundle, seals);
                proof {
                    assert(c <= 65535int * 65535);
                    lemma_count_step(is0, fi, k2 as int);
                }
                n2 = n2 + c;
                new_inner.push((k2v, bundle));
            }
            proof {
                lemma_take_all(is0);
                lemma_count_step(s0, fo, k as int);
            }
            n = n + n2;
            let new_map = OrdMap { entries: new_inner };
            proof {
                assert forall|p: int, q: int|
                    0 <= p < q < new_map.entries@.len() implies crate::bytes::lex_lt(
                    #[trigger] key_at(new_map.entries@, p),
                    #[trigger] key_at(new_map.entries@, q),
                ) by {
                    assert(key_at(new_map.entries@, p) == key_at(is0, p));
                    assert(key_at(new_map.entries@, q) == key_at(is0, q));
                }
                assert forall|j: int|
                    0 <= j < new_map.entries@.len() implies #[trigger] key_at(
                    new_map.entries@,
                    j,
                ).len() < 65536 by {
                    assert(key_at(new_map.entries@, j) == key_at(is0, j));
                }
                assert(inner_map_wf(new_map));
            }
            done.push((key, (anchor, new_map)));
        }
        self.anchored_bundles.entries = done;
        proof {
            lemma_take_all(s0);
            assert forall|p: int, q: int|
                0 <= p < q < self.anchored_bundles.entries@.len() implies crate::bytes::lex_lt(
                #[trigger] key_at(self.anchored_bundles.entries@, p),
                #[trigger] key_at(self.anchored_bundles.entries@, q),
            ) by {
                assert(key_at(self.anchored_bundles.entries@, p) == key_at(s0, p));
                assert(key_at(self.anchored_bundles.entries@, q) == key_at(s0, q));
            }
        }
        n
    }
}

/// The whole bundle table after narrowing anchors: keys and bundle maps
/// untouched, every anchor narrowed to `keep`.
pub open spec fn anchors_narrowed(
    nm: OrdMap<(Anchor, OrdMap<TransitionBundle>)>,
    om: OrdMap<(Anchor, OrdMap<TransitionBundle>)>,
    keep: Seq<Vec<u8>>,
) -> bool {
    &&& nm.entries@.len() == om.entries@.len()
    &&& forall|i: int|
        0 <= i < om.entries@.len() ==> (#[trigger] nm.entries@[i]).0 == om.entries@[i].0
            && nm.entries@[i].1.1 == om.entries@[i].1.1 && crate::stash::anchor_narrowed(
            nm.entries@[i].1.0,
            om.entries@[i].1.0,
            keep,
        )
}

/// Anchors before position `m` are narrowed, the anchor at `m` lacks a
/// requested leaf, and everything from `m` on is untouched.
pub open spec fn anchors_partially_narrowed(
    nm: OrdMap<(Anchor, OrdMap<TransitionBundle>)>,
    om: OrdMap<(Anchor, OrdMap<TransitionBundle>)>,
    keep: Seq<Vec<u8>>,
    m: int,
) -> bool {
    &&& 0 <= m < om.entries@.len()
    &&& nm.entries@.len() == om.entries@.len()
    &&& !crate::stash::anchor_has_all(om.entries@[m].1.0, keep)
    &&& forall|j: int|
        0 <= j < m ==> (#[trigger] nm.entries@[j]).0 == om.entries@[j].0 && nm.entries@[j].1.1
            == om.entries@[j].1.1 && crate::stash::anchor_narrowed(
            nm.entries@[j].1.0,
            om.entries@[j].1.0,
            keep,
        )
    &&& forall|j: int| m <= j < om.entries@.len() ==> #[trigger] nm.entries@[j] == om.entries@[j]
}

impl Disclosure {
    /// Narrow every anchor's multi-proof to the given contract identifiers,
    /// concealing all other leaves; the count of newly concealed leaves
    /// comes back.  Clears all signatures first, whatever the outcome.
    /// When some anchor lacks a leaf for a requested identifier, the
    /// leaf-not-known error is propagated: anchors earlier in key order are
    /// already narrowed, the failing anchor and everything after it are
    /// untouched (best-effort prefix semantics, as tested explicitly).
    pub fn conceal_anchors_except(&mut self, contracts: &Vec<Vec<u8>>) -> (r: Result<
        u64,
        crate::stash::LeafNotKnown,
    >)
        requires
            old(self).wf(),
        ensures
            final(self).wf(),
            final(self).version == old(self).version,
            final(self).extensions == old(self).extensions,
            final(self).comment == old(self).comment,
            final(self).signatures.spec_len() == 0,
            match r {
                Result::Ok(n) => anchors_narrowed(
                    final(self).anchored_bundles,
                    old(self).anchored_bundles,
                    contracts@,
                ) && n == conceal_anchor_total(*old(self), contracts@) && forall|i: int|
                    0 <= i < old(self).anchored_bundles.entries@.len()
                        ==> crate::stash::anchor_has_all(
                        (#[trigger] old(self).anchored_bundles.entries@[i]).1.0,
                        contracts@,
                    ),
                Result::Err(_) => exists|m: int|
                    anchors_partially_narrowed(
                        final(self).anchored_bundles,
                        old(self).anchored_bundles,
                        contracts@,
                        m,
                    ),
            },
    {
        self.signatures.clear();
        let ghost s0 = self.anchored_bundles.entries@;
        let ghost fo = |e: (Vec<u8>, (Anchor, OrdMap<TransitionBundle>))| crate::stash::
            anchor_conceal_count(e.1.0, contracts@);
        let mut done: Vec<(Vec<u8>, (Anchor, OrdMap<TransitionBundle>))> = Vec::new();
        let mut n: u64 = 0;
        while self.anchored_bundles.entries.len() > 0
            invariant
                old(self).wf(),
                s0 == old(self).anchored_bundles.entries@,
                self.version == old(self).version,
                self.extensions == old(self).extensions,
                self.comment == old(self).comment,
                self.signatures.spec_len() == 0,
                self.signatures.wf(),
                fo == (|e: (Vec<u8>, (Anchor, OrdMap<TransitionBundle>))| crate::stash::
                    anchor_conceal_count(e.1.0, contracts@)),
                done@.len() + self.anchored_bundles.entries@.len() == s0.len(),
                forall|j: int|
                    0 <= j < done@.len() ==> (#[trigger] done@[j]).0 == s0[j].0 && done@[j].1.1
                        == s0[j].1.1 && crate::stash::anchor_narrowed(
                        done@[j].1.0,
                        s0[j].1.0,
                        contracts@,
                    ) && anchored_entry_wf(done@[j]) && crate::stash::anchor_has_all(
                        s0[j].1.0,
                        contracts@,
                    ),
                forall|j: int|
                    0 <= j < self.anchored_bundles.entries@.len()
                        ==> #[trigger] self.anchored_bundles.entries@[j] == s0[done@.len() + j],
                n == count_sum(s0.take(done@.len() as int), fo),
                0 <= n <= done@.len() * 65535,
            decreases self.anchored_bundles.entries@.len(),
        {
            let ghost k = done@.len();
            let ghost pv = self.anchored_bundles.entries@;
            let e = self.anchored_bundles.entries.remove(0);
            proof {
                pv.remove_ensures(0);
                assert(e == s0[k as int]);
                assert(anchored_entry_wf(s0[k as int]));
                assert forall|j: int|
                    0 <= j < self.anchored_bundles.entries@.len()
                        implies #[trigger] self.anchored_bundles.entries@[j] == s0[k + 1 + j] by {
                    assert(self.anchored_bundles.entries@[j] == pv[j + 1]);
                }
            }
            let (key, pair) = e;
            let (mut anchor, inner) = pair;
            match crate::stash::anchor_conceal_except(&mut anchor, contracts) {
                Ok(c) => {
                    proof {
                        assert(c <= 65535);
                        lemma_count_step(s0, fo, k as int);
                    }
                    n = n + c;
                    done.push((key, (anchor, inner)));
                },
                Err(err) => {
                    done.push((key, (anchor, inner)));
                    proof {
                        assert(done@[k as int] == s0[k as int]);
                    }
                    while self.anchored_bundles.entries.len() > 0
                        invariant
                            old(self).wf(),
                            s0 == old(self).anchored_bundles.entries@,
                            self.version == old(self).version,
                            self.extensions == old(self).extensions,
                            self.comment == old(self).comment,
                            self.signatures.spec_len() == 0,
                            self.signatures.wf(),
                            0 <= k < s0.len(),
                            done@.len() + self.anchored_bundles.entries@.len() == s0.len(),
                            k < done@.len(),
                            forall|j: int|
                                0 <= j < k ==> (#[trigger] done@[j]).0 == s0[j].0 && done@[j].1.1
                                    == s0[j].1.1 && crate::stash::anchor_narrowed(
                                    done@[j].1.0,
                                    s0[j].1.0,
                                    contracts@,
                                ) && anchored_entry_wf(done@[j]),
                            forall|j: int| k <= j < done@.len() ==> #[trigger] done@[j] == s0[j],
                            forall|j: int|
                                0 <= j < self.anchored_bundles.entries@.len()
                                    ==> #[trigger] self.anchored_bundles.entries@[j] == s0[
                                    done@.len() + j
                                ],
                        decreases self.anchored_bundles.entries@.len(),
                    {
                        let ghost dk = done@.len();
                        let ghost pv2 = self.anchored_bundles.entries@;
                        let e2 = self.anchored_bundles.entries.remove(0);
                        proof {
                            pv2.remove_ensures(0);
                            assert(e2 == s0[dk as int]);
                            assert forall|j: int|
                                0 <= j < self.anchored_bundles.entries@.len()
                                    implies #[trigger] self.anchored_bundles.entries@[j] == s0[dk
                                + 1 + j] by {
                                assert(self.anchored_bundles.entries@[j] == pv2[j + 1]);
                            }
                        }
                        done.push(e2);
                    }
                    self.anchored_bundles.entries = done;
                    proof {
                        assert forall|p: int, q: int|
                            0 <= p < q < self.anchored_bundles.entries@.len()
                                implies crate::bytes::lex_lt(
                            #[trigger] key_at(self.anchored_bundles.entries@, p),
                            #[trigger] key_at(self.anchored_bundles.entries@, q),
                        ) by {
                            assert(key_at(self.anchored_bundles.entries@, p) == key_at(s0, p));
                            assert(key_at(self.anchored_bundles.entries@, q) == key_at(s0, q));
                        }
                        assert forall|i: int|
                            0 <= i < self.anchored_bundles.entries@.len()
                                implies anchored_entry_wf(
                            #[trigger] self.anchored_bundles.entries@[i],
                        ) by {
                            if i >= k {
                                assert(self.anchored_bundles.entries@[i] == s0[i]);
                            }
                        }
                        assert(anchors_partially_narrowed(
                            self.anchored_bundles,
                            old(self).anchored_bundles,
                            contracts@,
                            k as int,
                        ));
                    }
                    return Err(err);
                },
            }
        }
        self.anchored_bundles.entries = done;
        proof {
            lemma_take_all(s0);
            assert forall|p: int, q: int|
                0 <= p < q < self.anchored_bundles.entries@.len() implies crate::bytes::lex_lt(
                #[trigger] key_at(self.anchored_bundles.entries@, p),
                #[trigger] key_at(self.anchored_bundles.entries@, q),
            ) by {
                assert(key_at(self.anchored_bundles.entries@, p) == key_at(s0, p));
                assert(key_at(self.anchored_bundles.entries@, q) == key_at(s0, q));
            }
            assert forall|i: int|
                0 <= i < self.anchored_bundles.entries@.len() implies anchored_entry_wf(
                #[trigger] self.anchored_bundles.entries@[i],
            ) && (self.anchored_bundles.entries@[i]).0 == s0[i].0
                && self.anchored_bundles.entries@[i].1.1 == s0[i].1.1
                && crate::stash::anchor_narrowed(
                self.anchored_bundles.entries@[i].1.0,
                s0[i].1.0,
                contracts@,
            ) by {
                assert((done@[i]).0 == s0[i].0);
            }
            assert forall|i: int|
                0 <= i < s0.len() implies crate::stash::anchor_has_all(
                (#[trigger] s0[i]).1.0,
                contracts@,
            ) by {
                assert((done@[i]).0 == s0[i].0);
            }
        }
        Ok(n)
    }
}

// --- laws ------------------------------------------------------------------

/// Law: merging the same content twice is the same as merging it once.
/// Under the content equations of `insert_anchored_bundles`, a second
/// insertion of the same `(anchor, bundles)` pair leaves both the merged
/// bundle map and the merged multi-proof exactly as after the first.
pub proof fn lemma_merge_idempotent(
    m: Map<Seq<u8>, TransitionBundle>,
    add: Map<Seq<u8>, TransitionBundle>,
    p: Map<Seq<u8>, bool>,
    padd: Map<Seq<u8>, bool>,
)
    ensures
        m.union_prefer_right(add).union_prefer_right(add) == m.union_prefer_right(add),
        crate::stash::proof_union(crate::stash::proof_union(p, padd), padd)
            == crate::stash::proof_union(p, padd),
{
    assert(m.union_prefer_right(add).union_prefer_right(add) =~= m.union_prefer_right(add));
    assert(crate::stash::proof_union(crate::stash::proof_union(p, padd), padd)
        =~= crate::stash::proof_union(p, padd));
}

/// No assignment of the bundle still reveals a seal definition.
pub open spec fn bundle_seals_hidden(b: TransitionBundle) -> bool {
    forall|i: int, j: int|
        0 <= i < b.items@.len() && 0 <= j < b.items@[i].transition.assignments@.len() ==> (
        #[trigger] b.items@[i].transition.assignments@[j]).seal_payload is None
}

/// No assignment of the bundle still reveals a state value.
pub open spec fn bundle_state_hidden(b: TransitionBundle) -> bool {
    forall|i: int, j: int|
        0 <= i < b.items@.len() && 0 <= j < b.items@[i].transition.assignments@.len() ==> (
        #[trigger] b.items@[i].transition.assignments@[j]).state_payload is None
}

/// Every leaf of the anchor's multi-proof is already concealed.
pub open spec fn anchor_hidden(a: Anchor) -> bool {
    forall|j: int| 0 <= j < a.proof.entries@.len() ==> (#[trigger] a.proof.entries@[j]).1 == false
}

proof fn lemma_bundle_seals_noop(b: TransitionBundle, keep: Seq<Vec<u8>>)
    requires
        bundle_seals_hidden(b),
    ensures
        crate::stash::conceal_seal_bundle_count(b, keep) == 0,
        crate::stash::bundle_seals_concealed(b, b, keep),
{
    let fa = |a: crate::stash::Assignment| crate::stash::conceal_seal_count(a, keep);
    let fit = |it: crate::stash::BundleItem| crate::stash::conceal_seal_tr_count(
        it.transition,
        keep,
    );
    assert forall|i: int| 0 <= i < b.items@.len() implies 0 <= #[trigger] fit(b.items@[i])
        <= 0 by {
        let s = b.items@[i].transition.assignments@;
        assert forall|j: int| 0 <= j < s.len() implies 0 <= #[trigger] fa(s[j]) <= 0 by {
            assert(b.items@[i].transition.assignments@[j].seal_payload is None);
        }
        lemma_count_bound(s, fa, 0);
    }
    lemma_count_bound(b.items@, fit, 0);
    assert forall|i: int|
        0 <= i < b.items@.len() implies (#[trigger] b.items@[i]).inputs == b.items@[i].inputs
        && b.items@[i].transition.assignments@ == b.items@[i].transition.assignments@.map_values(
        |a: crate::stash::Assignment| crate::stash::conceal_seal_one(a, keep),
    ) by {
        let s = b.items@[i].transition.assignments@;
        assert forall|j: int|
            0 <= j < s.len() implies s.map_values(
            |a: crate::stash::Assignment| crate::stash::conceal_seal_one(a, keep),
        )[j] == s[j] by {
            assert(b.items@[i].transition.assignments@[j].seal_payload is None);
        }
        assert(s.map_values(
            |a: crate::stash::Assignment| crate::stash::conceal_seal_one(a, keep),
        ) =~= s);
    }
}

proof fn lemma_bundle_state_noop(b: TransitionBundle, keep: Seq<Vec<u8>>)
    requires
        bundle_state_hidden(b),
    ensures
        crate::stash::conceal_state_bundle_count(b, keep) == 0,
        crate::stash::bundle_state_concealed(b, b, keep),
{
    let fa = |a: crate::stash::Assignment| crate::stash::conceal_state_count(a, keep);
    let fit = |it: crate::stash::BundleItem| crate::stash::conceal_state_tr_count(
        it.transition,
        keep,
    );
    assert forall|i: int| 0 <= i < b.items@.len() implies 0 <= #[trigger] fit(b.items@[i])
        <= 0 by {
        let s = b.items@[i].transition.assignments@;
        assert forall|j: int| 0 <= j < s.len() implies 0 <= #[trigger] fa(s[j]) <= 0 by {
            assert(b.items@[i].transition.assignments@[j].state_payload is None);
        }
        lemma_count_bound(s, fa, 0);
    }
    lemma_count_bound(b.items@, fit, 0);
    assert forall|i: int|
        0 <= i < b.items@.len() implies (#[trigger] b.items@[i]).inputs == b.items@[i].inputs
        && b.items@[i].transition.assignments@ == b.items@[i].transition.assignments@.map_values(
        |a: crate::stash::Assignment| crate::stash::conceal_state_one(a, keep),
    ) by {
        let s = b.items@[i].transition.assignments@;
        assert forall|j: int|
            0 <= j < s.len() implies s.map_values(
            |a: crate::stash::Assignment| crate::stash::conceal_state_one(a, keep),
        )[j] == s[j] by {
            assert(b.items@[i].transition.assignments@[j].state_payload is None);
        }
        assert(s.map_values(
            |a: crate::stash::Assignment| crate::stash::conceal_state_one(a, keep),
        ) =~= s);
    }
}

/// Every seal in every bundle of the aggregate is already concealed.
pub open spec fn disclosure_seals_hidden(d: Disclosure) -> bool {
    forall|i: int, j: int|
        0 <= i < d.anchored_bundles.entries@.len() && 0 <= j
            < d.anchored_bundles.entries@[i].1.1.entries@.len() ==> bundle_seals_hidden(
            (#[trigger] d.anchored_bundles.entries@[i].1.1.entries@[j]).1,
        )
}

pub open spec fn disclosure_state_hidden(d: Disclosure) -> bool {
    forall|i: int, j: int|
        0 <= i < d.anchored_bundles.entries@.len() && 0 <= j
            < d.anchored_bundles.entries@[i].1.1.entries@.len() ==> bundle_state_hidden(
            (#[trigger] d.anchored_bundles.entries@[i].1.1.entries@[j]).1,
        )
}

pub open spec fn disclosure_anchors_hidden(d: Disclosure) -> bool {
    forall|i: int|
        0 <= i < d.anchored_bundles.entries@.len() ==> anchor_hidden(
            (#[trigger] d.anchored_bundles.entries@[i]).1.0,
        )
}

/// Law (concealment monotonicity, seals): concealing seals of an aggregate
/// whose seals are all concealed counts zero items and leaves the bundle
/// content unchanged — the concealed form of every bundle equals the bundle
/// itself.
pub proof fn lemma_conceal_seals_noop(d: Disclosure, keep: Seq<Vec<u8>>)
    requires
        disclosure_seals_hidden(d),
    ensures
        conceal_seal_total(d, keep) == 0,
        bundles_seals_concealed(d.anchored_bundles, d.anchored_bundles, keep),
{
    let fo = |e: (Vec<u8>, (Anchor, OrdMap<TransitionBundle>))| conceal_seal_map_count(
        e.1.1,
        keep,
    );
    let fi = |e: (Vec<u8>, TransitionBundle)| crate::stash::conceal_seal_bundle_count(e.1, keep);
    assert forall|i: int|
        0 <= i < d.anchored_bundles.entries@.len() implies (#[trigger] d.anchored_bundles.entries@[
        i
    ]).0 == d.anchored_bundles.entries@[i].0 && d.anchored_bundles.entries@[i].1.0
        == d.anchored_bundles.entries@[i].1.0 && inner_seals_concealed(
        d.anchored_bundles.entries@[i].1.1,
        d.anchored_bundles.entries@[i].1.1,
        keep,
    ) by {
        let m = d.anchored_bundles.entries@[i].1.1;
        assert forall|j: int|
            0 <= j < m.entries@.len() implies (#[trigger] m.entries@[j]).0 == m.entries@[j].0
            && crate::stash::bundle_seals_concealed(m.entries@[j].1, m.entries@[j].1, keep) by {
            assert(bundle_seals_hidden(d.anchored_bundles.entries@[i].1.1.entries@[j].1));
            lemma_bundle_seals_noop(m.entries@[j].1, keep);
        }
    }
    assert(bundles_seals_concealed(d.anchored_bundles, d.anchored_bundles, keep));
    assert forall|i: int|
        0 <= i < d.anchored_bundles.entries@.len() implies 0 <= #[trigger] fo(
        d.anchored_bundles.entries@[i],
    ) <= 0 by {
        let m = d.anchored_bundles.entries@[i].1.1;
        assert forall|j: int| 0 <= j < m.entries@.len() implies 0 <= #[trigger] fi(
            m.entries@[j],
        ) <= 0 by {
            assert(bundle_seals_hidden(d.anchored_bundles.entries@[i].1.1.entries@[j].1));
            lemma_bundle_seals_noop(m.entries@[j].1, keep);
        }
        lemma_count_bound(m.entries@, fi, 0);
    }
    lemma_count_bound(d.anchored_bundles.entries@, fo, 0);
}

/// Law (concealment monotonicity, state): concealing state values of an
/// aggregate whose state is all concealed counts zero items and leaves the
/// bundle content unchanged.
pub proof fn lemma_conceal_state_noop(d: Disclosure, keep: Seq<Vec<u8>>)
    requires
        disclosure_state_hidden(d),
    ensures
        conceal_state_total(d, keep) == 0,
        bundles_state_concealed(d.anchored_bundles, d.anchored_bundles, keep),
{
    let fo = |e: (Vec<u8>, (Anchor, OrdMap<TransitionBundle>))| conceal_state_map_count(
        e.1.1,
        keep,
    );
    let fi = |e: (Vec<u8>, TransitionBundle)| crate::stash::conceal_state_bundle_count(e.1, keep);
    assert forall|i: int|
        0 <= i < d.anchored_bundles.entries@.len() implies (#[trigger] d.anchored_bundles.entries@[
        i
    ]).0 == d.anchored_bundles.entries@[i].0 && inner_state_concealed(
        d.anchored_bundles.entries@[i].1.1,
        d.anchored_bundles.entries@[i].1.1,
        keep,
    ) by {
        let m = d.anchored_bundles.entries@[i].1.1;
        assert forall|j: int|
            0 <= j < m.entries@.len() implies (#[trigger] m.entries@[j]).0 == m.entries@[j].0
            && crate::stash::bundle_state_concealed(m.entries@[j].1, m.entries@[j].1, keep) by {
            assert(bundle_state_hidden(d.anchored_bundles.entries@[i].1.1.entries@[j].1));
            lemma_bundle_state_noop(m.entries@[j].1, keep);
        }
    }
    assert(bundles_state_concealed(d.anchored_bundles, d.anchored_bundles, keep));
    assert forall|i: int|
        0 <= i < d.anchored_bundles.entries@.len() implies 0 <= #[trigger] fo(
        d.anchored_bundles.entries@[i],
    ) <= 0 by {
        let m = d.anchored_bundles.entries@[i].1.1;
        assert forall|j: int| 0 <= j < m.entries@.len() implies 0 <= #[trigger] fi(
            m.entries@[j],
        ) <= 0 by {
            assert(bundle_state_hidden(d.anchored_bundles.entries@[i].1.1.entries@[j].1));
            lemma_bundle_state_noop(m.entries@[j].1, keep);
        }
        lemma_count_bound(m.entries@, fi, 0);
    }
    lemma_count_bound(d.anchored_bundles.entries@, fo, 0);
}

/// Law (concealment monotonicity, anchors): narrowing an aggregate whose
/// multi-proof leaves are all concealed counts zero leaves and leaves the
/// bundle content unchanged.
pub proof fn lemma_conceal_anchors_noop(d: Disclosure, keep: Seq<Vec<u8>>)
    requires
        disclosure_anchors_hidden(d),
    ensures
        conceal_anchor_total(d, keep) == 0,
        anchors_narrowed(d.anchored_bundles, d.anchored_bundles, keep),
{
    let fo = |e: (Vec<u8>, (Anchor, OrdMap<TransitionBundle>))| crate::stash::
        anchor_conceal_count(e.1.0, keep);
    assert forall|i: int|
        0 <= i < d.anchored_bundles.entries@.len() implies (#[trigger] d.anchored_bundles.entries@[
        i
    ]).0 == d.anchored_bundles.entries@[i].0 && 0 <= fo(d.anchored_bundles.entries@[i]) <= 0
        && crate::stash::anchor_narrowed(
        d.anchored_bundles.entries@[i].1.0,
        d.anchored_bundles.entries@[i].1.0,
        keep,
    ) by {
        let a = d.anchored_bundles.entries@[i].1.0;
        assert(anchor_hidden(a));
        let fl = |e: (Vec<u8>, bool)| crate::stash::leaf_conceal_count(e, keep);
        assert forall|j: int| 0 <= j < a.proof.entries@.len() implies 0 <= #[trigger] fl(
            a.proof.entries@[j],
        ) <= 0 by {
            assert(a.proof.entries@[j].1 == false);
        }
        lemma_count_bound(a.proof.entries@, fl, 0);
        assert forall|j: int|
            0 <= j < a.proof.entries@.len() implies (#[trigger] a.proof.entries@[j]).0
            == a.proof.entries@[j].0 && a.proof.entries@[j].1 == (a.proof.entries@[j].1
            && crate::stash::id_listed(keep, key_at(a.proof.entries@, j))) by {
            assert(a.proof.entries@[j].1 == false);
        }
    }
    assert(anchors_narrowed(d.anchored_bundles, d.anchored_bundles, keep));
    assert forall|i: int|
        0 <= i < d.anchored_bundles.entries@.len() implies 0 <= #[trigger] fo(
        d.anchored_bundles.entries@[i],
    ) <= 0 by {
        assert((d.anchored_bundles.entries@[i]).0 == d.anchored_bundles.entries@[i].0);
    }
    lemma_count_bound(d.anchored_bundles.entries@, fo, 0);
}

// --- identifier determinism ------------------------------------------------

/// Law: the identifier is a pure function of the logical content that feeds
/// the commitment — the version and the two canonical mappings.  Two
/// disclosures carrying the same mappings produce the same identifier no
/// matter in which order their entries were inserted, and whatever their
/// comments or signatures.
pub proof fn lemma_identifier_deterministic(a: Disclosure, b: Disclosure)
    requires
        a.wf(),
        b.wf(),
        a.version == b.version,
        a.anchored_bundles.as_map() == b.anchored_bundles.as_map(),
        a.extensions.as_map() == b.extensions.as_map(),
    ensures
        commit_encoding(a) == commit_encoding(b),
        spec_disclosure_id(a) == spec_disclosure_id(b),
{
    let fa = |e: (Vec<u8>, (Anchor, OrdMap<TransitionBundle>))| enc_anchored_entry(e);
    let fe = |e: (Vec<u8>, Vec<Extension>)| enc_ext_entry(e);
    lemma_sorted_canonical(a.anchored_bundles.entries@, b.anchored_bundles.entries@);
    lemma_sorted_canonical(a.extensions.entries@, b.extensions.entries@);
    assert forall|i: int| 0 <= i < a.anchored_bundles.entries@.len() implies #[trigger] fa(
        a.anchored_bundles.entries@[i],
    ) == fa(b.anchored_bundles.entries@[i]) by {
        assert(key_at(a.anchored_bundles.entries@, i) == key_at(b.anchored_bundles.entries@, i));
        assert(a.anchored_bundles.entries@[i].1 == b.anchored_bundles.entries@[i].1);
    }
    lemma_cat_pointwise(a.anchored_bundles.entries@, b.anchored_bundles.entries@, fa);
    assert forall|i: int| 0 <= i < a.extensions.entries@.len() implies #[trigger] fe(
        a.extensions.entries@[i],
    ) == fe(b.extensions.entries@[i]) by {
        assert(key_at(a.extensions.entries@, i) == key_at(b.extensions.entries@, i));
        assert(a.extensions.entries@[i].1 == b.extensions.entries@[i].1);
    }
    lemma_cat_pointwise(a.extensions.entries@, b.extensions.entries@, fe);
}

} // verus!
