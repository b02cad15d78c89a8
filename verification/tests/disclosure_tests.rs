use bitcoin::hashes::{sha256, HashEngine};
use rgb_disclosure::digest::{MIDSTATE_DISCLOSURE_ID, MIDSTATE_DISCLOSURE_SIG_HASH};
use rgb_disclosure::disclosure::Disclosure;
use rgb_disclosure::ordmap::OrdMap;
use rgb_disclosure::stash::{Anchor, Assignment, BundleItem, Transition, TransitionBundle};

fn tagged(mid: [u8; 32], msg: &[u8]) -> [u8; 32] {
    let mut e = sha256::HashEngine::from_midstate(sha256::Midstate::from_inner(mid), 64);
    e.input(msg);
    bitcoin::hashes::Hash::into_inner(<sha256::Hash as bitcoin::hashes::Hash>::from_engine(e))
}

fn tag_midstate(tag: &[u8]) -> [u8; 32] {
    let th = <sha256::Hash as bitcoin::hashes::Hash>::hash(tag);
    let mut e = <sha256::Hash as bitcoin::hashes::Hash>::engine();
    e.input(&th[..]);
    e.input(&th[..]);
    e.midstate().into_inner()
}

fn id32(x: u8) -> Vec<u8> {
    vec![x; 32]
}

fn anchor_with(idbyte: u8, leaves: &[(u8, bool)]) -> Anchor {
    let mut proof: OrdMap<bool> = OrdMap::new();
    for (c, revealed) in leaves {
        proof.insert(id32(*c), *revealed);
    }
    Anchor { anchor_id: id32(idbyte), proof }
}

fn bundle_with(seal: u8, seal_revealed: bool, state_revealed: bool) -> TransitionBundle {
    TransitionBundle {
        items: vec![BundleItem {
            transition: Transition {
                assignments: vec![Assignment {
                    seal: id32(seal),
                    seal_payload: if seal_revealed { Some(vec![7, 7, 7]) } else { None },
                    state_payload: if state_revealed { Some(vec![9, 9]) } else { None },
                }],
            },
            inputs: vec![0u16, 1u16],
        }],
    }
}

fn bundles_of(entries: Vec<(Vec<u8>, TransitionBundle)>) -> OrdMap<TransitionBundle> {
    let mut m: OrdMap<TransitionBundle> = OrdMap::new();
    for (k, v) in entries {
        m.insert(k, v);
    }
    m
}

#[test]
fn test_disclosure_id_midstate() {
    assert_eq!(tag_midstate(b"rgb:disclosure"), MIDSTATE_DISCLOSURE_ID);
}

#[test]
fn test_sighash_id_midstate() {
    assert_eq!(tag_midstate(b"rgb:disclosure:sighash"), MIDSTATE_DISCLOSURE_SIG_HASH);
}

#[test]
fn empty_disclosure_pinned_identifier() {
    let d = Disclosure::new();
    assert_eq!(d.version, 0);
    assert_eq!(d.anchored_bundles.len(), 0);
    assert_eq!(d.extensions.len(), 0);
    assert!(d.comment.is_none());
    assert_eq!(d.signatures.len(), 0);
    // version byte, then two empty maps, each a zero 16-bit count
    let preimage = [0u8, 0, 0, 0, 0];
    let expected = tagged(MIDSTATE_DISCLOSURE_ID, &preimage);
    assert_eq!(d.disclosure_id().digest, expected.to_vec());
}

#[test]
fn comment_changes_sighash_not_identifier() {
    let mut d = Disclosure::new();
    let id_before = d.disclosure_id();
    let sig_before = d.sig_hash();
    d.change_comment(String::from("a note"));
    let id_after = d.disclosure_id();
    let sig_after = d.sig_hash();
    assert_eq!(id_before, id_after);
    assert_ne!(sig_before, sig_after);
    // the sign-hash is the tagged hash of commitment plus comment digest
    let mut preimage = vec![0u8, 0, 0, 0, 0];
    preimage.extend_from_slice(&<sha256::Hash as bitcoin::hashes::Hash>::hash(b"a note")[..]);
    let expected = tagged(MIDSTATE_DISCLOSURE_SIG_HASH, &preimage);
    assert_eq!(sig_after.digest, expected.to_vec());
}

#[test]
fn insert_same_anchor_twice_merges() {
    let mut d = Disclosure::new();
    d.insert_anchored_bundles(
        anchor_with(1, &[(10, true), (11, true)]),
        bundles_of(vec![(id32(10), bundle_with(42, true, true))]),
    );
    d.insert_anchored_bundles(
        anchor_with(1, &[(10, true), (11, true)]),
        bundles_of(vec![(id32(11), bundle_with(43, true, true))]),
    );
    assert_eq!(d.anchored_bundles.len(), 1);
    let inner = &d.anchored_bundles.entries[0].1 .1;
    assert_eq!(inner.len(), 2);
    assert!(inner.get(&id32(10)).is_some());
    assert!(inner.get(&id32(11)).is_some());
}

#[test]
fn merge_same_content_is_idempotent() {
    let mut once = Disclosure::new();
    once.insert_anchored_bundles(
        anchor_with(1, &[(10, true)]),
        bundles_of(vec![(id32(10), bundle_with(42, true, true))]),
    );
    let mut twice = Disclosure::new();
    twice.insert_anchored_bundles(
        anchor_with(1, &[(10, true)]),
        bundles_of(vec![(id32(10), bundle_with(42, true, true))]),
    );
    twice.insert_anchored_bundles(
        anchor_with(1, &[(10, true)]),
        bundles_of(vec![(id32(10), bundle_with(42, true, true))]),
    );
    assert_eq!(once, twice);
    assert_eq!(once.disclosure_id(), twice.disclosure_id());
}

#[test]
fn conceal_anchors_unknown_leaf_fails_unchanged() {
    let mut d = Disclosure::new();
    d.insert_anchored_bundles(
        anchor_with(1, &[(20, true)]),
        bundles_of(vec![(id32(20), bundle_with(42, true, true))]),
    );
    let before = d.clone();
    // request contract 21, whose leaf the multi-proof never carried
    let r = d.conceal_anchors_except(&vec![id32(21)]);
    assert!(r.is_err());
    assert_eq!(d, before);
}

#[test]
fn conceal_anchors_narrows_and_counts() {
    let mut d = Disclosure::new();
    d.insert_anchored_bundles(
        anchor_with(1, &[(20, true), (21, true), (22, false)]),
        bundles_of(vec![(id32(20), bundle_with(42, true, true))]),
    );
    let r = d.conceal_anchors_except(&vec![id32(20)]);
    assert_eq!(r, Ok(1)); // leaf 21 was revealed and is now concealed; 22 already was
    let proof = &d.anchored_bundles.entries[0].1 .0.proof;
    assert_eq!(proof.get(&id32(20)), Some(&true));
    assert_eq!(proof.get(&id32(21)), Some(&false));
    assert_eq!(proof.get(&id32(22)), Some(&false));
}

#[test]
fn conceal_fully_concealed_counts_zero() {
    let mut d = Disclosure::new();
    d.insert_anchored_bundles(
        anchor_with(1, &[(20, true)]),
        bundles_of(vec![(id32(20), bundle_with(42, true, true))]),
    );
    let keep: Vec<Vec<u8>> = Vec::new();
    let s1 = d.conceal_seals(&keep);
    let v1 = d.conceal_state_except(&keep);
    let a1 = d.conceal_anchors_except(&keep).unwrap();
    assert_eq!((s1, v1, a1), (1, 1, 1));
    let frozen = d.clone();
    let s2 = d.conceal_seals(&keep);
    let v2 = d.conceal_state_except(&keep);
    let a2 = d.conceal_anchors_except(&keep).unwrap();
    assert_eq!((s2, v2, a2), (0, 0, 0));
    assert_eq!(d, frozen);
}

#[test]
fn conceal_seals_respects_keep_list() {
    let keep = vec![id32(42)];
    let mut d = Disclosure::new();
    d.insert_anchored_bundles(
        anchor_with(1, &[(20, true)]),
        bundles_of(vec![
            (id32(20), bundle_with(42, true, true)),
            (id32(21), bundle_with(43, true, true)),
        ]),
    );
    let n = d.conceal_seals(&keep);
    assert_eq!(n, 1); // only the seal 43 assignment is concealed
    let inner = &d.anchored_bundles.entries[0].1 .1;
    let kept = &inner.get(&id32(20)).unwrap().items[0].transition.assignments[0];
    let hidden = &inner.get(&id32(21)).unwrap().items[0].transition.assignments[0];
    assert!(kept.seal_payload.is_some());
    assert!(hidden.seal_payload.is_none());
    // state payloads stay untouched by seal concealment
    assert!(kept.state_payload.is_some());
    assert!(hidden.state_payload.is_some());
}

#[test]
fn conceal_state_respects_keep_list() {
    let keep = vec![id32(42)];
    let mut d = Disclosure::new();
    d.insert_anchored_bundles(
        anchor_with(1, &[(20, true)]),
        bundles_of(vec![
            (id32(20), bundle_with(42, true, true)),
            (id32(21), bundle_with(43, true, true)),
        ]),
    );
    let n = d.conceal_state_except(&keep);
    assert_eq!(n, 1);
    let inner = &d.anchored_bundles.entries[0].1 .1;
    assert!(inner.get(&id32(20)).unwrap().items[0].transition.assignments[0]
        .state_payload
        .is_some());
    assert!(inner.get(&id32(21)).unwrap().items[0].transition.assignments[0]
        .state_payload
        .is_none());
}

#[test]
fn mutation_clears_signatures() {
    let mut d = Disclosure::new();

    d.add_signature(vec![2u8; 33], vec![1u8; 64]);
    d.insert_anchored_bundles(
        anchor_with(1, &[(20, true)]),
        bundles_of(vec![(id32(20), bundle_with(42, true, true))]),
    );
    assert_eq!(d.signatures.len(), 0);

    d.add_signature(vec![2u8; 33], vec![1u8; 64]);
    d.insert_extensions(id32(20), vec![]);
    assert_eq!(d.signatures.len(), 0);

    d.add_signature(vec![2u8; 33], vec![1u8; 64]);
    d.change_comment(String::from("x"));
    assert_eq!(d.signatures.len(), 0);

    d.add_signature(vec![2u8; 33], vec![1u8; 64]);
    d.remove_comment();
    assert_eq!(d.signatures.len(), 0);
}

#[test]
fn concealment_clears_signatures() {
    let mut d = Disclosure::new();
    d.insert_anchored_bundles(
        anchor_with(1, &[(20, true)]),
        bundles_of(vec![(id32(20), bundle_with(42, true, true))]),
    );
    let keep: Vec<Vec<u8>> = Vec::new();

    d.add_signature(vec![2u8; 33], vec![1u8; 64]);
    d.conceal_seals(&keep);
    assert_eq!(d.signatures.len(), 0);

    d.add_signature(vec![2u8; 33], vec![1u8; 64]);
    d.conceal_state_except(&keep);
    assert_eq!(d.signatures.len(), 0);

    d.add_signature(vec![2u8; 33], vec![1u8; 64]);
    d.conceal_anchors_except(&keep).unwrap();
    assert_eq!(d.signatures.len(), 0);

    // cleared first, also when narrowing fails
    d.add_signature(vec![2u8; 33], vec![1u8; 64]);
    assert!(d.conceal_anchors_except(&vec![id32(99)]).is_err());
    assert_eq!(d.signatures.len(), 0);
}

#[test]
fn conceal_anchors_partial_effect_across_anchors() {
    // three anchors in key order; the middle one lacks the requested leaf
    let mut d = Disclosure::new();
    d.insert_anchored_bundles(
        anchor_with(1, &[(20, true), (21, true)]),
        bundles_of(vec![(id32(20), bundle_with(42, true, true))]),
    );
    d.insert_anchored_bundles(
        anchor_with(2, &[(22, true)]),
        bundles_of(vec![(id32(22), bundle_with(43, true, true))]),
    );
    d.insert_anchored_bundles(
        anchor_with(3, &[(20, true), (23, true)]),
        bundles_of(vec![(id32(20), bundle_with(44, true, true))]),
    );
    let r = d.conceal_anchors_except(&vec![id32(20)]);
    assert!(r.is_err());
    // anchor 1, earlier in key order, is already narrowed: leaf 21 concealed
    let p1 = &d.anchored_bundles.entries[0].1 .0.proof;
    assert_eq!(p1.get(&id32(20)), Some(&true));
    assert_eq!(p1.get(&id32(21)), Some(&false));
    // the failing anchor 2 and anchor 3 after it are untouched
    assert_eq!(d.anchored_bundles.entries[1].1 .0, anchor_with(2, &[(22, true)]));
    assert_eq!(d.anchored_bundles.entries[2].1 .0, anchor_with(3, &[(20, true), (23, true)]));
}

#[test]
fn signature_ops_touch_nothing_else() {
    let mut d = Disclosure::new();
    d.insert_anchored_bundles(
        anchor_with(1, &[(20, true)]),
        bundles_of(vec![(id32(20), bundle_with(42, true, true))]),
    );
    d.change_comment(String::from("x"));
    let content = (d.version, d.anchored_bundles.clone(), d.extensions.clone(), d.comment.clone());
    let prev = d.add_signature(vec![2u8; 33], vec![1u8; 64]);
    assert!(prev.is_none());
    let prev2 = d.add_signature(vec![3u8; 33], vec![2u8; 64]);
    assert!(prev2.is_none());
    let replaced = d.add_signature(vec![2u8; 33], vec![9u8; 64]);
    assert_eq!(replaced, Some(vec![1u8; 64]));
    assert_eq!(d.signatures.len(), 2);
    let removed = d.remove_signature(vec![2u8; 33]);
    assert_eq!(removed, Some(vec![9u8; 64]));
    // the other entry survives, and no other field moved
    assert_eq!(d.signatures.len(), 1);
    assert_eq!(d.signatures.get(&vec![3u8; 33]), Some(&vec![2u8; 64]));
    assert_eq!(
        content,
        (d.version, d.anchored_bundles.clone(), d.extensions.clone(), d.comment.clone())
    );
}

#[test]
fn empty_signatures_reports_count() {
    let mut d = Disclosure::new();
    d.add_signature(vec![2u8; 33], vec![1u8; 64]);
    d.add_signature(vec![3u8; 33], vec![2u8; 64]);
    assert_eq!(d.empty_signatures(), 2);
    assert_eq!(d.signatures.len(), 0);
    assert_eq!(d.empty_signatures(), 0);
}

#[test]
fn insert_extensions_appends_in_order() {
    let mut d = Disclosure::new();
    let e1 = rgb_disclosure::stash::Extension { payload: vec![1] };
    let e2 = rgb_disclosure::stash::Extension { payload: vec![2] };
    let e3 = rgb_disclosure::stash::Extension { payload: vec![3] };
    d.insert_extensions(id32(20), vec![e1.clone(), e2.clone()]);
    d.insert_extensions(id32(20), vec![e3.clone()]);
    assert_eq!(d.extensions.len(), 1);
    assert_eq!(d.extensions.get(&id32(20)), Some(&vec![e1, e2, e3]));
}

#[test]
fn identifier_ignores_insertion_order() {
    let mut a = Disclosure::new();
    a.insert_anchored_bundles(
        anchor_with(1, &[(20, true)]),
        bundles_of(vec![(id32(20), bundle_with(42, true, true))]),
    );
    a.insert_anchored_bundles(
        anchor_with(2, &[(21, true)]),
        bundles_of(vec![(id32(21), bundle_with(43, true, true))]),
    );
    a.insert_extensions(id32(20), vec![rgb_disclosure::stash::Extension { payload: vec![1] }]);
    a.insert_extensions(id32(21), vec![rgb_disclosure::stash::Extension { payload: vec![2] }]);

    let mut b = Disclosure::new();
    b.insert_extensions(id32(21), vec![rgb_disclosure::stash::Extension { payload: vec![2] }]);
    b.insert_extensions(id32(20), vec![rgb_disclosure::stash::Extension { payload: vec![1] }]);
    b.insert_anchored_bundles(
        anchor_with(2, &[(21, true)]),
        bundles_of(vec![(id32(21), bundle_with(43, true, true))]),
    );
    b.insert_anchored_bundles(
        anchor_with(1, &[(20, true)]),
        bundles_of(vec![(id32(20), bundle_with(42, true, true))]),
    );

    assert_eq!(a.disclosure_id(), b.disclosure_id());
    // identifiers reflect content: a third, different aggregate disagrees
    let mut c = Disclosure::new();
    c.insert_anchored_bundles(
        anchor_with(1, &[(20, true)]),
        bundles_of(vec![(id32(20), bundle_with(42, true, true))]),
    );
    assert_ne!(a.disclosure_id(), c.disclosure_id());
}

#[test]
fn concealment_changes_identifier() {
    let mut d = Disclosure::new();
    d.insert_anchored_bundles(
        anchor_with(1, &[(20, true)]),
        bundles_of(vec![(id32(20), bundle_with(42, true, true))]),
    );
    let before = d.disclosure_id();
    let keep: Vec<Vec<u8>> = Vec::new();
    d.conceal_seals(&keep);
    let after = d.disclosure_id();
    assert_ne!(before, after);
}
