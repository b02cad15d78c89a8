use rgb_disclosure::disclosure::Disclosure;
use rgb_disclosure::ordmap::OrdMap;
use rgb_disclosure::stash::{Anchor, Assignment, BundleItem, Extension, Transition,
    TransitionBundle};

fn id32(x: u8) -> Vec<u8> {
    vec![x; 32]
}

fn sample() -> Disclosure {
    let mut proof: OrdMap<bool> = OrdMap::new();
    proof.insert(id32(10), true);
    proof.insert(id32(11), false);
    let anchor = Anchor { anchor_id: id32(1), proof };
    let bundle = TransitionBundle {
        items: vec![BundleItem {
            transition: Transition {
                assignments: vec![
                    Assignment {
                        seal: id32(42),
                        seal_payload: Some(vec![7, 7]),
                        state_payload: None,
                    },
                    Assignment {
                        seal: id32(43),
                        seal_payload: None,
                        state_payload: Some(vec![9]),
                    },
                ],
            },
            inputs: vec![3u16, 65535u16],
        }],
    };
    let mut bundles: OrdMap<TransitionBundle> = OrdMap::new();
    bundles.insert(id32(10), bundle);
    let mut d = Disclosure::new();
    d.insert_anchored_bundles(anchor, bundles);
    d.insert_extensions(id32(10), vec![Extension { payload: vec![1, 2, 3] }]);
    d.change_comment(String::from("round trip"));
    d.add_signature(vec![2u8; 33], vec![5u8; 64]);
    d.add_signature(vec![3u8; 33], vec![6u8; 64]);
    d
}

#[test]
fn binary_round_trip_empty() {
    let d = Disclosure::new();
    let bytes = d.serialize_full();
    let back = Disclosure::deserialize(&bytes).unwrap();
    assert_eq!(back, d);
    assert_eq!(back.disclosure_id(), d.disclosure_id());
}

#[test]
fn binary_round_trip_populated() {
    let d = sample();
    let bytes = d.serialize_full();
    let back = Disclosure::deserialize(&bytes).unwrap();
    assert_eq!(back, d);
    assert_eq!(back.disclosure_id(), d.disclosure_id());
    assert_eq!(back.sig_hash(), d.sig_hash());
}

#[test]
fn round_trip_law_witness() {
    let empty = Disclosure::new();
    assert_eq!(empty.binary_round_trip(), empty);
    let d = sample();
    let r = d.binary_round_trip();
    assert_eq!(r, d);
    assert_eq!(r.disclosure_id(), d.disclosure_id());
}

#[test]
fn decode_rejects_trailing_bytes() {
    let mut bytes = sample().serialize_full();
    bytes.push(0);
    assert!(Disclosure::deserialize(&bytes).is_none());
}

#[test]
fn decode_rejects_truncation() {
    let bytes = sample().serialize_full();
    for cut in [1usize, 2, 7, bytes.len() - 1] {
        let shorter = bytes[..bytes.len() - cut].to_vec();
        assert!(Disclosure::deserialize(&shorter).is_none());
    }
}

#[test]
fn decode_rejects_empty_input() {
    assert!(Disclosure::deserialize(&Vec::new()).is_none());
}
