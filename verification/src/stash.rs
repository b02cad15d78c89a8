//! Models of the stash collaborators that a disclosure aggregates.
//!
//! The aggregate only ever reads these types through a narrow interface:
//! identifiers are opaque byte strings, a transition is a list of assignments
//! each pairing a seal with an assigned state value (either of which may be
//! revealed or already concealed), a bundle groups transitions with their
//! input indices, and an anchor carries a multi-proof mapping contract
//! identifiers to revealed-or-concealed leaves.  Concealment replaces a
//! revealed datum by nothing but its commitment, which is always present, so
//! it is modelled as dropping the revealed payload.

use vstd::prelude::*;

use crate::bytes::bytes_eq;
use crate::encode::{cat, count_sum, enc_bytes, enc_list, enc_opt_bytes, enc_u16n,
    lemma_cat_step, lemma_count_bound, lemma_count_step, lemma_take_all, push_bytes,
    push_opt_bytes, push_u16, push_u8};
use crate::ordmap::{key_at, lemma_map_of_contains, lemma_sorted_distinct, map_of, sorted,
    OrdMap};

verus! {

/// One assignment inside a state transition: a seal (named by its always
/// known confidential form) and an assigned state value.  A `Some` payload is
/// revealed data; `None` means only the commitment is known.
#[derive(Clone, PartialEq, Eq, Debug)]
pub struct Assignment {
    /// Confidential form of the seal; always known.
    pub seal: Vec<u8>,
    /// Revealed seal definition, if still revealed.
    pub seal_payload: Option<Vec<u8>>,
    /// Revealed assigned state value, if still revealed.
    pub state_payload: Option<Vec<u8>>,
}

/// A unit of contract state change: its assignments.
#[derive(Clone, PartialEq, Eq, Debug)]
pub struct Transition {
    pub assignments: Vec<Assignment>,
}

/// A transition together with the input indices it consumes.
#[derive(Clone, PartialEq, Eq, Debug)]
pub struct BundleItem {
    pub transition: Transition,
    pub inputs: Vec<u16>,
}

/// Transitions sharing one anchor for one contract.
#[derive(Clone, PartialEq, Eq, Debug)]
pub struct TransitionBundle {
    pub items: Vec<BundleItem>,
}

/// A state extension; opaque to the aggregate beyond its encoding.
#[derive(Clone, PartialEq, Eq, Debug)]
pub struct Extension {
    pub payload: Vec<u8>,
}

/// An anchor: its identifier and a Merkle multi-proof, modelled as the map
/// from contract identifier to whether that leaf is still revealed.
#[derive(Clone, PartialEq, Eq, Debug)]
pub struct Anchor {
    pub anchor_id: Vec<u8>,
    pub proof: OrdMap<bool>,
}

/// Requested contract identifier absent from an anchor's multi-proof.
#[derive(Clone, Copy, PartialEq, Eq, Debug)]
pub struct LeafNotKnown {}

// --- well-formedness -------------------------------------------------------

pub open spec fn assignment_wf(a: Assignment) -> bool {
    &&& a.seal@.len() < 65536
    &&& match a.seal_payload {
        Option::Some(p) => p@.len() < 65536,
        Option::None => true,
    }
    &&& match a.state_payload {
        Option::Some(p) => p@.len() < 65536,
        Option::None => true,
    }
}

pub open spec fn transition_wf(t: Transition) -> bool {
    &&& t.assignments@.len() < 65536
    &&& forall|i: int|
        0 <= i < t.assignments@.len() ==> assignment_wf(#[trigger] t.assignments@[i])
}

pub open spec fn item_wf(it: BundleItem) -> bool {
    &&& transition_wf(it.transition)
    &&& it.inputs@.len() < 65536
}

pub open spec fn bundle_wf(b: TransitionBundle) -> bool {
    &&& b.items@.len() < 65536
    &&& forall|i: int| 0 <= i < b.items@.len() ==> item_wf(#[trigger] b.items@[i])
}

pub open spec fn extension_wf(x: Extension) -> bool {
    x.payload@.len() < 65536
}

pub open spec fn anchor_wf(a: Anchor) -> bool {
    &&& a.anchor_id@.len() < 65536
    &&& a.proof.wf()
    &&& a.proof.spec_len() < 65536
    &&& forall|i: int|
        0 <= i < a.proof.entries@.len() ==> #[trigger] key_at(a.proof.entries@, i).len() < 65536
}

// --- commitment encodings --------------------------------------------------

pub open spec fn enc_assignment(a: Assignment) -> Seq<u8> {
    enc_bytes(a.seal@) + enc_opt_bytes(a.seal_payload) + enc_opt_bytes(a.state_payload)
}

pub open spec fn enc_transition(t: Transition) -> Seq<u8> {
    enc_list(t.assignments@, |a: Assignment| enc_assignment(a))
}

pub open spec fn enc_item(it: BundleItem) -> Seq<u8> {
    enc_transition(it.transition) + enc_list(it.inputs@, |x: u16| enc_u16n(x as int))
}

pub open spec fn enc_bundle(b: TransitionBundle) -> Seq<u8> {
    enc_list(b.items@, |it: BundleItem| enc_item(it))
}

pub open spec fn enc_extension(x: Extension) -> Seq<u8> {
    enc_bytes(x.payload@)
}

pub open spec fn enc_proof_entry(e: (Vec<u8>, bool)) -> Seq<u8> {
    enc_bytes(e.0@) + seq![
        if e.1 {
            1u8
        } else {
            0u8
        },
    ]
}

pub open spec fn enc_anchor(a: Anchor) -> Seq<u8> {
    enc_bytes(a.anchor_id@) + enc_list(a.proof.entries@, |e: (Vec<u8>, bool)| enc_proof_entry(e))
}

// --- verified encoders -----------------------------------------------------

pub fn push_assignment(out: &mut Vec<u8>, a: &Assignment)
    requires
        assignment_wf(*a),
    ensures
        final(out)@ == old(out)@ + enc_assignment(*a),
{
    push_bytes(out, &a.seal);
    push_opt_bytes(out, &a.seal_payload);
    push_opt_bytes(out, &a.state_payload);
    proof {
        assert(out@ =~= old(out)@ + enc_assignment(*a));
    }
}

pub fn push_transition(out: &mut Vec<u8>, t: &Transition)
    requires
        transition_wf(*t),
    ensures
        final(out)@ == old(out)@ + enc_transition(*t),
{
    let ghost f = |a: Assignment| enc_assignment(a);
    let n = t.assignments.len();
    push_u16(out, n as u16);
    let ghost mid = out@;
    let mut i: usize = 0;
    while i < n
        invariant
            transition_wf(*t),
            n == t.assignments@.len(),
            0 <= i <= n,
            f == (|a: Assignment| enc_assignment(a)),
            out@ == mid + cat(t.assignments@.take(i as int), f),
        decreases n - i,
    {
        push_assignment(out, &t.assignments[i]);
        proof {
            lemma_cat_step(t.assignments@, f, i as int);
        }
        i = i + 1;
    }
    proof {
        lemma_take_all(t.assignments@);
        assert(out@ =~= old(out)@ + enc_transition(*t));
    }
}

pub fn push_inputs(out: &mut Vec<u8>, v: &Vec<u16>)
    requires
        v@.len() < 65536,
    ensures
        final(out)@ == old(out)@ + enc_list(v@, |x: u16| enc_u16n(x as int)),
{
    let ghost f = |x: u16| enc_u16n(x as int);
    let n = v.len();
    push_u16(out, n as u16);
    let ghost mid = out@;
    let mut i: usize = 0;
    while i < n
        invariant
            n == v@.len(),
            0 <= i <= n,
            f == (|x: u16| enc_u16n(x as int)),
            out@ == mid + cat(v@.take(i as int), f),
        decreases n - i,
    {
        push_u16(out, v[i]);
        proof {
            lemma_cat_step(v@, f, i as int);
        }
        i = i + 1;
    }
    proof {
        lemma_take_all(v@);
        assert(out@ =~= old(out)@ + enc_list(v@, f));
    }
}

pub fn push_item(out: &mut Vec<u8>, it: &BundleItem)
    requires
        item_wf(*it),
    ensures
        final(out)@ == old(out)@ + enc_item(*it),
{
    push_transition(out, &it.transition);
    push_inputs(out, &it.inputs);
    proof {
        assert(out@ =~= old(out)@ + enc_item(*it));
    }
}

pub fn push_bundle(out: &mut Vec<u8>, b: &TransitionBundle)
    requires
        bundle_wf(*b),
    ensures
        final(out)@ == old(out)@ + enc_bundle(*b),
{
    let ghost f = |it: BundleItem| enc_item(it);
    let n = b.items.len();
    push_u16(out, n as u16);
    let ghost mid = out@;
    let mut i: usize = 0;
    while i < n
        invariant
            bundle_wf(*b),
            n == b.items@.len(),
            0 <= i <= n,
            f == (|it: BundleItem| enc_item(it)),
            out@ == mid + cat(b.items@.take(i as int), f),
        decreases n - i,
    {
        push_item(out, &b.items[i]);
        proof {
            lemma_cat_step(b.items@, f, i as int);
        }
        i = i + 1;
    }
    proof {
        lemma_take_all(b.items@);
        assert(out@ =~= old(out)@ + enc_bundle(*b));
    }
}

pub fn push_extension(out: &mut Vec<u8>, x: &Extension)
    requires
        extension_wf(*x),
    ensures
        final(out)@ == old(out)@ + enc_extension(*x),
{
    push_bytes(out, &x.payload);
}

pub fn push_anchor(out: &mut Vec<u8>, a: &Anchor)
    requires
        anchor_wf(*a),
    ensures
        final(out)@ == old(out)@ + enc_anchor(*a),
{
    let ghost f = |e: (Vec<u8>, bool)| enc_proof_entry(e);
    push_bytes(out, &a.anchor_id);
    let n = a.proof.entries.len();
    push_u16(out, n as u16);
    let ghost mid = out@;
    let mut i: usize = 0;
    while i < n
        invariant
            anchor_wf(*a),
            n == a.proof.entries@.len(),
            0 <= i <= n,
            f == (|e: (Vec<u8>, bool)| enc_proof_entry(e)),
            out@ == mid + cat(a.proof.entries@.take(i as int), f),
        decreases n - i,
    {
        proof {
            assert(key_at(a.proof.entries@, i as int).len() < 65536);
        }
        push_bytes(out, &a.proof.entries[i].0);
        push_u8(
            out,
            if a.proof.entries[i].1 {
                1
            } else {
                0
            },
        );
        proof {
            lemma_cat_step(a.proof.entries@, f, i as int);
            assert(out@ =~= mid + cat(a.proof.entries@.take(i + 1), f));
        }
        i = i + 1;
    }
    proof {
        lemma_take_all(a.proof.entries@);
        assert(out@ =~= old(out)@ + enc_anchor(*a));
    }
}

// --- concealment -----------------------------------------------------------

/// The view of the byte string at position `i` of a list of identifiers.
pub open spec fn id_at(s: Seq<Vec<u8>>, i: int) -> Seq<u8> {
    s[i]@
}

/// Whether `k` occurs in the identifier list.
pub open spec fn id_listed(s: Seq<Vec<u8>>, k: Seq<u8>) -> bool {
    exists|i: int| 0 <= i < s.len() && #[trigger] id_at(s, i) == k
}

/// Decide membership of a byte string in an identifier list.
pub fn listed(s: &Vec<Vec<u8>>, k: &Vec<u8>) -> (r: bool)
    ensures
        r == id_listed(s@, k@),
{
    let n = s.len();
    let mut i: usize = 0;
    while i < n
        invariant
            n == s@.len(),
            0 <= i <= n,
            forall|j: int| 0 <= j < i ==> #[trigger] id_at(s@, j) != k@,
        decreases n - i,
    {
        if bytes_eq(&s[i], k) {
            proof {
                assert(id_at(s@, i as int) == k@);
            }
            return true;
        }
        i = i + 1;
    }
    false
}

/// An assignment after concealing its seal unless the seal is in `keep`.
pub open spec fn conceal_seal_one(a: Assignment, keep: Seq<Vec<u8>>) -> Assignment {
    if a.seal_payload is Some && !id_listed(keep, a.seal@) {
        Assignment { seal: a.seal, seal_payload: Option::None, state_payload: a.state_payload }
    } else {
        a
    }
}

/// How many seals concealing touches in one assignment: zero or one.
pub open spec fn conceal_seal_count(a: Assignment, keep: Seq<Vec<u8>>) -> int {
    if a.seal_payload is Some && !id_listed(keep, a.seal@) {
        1
    } else {
        0
    }
}

/// An assignment after concealing its state unless its seal is in `keep`.
pub open spec fn conceal_state_one(a: Assignment, keep: Seq<Vec<u8>>) -> Assignment {
    if a.state_payload is Some && !id_listed(keep, a.seal@) {
        Assignment { seal: a.seal, seal_payload: a.seal_payload, state_payload: Option::None }
    } else {
        a
    }
}

pub open spec fn conceal_state_count(a: Assignment, keep: Seq<Vec<u8>>) -> int {
    if a.state_payload is Some && !id_listed(keep, a.seal@) {
        1
    } else {
        0
    }
}

pub open spec fn conceal_seal_tr_count(t: Transition, keep: Seq<Vec<u8>>) -> int {
    count_sum(t.assignments@, |a: Assignment| conceal_seal_count(a, keep))
}

pub open spec fn conceal_state_tr_count(t: Transition, keep: Seq<Vec<u8>>) -> int {
    count_sum(t.assignments@, |a: Assignment| conceal_state_count(a, keep))
}

/// Conceal every revealed seal of the transition whose confidential form is
/// not in `keep`; the count of newly concealed seals comes back.
pub fn conceal_seals_transition(t: &mut Transition, keep: &Vec<Vec<u8>>) -> (n: u64)
    requires
        transition_wf(*old(t)),
    ensures
        transition_wf(*final(t)),
        final(t).assignments@ == old(t).assignments@.map_values(
            |a: Assignment| conceal_seal_one(a, keep@),
        ),
        n == conceal_seal_tr_count(*old(t), keep@),
        0 <= n <= old(t).assignments@.len(),
{
    let ghost s0 = old(t).assignments@;
    let ghost fc = |a: Assignment| conceal_seal_count(a, keep@);
    let m = t.assignments.len();
    let mut i: usize = 0;
    let mut n: u64 = 0;
    while i < m
        invariant
            m == s0.len(),
            m < 65536,
            t.assignments@.len() == m,
            0 <= i <= m,
            fc == (|a: Assignment| conceal_seal_count(a, keep@)),
            forall|j: int|
                0 <= j < i ==> #[trigger] t.assignments@[j] == conceal_seal_one(s0[j], keep@),
            forall|j: int| i <= j < m ==> #[trigger] t.assignments@[j] == s0[j],
            forall|j: int| 0 <= j < m ==> assignment_wf(#[trigger] s0[j]),
            n == count_sum(s0.take(i as int), fc),
            0 <= n <= i,
        decreases m - i,
    {
        let a = t.assignments.remove(i);
        let ghost before = t.assignments@;
        let concealed = a.seal_payload.is_some() && !listed(keep, &a.seal);
        let newa = if concealed {
            n = n + 1;
            Assignment { seal: a.seal, seal_payload: None, state_payload: a.state_payload }
        } else {
            a
        };
        proof {
            assert(newa == conceal_seal_one(s0[i as int], keep@));
            lemma_count_step(s0, fc, i as int);
        }
        t.assignments.insert(i, newa);
        proof {
            before.insert_ensures(i as int, newa);
            assert forall|j: int| 0 <= j < i + 1 implies #[trigger] t.assignments@[j]
                == conceal_seal_one(s0[j], keep@) by {
                if j < i {
                    assert(t.assignments@[j] == before[j]);
                }
            }
            assert forall|j: int| i + 1 <= j < m implies #[trigger] t.assignments@[j]
                == s0[j] by {
                assert(t.assignments@[(j - 1) + 1] == before[j - 1]);
            }
        }
        i = i + 1;
    }
    proof {
        lemma_take_all(s0);
        assert(t.assignments@ =~= s0.map_values(|a: Assignment| conceal_seal_one(a, keep@)));
        lemma_count_bound(s0, fc, 1);
    }
    n
}

/// Conceal every revealed state value whose owning seal is not in `keep`.
pub fn conceal_state_transition(t: &mut Transition, keep: &Vec<Vec<u8>>) -> (n: u64)
    requires
        transition_wf(*old(t)),
    ensures
        transition_wf(*final(t)),
        final(t).assignments@ == old(t).assignments@.map_values(
            |a: Assignment| conceal_state_one(a, keep@),
        ),
        n == conceal_state_tr_count(*old(t), keep@),
        0 <= n <= old(t).assignments@.len(),
{
    let ghost s0 = old(t).assignments@;
    let ghost fc = |a: Assignment| conceal_state_count(a, keep@);
    let m = t.assignments.len();
    let mut i: usize = 0;
    let mut n: u64 = 0;
    while i < m
        invariant
            m == s0.len(),
            m < 65536,
            t.assignments@.len() == m,
            0 <= i <= m,
            fc == (|a: Assignment| conceal_state_count(a, keep@)),
            forall|j: int|
                0 <= j < i ==> #[trigger] t.assignments@[j] == conceal_state_one(s0[j], keep@),
            forall|j: int| i <= j < m ==> #[trigger] t.assignments@[j] == s0[j],
            forall|j: int| 0 <= j < m ==> assignment_wf(#[trigger] s0[j]),
            n == count_sum(s0.take(i as int), fc),
            0 <= n <= i,
        decreases m - i,
    {
        let a = t.assignments.remove(i);
        let ghost before = t.assignments@;
        let concealed = a.state_payload.is_some() && !listed(keep, &a.seal);
        let newa = if concealed {
            n = n + 1;
            Assignment { seal: a.seal, seal_payload: a.seal_payload, state_payload: None }
        } else {
            a
        };
        proof {
            assert(newa == conceal_state_one(s0[i as int], keep@));
            lemma_count_step(s0, fc, i as int);
        }
        t.assignments.insert(i, newa);
        proof {
            before.insert_ensures(i as int, newa);
            assert forall|j: int| 0 <= j < i + 1 implies #[trigger] t.assignments@[j]
                == conceal_state_one(s0[j], keep@) by {
                if j < i {
                    assert(t.assignments@[j] == before[j]);
                }
            }
            assert forall|j: int| i + 1 <= j < m implies #[trigger] t.assignments@[j]
                == s0[j] by {
                assert(t.assignments@[(j - 1) + 1] == before[j - 1]);
            }
        }
        i = i + 1;
    }
    proof {
        lemma_take_all(s0);
        assert(t.assignments@ =~= s0.map_values(|a: Assignment| conceal_state_one(a, keep@)));
        lemma_count_bound(s0, fc, 1);
    }
    n
}

pub open spec fn conceal_seal_bundle_count(b: TransitionBundle, keep: Seq<Vec<u8>>) -> int {
    count_sum(b.items@, |it: BundleItem| conceal_seal_tr_count(it.transition, keep))
}

pub open spec fn conceal_state_bundle_count(b: TransitionBundle, keep: Seq<Vec<u8>>) -> int {
    count_sum(b.items@, |it: BundleItem| conceal_state_tr_count(it.transition, keep))
}

/// `nb` is `ob` with every seal outside `keep` concealed, all else untouched.
pub open spec fn bundle_seals_concealed(
    nb: TransitionBundle,
    ob: TransitionBundle,
    keep: Seq<Vec<u8>>,
) -> bool {
    &&& nb.items@.len() == ob.items@.len()
    &&& forall|i: int|
        0 <= i < ob.items@.len() ==> (#[trigger] nb.items@[i]).inputs == ob.items@[i].inputs
            && nb.items@[i].transition.assignments@ == ob.items@[i].transition.assignments@
            .map_values(|a: Assignment| conceal_seal_one(a, keep))
}

/// `nb` is `ob` with every state value outside `keep` concealed.
pub open spec fn bundle_state_concealed(
    nb: TransitionBundle,
    ob: TransitionBundle,
    keep: Seq<Vec<u8>>,
) -> bool {
    &&& nb.items@.len() == ob.items@.len()
    &&& forall|i: int|
        0 <= i < ob.items@.len() ==> (#[trigger] nb.items@[i]).inputs == ob.items@[i].inputs
            && nb.items@[i].transition.assignments@ == ob.items@[i].transition.assignments@
            .map_values(|a: Assignment| conceal_state_one(a, keep))
}

/// Conceal seals across every transition of the bundle.
pub fn conceal_seals_bundle(b: &mut TransitionBundle, keep: &Vec<Vec<u8>>) -> (n: u64)
    requires
        bundle_wf(*old(b)),
    ensures
        bundle_wf(*final(b)),
        bundle_seals_concealed(*final(b), *old(b), keep@),
        n == conceal_seal_bundle_count(*old(b), keep@),
        0 <= n <= old(b).items@.len() * 65535,
{
    let ghost s0 = old(b).items@;
    let ghost fc = |it: BundleItem| conceal_seal_tr_count(it.transition, keep@);
    let m = b.items.len();
    let mut i: usize = 0;
    let mut n: u64 = 0;
    while i < m
        invariant
            m == s0.len(),
            m < 65536,
            b.items@.len() == m,
            0 <= i <= m,
            fc == (|it: BundleItem| conceal_seal_tr_count(it.transition, keep@)),
            forall|j: int| 0 <= j < m ==> item_wf(#[trigger] s0[j]),
            forall|j: int|
                0 <= j < i ==> item_wf(#[trigger] b.items@[j]) && b.items@[j].inputs == s0[j].inputs
                    && b.items@[j].transition.assignments@ == s0[j].transition.assignments@
                    .map_values(|a: Assignment| conceal_seal_one(a, keep@)),
            forall|j: int| i <= j < m ==> #[trigger] b.items@[j] == s0[j],
            n == count_sum(s0.take(i as int), fc),
            0 <= n <= i * 65535,
        decreases m - i,
    {
        let mut it = b.items.remove(i);
        let ghost before = b.items@;
        let c = conceal_seals_transition(&mut it.transition, keep);
        proof {
            assert(c <= 65535);
            lemma_count_step(s0, fc, i as int);
        }
        n = n + c;
        b.items.insert(i, it);
        proof {
            before.insert_ensures(i as int, it);
            assert forall|j: int| i + 1 <= j < m implies #[trigger] b.items@[j] == s0[j] by {
                assert(b.items@[(j - 1) + 1] == before[j - 1]);
            }
            assert forall|j: int|
                0 <= j < i + 1 implies item_wf(#[trigger] b.items@[j]) && b.items@[j].inputs
                == s0[j].inputs && b.items@[j].transition.assignments@
                == s0[j].transition.assignments@.map_values(
                |a: Assignment| conceal_seal_one(a, keep@),
            ) by {
                if j < i {
                    assert(b.items@[j] == before[j]);
                }
            }
        }
        i = i + 1;
    }
    proof {
        lemma_take_all(s0);
    }
    n
}

/// Conceal state values across every transition of the bundle.
pub fn conceal_state_bundle(b: &mut TransitionBundle, keep: &Vec<Vec<u8>>) -> (n: u64)
    requires
        bundle_wf(*old(b)),
    ensures
        bundle_wf(*final(b)),
        bundle_state_concealed(*final(b), *old(b), keep@),
        n == conceal_state_bundle_count(*old(b), keep@),
        0 <= n <= old(b).items@.len() * 65535,
{
    let ghost s0 = old(b).items@;
    let ghost fc = |it: BundleItem| conceal_state_tr_count(it.transition, keep@);
    let m = b.items.len();
    let mut i: usize = 0;
    let mut n: u64 = 0;
    while i < m
        invariant
            m == s0.len(),
            m < 65536,
            b.items@.len() == m,
            0 <= i <= m,
            fc == (|it: BundleItem| conceal_state_tr_count(it.transition, keep@)),
            forall|j: int| 0 <= j < m ==> item_wf(#[trigger] s0[j]),
            forall|j: int|
                0 <= j < i ==> item_wf(#[trigger] b.items@[j]) && b.items@[j].inputs == s0[j].inputs
                    && b.items@[j].transition.assignments@ == s0[j].transition.assignments@
                    .map_values(|a: Assignment| conceal_state_one(a, keep@)),
            forall|j: int| i <= j < m ==> #[trigger] b.items@[j] == s0[j],
            n == count_sum(s0.take(i as int), fc),
            0 <= n <= i * 65535,
        decreases m - i,
    {
        let mut it = b.items.remove(i);
        let ghost before = b.items@;
        let c = conceal_state_transition(&mut it.transition, keep);
        proof {
            assert(c <= 65535);
            lemma_count_step(s0, fc, i as int);
        }
        n = n + c;
        b.items.insert(i, it);
        proof {
            before.insert_ensures(i as int, it);
            assert forall|j: int| i + 1 <= j < m implies #[trigger] b.items@[j] == s0[j] by {
                assert(b.items@[(j - 1) + 1] == before[j - 1]);
            }
            assert forall|j: int|
                0 <= j < i + 1 implies item_wf(#[trigger] b.items@[j]) && b.items@[j].inputs
                == s0[j].inputs && b.items@[j].transition.assignments@
                == s0[j].transition.assignments@.map_values(
                |a: Assignment| conceal_state_one(a, keep@),
            ) by {
                if j < i {
                    assert(b.items@[j] == before[j]);
                }
            }
        }
        i = i + 1;
    }
    proof {
        lemma_take_all(s0);
    }
    n
}

// --- anchor narrowing and merging ------------------------------------------

/// How many leaves narrowing to `keep` conceals in one proof entry.
pub open spec fn leaf_conceal_count(e: (Vec<u8>, bool), keep: Seq<Vec<u8>>) -> int {
    if e.1 && !id_listed(keep, e.0@) {
        1
    } else {
        0
    }
}

pub open spec fn anchor_conceal_count(a: Anchor, keep: Seq<Vec<u8>>) -> int {
    count_sum(a.proof.entries@, |e: (Vec<u8>, bool)| leaf_conceal_count(e, keep))
}

/// Every requested contract identifier has a leaf in the proof.
pub open spec fn anchor_has_all(a: Anchor, keep: Seq<Vec<u8>>) -> bool {
    forall|i: int| 0 <= i < keep.len() ==> a.proof.as_map().contains_key(#[trigger] id_at(keep, i))
}

/// `na` is `oa` with exactly the leaves outside `keep` concealed.
pub open spec fn anchor_narrowed(na: Anchor, oa: Anchor, keep: Seq<Vec<u8>>) -> bool {
    &&& na.anchor_id == oa.anchor_id
    &&& na.proof.entries@.len() == oa.proof.entries@.len()
    &&& forall|i: int|
        0 <= i < oa.proof.entries@.len() ==> (#[trigger] na.proof.entries@[i]).0
            == oa.proof.entries@[i].0 && na.proof.entries@[i].1 == (oa.proof.entries@[i].1
            && id_listed(keep, key_at(oa.proof.entries@, i)))
}

/// Narrow the anchor's multi-proof to the given contract identifiers.  Fails,
/// leaving the anchor untouched, when a requested identifier has no leaf.
pub fn anchor_conceal_except(a: &mut Anchor, keep: &Vec<Vec<u8>>) -> (r: Result<
    u64,
    LeafNotKnown,
>)
    requires
        anchor_wf(*old(a)),
    ensures
        anchor_wf(*final(a)),
        match r {
            Result::Ok(n) => anchor_has_all(*old(a), keep@) && anchor_narrowed(
                *final(a),
                *old(a),
                keep@,
            ) && n == anchor_conceal_count(*old(a), keep@) && 0 <= n <= old(
                a,
            ).proof.entries@.len(),
            Result::Err(_) => !anchor_has_all(*old(a), keep@) && *final(a) == *old(a),
        },
{
    let kn = keep.len();
    let mut ci: usize = 0;
    while ci < kn
        invariant
            anchor_wf(*a),
            *a == *old(a),
            kn == keep@.len(),
            0 <= ci <= kn,
            forall|j: int| 0 <= j < ci ==> a.proof.as_map().contains_key(#[trigger] id_at(keep@, j)),
        decreases kn - ci,
    {
        if !a.proof.contains(&keep[ci]) {
            proof {
                assert(!a.proof.as_map().contains_key(id_at(keep@, ci as int)));
            }
            return Err(LeafNotKnown {});
        }
        ci = ci + 1;
    }
    let ghost s0 = a.proof.entries@;
    let ghost fc = |e: (Vec<u8>, bool)| leaf_conceal_count(e, keep@);
    let m = a.proof.entries.len();
    let mut i: usize = 0;
    let mut n: u64 = 0;
    while i < m
        invariant
            a.proof.wf(),
            a.anchor_id == old(a).anchor_id,
            anchor_wf(*old(a)),
            s0 == old(a).proof.entries@,
            m == s0.len(),
            m < 65536,
            a.proof.entries@.len() == m,
            0 <= i <= m,
            fc == (|e: (Vec<u8>, bool)| leaf_conceal_count(e, keep@)),
            forall|j: int|
                0 <= j < i ==> (#[trigger] a.proof.entries@[j]).0 == s0[j].0
                    && a.proof.entries@[j].1 == (s0[j].1 && id_listed(keep@, key_at(s0, j))),
            forall|j: int| i <= j < m ==> #[trigger] a.proof.entries@[j] == s0[j],
            n == count_sum(s0.take(i as int), fc),
            0 <= n <= i,
        decreases m - i,
    {
        let keep_leaf = listed(keep, &a.proof.entries[i].0);
        let oldv = a.proof.entries[i].1;
        let newv = oldv && keep_leaf;
        if oldv && !keep_leaf {
            n = n + 1;
        }
        let ghost cur = a.proof.entries@;
        proof {
            assert(cur[i as int] == s0[i as int]);
            lemma_count_step(s0, fc, i as int);
        }
        a.proof.set_value_at(i, newv);
        proof {
            assert forall|j: int|
                0 <= j < i + 1 implies (#[trigger] a.proof.entries@[j]).0 == s0[j].0
                && a.proof.entries@[j].1 == (s0[j].1 && id_listed(keep@, key_at(s0, j))) by {
                if j < i {
                    assert(a.proof.entries@[j] == cur[j]);
                }
            }
            assert forall|j: int|
                0 <= j < a.proof.entries@.len() implies #[trigger] key_at(a.proof.entries@, j)
                == key_at(s0, j) by {
                if j != i {
                    assert(a.proof.entries@[j] == cur[j]);
                }
            }
        }
        i = i + 1;
    }
    proof {
        lemma_take_all(s0);
        assert forall|j: int|
            0 <= j < a.proof.entries@.len() implies #[trigger] key_at(a.proof.entries@, j).len()
            < 65536 by {
            assert(a.proof.entries@[j].0 == s0[j].0);
            assert(key_at(s0, j).len() < 65536);
        }
    }
    Ok(n)
}

/// The union of two proof leaf maps: a leaf is present when either side has
/// it, and revealed when either side reveals it.
pub open spec fn proof_union(a: Map<Seq<u8>, bool>, b: Map<Seq<u8>, bool>) -> Map<Seq<u8>, bool> {
    Map::new(
        |k: Seq<u8>| a.contains_key(k) || b.contains_key(k),
        |k: Seq<u8>| (a.contains_key(k) && a[k]) || (b.contains_key(k) && b[k]),
    )
}

/// Merge another anchor carrying the same identifier, revealing the union of
/// what either anchor revealed.
pub fn anchor_merge_reveal(a: &mut Anchor, other: Anchor)
    requires
        anchor_wf(*old(a)),
        anchor_wf(other),
        old(a).anchor_id@ == other.anchor_id@,
        old(a).proof.spec_len() + other.proof.spec_len() < 65536,
    ensures
        anchor_wf(*final(a)),
        final(a).anchor_id == old(a).anchor_id,
        final(a).proof.as_map() == proof_union(old(a).proof.as_map(), other.proof.as_map()),
        final(a).proof.spec_len() <= old(a).proof.spec_len() + other.proof.spec_len(),
{
    let ghost m0 = old(a).proof.as_map();
    let ghost om = other.proof.as_map();
    let mut rest = other.proof;
    proof {
        lemma_sorted_distinct(rest.entries@);
    }
    while rest.entries.len() > 0
        invariant
            a.proof.wf(),
            a.anchor_id == old(a).anchor_id,
            anchor_wf(*old(a)),
            sorted(rest.entries@),
            forall|j: int| 0 <= j < rest.entries@.len() ==> #[trigger] key_at(rest.entries@, j).len()
                < 65536,
            rest.entries@.len() <= other.proof.spec_len(),
            a.proof.spec_len() + rest.entries@.len() <= old(a).proof.spec_len()
                + other.proof.spec_len(),
            forall|j: int| 0 <= j < a.proof.entries@.len() ==> #[trigger] key_at(
                a.proof.entries@,
                j,
            ).len() < 65536,
            proof_union(a.proof.as_map(), map_of(rest.entries@)) == proof_union(m0, om),
        decreases rest.entries@.len(),
    {
        let ghost r0 = rest.entries@;
        let ghost cm = a.proof.as_map();
        let e = rest.entries.pop().unwrap();
        proof {
            assert(rest.entries@ =~= r0.drop_last());
            lemma_sorted_distinct(r0);
            lemma_map_of_contains(r0.drop_last(), e.0@);
            if crate::ordmap::has_key(r0.drop_last(), e.0@) {
                let j = choose|j: int|
                    0 <= j < r0.drop_last().len() && #[trigger] key_at(r0.drop_last(), j) == e.0@;
                assert(key_at(r0, j) == key_at(r0, r0.len() - 1));
            }
            assert forall|p: int, q: int|
                0 <= p < q < rest.entries@.len() implies crate::bytes::lex_lt(
                #[trigger] key_at(rest.entries@, p),
                #[trigger] key_at(rest.entries@, q),
            ) by {
                assert(key_at(rest.entries@, p) == key_at(r0, p));
                assert(key_at(rest.entries@, q) == key_at(r0, q));
            }
            assert forall|j: int|
                0 <= j < rest.entries@.len() implies #[trigger] key_at(rest.entries@, j).len()
                < 65536 by {
                assert(key_at(rest.entries@, j) == key_at(r0, j));
            }
            assert(key_at(r0, r0.len() - 1).len() < 65536);
        }
        let curv: bool = match a.proof.get(&e.0) {
            Some(b) => *b,
            None => false,
        };
        let ghost ekey = e.0@;
        let ghost ev = e.1;
        let ghost centries = a.proof.entries@;
        let newv = e.1 || curv;
        a.proof.insert(e.0, newv);
        proof {
            assert(map_of(r0) == map_of(r0.drop_last()).insert(ekey, ev));
            assert(proof_union(cm.insert(ekey, newv), map_of(rest.entries@)) =~= proof_union(
                cm,
                map_of(r0),
            ));
            assert forall|j: int|
                0 <= j < a.proof.entries@.len() implies #[trigger] key_at(
                a.proof.entries@,
                j,
            ).len() < 65536 by {
                let k = key_at(a.proof.entries@, j);
                lemma_map_of_contains(a.proof.entries@, k);
                assert(crate::ordmap::has_key(a.proof.entries@, k));
                assert(a.proof.as_map().contains_key(k));
                if k != ekey {
                    assert(cm.contains_key(k));
                    lemma_map_of_contains(centries, k);
                    let jj = choose|jj: int|
                        0 <= jj < centries.len() && #[trigger] key_at(centries, jj) == k;
                    assert(key_at(centries, jj).len() < 65536);
                }
            }
        }
    }
    proof {
        assert(map_of(rest.entries@) =~= Map::<Seq<u8>, bool>::empty());
        assert(proof_union(a.proof.as_map(), Map::<Seq<u8>, bool>::empty()) =~= a.proof.as_map());
    }
}

} // verus!
