//! Binary serialization of the whole aggregate.
//!
//! The at-rest form extends the commitment preimage with the comment and the
//! signature map, in the same length-prefixed style.  Decoding is strict and
//! complete: an input is accepted exactly when it is, byte for byte, the
//! full encoding of a well-formed aggregate — the decoder's contracts state
//! both directions.  Internally every parser carries a ghost witness: when
//! the caller knows the input holds an encoding, the parser promises to
//! accept it and to stop exactly at its end.

use vstd::prelude::*;

use vstd::string::StrSliceExecFns;

use crate::bytes::{bytes_eq, lex_cmp};
use crate::disclosure::{anchored_entry_wf, commit_encoding, enc_anchored_entry, enc_ext_entry,
    enc_inner_entry, ext_entry_wf, inner_map_wf, spec_disclosure_id, Disclosure};
use crate::encode::{cat, enc_bytes, enc_list, enc_opt_bytes, enc_u16n, enc_u8, lemma_cat_first,
    lemma_cat_step, lemma_take_all, push_bytes, push_u16, push_u8};
use crate::ordmap::{key_at, lemma_sorted_push, sorted, OrdMap};
use crate::stash::{anchor_wf, assignment_wf, bundle_wf, enc_anchor, enc_assignment, enc_bundle,
    enc_extension, enc_item, enc_proof_entry, enc_transition, extension_wf, item_wf,
    transition_wf, Anchor, Assignment, BundleItem, Extension, Transition, TransitionBundle};

verus! {

/// Encoding of the optional comment: presence flag, then the comment's
/// UTF-8 bytes, length-prefixed.
pub open spec fn enc_comment(c: Option<String>) -> Seq<u8> {
    match c {
        Option::None => seq![0u8],
        Option::Some(s) => seq![1u8] + enc_bytes(vstd::utf8::encode_utf8(s@)),
    }
}

pub open spec fn enc_sig_entry(e: (Vec<u8>, Vec<u8>)) -> Seq<u8> {
    enc_bytes(e.0@) + enc_bytes(e.1@)
}

/// The at-rest form: the commitment preimage, the comment, the signatures.
pub open spec fn full_encoding(d: Disclosure) -> Seq<u8> {
    commit_encoding(d) + enc_comment(d.comment) + enc_list(
        d.signatures.entries@,
        |e: (Vec<u8>, Vec<u8>)| enc_sig_entry(e),
    )
}

/// The aggregate fits the encoding's 16-bit counters: well formed, comment
/// bytes and signature entries in range.  Exactly the aggregates that
/// serialize, and whose encodings decode.
pub open spec fn deser_ready(d: Disclosure) -> bool {
    &&& d.wf()
    &&& match d.comment {
        Option::Some(c) => vstd::utf8::encode_utf8(c@).len() < 65536,
        Option::None => true,
    }
    &&& d.signatures.spec_len() < 65536
    &&& forall|i: int|
        0 <= i < d.signatures.entries@.len() ==> (#[trigger] d.signatures.entries@[i]).0@.len()
            < 65536 && d.signatures.entries@[i].1@.len() < 65536
}

/// Relies on String::from_utf8: it accepts exactly the valid UTF-8 byte
/// strings and returns the string those bytes spell; in particular the
/// UTF-8 encoding of any string is accepted.
#[verifier::external_body]
fn bytes_to_string(b: Vec<u8>) -> (r: Option<String>)
    ensures
        (r matches Some(s) ==> vstd::utf8::encode_utf8(s@) == b@),
        (forall|s: Seq<char>| b@ == #[trigger] vstd::utf8::encode_utf8(s) ==> r is Some),
{
    String::from_utf8(b).ok()
}

impl Disclosure {
    /// Serialize the whole aggregate, signatures and comment included.
    pub fn serialize_full(&self) -> (out: Vec<u8>)
        requires
            deser_ready(*self),
        ensures
            out@ == full_encoding(*self),
    {
        let ghost fs = |e: (Vec<u8>, Vec<u8>)| enc_sig_entry(e);
        let mut out = self.commit_serialize();
        match &self.comment {
            None => {
                push_u8(&mut out, 0);
            },
            Some(c) => {
                push_u8(&mut out, 1);
                let cb = c.as_str().as_bytes_vec();
                push_bytes(&mut out, &cb);
            },
        }
        let n = self.signatures.entries.len();
        push_u16(&mut out, n as u16);
        let ghost mid = out@;
        let mut i: usize = 0;
        while i < n
            invariant
                n == self.signatures.entries@.len(),
                0 <= i <= n,
                forall|j: int|
                    0 <= j < n ==> (#[trigger] self.signatures.entries@[j]).0@.len() < 65536
                        && self.signatures.entries@[j].1@.len() < 65536,
                fs == (|e: (Vec<u8>, Vec<u8>)| enc_sig_entry(e)),
                out@ == mid + cat(self.signatures.entries@.take(i as int), fs),
            decreases n - i,
        {
            push_bytes(&mut out, &self.signatures.entries[i].0);
            push_bytes(&mut out, &self.signatures.entries[i].1);
            proof {
                lemma_cat_step(self.signatures.entries@, fs, i as int);
                assert(out@ =~= mid + cat(self.signatures.entries@.take(i + 1), fs));
            }
            i = i + 1;
        }
        proof {
            lemma_take_all(self.signatures.entries@);
            assert(out@ =~= full_encoding(*self));
        }
        out
    }
}

// --- strict parsers --------------------------------------------------------
//
// Every parser returns the parsed value with the position after it; its
// contract says the consumed bytes are exactly the value's encoding, and,
// when the ghost witness names a value whose encoding sits at `pos`, that
// the parse succeeds and ends exactly after it.

fn parse_u8(b: &Vec<u8>, pos: usize, w: Ghost<Option<u8>>) -> (r: Option<(u8, usize)>)
    requires
        pos <= b@.len(),
        (w@ matches Some(x) ==> pos + 1 <= b@.len() && b@.subrange(pos as int, pos + 1) == enc_u8(
            x,
        )),
    ensures
        (r matches Some(p) ==> p.1 == pos + 1 && p.1 <= b@.len() && b@.subrange(
            pos as int,
            p.1 as int,
        ) == enc_u8(p.0)),
        (w@ matches Some(x) ==> (r matches Some(p) && p.0 == x)),
{
    if b.len() - pos < 1 {
        return None;
    }
    let v = b[pos];
    proof {
        assert(b@.subrange(pos as int, pos + 1) =~= enc_u8(v));
        match w@ {
            Option::Some(x) => {
                assert(enc_u8(v)[0] == enc_u8(x)[0]);
            },
            Option::None => {},
        }
    }
    Some((v, pos + 1))
}

fn parse_u16(b: &Vec<u8>, pos: usize, w: Ghost<Option<u16>>) -> (r: Option<(u16, usize)>)
    requires
        pos <= b@.len(),
        (w@ matches Some(x) ==> pos + 2 <= b@.len() && b@.subrange(pos as int, pos + 2)
            == enc_u16n(x as int)),
    ensures
        (r matches Some(p) ==> p.1 == pos + 2 && p.1 <= b@.len() && b@.subrange(
            pos as int,
            p.1 as int,
        ) == enc_u16n(p.0 as int)),
        (w@ matches Some(x) ==> (r matches Some(p) && p.0 == x)),
{
    if b.len() - pos < 2 {
        return None;
    }
    let lo = b[pos];
    let hi = b[pos + 1];
    let v: u16 = lo as u16 + 256 * (hi as u16);
    proof {
        assert((lo as int + 256 * (hi as int)) % 256 == lo as int && (lo as int + 256 * (
        hi as int)) / 256 % 256 == hi as int) by (nonlinear_arith)
            requires
                0 <= (lo as int),
                (lo as int) < 256,
                0 <= (hi as int),
                (hi as int) < 256,
        ;
        assert(b@.subrange(pos as int, pos + 2) =~= enc_u16n(v as int));
        match w@ {
            Option::Some(x) => {
                assert(enc_u16n(v as int)[0] == enc_u16n(x as int)[0]);
                assert(enc_u16n(v as int)[1] == enc_u16n(x as int)[1]);
                assert((x as int) % 256 + 256 * (((x as int) / 256) % 256) == x as int)
                    by (nonlinear_arith)
                    requires
                        0 <= (x as int),
                        (x as int) < 65536,
                ;
                assert((v as int) % 256 + 256 * (((v as int) / 256) % 256) == v as int)
                    by (nonlinear_arith)
                    requires
                        0 <= (v as int),
                        (v as int) < 65536,
                ;
                assert(v == x);
            },
            Option::None => {},
        }
    }
    Some((v, pos + 2))
}

fn parse_bytes(b: &Vec<u8>, pos: usize, w: Ghost<Option<Seq<u8>>>) -> (r: Option<
    (Vec<u8>, usize),
>)
    requires
        pos <= b@.len(),
        (w@ matches Some(x) ==> x.len() < 65536 && pos + 2 + x.len() <= b@.len() && b@.subrange(
            pos as int,
            pos + 2 + x.len(),
        ) == enc_bytes(x)),
    ensures
        (r matches Some(p) ==> pos <= p.1 <= b@.len() && b@.subrange(pos as int, p.1 as int)
            == enc_bytes(p.0@) && p.0@.len() < 65536),
        (w@ matches Some(x) ==> (r matches Some(p) && p.0@ == x && p.1 == pos + 2 + x.len())),
{
    let ghost wn: Option<u16> = match w@ {
        Option::Some(x) => Option::Some(x.len() as u16),
        Option::None => Option::None,
    };
    proof {
        match w@ {
            Option::Some(x) => {
                assert(enc_bytes(x) == enc_u16n(x.len() as int) + x);
                crate::encode::lemma_split_prefix(b@, pos as int, enc_u16n(x.len() as int), x);
                assert((x.len() as u16) as int == x.len() as int);
            },
            Option::None => {},
        }
    }
    let (n, p1) = match parse_u16(b, pos, Ghost(wn)) {
        Some(t) => t,
        None => {
            return None;
        },
    };
    let nn = n as usize;
    let blen = b.len();
    proof {
        match w@ {
            Option::Some(x) => {
                assert(nn == x.len());
            },
            Option::None => {},
        }
    }
    if blen - p1 < nn {
        return None;
    }
    let mut v: Vec<u8> = Vec::new();
    let mut i: usize = 0;
    while i < nn
        invariant
            blen == b@.len(),
            p1 + nn <= blen,
            0 <= i <= nn,
            v@ == b@.subrange(p1 as int, p1 + i),
        decreases nn - i,
    {
        v.push(b[p1 + i]);
        proof {
            assert(v@ =~= b@.subrange(p1 as int, p1 + i + 1));
        }
        i = i + 1;
    }
    proof {
        assert(b@.subrange(pos as int, (p1 + nn) as int) =~= b@.subrange(pos as int, p1 as int)
            + b@.subrange(p1 as int, (p1 + nn) as int));
        assert(b@.subrange(pos as int, (p1 + nn) as int) =~= enc_bytes(v@));
        match w@ {
            Option::Some(x) => {
                assert(v@ =~= x);
            },
            Option::None => {},
        }
    }
    Some((v, p1 + nn))
}

fn parse_opt_bytes(b: &Vec<u8>, pos: usize, w: Ghost<Option<Option<Vec<u8>>>>) -> (r: Option<
    (Option<Vec<u8>>, usize),
>)
    requires
        pos <= b@.len(),
        (w@ matches Some(x) ==> (match x {
            Option::Some(bb) => bb@.len() < 65536,
            Option::None => true,
        }) && pos + enc_opt_bytes(x).len() <= b@.len() && b@.subrange(
            pos as int,
            pos + enc_opt_bytes(x).len(),
        ) == enc_opt_bytes(x)),
    ensures
        (r matches Some(p) ==> pos <= p.1 <= b@.len() && b@.subrange(pos as int, p.1 as int)
            == enc_opt_bytes(p.0) && match p.0 {
            Option::Some(x) => x@.len() < 65536,
            Option::None => true,
        }),
        (w@ matches Some(x) ==> (r matches Some(p) && p.1 == pos + enc_opt_bytes(x).len())),
{
    let ghost wf8: Option<u8> = match w@ {
        Option::Some(Option::Some(_)) => Option::Some(1u8),
        Option::Some(Option::None) => Option::Some(0u8),
        Option::None => Option::None,
    };
    proof {
        match w@ {
            Option::Some(x) => {
                match x {
                    Option::Some(bb) => {
                        assert(enc_opt_bytes(x) == seq![1u8] + enc_bytes(bb@));
                        crate::encode::lemma_split_prefix(b@, pos as int, seq![1u8], enc_bytes(bb@));
                        assert(b@.subrange(pos as int, pos + 1) =~= enc_u8(1));
                    },
                    Option::None => {
                        assert(b@.subrange(pos as int, pos + 1) =~= enc_u8(0));
                    },
                }
            },
            Option::None => {},
        }
    }
    let (flag, p1) = match parse_u8(b, pos, Ghost(wf8)) {
        Some(t) => t,
        None => {
            return None;
        },
    };
    if flag == 0 {
        proof {
            assert(b@.subrange(pos as int, p1 as int) =~= enc_opt_bytes(Option::<Vec<u8>>::None));
        }
        return Some((None, p1));
    }
    if flag != 1 {
        return None;
    }
    let ghost wb: Option<Seq<u8>> = match w@ {
        Option::Some(Option::Some(bb)) => Option::Some(bb@),
        _ => Option::None,
    };
    proof {
        match w@ {
            Option::Some(x) => {
                match x {
                    Option::Some(bb) => {
                        assert(enc_bytes(bb@).len() == 2 + bb@.len());
                        assert(b@.subrange(p1 as int, p1 + 2 + bb@.len()) == enc_bytes(bb@));
                    },
                    Option::None => {},
                }
            },
            Option::None => {},
        }
    }
    let (v, p2) = match parse_bytes(b, p1, Ghost(wb)) {
        Some(t) => t,
        None => {
            return None;
        },
    };
    proof {
        assert(b@.subrange(pos as int, p2 as int) =~= b@.subrange(pos as int, p1 as int)
            + b@.subrange(p1 as int, p2 as int));
        assert(b@.subrange(pos as int, p2 as int) =~= enc_opt_bytes(Option::Some(v)));
    }
    Some((Some(v), p2))
}

fn parse_assignment(b: &Vec<u8>, pos: usize, w: Ghost<Option<Assignment>>) -> (r: Option<
    (Assignment, usize),
>)
    requires
        pos <= b@.len(),
        (w@ matches Some(x) ==> assignment_wf(x) && pos + enc_assignment(x).len() <= b@.len()
            && b@.subrange(pos as int, pos + enc_assignment(x).len()) == enc_assignment(x)),
    ensures
        (r matches Some(p) ==> pos <= p.1 <= b@.len() && b@.subrange(pos as int, p.1 as int)
            == enc_assignment(p.0) && assignment_wf(p.0)),
        (w@ matches Some(x) ==> (r matches Some(p) && p.1 == pos + enc_assignment(x).len())),
{
    let ghost w1: Option<Seq<u8>> = match w@ {
        Option::Some(x) => Option::Some(x.seal@),
        Option::None => Option::None,
    };
    proof {
        match w@ {
            Option::Some(x) => {
                let a1 = enc_bytes(x.seal@);
                let a2 = enc_opt_bytes(x.seal_payload);
                let a3 = enc_opt_bytes(x.state_payload);
                assert(enc_assignment(x) =~= a1 + (a2 + a3));
                crate::encode::lemma_split_prefix(b@, pos as int, a1, a2 + a3);
                crate::encode::lemma_split_prefix(b@, pos + a1.len(), a2, a3);
                assert(b@.subrange(pos as int, pos + 2 + x.seal@.len()) == enc_bytes(x.seal@));
            },
            Option::None => {},
        }
    }
    let (seal, p1) = match parse_bytes(b, pos, Ghost(w1)) {
        Some(t) => t,
        None => {
            return None;
        },
    };
    let ghost w2: Option<Option<Vec<u8>>> = match w@ {
        Option::Some(x) => Option::Some(x.seal_payload),
        Option::None => Option::None,
    };
    proof {
        match w@ {
            Option::Some(x) => {
                assert(b@.subrange(p1 as int, p1 + enc_opt_bytes(x.seal_payload).len())
                    == enc_opt_bytes(x.seal_payload));
            },
            Option::None => {},
        }
    }
    let (sp, p2) = match parse_opt_bytes(b, p1, Ghost(w2)) {
        Some(t) => t,
        None => {
            return None;
        },
    };
    let ghost w3: Option<Option<Vec<u8>>> = match w@ {
        Option::Some(x) => Option::Some(x.state_payload),
        Option::None => Option::None,
    };
    proof {
        match w@ {
            Option::Some(x) => {
                assert(b@.subrange(p2 as int, p2 + enc_opt_bytes(x.state_payload).len())
                    == enc_opt_bytes(x.state_payload));
            },
            Option::None => {},
        }
    }
    let (st, p3) = match parse_opt_bytes(b, p2, Ghost(w3)) {
        Some(t) => t,
        None => {
            return None;
        },
    };
    let a = Assignment { seal, seal_payload: sp, state_payload: st };
    proof {
        assert(b@.subrange(pos as int, p3 as int) =~= b@.subrange(pos as int, p1 as int)
            + b@.subrange(p1 as int, p2 as int) + b@.subrange(p2 as int, p3 as int));
        assert(b@.subrange(pos as int, p3 as int) =~= enc_assignment(a));
    }
    Some((a, p3))
}

#[verifier::rlimit(80)]
fn parse_transition(b: &Vec<u8>, pos: usize, w: Ghost<Option<Transition>>) -> (r: Option<
    (Transition, usize),
>)
    requires
        pos <= b@.len(),
        (w@ matches Some(x) ==> transition_wf(x) && pos + enc_transition(x).len() <= b@.len()
            && b@.subrange(pos as int, pos + enc_transition(x).len()) == enc_transition(x)),
    ensures
        (r matches Some(p) ==> pos <= p.1 <= b@.len() && b@.subrange(pos as int, p.1 as int)
            == enc_transition(p.0) && transition_wf(p.0)),
        (w@ matches Some(x) ==> (r matches Some(p) && p.1 == pos + enc_transition(x).len())),
{
    let ghost f = |a: Assignment| enc_assignment(a);
    let ghost wn: Option<u16> = match w@ {
        Option::Some(x) => Option::Some(x.assignments@.len() as u16),
        Option::None => Option::None,
    };
    proof {
        match w@ {
            Option::Some(x) => {
                assert(b@.subrange(pos as int, pos + 2) =~= enc_u16n(x.assignments@.len() as int));
            },
            Option::None => {},
        }
    }
    let (n, p1) = match parse_u16(b, pos, Ghost(wn)) {
        Some(t) => t,
        None => {
            return None;
        },
    };
    let nn = n as usize;
    let mut v: Vec<Assignment> = Vec::new();
    let mut cur = p1;
    let mut i: usize = 0;
    proof {
        match w@ {
            Option::Some(x) => {
                assert(x.assignments@.skip(0) =~= x.assignments@);
                assert(enc_transition(x) == enc_u16n(x.assignments@.len() as int) + cat(
                    x.assignments@,
                    f,
                ));
                crate::encode::lemma_split_prefix(
                    b@,
                    pos as int,
                    enc_u16n(x.assignments@.len() as int),
                    cat(x.assignments@, f),
                );
            },
            Option::None => {},
        }
    }
    while i < nn
        invariant
            pos <= p1 <= cur <= b@.len(),
            0 <= i <= nn,
            v@.len() == i,
            f == (|a: Assignment| enc_assignment(a)),
            b@.subrange(p1 as int, cur as int) == cat(v@, f),
            forall|j: int| 0 <= j < v@.len() ==> assignment_wf(#[trigger] v@[j]),
            (w@ matches Some(x) ==> transition_wf(x) && nn == x.assignments@.len() && cur + cat(
                x.assignments@.skip(i as int),
                f,
            ).len() == pos + enc_transition(x).len() && pos + enc_transition(x).len() <= b@.len()
                && b@.subrange(cur as int, cur + cat(x.assignments@.skip(i as int), f).len())
                == cat(x.assignments@.skip(i as int), f)),
        decreases nn - i,
    {
        let ghost wa: Option<Assignment> = match w@ {
            Option::Some(x) => Option::Some(x.assignments@[i as int]),
            Option::None => Option::None,
        };
        proof {
            match w@ {
                Option::Some(x) => {
                    let rem = x.assignments@.skip(i as int);
                    assert(rem.len() > 0);
                    lemma_cat_first(rem, f);
                    assert(rem[0] == x.assignments@[i as int]);
                    assert(rem.skip(1) =~= x.assignments@.skip(i as int + 1));
                    assert(assignment_wf(x.assignments@[i as int]));
                    assert(cat(rem, f) == f(x.assignments@[i as int]) + cat(
                        x.assignments@.skip(i as int + 1),
                        f,
                    ));
                    crate::encode::lemma_split_prefix(
                        b@,
                        cur as int,
                        f(x.assignments@[i as int]),
                        cat(x.assignments@.skip(i as int + 1), f),
                    );
                },
                Option::None => {},
            }
        }
        let (a, p2) = match parse_assignment(b, cur, Ghost(wa)) {
            Some(t) => t,
            None => {
                return None;
            },
        };
        proof {
            assert(b@.subrange(p1 as int, p2 as int) =~= b@.subrange(p1 as int, cur as int)
                + b@.subrange(cur as int, p2 as int));
            assert(v@.push(a).drop_last() =~= v@);
            assert(b@.subrange(p1 as int, p2 as int) =~= cat(v@.push(a), f));

        }
        v.push(a);
        cur = p2;
        i = i + 1;
    }
    let t = Transition { assignments: v };
    proof {
        assert(b@.subrange(pos as int, cur as int) =~= b@.subrange(pos as int, p1 as int)
            + b@.subrange(p1 as int, cur as int));
        assert(b@.subrange(pos as int, cur as int) =~= enc_transition(t));
        match w@ {
            Option::Some(x) => {
                assert(x.assignments@.skip(nn as int) =~= Seq::<Assignment>::empty());
            },
            Option::None => {},
        }
    }
    Some((t, cur))
}

#[verifier::rlimit(80)]
fn parse_inputs(b: &Vec<u8>, pos: usize, w: Ghost<Option<Vec<u16>>>) -> (r: Option<
    (Vec<u16>, usize),
>)
    requires
        pos <= b@.len(),
        (w@ matches Some(x) ==> x@.len() < 65536 && pos + enc_list(
            x@,
            |y: u16| enc_u16n(y as int),
        ).len() <= b@.len() && b@.subrange(
            pos as int,
            pos + enc_list(x@, |y: u16| enc_u16n(y as int)).len(),
        ) == enc_list(x@, |y: u16| enc_u16n(y as int))),
    ensures
        (r matches Some(p) ==> pos <= p.1 <= b@.len() && b@.subrange(pos as int, p.1 as int)
            == enc_list(p.0@, |y: u16| enc_u16n(y as int)) && p.0@.len() < 65536),
        (w@ matches Some(x) ==> (r matches Some(p) && p.1 == pos + enc_list(
            x@,
            |y: u16| enc_u16n(y as int),
        ).len())),
{
    let ghost f = |y: u16| enc_u16n(y as int);
    let ghost wn: Option<u16> = match w@ {
        Option::Some(x) => Option::Some(x@.len() as u16),
        Option::None => Option::None,
    };
    proof {
        match w@ {
            Option::Some(x) => {
                assert(b@.subrange(pos as int, pos + 2) =~= enc_u16n(x@.len() as int));
            },
            Option::None => {},
        }
    }
    let (n, p1) = match parse_u16(b, pos, Ghost(wn)) {
        Some(t) => t,
        None => {
            return None;
        },
    };
    let nn = n as usize;
    let mut v: Vec<u16> = Vec::new();
    let mut cur = p1;
    let mut i: usize = 0;
    proof {
        match w@ {
            Option::Some(x) => {
                assert(x@.skip(0) =~= x@);
                assert(enc_list(x@, f) == enc_u16n(x@.len() as int) + cat(x@, f));
                crate::encode::lemma_split_prefix(
                    b@,
                    pos as int,
                    enc_u16n(x@.len() as int),
                    cat(x@, f),
                );
            },
            Option::None => {},
        }
    }
    while i < nn
        invariant
            pos <= p1 <= cur <= b@.len(),
            0 <= i <= nn,
            nn < 65536,
            v@.len() == i,
            f == (|y: u16| enc_u16n(y as int)),
            b@.subrange(p1 as int, cur as int) == cat(v@, f),
            (w@ matches Some(x) ==> nn == x@.len() && cur + cat(x@.skip(i as int), f).len() == pos
                + enc_list(x@, f).len() && pos + enc_list(x@, f).len() <= b@.len() && b@.subrange(
                cur as int,
                cur + cat(x@.skip(i as int), f).len(),
            ) == cat(x@.skip(i as int), f)),
        decreases nn - i,
    {
        let ghost wy: Option<u16> = match w@ {
            Option::Some(x) => Option::Some(x@[i as int]),
            Option::None => Option::None,
        };
        proof {
            match w@ {
                Option::Some(x) => {
                    let rem = x@.skip(i as int);
                    assert(rem.len() > 0);
                    lemma_cat_first(rem, f);
                    assert(rem[0] == x@[i as int]);
                    assert(rem.skip(1) =~= x@.skip(i as int + 1));
                    assert(cat(rem, f) == f(x@[i as int]) + cat(x@.skip(i as int + 1), f));
                    crate::encode::lemma_split_prefix(
                        b@,
                        cur as int,
                        f(x@[i as int]),
                        cat(x@.skip(i as int + 1), f),
                    );
                    assert(f(x@[i as int]).len() == 2);
                },
                Option::None => {},
            }
        }
        let (y, p2) = match parse_u16(b, cur, Ghost(wy)) {
            Some(t) => t,
            None => {
                return None;
            },
        };
        proof {
            assert(b@.subrange(p1 as int, p2 as int) =~= b@.subrange(p1 as int, cur as int)
                + b@.subrange(cur as int, p2 as int));
            assert(v@.push(y).drop_last() =~= v@);
            assert(b@.subrange(p1 as int, p2 as int) =~= cat(v@.push(y), f));

        }
        v.push(y);
        cur = p2;
        i = i + 1;
    }
    proof {
        assert(b@.subrange(pos as int, cur as int) =~= b@.subrange(pos as int, p1 as int)
            + b@.subrange(p1 as int, cur as int));
        assert(b@.subrange(pos as int, cur as int) =~= enc_list(v@, f));
        match w@ {
            Option::Some(x) => {
                assert(x@.skip(nn as int) =~= Seq::<u16>::empty());
            },
            Option::None => {},
        }
    }
    Some((v, cur))
}

fn parse_item(b: &Vec<u8>, pos: usize, w: Ghost<Option<BundleItem>>) -> (r: Option<
    (BundleItem, usize),
>)
    requires
        pos <= b@.len(),
        (w@ matches Some(x) ==> item_wf(x) && pos + enc_item(x).len() <= b@.len() && b@.subrange(
            pos as int,
            pos + enc_item(x).len(),
        ) == enc_item(x)),
    ensures
        (r matches Some(p) ==> pos <= p.1 <= b@.len() && b@.subrange(pos as int, p.1 as int)
            == enc_item(p.0) && item_wf(p.0)),
        (w@ matches Some(x) ==> (r matches Some(p) && p.1 == pos + enc_item(x).len())),
{
    let ghost w1: Option<Transition> = match w@ {
        Option::Some(x) => Option::Some(x.transition),
        Option::None => Option::None,
    };
    proof {
        match w@ {
            Option::Some(x) => {
                assert(enc_item(x) == enc_transition(x.transition) + enc_list(
                    x.inputs@,
                    |y: u16| enc_u16n(y as int),
                ));
                crate::encode::lemma_split_prefix(
                    b@,
                    pos as int,
                    enc_transition(x.transition),
                    enc_list(x.inputs@, |y: u16| enc_u16n(y as int)),
                );
            },
            Option::None => {},
        }
    }
    let (t, p1) = match parse_transition(b, pos, Ghost(w1)) {
        Some(t) => t,
        None => {
            return None;
        },
    };
    let ghost w2: Option<Vec<u16>> = match w@ {
        Option::Some(x) => Option::Some(x.inputs),
        Option::None => Option::None,
    };
    proof {
        match w@ {
            Option::Some(x) => {
                assert(b@.subrange(p1 as int, p1 + enc_list(
                    x.inputs@,
                    |y: u16| enc_u16n(y as int),
                ).len()) == enc_list(x.inputs@, |y: u16| enc_u16n(y as int)));
            },
            Option::None => {},
        }
    }
    let (inputs, p2) = match parse_inputs(b, p1, Ghost(w2)) {
        Some(t) => t,
        None => {
            return None;
        },
    };
    let it = BundleItem { transition: t, inputs };
    proof {
        assert(b@.subrange(pos as int, p2 as int) =~= b@.subrange(pos as int, p1 as int)
            + b@.subrange(p1 as int, p2 as int));
        assert(b@.subrange(pos as int, p2 as int) =~= enc_item(it));
    }
    Some((it, p2))
}

#[verifier::rlimit(80)]
fn parse_bundle(b: &Vec<u8>, pos: usize, w: Ghost<Option<TransitionBundle>>) -> (r: Option<
    (TransitionBundle, usize),
>)
    requires
        pos <= b@.len(),
        (w@ matches Some(x) ==> bundle_wf(x) && pos + enc_bundle(x).len() <= b@.len()
            && b@.subrange(pos as int, pos + enc_bundle(x).len()) == enc_bundle(x)),
    ensures
        (r matches Some(p) ==> pos <= p.1 <= b@.len() && b@.subrange(pos as int, p.1 as int)
            == enc_bundle(p.0) && bundle_wf(p.0)),
        (w@ matches Some(x) ==> (r matches Some(p) && p.1 == pos + enc_bundle(x).len())),
{
    let ghost f = |it: BundleItem| enc_item(it);
    let ghost wn: Option<u16> = match w@ {
        Option::Some(x) => Option::Some(x.items@.len() as u16),
        Option::None => Option::None,
    };
    proof {
        match w@ {
            Option::Some(x) => {
                assert(b@.subrange(pos as int, pos + 2) =~= enc_u16n(x.items@.len() as int));
            },
            Option::None => {},
        }
    }
    let (n, p1) = match parse_u16(b, pos, Ghost(wn)) {
        Some(t) => t,
        None => {
            return None;
        },
    };
    let nn = n as usize;
    let mut v: Vec<BundleItem> = Vec::new();
    let mut cur = p1;
    let mut i: usize = 0;
    proof {
        match w@ {
            Option::Some(x) => {
                assert(x.items@.skip(0) =~= x.items@);
                assert(enc_bundle(x) == enc_u16n(x.items@.len() as int) + cat(x.items@, f));
                crate::encode::lemma_split_prefix(
                    b@,
                    pos as int,
                    enc_u16n(x.items@.len() as int),
                    cat(x.items@, f),
                );
            },
            Option::None => {},
        }
    }
    while i < nn
        invariant
            pos <= p1 <= cur <= b@.len(),
            0 <= i <= nn,
            v@.len() == i,
            f == (|it: BundleItem| enc_item(it)),
            b@.subrange(p1 as int, cur as int) == cat(v@, f),
            forall|j: int| 0 <= j < v@.len() ==> item_wf(#[trigger] v@[j]),
            (w@ matches Some(x) ==> bundle_wf(x) && nn == x.items@.len() && cur + cat(
                x.items@.skip(i as int),
                f,
            ).len() == pos + enc_bundle(x).len() && pos + enc_bundle(x).len() <= b@.len()
                && b@.subrange(cur as int, cur + cat(x.items@.skip(i as int), f).len()) == cat(
                x.items@.skip(i as int),
                f,
            )),
        decreases nn - i,
    {
        let ghost wi: Option<BundleItem> = match w@ {
            Option::Some(x) => Option::Some(x.items@[i as int]),
            Option::None => Option::None,
        };
        proof {
            match w@ {
                Option::Some(x) => {
                    let rem = x.items@.skip(i as int);
                    assert(rem.len() > 0);
                    lemma_cat_first(rem, f);
                    assert(rem[0] == x.items@[i as int]);
                    assert(rem.skip(1) =~= x.items@.skip(i as int + 1));
                    assert(item_wf(x.items@[i as int]));
                    assert(cat(rem, f) == f(x.items@[i as int]) + cat(
                        x.items@.skip(i as int + 1),
                        f,
                    ));
                    crate::encode::lemma_split_prefix(
                        b@,
                        cur as int,
                        f(x.items@[i as int]),
                        cat(x.items@.skip(i as int + 1), f),
                    );
                },
                Option::None => {},
            }
        }
        let (it, p2) = match parse_item(b, cur, Ghost(wi)) {
            Some(t) => t,
            None => {
                return None;
            },
        };
        proof {
            assert(b@.subrange(p1 as int, p2 as int) =~= b@.subrange(p1 as int, cur as int)
                + b@.subrange(cur as int, p2 as int));
            assert(v@.push(it).drop_last() =~= v@);
            assert(b@.subrange(p1 as int, p2 as int) =~= cat(v@.push(it), f));

        }
        v.push(it);
        cur = p2;
        i = i + 1;
    }
    let bu = TransitionBundle { items: v };
    proof {
        assert(b@.subrange(pos as int, cur as int) =~= b@.subrange(pos as int, p1 as int)
            + b@.subrange(p1 as int, cur as int));
        assert(b@.subrange(pos as int, cur as int) =~= enc_bundle(bu));
        match w@ {
            Option::Some(x) => {
                assert(x.items@.skip(nn as int) =~= Seq::<BundleItem>::empty());
            },
            Option::None => {},
        }
    }
    Some((bu, cur))
}

#[verifier::rlimit(80)]
fn parse_proof(b: &Vec<u8>, pos: usize, w: Ghost<Option<OrdMap<bool>>>) -> (r: Option<
    (OrdMap<bool>, usize),
>)
    requires
        pos <= b@.len(),
        (w@ matches Some(x) ==> x.wf() && x.spec_len() < 65536 && (forall|j: int|
            0 <= j < x.entries@.len() ==> #[trigger] key_at(x.entries@, j).len() < 65536) && pos
            + enc_list(x.entries@, |e: (Vec<u8>, bool)| enc_proof_entry(e)).len() <= b@.len()
            && b@.subrange(
            pos as int,
            pos + enc_list(x.entries@, |e: (Vec<u8>, bool)| enc_proof_entry(e)).len(),
        ) == enc_list(x.entries@, |e: (Vec<u8>, bool)| enc_proof_entry(e))),
    ensures
        (r matches Some(p) ==> pos <= p.1 <= b@.len() && b@.subrange(pos as int, p.1 as int)
            == enc_list(p.0.entries@, |e: (Vec<u8>, bool)| enc_proof_entry(e)) && p.0.wf()
            && p.0.spec_len() < 65536 && forall|j: int|
            0 <= j < p.0.entries@.len() ==> #[trigger] key_at(p.0.entries@, j).len() < 65536),
        (w@ matches Some(x) ==> (r matches Some(p) && p.1 == pos + enc_list(
            x.entries@,
            |e: (Vec<u8>, bool)| enc_proof_entry(e),
        ).len())),
{
    let ghost f = |e: (Vec<u8>, bool)| enc_proof_entry(e);
    let ghost wn: Option<u16> = match w@ {
        Option::Some(x) => Option::Some(x.entries@.len() as u16),
        Option::None => Option::None,
    };
    proof {
        match w@ {
            Option::Some(x) => {
                assert(x.entries@.skip(0) =~= x.entries@);
                assert(enc_list(x.entries@, f) == enc_u16n(x.entries@.len() as int) + cat(
                    x.entries@,
                    f,
                ));
                crate::encode::lemma_split_prefix(
                    b@,
                    pos as int,
                    enc_u16n(x.entries@.len() as int),
                    cat(x.entries@, f),
                );
            },
            Option::None => {},
        }
    }
    let (n, p1) = match parse_u16(b, pos, Ghost(wn)) {
        Some(t) => t,
        None => {
            return None;
        },
    };
    let nn = n as usize;
    let mut es: Vec<(Vec<u8>, bool)> = Vec::new();
    let mut cur = p1;
    let mut i: usize = 0;
    while i < nn
        invariant
            pos <= p1 <= cur <= b@.len(),
            0 <= i <= nn,
            nn < 65536,
            es@.len() == i,
            f == (|e: (Vec<u8>, bool)| enc_proof_entry(e)),
            b@.subrange(p1 as int, cur as int) == cat(es@, f),
            sorted(es@),
            forall|j: int| 0 <= j < es@.len() ==> #[trigger] key_at(es@, j).len() < 65536,
            (w@ matches Some(x) ==> x.wf() && nn == x.entries@.len() && (forall|j: int|
                0 <= j < x.entries@.len() ==> #[trigger] key_at(x.entries@, j).len() < 65536)
                && cur + cat(x.entries@.skip(i as int), f).len() == pos + enc_list(
                x.entries@,
                f,
            ).len() && pos + enc_list(x.entries@, f).len() <= b@.len() && b@.subrange(
                cur as int,
                cur + cat(x.entries@.skip(i as int), f).len(),
            ) == cat(x.entries@.skip(i as int), f) && (i > 0 ==> es@[i - 1].0@ == key_at(
                x.entries@,
                i - 1,
            ))),
        decreases nn - i,
    {
        let ghost wk: Option<Seq<u8>> = match w@ {
            Option::Some(x) => Option::Some(key_at(x.entries@, i as int)),
            Option::None => Option::None,
        };
        let ghost wfb: Option<u8> = match w@ {
            Option::Some(x) => Option::Some(
                if x.entries@[i as int].1 {
                    1u8
                } else {
                    0u8
                },
            ),
            Option::None => Option::None,
        };
        proof {
            match w@ {
                Option::Some(x) => {
                    let rem = x.entries@.skip(i as int);
                    assert(rem.len() > 0);
                    lemma_cat_first(rem, f);
                    assert(rem[0] == x.entries@[i as int]);
                    assert(rem.skip(1) =~= x.entries@.skip(i as int + 1));
                    assert(cat(rem, f) == f(x.entries@[i as int]) + cat(
                        x.entries@.skip(i as int + 1),
                        f,
                    ));
                    crate::encode::lemma_split_prefix(
                        b@,
                        cur as int,
                        f(x.entries@[i as int]),
                        cat(x.entries@.skip(i as int + 1), f),
                    );
                    let fb = if x.entries@[i as int].1 {
                        1u8
                    } else {
                        0u8
                    };
                    assert(f(x.entries@[i as int]) == enc_bytes(key_at(x.entries@, i as int))
                        + seq![fb]);
                    crate::encode::lemma_split_prefix(
                        b@,
                        cur as int,
                        enc_bytes(key_at(x.entries@, i as int)),
                        seq![fb],
                    );
                    assert(key_at(x.entries@, i as int).len() < 65536);
                },
                Option::None => {},
            }
        }
        let (k, p2) = match parse_bytes(b, cur, Ghost(wk)) {
            Some(t) => t,
            None => {
                return None;
            },
        };
        proof {
            match w@ {
                Option::Some(x) => {
                    let fb = if x.entries@[i as int].1 {
                        1u8
                    } else {
                        0u8
                    };
                    assert(b@.subrange(p2 as int, p2 + 1) =~= enc_u8(fb));
                },
                Option::None => {},
            }
        }
        let (flag, p3) = match parse_u8(b, p2, Ghost(wfb)) {
            Some(t) => t,
            None => {
                return None;
            },
        };
        if flag > 1 {
            return None;
        }
        let vb = flag == 1;
        let l = es.len();
        if l > 0 {
            proof {
                match w@ {
                    Option::Some(x) => {
                        assert(crate::bytes::lex_lt(
                            key_at(x.entries@, i as int - 1),
                            key_at(x.entries@, i as int),
                        ));
                    },
                    Option::None => {},
                }
            }
            if lex_cmp(&es[l - 1].0, &k) != 255 {
                return None;
            }
        }
        let ghost ev = (k, vb);
        proof {
            lemma_sorted_push(es@, ev);
            assert(b@.subrange(cur as int, p3 as int) =~= b@.subrange(cur as int, p2 as int)
                + b@.subrange(p2 as int, p3 as int));
            assert(b@.subrange(cur as int, p3 as int) =~= enc_proof_entry(ev));
            assert(b@.subrange(p1 as int, p3 as int) =~= b@.subrange(p1 as int, cur as int)
                + b@.subrange(cur as int, p3 as int));
            assert(es@.push(ev).drop_last() =~= es@);
            assert(b@.subrange(p1 as int, p3 as int) =~= cat(es@.push(ev), f));
            assert forall|j: int| 0 <= j < es@.push(ev).len() implies #[trigger] key_at(
                es@.push(ev),
                j,
            ).len() < 65536 by {
                if j < es@.len() {
                    assert(key_at(es@.push(ev), j) == key_at(es@, j));
                }
            }
            match w@ {
                Option::Some(x) => {
                    assert(enc_proof_entry(ev) == f(x.entries@[i as int]));
                    assert(es@.push(ev)[i as int].0@ == key_at(x.entries@, i as int));
                },
                Option::None => {},
            }
        }
        es.push((k, vb));
        cur = p3;
        i = i + 1;
    }
    let m = OrdMap { entries: es };
    proof {
        assert(b@.subrange(pos as int, cur as int) =~= b@.subrange(pos as int, p1 as int)
            + b@.subrange(p1 as int, cur as int));
        assert(b@.subrange(pos as int, cur as int) =~= enc_list(m.entries@, f));
        match w@ {
            Option::Some(x) => {
                assert(x.entries@.skip(nn as int) =~= Seq::<(Vec<u8>, bool)>::empty());
            },
            Option::None => {},
        }
    }
    Some((m, cur))
}

fn parse_anchor(b: &Vec<u8>, pos: usize, w: Ghost<Option<Anchor>>) -> (r: Option<
    (Anchor, usize),
>)
    requires
        pos <= b@.len(),
        (w@ matches Some(x) ==> anchor_wf(x) && pos + enc_anchor(x).len() <= b@.len()
            && b@.subrange(pos as int, pos + enc_anchor(x).len()) == enc_anchor(x)),
    ensures
        (r matches Some(p) ==> pos <= p.1 <= b@.len() && b@.subrange(pos as int, p.1 as int)
            == enc_anchor(p.0) && anchor_wf(p.0)),
        (w@ matches Some(x) ==> (r matches Some(p) && p.0.anchor_id@ == x.anchor_id@ && p.1 == pos
            + enc_anchor(x).len())),
{
    let ghost w1: Option<Seq<u8>> = match w@ {
        Option::Some(x) => Option::Some(x.anchor_id@),
        Option::None => Option::None,
    };
    let ghost w2: Option<OrdMap<bool>> = match w@ {
        Option::Some(x) => Option::Some(x.proof),
        Option::None => Option::None,
    };
    proof {
        match w@ {
            Option::Some(x) => {
                assert(enc_anchor(x) == enc_bytes(x.anchor_id@) + enc_list(
                    x.proof.entries@,
                    |e: (Vec<u8>, bool)| enc_proof_entry(e),
                ));
                crate::encode::lemma_split_prefix(
                    b@,
                    pos as int,
                    enc_bytes(x.anchor_id@),
                    enc_list(x.proof.entries@, |e: (Vec<u8>, bool)| enc_proof_entry(e)),
                );
            },
            Option::None => {},
        }
    }
    let (id, p1) = match parse_bytes(b, pos, Ghost(w1)) {
        Some(t) => t,
        None => {
            return None;
        },
    };
    let (proof_map, p2) = match parse_proof(b, p1, Ghost(w2)) {
        Some(t) => t,
        None => {
            return None;
        },
    };
    let a = Anchor { anchor_id: id, proof: proof_map };
    proof {
        assert(b@.subrange(pos as int, p2 as int) =~= b@.subrange(pos as int, p1 as int)
            + b@.subrange(p1 as int, p2 as int));
        assert(b@.subrange(pos as int, p2 as int) =~= enc_anchor(a));
    }
    Some((a, p2))
}

#[verifier::rlimit(100)]
fn parse_inner_map(b: &Vec<u8>, pos: usize, w: Ghost<Option<OrdMap<TransitionBundle>>>) -> (r:
    Option<(OrdMap<TransitionBundle>, usize)>)
    requires
        pos <= b@.len(),
        (w@ matches Some(x) ==> inner_map_wf(x) && pos + enc_list(
            x.entries@,
            |e: (Vec<u8>, TransitionBundle)| enc_inner_entry(e),
        ).len() <= b@.len() && b@.subrange(
            pos as int,
            pos + enc_list(x.entries@, |e: (Vec<u8>, TransitionBundle)| enc_inner_entry(e)).len(),
        ) == enc_list(x.entries@, |e: (Vec<u8>, TransitionBundle)| enc_inner_entry(e))),
    ensures
        (r matches Some(p) ==> pos <= p.1 <= b@.len() && b@.subrange(pos as int, p.1 as int)
            == enc_list(p.0.entries@, |e: (Vec<u8>, TransitionBundle)| enc_inner_entry(e))
            && inner_map_wf(p.0)),
        (w@ matches Some(x) ==> (r matches Some(p) && p.1 == pos + enc_list(
            x.entries@,
            |e: (Vec<u8>, TransitionBundle)| enc_inner_entry(e),
        ).len())),
{
    let ghost f = |e: (Vec<u8>, TransitionBundle)| enc_inner_entry(e);
    let ghost wn: Option<u16> = match w@ {
        Option::Some(x) => Option::Some(x.entries@.len() as u16),
        Option::None => Option::None,
    };
    proof {
        match w@ {
            Option::Some(x) => {
                assert(x.entries@.skip(0) =~= x.entries@);
                assert(enc_list(x.entries@, f) == enc_u16n(x.entries@.len() as int) + cat(
                    x.entries@,
                    f,
                ));
                crate::encode::lemma_split_prefix(
                    b@,
                    pos as int,
                    enc_u16n(x.entries@.len() as int),
                    cat(x.entries@, f),
                );
            },
            Option::None => {},
        }
    }
    let (n, p1) = match parse_u16(b, pos, Ghost(wn)) {
        Some(t) => t,
        None => {
            return None;
        },
    };
    let nn = n as usize;
    let mut es: Vec<(Vec<u8>, TransitionBundle)> = Vec::new();
    let mut cur = p1;
    let mut i: usize = 0;
    while i < nn
        invariant
            pos <= p1 <= cur <= b@.len(),
            0 <= i <= nn,
            nn < 65536,
            es@.len() == i,
            f == (|e: (Vec<u8>, TransitionBundle)| enc_inner_entry(e)),
            b@.subrange(p1 as int, cur as int) == cat(es@, f),
            sorted(es@),
            forall|j: int| 0 <= j < es@.len() ==> #[trigger] key_at(es@, j).len() < 65536,
            forall|j: int| 0 <= j < es@.len() ==> bundle_wf((#[trigger] es@[j]).1),
            (w@ matches Some(x) ==> inner_map_wf(x) && nn == x.entries@.len() && cur + cat(
                x.entries@.skip(i as int),
                f,
            ).len() == pos + enc_list(x.entries@, f).len() && pos + enc_list(x.entries@, f).len()
                <= b@.len() && b@.subrange(
                cur as int,
                cur + cat(x.entries@.skip(i as int), f).len(),
            ) == cat(x.entries@.skip(i as int), f) && (i > 0 ==> es@[i - 1].0@ == key_at(
                x.entries@,
                i - 1,
            ))),
        decreases nn - i,
    {
        let ghost wk: Option<Seq<u8>> = match w@ {
            Option::Some(x) => Option::Some(key_at(x.entries@, i as int)),
            Option::None => Option::None,
        };
        let ghost wb: Option<TransitionBundle> = match w@ {
            Option::Some(x) => Option::Some(x.entries@[i as int].1),
            Option::None => Option::None,
        };
        proof {
            match w@ {
                Option::Some(x) => {
                    let rem = x.entries@.skip(i as int);
                    assert(rem.len() > 0);
                    lemma_cat_first(rem, f);
                    assert(rem[0] == x.entries@[i as int]);
                    assert(rem.skip(1) =~= x.entries@.skip(i as int + 1));
                    assert(cat(rem, f) == f(x.entries@[i as int]) + cat(
                        x.entries@.skip(i as int + 1),
                        f,
                    ));
                    crate::encode::lemma_split_prefix(
                        b@,
                        cur as int,
                        f(x.entries@[i as int]),
                        cat(x.entries@.skip(i as int + 1), f),
                    );
                    assert(f(x.entries@[i as int]) == enc_bytes(key_at(x.entries@, i as int))
                        + enc_bundle(x.entries@[i as int].1));
                    crate::encode::lemma_split_prefix(
                        b@,
                        cur as int,
                        enc_bytes(key_at(x.entries@, i as int)),
                        enc_bundle(x.entries@[i as int].1),
                    );
                    assert(key_at(x.entries@, i as int).len() < 65536);
                    assert(bundle_wf(x.entries@[i as int].1));
                },
                Option::None => {},
            }
        }
        let (k, p2) = match parse_bytes(b, cur, Ghost(wk)) {
            Some(t) => t,
            None => {
                return None;
            },
        };
        let (bu, p3) = match parse_bundle(b, p2, Ghost(wb)) {
            Some(t) => t,
            None => {
                return None;
            },
        };
        let l = es.len();
        if l > 0 {
            proof {
                match w@ {
                    Option::Some(x) => {
                        assert(crate::bytes::lex_lt(
                            key_at(x.entries@, i as int - 1),
                            key_at(x.entries@, i as int),
                        ));
                    },
                    Option::None => {},
                }
            }
            if lex_cmp(&es[l - 1].0, &k) != 255 {
                return None;
            }
        }
        let ghost ev = (k, bu);
        proof {
            lemma_sorted_push(es@, ev);
            assert(b@.subrange(cur as int, p3 as int) =~= b@.subrange(cur as int, p2 as int)
                + b@.subrange(p2 as int, p3 as int));
            assert(b@.subrange(cur as int, p3 as int) =~= enc_inner_entry(ev));
            assert(b@.subrange(p1 as int, p3 as int) =~= b@.subrange(p1 as int, cur as int)
                + b@.subrange(cur as int, p3 as int));
            assert(es@.push(ev).drop_last() =~= es@);
            assert(b@.subrange(p1 as int, p3 as int) =~= cat(es@.push(ev), f));
            assert forall|j: int| 0 <= j < es@.push(ev).len() implies #[trigger] key_at(
                es@.push(ev),
                j,
            ).len() < 65536 by {
                if j < es@.len() {
                    assert(key_at(es@.push(ev), j) == key_at(es@, j));
                }
            }
            match w@ {
                Option::Some(x) => {
                    assert(enc_inner_entry(ev) == f(x.entries@[i as int]));
                    assert(es@.push(ev)[i as int].0@ == key_at(x.entries@, i as int));
                },
                Option::None => {},
            }
        }
        es.push((k, bu));
        cur = p3;
        i = i + 1;
    }
    let m = OrdMap { entries: es };
    proof {
        assert(b@.subrange(pos as int, cur as int) =~= b@.subrange(pos as int, p1 as int)
            + b@.subrange(p1 as int, cur as int));
        assert(b@.subrange(pos as int, cur as int) =~= enc_list(m.entries@, f));
        match w@ {
            Option::Some(x) => {
                assert(x.entries@.skip(nn as int) =~= Seq::<(Vec<u8>, TransitionBundle)>::empty());
            },
            Option::None => {},
        }
    }
    Some((m, cur))
}

fn parse_anchored_entry(b: &Vec<u8>, pos: usize, w: Ghost<
    Option<(Vec<u8>, (Anchor, OrdMap<TransitionBundle>))>,
>) -> (r: Option<((Vec<u8>, (Anchor, OrdMap<TransitionBundle>)), usize)>)
    requires
        pos <= b@.len(),
        (w@ matches Some(e) ==> anchored_entry_wf(e) && pos + enc_anchored_entry(e).len()
            <= b@.len() && b@.subrange(pos as int, pos + enc_anchored_entry(e).len())
            == enc_anchored_entry(e)),
    ensures
        (r matches Some(p) ==> pos <= p.1 <= b@.len() && b@.subrange(pos as int, p.1 as int)
            == enc_anchored_entry(p.0) && anchored_entry_wf(p.0)),
        (w@ matches Some(e) ==> (r matches Some(p) && p.0.0@ == e.0@ && p.1 == pos
            + enc_anchored_entry(e).len())),
{
    let ghost fi = |ie: (Vec<u8>, TransitionBundle)| enc_inner_entry(ie);
    let ghost wk: Option<Seq<u8>> = match w@ {
        Option::Some(e) => Option::Some(e.0@),
        Option::None => Option::None,
    };
    let ghost wa: Option<Anchor> = match w@ {
        Option::Some(e) => Option::Some(e.1.0),
        Option::None => Option::None,
    };
    let ghost wm: Option<OrdMap<TransitionBundle>> = match w@ {
        Option::Some(e) => Option::Some(e.1.1),
        Option::None => Option::None,
    };
    proof {
        match w@ {
            Option::Some(e) => {
                let a1 = enc_bytes(e.0@);
                let a2 = enc_anchor(e.1.0);
                let a3 = enc_list(e.1.1.entries@, fi);
                assert(enc_anchored_entry(e) =~= a1 + (a2 + a3));
                crate::encode::lemma_split_prefix(b@, pos as int, a1, a2 + a3);
                crate::encode::lemma_split_prefix(b@, pos + a1.len(), a2, a3);
            },
            Option::None => {},
        }
    }
    let (k, p2) = match parse_bytes(b, pos, Ghost(wk)) {
        Some(t) => t,
        None => {
            return None;
        },
    };
    let (a, p3) = match parse_anchor(b, p2, Ghost(wa)) {
        Some(t) => t,
        None => {
            return None;
        },
    };
    let (im, p4) = match parse_inner_map(b, p3, Ghost(wm)) {
        Some(t) => t,
        None => {
            return None;
        },
    };
    if !bytes_eq(&k, &a.anchor_id) {
        return None;
    }
    let ev = (k, (a, im));
    proof {
        assert(b@.subrange(pos as int, p4 as int) =~= b@.subrange(pos as int, p2 as int)
            + b@.subrange(p2 as int, p3 as int) + b@.subrange(p3 as int, p4 as int));
        assert(b@.subrange(pos as int, p4 as int) =~= enc_anchored_entry(ev));
    }
    Some((ev, p4))
}

#[verifier::rlimit(100)]
fn parse_anchored_entries(b: &Vec<u8>, p1: usize, nn: usize, w: Ghost<
    Option<OrdMap<(Anchor, OrdMap<TransitionBundle>)>>,
>) -> (r: Option<(Vec<(Vec<u8>, (Anchor, OrdMap<TransitionBundle>))>, usize)>)
    requires
        p1 <= b@.len(),
        nn < 65536,
        (w@ matches Some(x) ==> x.wf() && nn == x.entries@.len() && (forall|j: int|
            0 <= j < x.entries@.len() ==> anchored_entry_wf(#[trigger] x.entries@[j])) && p1 + cat(
            x.entries@,
            |e: (Vec<u8>, (Anchor, OrdMap<TransitionBundle>))| enc_anchored_entry(e),
        ).len() <= b@.len() && b@.subrange(
            p1 as int,
            p1 + cat(
                x.entries@,
                |e: (Vec<u8>, (Anchor, OrdMap<TransitionBundle>))| enc_anchored_entry(e),
            ).len(),
        ) == cat(
            x.entries@,
            |e: (Vec<u8>, (Anchor, OrdMap<TransitionBundle>))| enc_anchored_entry(e),
        )),
    ensures
        (r matches Some(p) ==> p1 <= p.1 <= b@.len() && b@.subrange(p1 as int, p.1 as int) == cat(
            p.0@,
            |e: (Vec<u8>, (Anchor, OrdMap<TransitionBundle>))| enc_anchored_entry(e),
        ) && sorted(p.0@) && p.0@.len() == nn && forall|j: int|
            0 <= j < p.0@.len() ==> anchored_entry_wf(#[trigger] p.0@[j])),
        (w@ matches Some(x) ==> (r matches Some(p) && p.1 == p1 + cat(
            x.entries@,
            |e: (Vec<u8>, (Anchor, OrdMap<TransitionBundle>))| enc_anchored_entry(e),
        ).len())),
{
    let ghost f = |e: (Vec<u8>, (Anchor, OrdMap<TransitionBundle>))| enc_anchored_entry(e);
    let mut es: Vec<(Vec<u8>, (Anchor, OrdMap<TransitionBundle>))> = Vec::new();
    let mut cur = p1;
    let mut i: usize = 0;
    proof {
        match w@ {
            Option::Some(x) => {
                assert(x.entries@.skip(0) =~= x.entries@);
            },
            Option::None => {},
        }
    }
    while i < nn
        invariant
            p1 <= cur <= b@.len(),
            0 <= i <= nn,
            nn < 65536,
            es@.len() == i,
            f == (|e: (Vec<u8>, (Anchor, OrdMap<TransitionBundle>))| enc_anchored_entry(e)),
            b@.subrange(p1 as int, cur as int) == cat(es@, f),
            sorted(es@),
            forall|j: int| 0 <= j < es@.len() ==> anchored_entry_wf(#[trigger] es@[j]),
            (w@ matches Some(x) ==> x.wf() && nn == x.entries@.len() && (forall|j: int|
                0 <= j < x.entries@.len() ==> anchored_entry_wf(#[trigger] x.entries@[j])) && cur
                + cat(x.entries@.skip(i as int), f).len() == p1 + cat(x.entries@, f).len() && p1
                + cat(x.entries@, f).len() <= b@.len() && b@.subrange(
                cur as int,
                cur + cat(x.entries@.skip(i as int), f).len(),
            ) == cat(x.entries@.skip(i as int), f) && (i > 0 ==> es@[i - 1].0@ == key_at(
                x.entries@,
                i - 1,
            ))),
        decreases nn - i,
    {
        let ghost we: Option<(Vec<u8>, (Anchor, OrdMap<TransitionBundle>))> = match w@ {
            Option::Some(x) => Option::Some(x.entries@[i as int]),
            Option::None => Option::None,
        };
        proof {
            match w@ {
                Option::Some(x) => {
                    let rem = x.entries@.skip(i as int);
                    assert(rem.len() > 0);
                    lemma_cat_first(rem, f);
                    assert(rem[0] == x.entries@[i as int]);
                    assert(rem.skip(1) =~= x.entries@.skip(i as int + 1));
                    assert(cat(rem, f) == f(x.entries@[i as int]) + cat(
                        x.entries@.skip(i as int + 1),
                        f,
                    ));
                    crate::encode::lemma_split_prefix(
                        b@,
                        cur as int,
                        f(x.entries@[i as int]),
                        cat(x.entries@.skip(i as int + 1), f),
                    );
                    assert(anchored_entry_wf(x.entries@[i as int]));
                },
                Option::None => {},
            }
        }
        let (ev, p2) = match parse_anchored_entry(b, cur, Ghost(we)) {
            Some(t) => t,
            None => {
                return None;
            },
        };
        let l = es.len();
        if l > 0 {
            proof {
                match w@ {
                    Option::Some(x) => {
                        assert(crate::bytes::lex_lt(
                            key_at(x.entries@, i as int - 1),
                            key_at(x.entries@, i as int),
                        ));
                    },
                    Option::None => {},
                }
            }
            if lex_cmp(&es[l - 1].0, &ev.0) != 255 {
                return None;
            }
        }
        proof {
            lemma_sorted_push(es@, ev);
            assert(b@.subrange(p1 as int, p2 as int) =~= b@.subrange(p1 as int, cur as int)
                + b@.subrange(cur as int, p2 as int));
            assert(es@.push(ev).drop_last() =~= es@);
            assert(b@.subrange(p1 as int, p2 as int) =~= cat(es@.push(ev), f));
            match w@ {
                Option::Some(x) => {
                    assert(es@.push(ev)[i as int].0@ == key_at(x.entries@, i as int));
                },
                Option::None => {},
            }
        }
        es.push(ev);
        cur = p2;
        i = i + 1;
    }
    proof {
        match w@ {
            Option::Some(x) => {
                assert(x.entries@.skip(nn as int) =~= Seq::<
                    (Vec<u8>, (Anchor, OrdMap<TransitionBundle>)),
                >::empty());
            },
            Option::None => {},
        }
    }
    Some((es, cur))
}

fn parse_anchored_map(b: &Vec<u8>, pos: usize, w: Ghost<
    Option<OrdMap<(Anchor, OrdMap<TransitionBundle>)>>,
>) -> (r: Option<(OrdMap<(Anchor, OrdMap<TransitionBundle>)>, usize)>)
    requires
        pos <= b@.len(),
        (w@ matches Some(x) ==> x.wf() && x.spec_len() < 65536 && (forall|j: int|
            0 <= j < x.entries@.len() ==> anchored_entry_wf(#[trigger] x.entries@[j])) && pos
            + enc_list(
            x.entries@,
            |e: (Vec<u8>, (Anchor, OrdMap<TransitionBundle>))| enc_anchored_entry(e),
        ).len() <= b@.len() && b@.subrange(
            pos as int,
            pos + enc_list(
                x.entries@,
                |e: (Vec<u8>, (Anchor, OrdMap<TransitionBundle>))| enc_anchored_entry(e),
            ).len(),
        ) == enc_list(
            x.entries@,
            |e: (Vec<u8>, (Anchor, OrdMap<TransitionBundle>))| enc_anchored_entry(e),
        )),
    ensures
        (r matches Some(p) ==> pos <= p.1 <= b@.len() && b@.subrange(pos as int, p.1 as int)
            == enc_list(
            p.0.entries@,
            |e: (Vec<u8>, (Anchor, OrdMap<TransitionBundle>))| enc_anchored_entry(e),
        ) && p.0.wf() && p.0.spec_len() < 65536 && forall|j: int|
            0 <= j < p.0.entries@.len() ==> anchored_entry_wf(#[trigger] p.0.entries@[j])),
        (w@ matches Some(x) ==> (r matches Some(p) && p.1 == pos + enc_list(
            x.entries@,
            |e: (Vec<u8>, (Anchor, OrdMap<TransitionBundle>))| enc_anchored_entry(e),
        ).len())),
{
    let ghost f = |e: (Vec<u8>, (Anchor, OrdMap<TransitionBundle>))| enc_anchored_entry(e);
    let ghost wn: Option<u16> = match w@ {
        Option::Some(x) => Option::Some(x.entries@.len() as u16),
        Option::None => Option::None,
    };
    proof {
        match w@ {
            Option::Some(x) => {
                assert(enc_list(x.entries@, f) == enc_u16n(x.entries@.len() as int) + cat(
                    x.entries@,
                    f,
                ));
                crate::encode::lemma_split_prefix(
                    b@,
                    pos as int,
                    enc_u16n(x.entries@.len() as int),
                    cat(x.entries@, f),
                );
            },
            Option::None => {},
        }
    }
    let (n, p1) = match parse_u16(b, pos, Ghost(wn)) {
        Some(t) => t,
        None => {
            return None;
        },
    };
    let nn = n as usize;
    let (es, cur) = match parse_anchored_entries(b, p1, nn, w) {
        Some(t) => t,
        None => {
            return None;
        },
    };
    let m = OrdMap { entries: es };
    proof {
        assert(b@.subrange(pos as int, cur as int) =~= b@.subrange(pos as int, p1 as int)
            + b@.subrange(p1 as int, cur as int));
        assert(b@.subrange(pos as int, cur as int) =~= enc_list(m.entries@, f));
    }
    Some((m, cur))
}

#[verifier::rlimit(80)]
fn parse_ext_list(b: &Vec<u8>, pos: usize, w: Ghost<Option<Vec<Extension>>>) -> (r: Option<
    (Vec<Extension>, usize),
>)
    requires
        pos <= b@.len(),
        (w@ matches Some(x) ==> x@.len() < 65536 && (forall|j: int|
            0 <= j < x@.len() ==> extension_wf(#[trigger] x@[j])) && pos + enc_list(
            x@,
            |y: Extension| enc_extension(y),
        ).len() <= b@.len() && b@.subrange(
            pos as int,
            pos + enc_list(x@, |y: Extension| enc_extension(y)).len(),
        ) == enc_list(x@, |y: Extension| enc_extension(y))),
    ensures
        (r matches Some(p) ==> pos <= p.1 <= b@.len() && b@.subrange(pos as int, p.1 as int)
            == enc_list(p.0@, |y: Extension| enc_extension(y)) && p.0@.len() < 65536 && forall|
            j: int,
        | 0 <= j < p.0@.len() ==> extension_wf(#[trigger] p.0@[j])),
        (w@ matches Some(x) ==> (r matches Some(p) && p.1 == pos + enc_list(
            x@,
            |y: Extension| enc_extension(y),
        ).len())),
{
    let ghost f = |y: Extension| enc_extension(y);
    let ghost wn: Option<u16> = match w@ {
        Option::Some(x) => Option::Some(x@.len() as u16),
        Option::None => Option::None,
    };
    proof {
        match w@ {
            Option::Some(x) => {
                assert(x@.skip(0) =~= x@);
                assert(enc_list(x@, f) == enc_u16n(x@.len() as int) + cat(x@, f));
                crate::encode::lemma_split_prefix(
                    b@,
                    pos as int,
                    enc_u16n(x@.len() as int),
                    cat(x@, f),
                );
            },
            Option::None => {},
        }
    }
    let (n, p1) = match parse_u16(b, pos, Ghost(wn)) {
        Some(t) => t,
        None => {
            return None;
        },
    };
    let nn = n as usize;
    let mut v: Vec<Extension> = Vec::new();
    let mut cur = p1;
    let mut i: usize = 0;
    while i < nn
        invariant
            pos <= p1 <= cur <= b@.len(),
            0 <= i <= nn,
            nn < 65536,
            v@.len() == i,
            f == (|y: Extension| enc_extension(y)),
            b@.subrange(p1 as int, cur as int) == cat(v@, f),
            forall|j: int| 0 <= j < v@.len() ==> extension_wf(#[trigger] v@[j]),
            (w@ matches Some(x) ==> nn == x@.len() && (forall|j: int|
                0 <= j < x@.len() ==> extension_wf(#[trigger] x@[j])) && cur + cat(
                x@.skip(i as int),
                f,
            ).len() == pos + enc_list(x@, f).len() && pos + enc_list(x@, f).len() <= b@.len()
                && b@.subrange(cur as int, cur + cat(x@.skip(i as int), f).len()) == cat(
                x@.skip(i as int),
                f,
            )),
        decreases nn - i,
    {
        let ghost wp: Option<Seq<u8>> = match w@ {
            Option::Some(x) => Option::Some(x@[i as int].payload@),
            Option::None => Option::None,
        };
        proof {
            match w@ {
                Option::Some(x) => {
                    let rem = x@.skip(i as int);
                    assert(rem.len() > 0);
                    lemma_cat_first(rem, f);
                    assert(rem[0] == x@[i as int]);
                    assert(rem.skip(1) =~= x@.skip(i as int + 1));
                    assert(cat(rem, f) == f(x@[i as int]) + cat(x@.skip(i as int + 1), f));
                    crate::encode::lemma_split_prefix(
                        b@,
                        cur as int,
                        f(x@[i as int]),
                        cat(x@.skip(i as int + 1), f),
                    );
                    assert(extension_wf(x@[i as int]));
                    assert(f(x@[i as int]) == enc_bytes(x@[i as int].payload@));
                },
                Option::None => {},
            }
        }
        let (payload, p2) = match parse_bytes(b, cur, Ghost(wp)) {
            Some(t) => t,
            None => {
                return None;
            },
        };
        let x2 = Extension { payload };
        proof {
            assert(b@.subrange(p1 as int, p2 as int) =~= b@.subrange(p1 as int, cur as int)
                + b@.subrange(cur as int, p2 as int));
            assert(v@.push(x2).drop_last() =~= v@);
            assert(b@.subrange(p1 as int, p2 as int) =~= cat(v@.push(x2), f));
        }
        v.push(x2);
        cur = p2;
        i = i + 1;
    }
    proof {
        assert(b@.subrange(pos as int, cur as int) =~= b@.subrange(pos as int, p1 as int)
            + b@.subrange(p1 as int, cur as int));
        assert(b@.subrange(pos as int, cur as int) =~= enc_list(v@, f));
        match w@ {
            Option::Some(x) => {
                assert(x@.skip(nn as int) =~= Seq::<Extension>::empty());
            },
            Option::None => {},
        }
    }
    Some((v, cur))
}

#[verifier::rlimit(100)]
fn parse_ext_map(b: &Vec<u8>, pos: usize, w: Ghost<Option<OrdMap<Vec<Extension>>>>) -> (r:
    Option<(OrdMap<Vec<Extension>>, usize)>)
    requires
        pos <= b@.len(),
        (w@ matches Some(x) ==> x.wf() && x.spec_len() < 65536 && (forall|j: int|
            0 <= j < x.entries@.len() ==> ext_entry_wf(#[trigger] x.entries@[j])) && pos
            + enc_list(x.entries@, |e: (Vec<u8>, Vec<Extension>)| enc_ext_entry(e)).len()
            <= b@.len() && b@.subrange(
            pos as int,
            pos + enc_list(x.entries@, |e: (Vec<u8>, Vec<Extension>)| enc_ext_entry(e)).len(),
        ) == enc_list(x.entries@, |e: (Vec<u8>, Vec<Extension>)| enc_ext_entry(e))),
    ensures
        (r matches Some(p) ==> pos <= p.1 <= b@.len() && b@.subrange(pos as int, p.1 as int)
            == enc_list(p.0.entries@, |e: (Vec<u8>, Vec<Extension>)| enc_ext_entry(e)) && p.0.wf()
            && p.0.spec_len() < 65536 && forall|j: int|
            0 <= j < p.0.entries@.len() ==> ext_entry_wf(#[trigger] p.0.entries@[j])),
        (w@ matches Some(x) ==> (r matches Some(p) && p.1 == pos + enc_list(
            x.entries@,
            |e: (Vec<u8>, Vec<Extension>)| enc_ext_entry(e),
        ).len())),
{
    let ghost f = |e: (Vec<u8>, Vec<Extension>)| enc_ext_entry(e);
    let ghost fx = |y: Extension| enc_extension(y);
    let ghost wn: Option<u16> = match w@ {
        Option::Some(x) => Option::Some(x.entries@.len() as u16),
        Option::None => Option::None,
    };
    proof {
        match w@ {
            Option::Some(x) => {
                assert(x.entries@.skip(0) =~= x.entries@);
                assert(enc_list(x.entries@, f) == enc_u16n(x.entries@.len() as int) + cat(
                    x.entries@,
                    f,
                ));
                crate::encode::lemma_split_prefix(
                    b@,
                    pos as int,
                    enc_u16n(x.entries@.len() as int),
                    cat(x.entries@, f),
                );
            },
            Option::None => {},
        }
    }
    let (n, p1) = match parse_u16(b, pos, Ghost(wn)) {
        Some(t) => t,
        None => {
            return None;
        },
    };
    let nn = n as usize;
    let mut es: Vec<(Vec<u8>, Vec<Extension>)> = Vec::new();
    let mut cur = p1;
    let mut i: usize = 0;
    while i < nn
        invariant
            pos <= p1 <= cur <= b@.len(),
            0 <= i <= nn,
            nn < 65536,
            es@.len() == i,
            f == (|e: (Vec<u8>, Vec<Extension>)| enc_ext_entry(e)),
            fx == (|y: Extension| enc_extension(y)),
            b@.subrange(p1 as int, cur as int) == cat(es@, f),
            sorted(es@),
            forall|j: int| 0 <= j < es@.len() ==> ext_entry_wf(#[trigger] es@[j]),
            (w@ matches Some(x) ==> x.wf() && nn == x.entries@.len() && (forall|j: int|
                0 <= j < x.entries@.len() ==> ext_entry_wf(#[trigger] x.entries@[j])) && cur + cat(
                x.entries@.skip(i as int),
                f,
            ).len() == pos + enc_list(x.entries@, f).len() && pos + enc_list(x.entries@, f).len()
                <= b@.len() && b@.subrange(
                cur as int,
                cur + cat(x.entries@.skip(i as int), f).len(),
            ) == cat(x.entries@.skip(i as int), f) && (i > 0 ==> es@[i - 1].0@ == key_at(
                x.entries@,
                i - 1,
            ))),
        decreases nn - i,
    {
        let ghost wk: Option<Seq<u8>> = match w@ {
            Option::Some(x) => Option::Some(key_at(x.entries@, i as int)),
            Option::None => Option::None,
        };
        let ghost wl: Option<Vec<Extension>> = match w@ {
            Option::Some(x) => Option::Some(x.entries@[i as int].1),
            Option::None => Option::None,
        };
        proof {
            match w@ {
                Option::Some(x) => {
                    let rem = x.entries@.skip(i as int);
                    assert(rem.len() > 0);
                    lemma_cat_first(rem, f);
                    assert(rem[0] == x.entries@[i as int]);
                    assert(rem.skip(1) =~= x.entries@.skip(i as int + 1));
                    assert(cat(rem, f) == f(x.entries@[i as int]) + cat(
                        x.entries@.skip(i as int + 1),
                        f,
                    ));
                    crate::encode::lemma_split_prefix(
                        b@,
                        cur as int,
                        f(x.entries@[i as int]),
                        cat(x.entries@.skip(i as int + 1), f),
                    );
                    let e = x.entries@[i as int];
                    assert(ext_entry_wf(e));
                    assert(f(e) == enc_bytes(key_at(x.entries@, i as int)) + enc_list(e.1@, fx));
                    crate::encode::lemma_split_prefix(
                        b@,
                        cur as int,
                        enc_bytes(key_at(x.entries@, i as int)),
                        enc_list(e.1@, fx),
                    );
                },
                Option::None => {},
            }
        }
        let (k, p2) = match parse_bytes(b, cur, Ghost(wk)) {
            Some(t) => t,
            None => {
                return None;
            },
        };
        let (xs, p3) = match parse_ext_list(b, p2, Ghost(wl)) {
            Some(t) => t,
            None => {
                return None;
            },
        };
        let l = es.len();
        if l > 0 {
            proof {
                match w@ {
                    Option::Some(x) => {
                        assert(crate::bytes::lex_lt(
                            key_at(x.entries@, i as int - 1),
                            key_at(x.entries@, i as int),
                        ));
                    },
                    Option::None => {},
                }
            }
            if lex_cmp(&es[l - 1].0, &k) != 255 {
                return None;
            }
        }
        let ghost ev = (k, xs);
        proof {
            lemma_sorted_push(es@, ev);
            assert(b@.subrange(cur as int, p3 as int) =~= b@.subrange(cur as int, p2 as int)
                + b@.subrange(p2 as int, p3 as int));
            assert(b@.subrange(cur as int, p3 as int) =~= enc_ext_entry(ev));
            assert(b@.subrange(p1 as int, p3 as int) =~= b@.subrange(p1 as int, cur as int)
                + b@.subrange(cur as int, p3 as int));
            assert(es@.push(ev).drop_last() =~= es@);
            assert(b@.subrange(p1 as int, p3 as int) =~= cat(es@.push(ev), f));
            match w@ {
                Option::Some(x) => {
                    assert(enc_ext_entry(ev) == f(x.entries@[i as int]));
                    assert(es@.push(ev)[i as int].0@ == key_at(x.entries@, i as int));
                },
                Option::None => {},
            }
        }
        es.push((k, xs));
        cur = p3;
        i = i + 1;
    }
    let m = OrdMap { entries: es };
    proof {
        assert(b@.subrange(pos as int, cur as int) =~= b@.subrange(pos as int, p1 as int)
            + b@.subrange(p1 as int, cur as int));
        assert(b@.subrange(pos as int, cur as int) =~= enc_list(m.entries@, f));
        match w@ {
            Option::Some(x) => {
                assert(x.entries@.skip(nn as int) =~= Seq::<(Vec<u8>, Vec<Extension>)>::empty());
            },
            Option::None => {},
        }
    }
    Some((m, cur))
}

#[verifier::rlimit(100)]
fn parse_sig_map(b: &Vec<u8>, pos: usize, w: Ghost<Option<OrdMap<Vec<u8>>>>) -> (r: Option<
    (OrdMap<Vec<u8>>, usize),
>)
    requires
        pos <= b@.len(),
        (w@ matches Some(x) ==> x.wf() && x.spec_len() < 65536 && (forall|j: int|
            0 <= j < x.entries@.len() ==> (#[trigger] x.entries@[j]).0@.len() < 65536
                && x.entries@[j].1@.len() < 65536) && pos + enc_list(
            x.entries@,
            |e: (Vec<u8>, Vec<u8>)| enc_sig_entry(e),
        ).len() <= b@.len() && b@.subrange(
            pos as int,
            pos + enc_list(x.entries@, |e: (Vec<u8>, Vec<u8>)| enc_sig_entry(e)).len(),
        ) == enc_list(x.entries@, |e: (Vec<u8>, Vec<u8>)| enc_sig_entry(e))),
    ensures
        (r matches Some(p) ==> pos <= p.1 <= b@.len() && b@.subrange(pos as int, p.1 as int)
            == enc_list(p.0.entries@, |e: (Vec<u8>, Vec<u8>)| enc_sig_entry(e)) && p.0.wf()),
        (w@ matches Some(x) ==> (r matches Some(p) && p.1 == pos + enc_list(
            x.entries@,
            |e: (Vec<u8>, Vec<u8>)| enc_sig_entry(e),
        ).len())),
{
    let ghost f = |e: (Vec<u8>, Vec<u8>)| enc_sig_entry(e);
    let ghost wn: Option<u16> = match w@ {
        Option::Some(x) => Option::Some(x.entries@.len() as u16),
        Option::None => Option::None,
    };
    proof {
        match w@ {
            Option::Some(x) => {
                assert(x.entries@.skip(0) =~= x.entries@);
                assert(enc_list(x.entries@, f) == enc_u16n(x.entries@.len() as int) + cat(
                    x.entries@,
                    f,
                ));
                crate::encode::lemma_split_prefix(
                    b@,
                    pos as int,
                    enc_u16n(x.entries@.len() as int),
                    cat(x.entries@, f),
                );
            },
            Option::None => {},
        }
    }
    let (n, p1) = match parse_u16(b, pos, Ghost(wn)) {
        Some(t) => t,
        None => {
            return None;
        },
    };
    let nn = n as usize;
    let mut es: Vec<(Vec<u8>, Vec<u8>)> = Vec::new();
    let mut cur = p1;
    let mut i: usize = 0;
    while i < nn
        invariant
            pos <= p1 <= cur <= b@.len(),
            0 <= i <= nn,
            nn < 65536,
            es@.len() == i,
            f == (|e: (Vec<u8>, Vec<u8>)| enc_sig_entry(e)),
            b@.subrange(p1 as int, cur as int) == cat(es@, f),
            sorted(es@),
            (w@ matches Some(x) ==> x.wf() && nn == x.entries@.len() && (forall|j: int|
                0 <= j < x.entries@.len() ==> (#[trigger] x.entries@[j]).0@.len() < 65536
                    && x.entries@[j].1@.len() < 65536) && cur + cat(
                x.entries@.skip(i as int),
                f,
            ).len() == pos + enc_list(x.entries@, f).len() && pos + enc_list(x.entries@, f).len()
                <= b@.len() && b@.subrange(
                cur as int,
                cur + cat(x.entries@.skip(i as int), f).len(),
            ) == cat(x.entries@.skip(i as int), f) && (i > 0 ==> es@[i - 1].0@ == key_at(
                x.entries@,
                i - 1,
            ))),
        decreases nn - i,
    {
        let ghost wk: Option<Seq<u8>> = match w@ {
            Option::Some(x) => Option::Some(key_at(x.entries@, i as int)),
            Option::None => Option::None,
        };
        let ghost wv: Option<Seq<u8>> = match w@ {
            Option::Some(x) => Option::Some(x.entries@[i as int].1@),
            Option::None => Option::None,
        };
        proof {
            match w@ {
                Option::Some(x) => {
                    let rem = x.entries@.skip(i as int);
                    assert(rem.len() > 0);
                    lemma_cat_first(rem, f);
                    assert(rem[0] == x.entries@[i as int]);
                    assert(rem.skip(1) =~= x.entries@.skip(i as int + 1));
                    assert(cat(rem, f) == f(x.entries@[i as int]) + cat(
                        x.entries@.skip(i as int + 1),
                        f,
                    ));
                    crate::encode::lemma_split_prefix(
                        b@,
                        cur as int,
                        f(x.entries@[i as int]),
                        cat(x.entries@.skip(i as int + 1), f),
                    );
                    let e = x.entries@[i as int];
                    assert(f(e) == enc_bytes(key_at(x.entries@, i as int)) + enc_bytes(e.1@));
                    crate::encode::lemma_split_prefix(
                        b@,
                        cur as int,
                        enc_bytes(key_at(x.entries@, i as int)),
                        enc_bytes(e.1@),
                    );
                },
                Option::None => {},
            }
        }
        let (k, p2) = match parse_bytes(b, cur, Ghost(wk)) {
            Some(t) => t,
            None => {
                return None;
            },
        };
        let (sv, p3) = match parse_bytes(b, p2, Ghost(wv)) {
            Some(t) => t,
            None => {
                return None;
            },
        };
        let l = es.len();
        if l > 0 {
            proof {
                match w@ {
                    Option::Some(x) => {
                        assert(crate::bytes::lex_lt(
                            key_at(x.entries@, i as int - 1),
                            key_at(x.entries@, i as int),
                        ));
                    },
                    Option::None => {},
                }
            }
            if lex_cmp(&es[l - 1].0, &k) != 255 {
                return None;
            }
        }
        let ghost ev = (k, sv);
        proof {
            lemma_sorted_push(es@, ev);
            assert(b@.subrange(cur as int, p3 as int) =~= b@.subrange(cur as int, p2 as int)
                + b@.subrange(p2 as int, p3 as int));
            assert(b@.subrange(cur as int, p3 as int) =~= enc_sig_entry(ev));
            assert(b@.subrange(p1 as int, p3 as int) =~= b@.subrange(p1 as int, cur as int)
                + b@.subrange(cur as int, p3 as int));
            assert(es@.push(ev).drop_last() =~= es@);
            assert(b@.subrange(p1 as int, p3 as int) =~= cat(es@.push(ev), f));
            match w@ {
                Option::Some(x) => {
                    assert(enc_sig_entry(ev) == f(x.entries@[i as int]));
                    assert(es@.push(ev)[i as int].0@ == key_at(x.entries@, i as int));
                },
                Option::None => {},
            }
        }
        es.push((k, sv));
        cur = p3;
        i = i + 1;
    }
    let m = OrdMap { entries: es };
    proof {
        assert(b@.subrange(pos as int, cur as int) =~= b@.subrange(pos as int, p1 as int)
            + b@.subrange(p1 as int, cur as int));
        assert(b@.subrange(pos as int, cur as int) =~= enc_list(m.entries@, f));
        match w@ {
            Option::Some(x) => {
                assert(x.entries@.skip(nn as int) =~= Seq::<(Vec<u8>, Vec<u8>)>::empty());
            },
            Option::None => {},
        }
    }
    Some((m, cur))
}

fn parse_comment(b: &Vec<u8>, pos: usize, w: Ghost<Option<Option<String>>>) -> (r: Option<
    (Option<String>, usize),
>)
    requires
        pos <= b@.len(),
        (w@ matches Some(x) ==> (match x {
            Option::Some(c) => vstd::utf8::encode_utf8(c@).len() < 65536,
            Option::None => true,
        }) && pos + enc_comment(x).len() <= b@.len() && b@.subrange(
            pos as int,
            pos + enc_comment(x).len(),
        ) == enc_comment(x)),
    ensures
        (r matches Some(p) ==> pos <= p.1 <= b@.len() && b@.subrange(pos as int, p.1 as int)
            == enc_comment(p.0)),
        (w@ matches Some(x) ==> (r matches Some(p) && p.1 == pos + enc_comment(x).len())),
{
    let ghost wf8: Option<u8> = match w@ {
        Option::Some(Option::Some(_)) => Option::Some(1u8),
        Option::Some(Option::None) => Option::Some(0u8),
        Option::None => Option::None,
    };
    proof {
        match w@ {
            Option::Some(x) => {
                match x {
                    Option::Some(c) => {
                        assert(enc_comment(x) == seq![1u8] + enc_bytes(
                            vstd::utf8::encode_utf8(c@),
                        ));
                        crate::encode::lemma_split_prefix(
                            b@,
                            pos as int,
                            seq![1u8],
                            enc_bytes(vstd::utf8::encode_utf8(c@)),
                        );
                        assert(b@.subrange(pos as int, pos + 1) =~= enc_u8(1));
                    },
                    Option::None => {
                        assert(b@.subrange(pos as int, pos + 1) =~= enc_u8(0));
                    },
                }
            },
            Option::None => {},
        }
    }
    let (flag, p1) = match parse_u8(b, pos, Ghost(wf8)) {
        Some(t) => t,
        None => {
            return None;
        },
    };
    if flag == 0 {
        proof {
            assert(b@.subrange(pos as int, p1 as int) =~= enc_comment(Option::<String>::None));
        }
        return Some((None, p1));
    }
    if flag != 1 {
        return None;
    }
    let ghost wb: Option<Seq<u8>> = match w@ {
        Option::Some(Option::Some(c)) => Option::Some(vstd::utf8::encode_utf8(c@)),
        _ => Option::None,
    };
    proof {
        match w@ {
            Option::Some(x) => {
                match x {
                    Option::Some(c) => {
                        assert(enc_bytes(vstd::utf8::encode_utf8(c@)).len() == 2
                            + vstd::utf8::encode_utf8(c@).len());
                        assert(b@.subrange(p1 as int, p1 + 2 + vstd::utf8::encode_utf8(c@).len())
                            == enc_bytes(vstd::utf8::encode_utf8(c@)));
                    },
                    Option::None => {},
                }
            },
            Option::None => {},
        }
    }
    let (cb, p2) = match parse_bytes(b, p1, Ghost(wb)) {
        Some(t) => t,
        None => {
            return None;
        },
    };
    let ghost cbv = cb@;
    let s = match bytes_to_string(cb) {
        Some(s) => s,
        None => {
            return None;
        },
    };
    proof {
        assert(b@.subrange(pos as int, p2 as int) =~= b@.subrange(pos as int, p1 as int)
            + b@.subrange(p1 as int, p2 as int));
        assert(b@.subrange(pos as int, p2 as int) =~= enc_comment(Option::Some(s)));
    }
    Some((Some(s), p2))
}

impl Disclosure {
    /// Decode, with a ghost witness: when the caller knows which aggregate
    /// the bytes encode, decoding is promised to succeed and to reproduce
    /// its commitment encoding exactly.
    #[verifier::rlimit(100)]
    fn deserialize_with(b: &Vec<u8>, w: Ghost<Option<Disclosure>>) -> (r: Option<Disclosure>)
        requires
            (w@ matches Some(d0) ==> deser_ready(d0) && b@ == full_encoding(d0)),
        ensures
            (r matches Some(d) ==> d.wf() && full_encoding(d) == b@),
            (w@ matches Some(d0) ==> (r matches Some(d) && commit_encoding(d) == commit_encoding(
                d0,
            ))),
    {
        let ghost fa = |e: (Vec<u8>, (Anchor, OrdMap<TransitionBundle>))| enc_anchored_entry(e);
        let ghost fe = |e: (Vec<u8>, Vec<Extension>)| enc_ext_entry(e);
        let ghost fs = |e: (Vec<u8>, Vec<u8>)| enc_sig_entry(e);
        proof {
            match w@ {
                Option::Some(d0) => {
                    let a1 = enc_u8(d0.version);
                    let a2 = enc_list(d0.anchored_bundles.entries@, fa);
                    let a3 = enc_list(d0.extensions.entries@, fe);
                    let a4 = enc_comment(d0.comment);
                    let a5 = enc_list(d0.signatures.entries@, fs);
                    assert(full_encoding(d0) =~= a1 + (a2 + (a3 + (a4 + a5))));
                    assert(b@.subrange(0, b@.len() as int) =~= b@);
                    crate::encode::lemma_split_prefix(b@, 0, a1, a2 + (a3 + (a4 + a5)));
                    crate::encode::lemma_split_prefix(b@, a1.len() as int, a2, a3 + (a4 + a5));
                    crate::encode::lemma_split_prefix(
                        b@,
                        a1.len() + a2.len() as int,
                        a3,
                        a4 + a5,
                    );
                    crate::encode::lemma_split_prefix(
                        b@,
                        a1.len() + a2.len() + a3.len() as int,
                        a4,
                        a5,
                    );
                },
                Option::None => {},
            }
        }
        let ghost w1: Option<u8> = match w@ {
            Option::Some(d0) => Option::Some(d0.version),
            Option::None => Option::None,
        };
        let (version, p1) = match parse_u8(b, 0, Ghost(w1)) {
            Some(t) => t,
            None => {
                return None;
            },
        };
        let ghost w2: Option<OrdMap<(Anchor, OrdMap<TransitionBundle>)>> = match w@ {
            Option::Some(d0) => Option::Some(d0.anchored_bundles),
            Option::None => Option::None,
        };
        let (bundles, p2) = match parse_anchored_map(b, p1, Ghost(w2)) {
            Some(t) => t,
            None => {
                return None;
            },
        };
        let ghost w3: Option<OrdMap<Vec<Extension>>> = match w@ {
            Option::Some(d0) => Option::Some(d0.extensions),
            Option::None => Option::None,
        };
        let (exts, p3) = match parse_ext_map(b, p2, Ghost(w3)) {
            Some(t) => t,
            None => {
                return None;
            },
        };
        let ghost w4: Option<Option<String>> = match w@ {
            Option::Some(d0) => Option::Some(d0.comment),
            Option::None => Option::None,
        };
        let (comment, p4) = match parse_comment(b, p3, Ghost(w4)) {
            Some(t) => t,
            None => {
                return None;
            },
        };
        let ghost w5: Option<OrdMap<Vec<u8>>> = match w@ {
            Option::Some(d0) => Option::Some(d0.signatures),
            Option::None => Option::None,
        };
        let (sigs, p5) = match parse_sig_map(b, p4, Ghost(w5)) {
            Some(t) => t,
            None => {
                return None;
            },
        };
        if p5 != b.len() {
            return None;
        }
        let d = Disclosure {
            version,
            anchored_bundles: bundles,
            extensions: exts,
            comment,
            signatures: sigs,
        };
        proof {
            assert(b@.subrange(0, p5 as int) =~= b@.subrange(0, p1 as int) + b@.subrange(
                p1 as int,
                p2 as int,
            ) + b@.subrange(p2 as int, p3 as int) + b@.subrange(p3 as int, p4 as int)
                + b@.subrange(p4 as int, p5 as int));
            assert(b@.subrange(0, p5 as int) =~= b@);
            assert(full_encoding(d) == b@);
            assert(b@.subrange(0, p3 as int) =~= b@.subrange(0, p1 as int) + b@.subrange(
                p1 as int,
                p2 as int,
            ) + b@.subrange(p2 as int, p3 as int));
            assert(commit_encoding(d) == b@.subrange(0, p3 as int));
            match w@ {
                Option::Some(d0) => {
                    assert(commit_encoding(d0) =~= b@.subrange(0, p3 as int));
                },
                Option::None => {},
            }
        }
        Some(d)
    }

    /// Decode an aggregate from its at-rest form.  Strict and complete: an
    /// input is accepted exactly when it is, byte for byte, the full
    /// encoding of a well-formed aggregate within the 16-bit counters, and
    /// that aggregate is handed back.
    pub fn deserialize(b: &Vec<u8>) -> (r: Option<Disclosure>)
        ensures
            (r matches Some(d) ==> d.wf() && full_encoding(d) == b@),
            (forall|d0: Disclosure|
                deser_ready(d0) && b@ == #[trigger] full_encoding(d0) ==> r is Some),
    {
        let ghost hw: Option<Disclosure> = if exists|d0: Disclosure|
            deser_ready(d0) && b@ == #[trigger] full_encoding(d0) {
            Option::Some(
                choose|d0: Disclosure| deser_ready(d0) && b@ == #[trigger] full_encoding(d0),
            )
        } else {
            Option::None
        };
        let r = Self::deserialize_with(b, Ghost(hw));
        proof {
            assert forall|d0: Disclosure|
                deser_ready(d0) && b@ == #[trigger] full_encoding(d0) implies r is Some by {
                assert(exists|dd: Disclosure| deser_ready(dd) && b@ == #[trigger] full_encoding(
                    dd,
                ));
            }
        }
        r
    }

    /// Law: binary round trip.  Serializing a well-formed aggregate and
    /// decoding the bytes succeeds and returns an aggregate with the same
    /// full encoding, the same commitment encoding, and hence the same
    /// disclosure identifier.
    pub fn binary_round_trip(&self) -> (r: Disclosure)
        requires
            deser_ready(*self),
        ensures
            r.wf(),
            full_encoding(r) == full_encoding(*self),
            commit_encoding(r) == commit_encoding(*self),
            spec_disclosure_id(r) == spec_disclosure_id(*self),
    {
        let bytes = self.serialize_full();
        match Self::deserialize_with(&bytes, Ghost(Some(*self))) {
            Some(d) => d,
            None => {
                proof {
                    assert(false);
                }
                vstd::pervasive::unreached()
            },
        }
    }
}

} // verus!
