//! Lexicographic ordering on byte strings.
//!
//! Identifiers and public keys act as map keys throughout the library; the
//! canonical commitment encoding demands a deterministic key order, so the
//! order is defined here once, as a spec-level relation with a verified
//! executable comparator and the lemmas that make it a strict total order.

use vstd::prelude::*;

verus! {

/// Strict lexicographic order on byte sequences: a proper prefix sorts first,
/// otherwise the first differing byte decides.
pub open spec fn lex_lt(a: Seq<u8>, b: Seq<u8>) -> bool
    decreases a.len(),
{
    if b.len() == 0 {
        false
    } else if a.len() == 0 {
        true
    } else if a[0] < b[0] {
        true
    } else if a[0] > b[0] {
        false
    } else {
        lex_lt(a.skip(1), b.skip(1))
    }
}

pub proof fn lemma_lex_irrefl(a: Seq<u8>)
    ensures
        !lex_lt(a, a),
    decreases a.len(),
{
    if a.len() > 0 {
        lemma_lex_irrefl(a.skip(1));
    }
}

pub proof fn lemma_lex_asym(a: Seq<u8>, b: Seq<u8>)
    requires
        lex_lt(a, b),
    ensures
        !lex_lt(b, a),
    decreases a.len(),
{
    if a.len() > 0 && b.len() > 0 && a[0] == b[0] {
        lemma_lex_asym(a.skip(1), b.skip(1));
    }
}

pub proof fn lemma_lex_trans(a: Seq<u8>, b: Seq<u8>, c: Seq<u8>)
    requires
        lex_lt(a, b),
        lex_lt(b, c),
    ensures
        lex_lt(a, c),
    decreases a.len(),
{
    if a.len() > 0 && b.len() > 0 && c.len() > 0 && a[0] == b[0] && b[0] == c[0] {
        lemma_lex_trans(a.skip(1), b.skip(1), c.skip(1));
    }
}

/// Any two byte sequences are comparable: the order is connex up to equality.
pub proof fn lemma_lex_total(a: Seq<u8>, b: Seq<u8>)
    ensures
        lex_lt(a, b) || lex_lt(b, a) || a == b,
    decreases a.len(),
{
    if a.len() > 0 && b.len() > 0 && a[0] == b[0] {
        lemma_lex_total(a.skip(1), b.skip(1));
        if !lex_lt(a, b) && !lex_lt(b, a) {
            assert(a.skip(1) == b.skip(1));
            assert forall|j: int| 0 <= j < a.len() implies a[j] == b[j] by {
                if j >= 1 {
                    assert(a[j] == a.skip(1)[j - 1]);
                    assert(b[j] == b.skip(1)[j - 1]);
                }
            }
            assert(a =~= b);
        }
    } else if a.len() == 0 && b.len() == 0 {
        assert(a =~= b);
    }
}

/// A shared proper prefix up to `i` with either a smaller byte at `i`, or
/// `a` ending at `i` while `b` goes on, puts `a` strictly first.
proof fn lemma_lex_from_prefix(a: Seq<u8>, b: Seq<u8>, i: int)
    requires
        0 <= i <= a.len(),
        i <= b.len(),
        forall|j: int| 0 <= j < i ==> a[j] == b[j],
        (i < a.len() && i < b.len() && a[i] < b[i]) || (i == a.len() && i < b.len()),
    ensures
        lex_lt(a, b),
    decreases i,
{
    if i > 0 {
        lemma_lex_from_prefix(a.skip(1), b.skip(1), i - 1);
    }
}

/// Three-way comparison deciding `lex_lt`: `255u8` for less, `0` for equal,
/// `1` for greater.
pub fn lex_cmp(a: &Vec<u8>, b: &Vec<u8>) -> (r: u8)
    ensures
        r == 255u8 <==> lex_lt(a@, b@),
        r == 0u8 <==> a@ == b@,
        r == 1u8 <==> lex_lt(b@, a@),
{
    let n: usize = if a.len() < b.len() {
        a.len()
    } else {
        b.len()
    };
    let mut i: usize = 0;
    while i < n
        invariant
            0 <= i <= n,
            n <= a@.len(),
            n <= b@.len(),
            n == a@.len() || n == b@.len(),
            forall|j: int| 0 <= j < i ==> a@[j] == b@[j],
        decreases n - i,
    {
        if a[i] < b[i] {
            proof {
                lemma_lex_from_prefix(a@, b@, i as int);
                lemma_lex_asym(a@, b@);
                lemma_lex_irrefl(a@);
            }
            return 255;
        }
        if a[i] > b[i] {
            proof {
                lemma_lex_from_prefix(b@, a@, i as int);
                lemma_lex_asym(b@, a@);
                lemma_lex_irrefl(b@);
            }
            return 1;
        }
        i = i + 1;
    }
    if a.len() < b.len() {
        proof {
            lemma_lex_from_prefix(a@, b@, n as int);
            lemma_lex_asym(a@, b@);
            lemma_lex_irrefl(a@);
        }
        255
    } else if a.len() > b.len() {
        proof {
            lemma_lex_from_prefix(b@, a@, n as int);
            lemma_lex_asym(b@, a@);
            lemma_lex_irrefl(b@);
        }
        1
    } else {
        proof {
            assert(a@ =~= b@);
            lemma_lex_irrefl(a@);
        }
        0
    }
}

/// A fresh byte string with the same contents.
pub fn copy_bytes(b: &Vec<u8>) -> (r: Vec<u8>)
    ensures
        r@ == b@,
{
    let mut r: Vec<u8> = Vec::new();
    let n = b.len();
    let mut i: usize = 0;
    while i < n
        invariant
            n == b@.len(),
            0 <= i <= n,
            r@ == b@.take(i as int),
        decreases n - i,
    {
        r.push(b[i]);
        proof {
            assert(r@ =~= b@.take(i + 1));
        }
        i = i + 1;
    }
    proof {
        assert(b@.take(n as int) =~= b@);
    }
    r
}

/// Byte-string equality, decided without ordering.
pub fn bytes_eq(a: &Vec<u8>, b: &Vec<u8>) -> (r: bool)
    ensures
        r <==> a@ == b@,
{
    lex_cmp(a, b) == 0
}

} // verus!
