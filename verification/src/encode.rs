//! Deterministic commitment-encoding primitives.
//!
//! The commitment preimage is built from little-endian 16-bit length prefixes
//! and raw bytes, in fixed field order.  Each primitive exists twice: a spec
//! function giving the byte sequence, and a verified writer appending exactly
//! those bytes.

use vstd::prelude::*;

verus! {

/// One byte.
pub open spec fn enc_u8(x: u8) -> Seq<u8> {
    seq![x]
}

/// Two bytes, little endian, of a value reduced modulo 2^16.
pub open spec fn enc_u16n(x: int) -> Seq<u8> {
    seq![(x % 256) as u8, ((x / 256) % 256) as u8]
}

/// A length-prefixed byte string.
pub open spec fn enc_bytes(b: Seq<u8>) -> Seq<u8> {
    enc_u16n(b.len() as int) + b
}

/// An optional length-prefixed byte string: presence flag, then contents.
pub open spec fn enc_opt_bytes(o: Option<Vec<u8>>) -> Seq<u8> {
    match o {
        Option::None => seq![0u8],
        Option::Some(b) => seq![1u8] + enc_bytes(b@),
    }
}

/// Concatenation of the encodings of every element, in order.
pub open spec fn cat<A>(s: Seq<A>, f: spec_fn(A) -> Seq<u8>) -> Seq<u8>
    decreases s.len(),
{
    if s.len() == 0 {
        Seq::empty()
    } else {
        cat(s.drop_last(), f) + f(s.last())
    }
}

/// A length-prefixed list: element count, then each element's encoding.
pub open spec fn enc_list<A>(s: Seq<A>, f: spec_fn(A) -> Seq<u8>) -> Seq<u8> {
    enc_u16n(s.len() as int) + cat(s, f)
}

/// Sum of a per-element count, in order.
pub open spec fn count_sum<A>(s: Seq<A>, f: spec_fn(A) -> int) -> int
    decreases s.len(),
{
    if s.len() == 0 {
        0
    } else {
        count_sum(s.drop_last(), f) + f(s.last())
    }
}

/// Step lemma for building `cat` left to right.
pub proof fn lemma_cat_step<A>(s: Seq<A>, f: spec_fn(A) -> Seq<u8>, i: int)
    requires
        0 <= i < s.len(),
    ensures
        cat(s.take(i + 1), f) == cat(s.take(i), f) + f(s[i]),
{
    assert(s.take(i + 1).drop_last() =~= s.take(i));
    assert(s.take(i + 1).last() == s[i]);
}

/// Step lemma for accumulating `count_sum` left to right.
pub proof fn lemma_count_step<A>(s: Seq<A>, f: spec_fn(A) -> int, i: int)
    requires
        0 <= i < s.len(),
    ensures
        count_sum(s.take(i + 1), f) == count_sum(s.take(i), f) + f(s[i]),
{
    assert(s.take(i + 1).drop_last() =~= s.take(i));
    assert(s.take(i + 1).last() == s[i]);
}

/// Peeling the first element off a `cat`.
pub proof fn lemma_cat_first<A>(s: Seq<A>, f: spec_fn(A) -> Seq<u8>)
    requires
        s.len() > 0,
    ensures
        cat(s, f) == f(s[0]) + cat(s.skip(1), f),
    decreases s.len(),
{
    if s.len() == 1 {
        assert(s.skip(1) =~= Seq::<A>::empty());
        assert(s.drop_last() =~= Seq::<A>::empty());
        assert(cat(s.skip(1), f) == Seq::<u8>::empty());
        assert(cat(s.drop_last(), f) == Seq::<u8>::empty());
        assert(s.last() == s[0]);
        assert(cat(s, f) =~= f(s[0]) + cat(s.skip(1), f));
    } else {
        lemma_cat_first(s.drop_last(), f);
        assert(s.drop_last()[0] == s[0]);
        assert(s.skip(1).drop_last() =~= s.drop_last().skip(1));
        assert(s.skip(1).last() == s.last());
        assert(cat(s, f) =~= f(s[0]) + cat(s.skip(1), f));
    }
}

/// Reading `a + c` at `pos` means reading `a` at `pos` and `c` right after.
pub proof fn lemma_split_prefix(b: Seq<u8>, pos: int, a: Seq<u8>, c: Seq<u8>)
    requires
        0 <= pos,
        pos + a.len() + c.len() <= b.len(),
        b.subrange(pos, pos + a.len() + c.len()) == a + c,
    ensures
        b.subrange(pos, pos + a.len()) == a,
        b.subrange(pos + a.len(), pos + a.len() + c.len()) == c,
{
    assert forall|k: int| 0 <= k < a.len() implies b[pos + k] == a[k] by {
        assert(b.subrange(pos, pos + a.len() + c.len())[k] == b[pos + k]);
        assert((a + c)[k] == a[k]);
    }
    assert(b.subrange(pos, pos + a.len()) =~= a);
    assert forall|k: int| 0 <= k < c.len() implies b[pos + a.len() + k] == c[k] by {
        assert(b.subrange(pos, pos + a.len() + c.len())[a.len() + k] == b[pos + a.len() + k]);
        assert((a + c)[a.len() + k] == c[k]);
    }
    assert(b.subrange(pos + a.len(), pos + a.len() + c.len()) =~= c);
}

/// A whole sequence is its own full take.
pub proof fn lemma_take_all<A>(s: Seq<A>)
    ensures
        s.take(s.len() as int) == s,
{
    assert(s.take(s.len() as int) =~= s);
}

/// Elementwise-equal encodings concatenate to equal byte strings.
pub proof fn lemma_cat_pointwise<A>(a: Seq<A>, b: Seq<A>, f: spec_fn(A) -> Seq<u8>)
    requires
        a.len() == b.len(),
        forall|i: int| 0 <= i < a.len() ==> #[trigger] f(a[i]) == f(b[i]),
    ensures
        cat(a, f) == cat(b, f),
    decreases a.len(),
{
    if a.len() > 0 {
        assert forall|i: int| 0 <= i < a.drop_last().len() implies #[trigger] f(a.drop_last()[i])
            == f(b.drop_last()[i]) by {
            assert(a.drop_last()[i] == a[i]);
            assert(b.drop_last()[i] == b[i]);
        }
        lemma_cat_pointwise(a.drop_last(), b.drop_last(), f);
        assert(f(a.last()) == f(b.last()));
    }
}

/// A per-element bound carries over to the whole sum.
pub proof fn lemma_count_bound<A>(s: Seq<A>, f: spec_fn(A) -> int, b: int)
    requires
        b >= 0,
        forall|i: int| 0 <= i < s.len() ==> 0 <= #[trigger] f(s[i]) <= b,
    ensures
        0 <= count_sum(s, f) <= s.len() * b,
    decreases s.len(),
{
    if s.len() == 0 {
    } else {
        assert forall|i: int| 0 <= i < s.drop_last().len() implies 0 <= #[trigger] f(
            s.drop_last()[i],
        ) <= b by {
            assert(s.drop_last()[i] == s[i]);
        }
        lemma_count_bound(s.drop_last(), f, b);
        assert(f(s.last()) <= b);
        assert((s.len() - 1) * b + b == s.len() * b) by (nonlinear_arith);
    }
}

/// Append one byte.
pub fn push_u8(out: &mut Vec<u8>, x: u8)
    ensures
        final(out)@ == old(out)@ + enc_u8(x),
{
    out.push(x);
    proof {
        assert(out@ =~= old(out)@ + enc_u8(x));
    }
}

/// Append a 16-bit length, little endian.
pub fn push_u16(out: &mut Vec<u8>, x: u16)
    ensures
        final(out)@ == old(out)@ + enc_u16n(x as int),
{
    out.push((x % 256) as u8);
    out.push((x / 256) as u8);
    proof {
        assert(out@ =~= old(out)@ + enc_u16n(x as int));
    }
}

/// Append a length-prefixed byte string.
pub fn push_bytes(out: &mut Vec<u8>, b: &Vec<u8>)
    requires
        b@.len() < 65536,
    ensures
        final(out)@ == old(out)@ + enc_bytes(b@),
{
    let n = b.len();
    push_u16(out, n as u16);
    let ghost mid = out@;
    let mut i: usize = 0;
    while i < n
        invariant
            n == b@.len(),
            0 <= i <= n,
            out@ == mid + b@.take(i as int),
        decreases n - i,
    {
        out.push(b[i]);
        proof {
            assert(out@ =~= mid + b@.take(i + 1));
        }
        i = i + 1;
    }
    proof {
        assert(out@ =~= old(out)@ + enc_bytes(b@));
    }
}

/// Append an optional byte string: presence flag, then contents.
pub fn push_opt_bytes(out: &mut Vec<u8>, o: &Option<Vec<u8>>)
    requires
        match o {
            Option::Some(b) => b@.len() < 65536,
            Option::None => true,
        },
    ensures
        final(out)@ == old(out)@ + enc_opt_bytes(*o),
{
    match o {
        None => {
            push_u8(out, 0);
        },
        Some(b) => {
            push_u8(out, 1);
            push_bytes(out, b);
            proof {
                assert(out@ =~= old(out)@ + enc_opt_bytes(*o));
            }
        },
    }
}

} // verus!
