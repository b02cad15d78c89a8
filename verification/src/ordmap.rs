//! Canonical sorted association maps.
//!
//! Every mapping that feeds the commitment encoding is kept as an association
//! vector whose keys (byte strings) are in strictly increasing lexicographic
//! order.  The representation is therefore canonical: two maps with the same
//! logical content hold identical entry sequences, no matter in which order
//! the entries were inserted.  That canonicality is what makes the disclosure
//! identifier a pure function of logical content.

use vstd::prelude::*;

use crate::bytes::{bytes_eq, lex_cmp, lex_lt, lemma_lex_asym, lemma_lex_irrefl, lemma_lex_total,
    lemma_lex_trans};

verus! {

/// A mapping from byte-string keys to values of type `V`, kept sorted by key.
#[derive(Clone, PartialEq, Eq, Debug)]
pub struct OrdMap<V> {
    pub entries: Vec<(Vec<u8>, V)>,
}

/// The view of the key stored at position `i`.
pub open spec fn key_at<V>(s: Seq<(Vec<u8>, V)>, i: int) -> Seq<u8> {
    s[i].0@
}

/// Keys strictly increase along the entry sequence.
pub open spec fn sorted<V>(s: Seq<(Vec<u8>, V)>) -> bool {
    forall|i: int, j: int|
        0 <= i < j < s.len() ==> lex_lt(#[trigger] key_at(s, i), #[trigger] key_at(s, j))
}

/// Some entry carries the key `k`.
pub open spec fn has_key<V>(s: Seq<(Vec<u8>, V)>, k: Seq<u8>) -> bool {
    exists|i: int| 0 <= i < s.len() && #[trigger] key_at(s, i) == k
}

/// The mathematical mapping held by an entry sequence; later entries win,
/// which is irrelevant once keys are distinct.
pub open spec fn map_of<V>(s: Seq<(Vec<u8>, V)>) -> Map<Seq<u8>, V>
    decreases s.len(),
{
    if s.len() == 0 {
        Map::empty()
    } else {
        map_of(s.drop_last()).insert(s.last().0@, s.last().1)
    }
}

impl<V> OrdMap<V> {
    /// Well-formed: strictly sorted keys.
    pub open spec fn wf(self) -> bool {
        sorted(self.entries@)
    }

    /// The logical content.
    pub open spec fn as_map(self) -> Map<Seq<u8>, V> {
        map_of(self.entries@)
    }

    pub open spec fn spec_len(self) -> nat {
        self.entries@.len()
    }
}

pub proof fn lemma_sorted_distinct<V>(s: Seq<(Vec<u8>, V)>)
    requires
        sorted(s),
    ensures
        forall|i: int, j: int|
            0 <= i < s.len() && 0 <= j < s.len() && i != j ==> #[trigger] key_at(s, i)
                != #[trigger] key_at(s, j),
{
    assert forall|i: int, j: int|
        0 <= i < s.len() && 0 <= j < s.len() && i != j implies #[trigger] key_at(s, i)
        != #[trigger] key_at(s, j) by {
        lemma_lex_irrefl(key_at(s, i));
    }
}

/// Membership in `map_of` is exactly key occurrence.
pub proof fn lemma_map_of_contains<V>(s: Seq<(Vec<u8>, V)>, k: Seq<u8>)
    ensures
        map_of(s).contains_key(k) <==> has_key(s, k),
    decreases s.len(),
{
    if s.len() > 0 {
        lemma_map_of_contains(s.drop_last(), k);
        if s.last().0@ == k {
            assert(key_at(s, s.len() - 1) == k);
        } else {
            if has_key(s.drop_last(), k) {
                let i = choose|i: int|
                    0 <= i < s.drop_last().len() && #[trigger] key_at(s.drop_last(), i) == k;
                assert(key_at(s, i) == k);
            }
            if has_key(s, k) {
                let i = choose|i: int| 0 <= i < s.len() && #[trigger] key_at(s, i) == k;
                assert(i < s.len() - 1);
                assert(key_at(s.drop_last(), i) == k);
            }
        }
    }
}

/// When no later entry repeats the key at `i`, `map_of` returns that entry's
/// value.
pub proof fn lemma_map_of_index<V>(s: Seq<(Vec<u8>, V)>, i: int)
    requires
        0 <= i < s.len(),
        forall|j: int| i < j < s.len() ==> #[trigger] key_at(s, j) != key_at(s, i),
    ensures
        map_of(s).contains_key(key_at(s, i)),
        map_of(s)[key_at(s, i)] == s[i].1,
    decreases s.len(),
{
    if i == s.len() - 1 {
    } else {
        assert(key_at(s.drop_last(), i) == key_at(s, i));
        assert forall|j: int|
            i < j < s.drop_last().len() implies #[trigger] key_at(s.drop_last(), j) != key_at(
            s.drop_last(),
            i,
        ) by {
            assert(key_at(s.drop_last(), j) == key_at(s, j));
        }
        lemma_map_of_index(s.drop_last(), i);
        assert(key_at(s, s.len() - 1) != key_at(s, i));
    }
}

/// Inserting a fresh key at any position inserts it into the mapping.
pub proof fn lemma_map_of_insert_at<V>(s: Seq<(Vec<u8>, V)>, i: int, e: (Vec<u8>, V))
    requires
        0 <= i <= s.len(),
        forall|j: int| 0 <= j < s.len() ==> #[trigger] key_at(s, j) != e.0@,
    ensures
        map_of(s.insert(i, e)) == map_of(s).insert(e.0@, e.1),
    decreases s.len(),
{
    let t = s.insert(i, e);
    if i == s.len() {
        assert(t.drop_last() =~= s);
        assert(t.last() == e);
    } else {
        assert(t.last() == s.last());
        assert(t.drop_last() =~= s.drop_last().insert(i, e));
        assert forall|j: int|
            0 <= j < s.drop_last().len() implies #[trigger] key_at(s.drop_last(), j) != e.0@ by {
            assert(key_at(s.drop_last(), j) == key_at(s, j));
        }
        lemma_map_of_insert_at(s.drop_last(), i, e);
        assert(key_at(s, s.len() - 1) != e.0@);
        assert(map_of(s.drop_last()).insert(e.0@, e.1).insert(s.last().0@, s.last().1) =~= map_of(
            s.drop_last(),
        ).insert(s.last().0@, s.last().1).insert(e.0@, e.1));
    }
}

/// Replacing the entry at `i` by one with the same key view (key unique)
/// updates the mapping at that key.
pub proof fn lemma_map_of_update_at<V>(s: Seq<(Vec<u8>, V)>, i: int, e: (Vec<u8>, V))
    requires
        0 <= i < s.len(),
        e.0@ == key_at(s, i),
        forall|j: int|
            0 <= j < s.len() && j != i ==> #[trigger] key_at(s, j) != key_at(s, i),
    ensures
        map_of(s.update(i, e)) == map_of(s).insert(key_at(s, i), e.1),
    decreases s.len(),
{
    let t = s.update(i, e);
    if i == s.len() - 1 {
        assert(t.drop_last() =~= s.drop_last());
        assert(t.last() == e);
        assert(map_of(s.drop_last()).insert(e.0@, e.1) =~= map_of(s.drop_last()).insert(
            s.last().0@,
            s.last().1,
        ).insert(key_at(s, i), e.1));
    } else {
        assert(t.last() == s.last());
        assert(t.drop_last() =~= s.drop_last().update(i, e));
        assert forall|j: int|
            0 <= j < s.drop_last().len() && j != i implies #[trigger] key_at(s.drop_last(), j)
            != key_at(s.drop_last(), i) by {
            assert(key_at(s.drop_last(), j) == key_at(s, j));
            assert(key_at(s.drop_last(), i) == key_at(s, i));
        }
        assert(key_at(s.drop_last(), i) == key_at(s, i));
        lemma_map_of_update_at(s.drop_last(), i, e);
        assert(key_at(s, s.len() - 1) != key_at(s, i));
        assert(map_of(s.drop_last()).insert(key_at(s, i), e.1).insert(s.last().0@, s.last().1)
            =~= map_of(s.drop_last()).insert(s.last().0@, s.last().1).insert(key_at(s, i), e.1));
    }
}

/// Removing the entry at `i` (unique keys) removes its key from the mapping.
pub proof fn lemma_map_of_remove_at<V>(s: Seq<(Vec<u8>, V)>, i: int)
    requires
        0 <= i < s.len(),
        forall|p: int, q: int|
            0 <= p < s.len() && 0 <= q < s.len() && p != q ==> #[trigger] key_at(s, p)
                != #[trigger] key_at(s, q),
    ensures
        map_of(s.remove(i)) == map_of(s).remove(key_at(s, i)),
    decreases s.len(),
{
    let t = s.remove(i);
    if i == s.len() - 1 {
        assert(t =~= s.drop_last());
        if has_key(s.drop_last(), key_at(s, i)) {
            let j = choose|j: int|
                0 <= j < s.drop_last().len() && #[trigger] key_at(s.drop_last(), j) == key_at(
                    s,
                    i,
                );
            assert(key_at(s, j) == key_at(s, i));
        }
        lemma_map_of_contains(s.drop_last(), key_at(s, i));
        assert(map_of(s.drop_last()) =~= map_of(s.drop_last()).insert(
            s.last().0@,
            s.last().1,
        ).remove(key_at(s, i)));
    } else {
        assert(t.last() == s.last());
        assert(t.drop_last() =~= s.drop_last().remove(i));
        assert forall|p: int, q: int|
            0 <= p < s.drop_last().len() && 0 <= q < s.drop_last().len() && p != q implies #[trigger] key_at(
            s.drop_last(),
            p,
        ) != #[trigger] key_at(s.drop_last(), q) by {
            assert(key_at(s.drop_last(), p) == key_at(s, p));
            assert(key_at(s.drop_last(), q) == key_at(s, q));
        }
        lemma_map_of_remove_at(s.drop_last(), i);
        assert(key_at(s.drop_last(), i) == key_at(s, i));
        assert(key_at(s, s.len() - 1) != key_at(s, i));
        assert(map_of(s.drop_last()).remove(key_at(s, i)).insert(s.last().0@, s.last().1)
            =~= map_of(s.drop_last()).insert(s.last().0@, s.last().1).remove(key_at(s, i)));
    }
}

/// Appending an entry whose key sorts after the last keeps the sequence
/// sorted.
pub proof fn lemma_sorted_push<V>(s: Seq<(Vec<u8>, V)>, e: (Vec<u8>, V))
    requires
        sorted(s),
        s.len() > 0 ==> lex_lt(key_at(s, s.len() - 1), e.0@),
    ensures
        sorted(s.push(e)),
{
    let t = s.push(e);
    assert forall|p: int, q: int|
        0 <= p < q < t.len() implies lex_lt(#[trigger] key_at(t, p), #[trigger] key_at(t, q)) by {
        assert(key_at(t, p) == key_at(s, p));
        if q < s.len() {
            assert(key_at(t, q) == key_at(s, q));
        } else {
            assert(key_at(t, q) == e.0@);
            if p < s.len() - 1 {
                lemma_lex_trans(key_at(s, p), key_at(s, s.len() - 1), e.0@);
            }
        }
    }
}

/// Every key of a sorted entry sequence's mapping is carried by an entry
/// holding the mapping's value for it.
pub proof fn lemma_as_map_index<V>(s: Seq<(Vec<u8>, V)>, k: Seq<u8>)
    requires
        sorted(s),
        map_of(s).contains_key(k),
    ensures
        exists|i: int| 0 <= i < s.len() && #[trigger] key_at(s, i) == k && s[i].1 == map_of(s)[k],
{
    lemma_sorted_distinct(s);
    lemma_map_of_contains(s, k);
    let i = choose|i: int| 0 <= i < s.len() && #[trigger] key_at(s, i) == k;
    lemma_map_of_index(s, i);
    assert(0 <= i < s.len() && key_at(s, i) == k && s[i].1 == map_of(s)[k]);
}

/// Canonical representation: two sorted entry sequences carrying the same
/// mapping agree position by position (key views and values alike).
pub proof fn lemma_sorted_canonical<V>(a: Seq<(Vec<u8>, V)>, b: Seq<(Vec<u8>, V)>)
    requires
        sorted(a),
        sorted(b),
        map_of(a) == map_of(b),
    ensures
        a.len() == b.len(),
        forall|i: int|
            0 <= i < a.len() ==> #[trigger] key_at(a, i) == key_at(b, i) && a[i].1 == b[i].1,
    decreases a.len() + b.len(),
{
    lemma_sorted_distinct(a);
    lemma_sorted_distinct(b);
    if a.len() == 0 {
        if b.len() > 0 {
            lemma_map_of_contains(a, key_at(b, b.len() - 1));
            lemma_map_of_index(b, b.len() - 1);
        }
    } else if b.len() == 0 {
        lemma_map_of_contains(b, key_at(a, a.len() - 1));
        lemma_map_of_index(a, a.len() - 1);
    } else {
        let ka = key_at(a, a.len() - 1);
        let kb = key_at(b, b.len() - 1);
        lemma_map_of_index(a, a.len() - 1);
        lemma_map_of_index(b, b.len() - 1);
        lemma_map_of_contains(a, kb);
        lemma_map_of_contains(b, ka);
        let i = choose|i: int| 0 <= i < a.len() && #[trigger] key_at(a, i) == kb;
        let j = choose|j: int| 0 <= j < b.len() && #[trigger] key_at(b, j) == ka;
        if i < a.len() - 1 && j < b.len() - 1 {
            assert(lex_lt(kb, ka));
            assert(lex_lt(ka, kb));
            lemma_lex_asym(ka, kb);
        }
        assert(ka == kb);
        assert(a.last().1 == b.last().1);
        lemma_map_of_contains(a.drop_last(), ka);
        lemma_map_of_contains(b.drop_last(), ka);
        assert forall|p: int| 0 <= p < a.drop_last().len() implies #[trigger] key_at(
            a.drop_last(),
            p,
        ) != ka by {
            assert(key_at(a.drop_last(), p) == key_at(a, p));
        }
        assert forall|p: int| 0 <= p < b.drop_last().len() implies #[trigger] key_at(
            b.drop_last(),
            p,
        ) != ka by {
            assert(key_at(b.drop_last(), p) == key_at(b, p));
        }
        assert(map_of(a.drop_last()) =~= map_of(a).remove(ka));
        assert(map_of(b.drop_last()) =~= map_of(b).remove(ka));
        assert forall|p: int, q: int|
            0 <= p < q < a.drop_last().len() implies lex_lt(
            #[trigger] key_at(a.drop_last(), p),
            #[trigger] key_at(a.drop_last(), q),
        ) by {
            assert(key_at(a.drop_last(), p) == key_at(a, p));
            assert(key_at(a.drop_last(), q) == key_at(a, q));
        }
        assert forall|p: int, q: int|
            0 <= p < q < b.drop_last().len() implies lex_lt(
            #[trigger] key_at(b.drop_last(), p),
            #[trigger] key_at(b.drop_last(), q),
        ) by {
            assert(key_at(b.drop_last(), p) == key_at(b, p));
            assert(key_at(b.drop_last(), q) == key_at(b, q));
        }
        lemma_sorted_canonical(a.drop_last(), b.drop_last());
        assert forall|p: int|
            0 <= p < a.len() implies #[trigger] key_at(a, p) == key_at(b, p) && a[p].1
            == b[p].1 by {
            if p < a.len() - 1 {
                assert(key_at(a.drop_last(), p) == key_at(b.drop_last(), p));
                assert(key_at(a.drop_last(), p) == key_at(a, p));
                assert(key_at(b.drop_last(), p) == key_at(b, p));
                assert(a.drop_last()[p].1 == b.drop_last()[p].1);
            }
        }
    }
}

impl<V> OrdMap<V> {
    /// An empty map.
    pub fn new() -> (r: OrdMap<V>)
        ensures
            r.wf(),
            r.as_map() == Map::<Seq<u8>, V>::empty(),
            r.spec_len() == 0,
    {
        OrdMap { entries: Vec::new() }
    }

    /// Number of entries.
    pub fn len(&self) -> (r: usize)
        ensures
            r == self.spec_len(),
    {
        self.entries.len()
    }

    /// Drop every entry.
    pub fn clear(&mut self)
        ensures
            final(self).wf(),
            final(self).as_map() == Map::<Seq<u8>, V>::empty(),
            final(self).spec_len() == 0,
    {
        self.entries.clear();
    }

    /// Look a key up.
    pub fn get<'a>(&'a self, k: &Vec<u8>) -> (r: Option<&'a V>)
        requires
            self.wf(),
        ensures
            match r {
                Option::Some(v) => self.as_map().contains_key(k@) && *v == self.as_map()[k@],
                Option::None => !self.as_map().contains_key(k@),
            },
    {
        let n = self.entries.len();
        let mut i: usize = 0;
        while i < n
            invariant
                self.wf(),
                n == self.entries@.len(),
                0 <= i <= n,
                forall|j: int| 0 <= j < i ==> #[trigger] key_at(self.entries@, j) != k@,
            decreases n - i,
        {
            if bytes_eq(&self.entries[i].0, k) {
                proof {
                    lemma_sorted_distinct(self.entries@);
                    lemma_map_of_index(self.entries@, i as int);
                }
                return Some(&self.entries[i].1);
            }
            i = i + 1;
        }
        proof {
            lemma_map_of_contains(self.entries@, k@);
        }
        None
    }

    /// Whether a key is present.
    pub fn contains(&self, k: &Vec<u8>) -> (r: bool)
        requires
            self.wf(),
        ensures
            r == self.as_map().contains_key(k@),
    {
        match self.get(k) {
            Some(_) => true,
            None => false,
        }
    }

    /// Insert, keeping the sort order; the previous value under the key, if
    /// any, is returned.
    pub fn insert(&mut self, k: Vec<u8>, v: V) -> (r: Option<V>)
        requires
            old(self).wf(),
        ensures
            final(self).wf(),
            final(self).as_map() == old(self).as_map().insert(k@, v),
            final(self).spec_len() == old(self).spec_len() + if old(self).as_map().contains_key(
                k@,
            ) {
                0int
            } else {
                1int
            },
            match r {
                Option::Some(w) => old(self).as_map().contains_key(k@) && w == old(self).as_map()[
                    k@
                ],
                Option::None => !old(self).as_map().contains_key(k@),
            },
    {
        let ghost s0 = self.entries@;
        let n = self.entries.len();
        let mut i: usize = 0;
        while i < n
            invariant
                self.entries@ == s0,
                s0 == old(self).entries@,
                sorted(s0),
                n == s0.len(),
                0 <= i <= n,
                forall|j: int| 0 <= j < i ==> lex_lt(#[trigger] key_at(s0, j), k@),
            decreases n - i,
        {
            let c = lex_cmp(&self.entries[i].0, &k);
            if c == 0 {
                // same key: replace the value in place
                let ghost kv = k@;
                let ghost ev: (Vec<u8>, V) = (k, v);
                proof {
                    lemma_sorted_distinct(s0);
                    lemma_map_of_index(s0, i as int);
                    lemma_map_of_update_at(s0, i as int, ev);
                    lemma_map_of_contains(s0, kv);
                }
                let prev = self.entries.remove(i);
                self.entries.insert(i, (k, v));
                proof {
                    s0.remove_ensures(i as int);
                    s0.remove(i as int).insert_ensures(i as int, ev);
                    assert(self.entries@ == s0.remove(i as int).insert(i as int, ev));
                    assert forall|j: int|
                        0 <= j < self.entries@.len() implies self.entries@[j] == s0.update(
                        i as int,
                        ev,
                    )[j] by {
                        if j > i {
                            assert(s0.remove(i as int).insert(i as int, ev)[(j - 1) + 1]
                                == s0.remove(i as int)[j - 1]);
                        }
                    }
                    assert(self.entries@ =~= s0.update(i as int, ev));
                    assert forall|p: int, q: int|
                        0 <= p < q < self.entries@.len() implies lex_lt(
                        #[trigger] key_at(self.entries@, p),
                        #[trigger] key_at(self.entries@, q),
                    ) by {
                        assert(key_at(self.entries@, p) == key_at(s0, p));
                        assert(key_at(self.entries@, q) == key_at(s0, q));
                    }
                }
                return Some(prev.1);
            }
            if c == 1 {
                // entries[i].0 is already past k: k is absent, insert here
                proof {
                    assert forall|j: int| 0 <= j < s0.len() implies #[trigger] key_at(s0, j)
                        != k@ by {
                        if j < i {
                            lemma_lex_irrefl(key_at(s0, j));
                        } else if j == i {
                            lemma_lex_irrefl(k@);
                        } else {
                            lemma_lex_trans(k@, key_at(s0, i as int), key_at(s0, j));
                            lemma_lex_irrefl(k@);
                        }
                    }
                }
                let ghost kv = k@;
                let ghost ev: (Vec<u8>, V) = (k, v);
                proof {
                    lemma_map_of_insert_at(s0, i as int, ev);
                    lemma_map_of_contains(s0, kv);
                }
                proof {
                    assert(lex_lt(kv, key_at(s0, i as int)));
                }
                self.entries.insert(i, (k, v));
                proof {
                    s0.insert_ensures(i as int, ev);
                    assert(self.entries@ == s0.insert(i as int, ev));
                    assert(key_at(self.entries@, i as int) == kv);
                    assert forall|p: int, q: int|
                        0 <= p < q < self.entries@.len() implies lex_lt(
                        #[trigger] key_at(self.entries@, p),
                        #[trigger] key_at(self.entries@, q),
                    ) by {
                        if p < i {
                            assert(key_at(self.entries@, p) == key_at(s0, p));
                        }
                        if p > i {
                            assert(s0.insert(i as int, ev)[(p - 1) + 1] == s0[p - 1]);
                            assert(key_at(self.entries@, p) == key_at(s0, p - 1));
                        }
                        if q < i {
                            assert(key_at(self.entries@, q) == key_at(s0, q));
                        }
                        if q > i {
                            assert(s0.insert(i as int, ev)[(q - 1) + 1] == s0[q - 1]);
                            assert(key_at(self.entries@, q) == key_at(s0, q - 1));
                        }
                        if p < i && q == i {
                            assert(lex_lt(key_at(s0, p), kv));
                        }
                        if p < i && q > i {
                            if p == q - 1 {
                                assert(p >= i);
                            }
                            assert(lex_lt(key_at(s0, p), key_at(s0, q - 1)));
                        }
                        if p == i && q > i + 1 {
                            lemma_lex_trans(kv, key_at(s0, i as int), key_at(s0, q - 1));
                        }
                    }
                }
                return None;
            }
            proof {
                lemma_lex_total(key_at(s0, i as int), k@);
            }
            i = i + 1;
        }
        // every key sorts before k: append at the end
        let ghost kv = k@;
        let ghost ev: (Vec<u8>, V) = (k, v);
        proof {
            assert forall|j: int| 0 <= j < s0.len() implies #[trigger] key_at(s0, j) != kv by {
                lemma_lex_irrefl(key_at(s0, j));
            }
            lemma_map_of_insert_at(s0, n as int, ev);
            lemma_map_of_contains(s0, kv);
        }
        self.entries.push((k, v));
        proof {
            s0.insert_ensures(n as int, ev);
            assert(self.entries@ == s0.push(ev));
            assert(self.entries@ =~= s0.insert(n as int, ev));
            assert forall|p: int, q: int|
                0 <= p < q < self.entries@.len() implies lex_lt(
                #[trigger] key_at(self.entries@, p),
                #[trigger] key_at(self.entries@, q),
            ) by {
                assert(key_at(self.entries@, p) == key_at(s0, p));
                if q < n {
                    assert(key_at(self.entries@, q) == key_at(s0, q));
                } else {
                    assert(key_at(self.entries@, q) == kv);
                }
            }
        }
        None
    }

    /// Remove a key; the value previously under it, if any, is returned.
    pub fn remove(&mut self, k: &Vec<u8>) -> (r: Option<V>)
        requires
            old(self).wf(),
        ensures
            final(self).wf(),
            final(self).as_map() == old(self).as_map().remove(k@),
            match r {
                Option::Some(w) => old(self).as_map().contains_key(k@) && w == old(self).as_map()[
                    k@
                ] && final(self).spec_len() == old(self).spec_len() - 1,
                Option::None => !old(self).as_map().contains_key(k@) && final(self).spec_len()
                    == old(self).spec_len(),
            },
    {
        let ghost s0 = self.entries@;
        let n = self.entries.len();
        let mut i: usize = 0;
        while i < n
            invariant
                self.entries@ == s0,
                s0 == old(self).entries@,
                sorted(s0),
                n == s0.len(),
                0 <= i <= n,
                forall|j: int| 0 <= j < i ==> #[trigger] key_at(s0, j) != k@,
            decreases n - i,
        {
            if bytes_eq(&self.entries[i].0, k) {
                proof {
                    assert(key_at(s0, i as int) == k@);
                    lemma_sorted_distinct(s0);
                    lemma_map_of_index(s0, i as int);
                    lemma_map_of_remove_at(s0, i as int);
                }
                let prev = self.entries.remove(i);
                proof {
                    s0.remove_ensures(i as int);
                    assert(self.entries@ == s0.remove(i as int));
                    assert forall|p: int, q: int|
                        0 <= p < q < self.entries@.len() implies lex_lt(
                        #[trigger] key_at(self.entries@, p),
                        #[trigger] key_at(self.entries@, q),
                    ) by {
                        if p < i {
                            assert(key_at(self.entries@, p) == key_at(s0, p));
                        } else {
                            assert(key_at(self.entries@, p) == key_at(s0, p + 1));
                        }
                        if q < i {
                            assert(key_at(self.entries@, q) == key_at(s0, q));
                        } else {
                            assert(key_at(self.entries@, q) == key_at(s0, q + 1));
                        }
                    }
                }
                return Some(prev.1);
            }
            i = i + 1;
        }
        proof {
            lemma_map_of_contains(s0, k@);
            assert(map_of(s0).remove(k@) =~= map_of(s0));
        }
        None
    }

    /// Replace the value stored at position `i`, leaving the key in place.
    pub fn set_value_at(&mut self, i: usize, v: V)
        requires
            old(self).wf(),
            i < old(self).spec_len(),
        ensures
            final(self).wf(),
            final(self).spec_len() == old(self).spec_len(),
            final(self).entries@ == old(self).entries@.update(
                i as int,
                (old(self).entries@[i as int].0, v),
            ),
            final(self).as_map() == old(self).as_map().insert(
                key_at(old(self).entries@, i as int),
                v,
            ),
    {
        let ghost s0 = self.entries@;
        proof {
            lemma_sorted_distinct(s0);
        }
        let e = self.entries.remove(i);
        let ghost mid = self.entries@;
        let ghost ev: (Vec<u8>, V) = (e.0, v);
        self.entries.insert(i, (e.0, v));
        proof {
            s0.remove_ensures(i as int);
            mid.insert_ensures(i as int, ev);
            assert(ev.0 == s0[i as int].0);
            assert forall|j: int|
                0 <= j < self.entries@.len() implies self.entries@[j] == s0.update(
                i as int,
                ev,
            )[j] by {
                if j > i {
                    assert(mid.insert(i as int, ev)[(j - 1) + 1] == mid[j - 1]);
                }
            }
            assert(self.entries@ =~= s0.update(i as int, ev));
            assert forall|p: int, q: int|
                0 <= p < q < self.entries@.len() implies lex_lt(
                #[trigger] key_at(self.entries@, p),
                #[trigger] key_at(self.entries@, q),
            ) by {
                assert(key_at(self.entries@, p) == key_at(s0, p));
                assert(key_at(self.entries@, q) == key_at(s0, q));
            }
            lemma_map_of_update_at(s0, i as int, ev);
        }
    }

    /// Insert every entry of `other`; colliding keys take `other`'s value.
    pub fn extend(&mut self, other: OrdMap<V>)
        requires
            old(self).wf(),
            other.wf(),
        ensures
            final(self).wf(),
            final(self).as_map() == old(self).as_map().union_prefer_right(other.as_map()),
            final(self).spec_len() <= old(self).spec_len() + other.spec_len(),
    {
        let mut rest = other;
        proof {
            lemma_sorted_distinct(rest.entries@);
        }
        while rest.entries.len() > 0
            invariant
                self.wf(),
                sorted(rest.entries@),
                rest.entries@.len() <= other.spec_len(),
                self.spec_len() + rest.entries@.len() <= old(self).spec_len() + other.spec_len(),
                self.as_map().union_prefer_right(map_of(rest.entries@)) == old(
                    self,
                ).as_map().union_prefer_right(other.as_map()),
            decreases rest.entries@.len(),
        {
            let ghost r0 = rest.entries@;
            let ghost m0 = self.as_map();
            let e = rest.entries.pop().unwrap();
            proof {
                assert(rest.entries@ =~= r0.drop_last());
                lemma_sorted_distinct(r0);
                lemma_map_of_contains(r0.drop_last(), e.0@);
                if has_key(r0.drop_last(), e.0@) {
                    let j = choose|j: int|
                        0 <= j < r0.drop_last().len() && #[trigger] key_at(r0.drop_last(), j)
                            == e.0@;
                    assert(key_at(r0, j) == key_at(r0, r0.len() - 1));
                }
                assert forall|p: int, q: int|
                    0 <= p < q < rest.entries@.len() implies lex_lt(
                    #[trigger] key_at(rest.entries@, p),
                    #[trigger] key_at(rest.entries@, q),
                ) by {
                    assert(key_at(rest.entries@, p) == key_at(r0, p));
                    assert(key_at(rest.entries@, q) == key_at(r0, q));
                }
            }
            let ghost ekey = e.0@;
            let ghost eval = e.1;
            self.insert(e.0, e.1);
            proof {
                assert(self.as_map().union_prefer_right(map_of(rest.entries@)) =~= m0.insert(
                    ekey,
                    eval,
                ).union_prefer_right(map_of(r0.drop_last())));
                assert(map_of(r0) == map_of(r0.drop_last()).insert(ekey, eval));
                assert(m0.insert(ekey, eval).union_prefer_right(map_of(r0.drop_last()))
                    =~= m0.union_prefer_right(map_of(r0)));
            }
        }
        proof {
            assert(map_of(rest.entries@) =~= Map::<Seq<u8>, V>::empty());
            assert(self.as_map().union_prefer_right(Map::<Seq<u8>, V>::empty()) =~= self.as_map());
        }
    }
}

} // verus!
