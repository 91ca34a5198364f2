//! Sets of values kept in increasing order of a sort key, each key at most once.

use vstd::prelude::*;

use crate::order::{compare_keys, ints, lemma_lex_irreflexive, lemma_lex_transitive, lex_lt, KeyOrder};

verus! {

/// Values that are ordered by a sequence of integers compared lexicographically.
pub trait SortKey {
    /// The key by which values are ordered; two values with the same key are the same value.
    spec fn sort_key(&self) -> Seq<int>;

    /// The key, as unsigned words.
    fn key_words(&self) -> (r: Vec<u64>)
        ensures
            ints(r@) == self.sort_key(),
    ;
}

/// Keys strictly increase along the sequence.
pub open spec fn keys_increasing<T: SortKey>(s: Seq<T>) -> bool {
    forall|i: int, j: int| 0 <= i < j < s.len() ==> lex_lt(#[trigger] s[i].sort_key(), #[trigger] s[j].sort_key())
}

/// Whether some element of `s` has the key `k`.
pub open spec fn has_key<T: SortKey>(s: Seq<T>, k: Seq<int>) -> bool {
    exists|i: int| 0 <= i < s.len() && #[trigger] s[i].sort_key() == k
}

/// The element `v[m]` is the first of `v`, from index `lo` on, with its key.
pub open spec fn first_with_key<T: SortKey>(v: Seq<T>, lo: int, m: int) -> bool {
    &&& lo <= m < v.len()
    &&& forall|p: int| lo <= p < m ==> (#[trigger] v[p]).sort_key() != v[m].sort_key()
}

/// `x` is an element of `v` that no earlier element of `v` shares its key with.
pub open spec fn is_first_of_key<T: SortKey>(v: Seq<T>, x: T) -> bool {
    exists|m: int| first_with_key(v, 0, m) && v[m] == x
}

/// A set of values held in increasing order of their keys.
#[derive(Debug, PartialEq, Eq)]
pub struct SortedVec<T: SortKey> {
    items: Vec<T>,
}

impl<T: SortKey> SortedVec<T> {
    #[verifier::type_invariant]
    spec fn inv(self) -> bool {
        keys_increasing(self.items@)
    }

    /// The values, in increasing order of their keys.
    pub closed spec fn items(self) -> Seq<T> {
        self.items@
    }

    /// The empty set.
    pub fn new() -> (r: SortedVec<T>)
        ensures
            r.items().len() == 0,
    {
        SortedVec { items: Vec::new() }
    }

    /// The set of the given values: each key is kept once, with the first value
    /// that carries it.
    pub fn from_vec(v: Vec<T>) -> (r: SortedVec<T>)
        ensures
            keys_increasing(r.items()),
            forall|m: int| 0 <= m < v@.len() ==> has_key(r.items(), #[trigger] v@[m].sort_key()),
            forall|i: int| 0 <= i < r.items().len() ==> is_first_of_key(v@, #[trigger] r.items()[i]),
    {
        let ghost orig = v@;
        let mut rest = v;
        let mut items: Vec<T> = Vec::new();
        while rest.len() > 0
            invariant
                rest@ == orig.take(rest@.len() as int),
                rest@.len() <= orig.len(),
                keys_increasing(items@),
                forall|m: int|
                    rest@.len() <= m < orig.len() ==> has_key(items@, #[trigger] orig[m].sort_key()),
                forall|i: int|
                    0 <= i < items@.len() ==> exists|m: int|
                        first_with_key(orig, rest@.len() as int, m) && #[trigger] items@[i] == orig[m],
            decreases rest@.len(),
        {
            let ghost k = rest@.len() - 1;
            let x = rest.pop().unwrap();
            proof {
                assert(x == orig[k]);
                assert(rest@ =~= orig.take(k));
            }
            let ghost before = items@;
            let found = insert_keyed(&mut items, x);
            proof {
                assert forall|m: int| k <= m < orig.len() implies has_key(
                    items@,
                    #[trigger] orig[m].sort_key(),
                ) by {
                    if m == k {
                        assert(items@[found.0 as int] == orig[k]);
                    } else {
                        assert(has_key(before, orig[m].sort_key()));
                        let i = choose|i: int|
                            0 <= i < before.len() && #[trigger] before[i].sort_key() == orig[m].sort_key();
                        if found.1 {
                            assert(items@[i].sort_key() == before[i].sort_key());
                        } else if i < found.0 {
                            assert(items@[i] == before[i]);
                        } else {
                            assert(items@[i + 1] == before[i]);
                        }
                    }
                }
                assert forall|i: int| 0 <= i < items@.len() implies exists|m: int|
                    first_with_key(orig, k, m) && #[trigger] items@[i] == orig[m] by {
                    let pos = found.0 as int;
                    if i == pos {
                        assert(first_with_key(orig, k, k));
                    } else {
                        let j = if found.1 || i < pos {
                            i
                        } else {
                            i - 1
                        };
                        assert(items@[i] == before[j]);
                        let m = choose|m: int|
                            first_with_key(orig, k + 1, m) && #[trigger] before[j] == orig[m];
                        assert(before[j].sort_key() != x.sort_key()) by {
                            if found.1 {
                                assert(before[pos].sort_key() == x.sort_key());
                                lemma_lex_irreflexive(x.sort_key());
                                if j < pos {
                                    assert(lex_lt(before[j].sort_key(), before[pos].sort_key()));
                                } else {
                                    assert(lex_lt(before[pos].sort_key(), before[j].sort_key()));
                                }
                            } else {
                                assert(!has_key(before, x.sort_key()));
                            }
                        }
                        assert(first_with_key(orig, k, m));
                    }
                }
            }
        }
        proof {
            assert(rest@.len() == 0);
            assert forall|i: int| 0 <= i < items@.len() implies is_first_of_key(orig, #[trigger] items@[i]) by {
                let m = choose|m: int| first_with_key(orig, 0, m) && #[trigger] items@[i] == orig[m];
                assert(first_with_key(orig, 0, m) && items@[i] == orig[m]);
            }
        }
        SortedVec { items }
    }

    /// The number of values.
    pub fn len(&self) -> (r: usize)
        ensures
            r == self.items().len(),
    {
        self.items.len()
    }

    /// The value at position `i` in key order.
    pub fn get(&self, i: usize) -> (r: &T)
        requires
            i < self.items().len(),
        ensures
            *r == self.items()[i as int],
    {
        &self.items[i]
    }
}

impl<T: SortKey + Copy> SortedVec<T> {
    /// The values, in increasing order of their keys.
    pub fn to_vec(&self) -> (r: Vec<T>)
        ensures
            r@ == self.items(),
    {
        let mut out: Vec<T> = Vec::new();
        let mut i: usize = 0;
        while i < self.items.len()
            invariant
                0 <= i <= self.items@.len(),
                out@ == self.items@.take(i as int),
            decreases self.items@.len() - i,
        {
            out.push(self.items[i]);
            proof {
                assert(self.items@.take(i + 1) =~= self.items@.take(i as int).push(self.items@[i as int]));
            }
            i = i + 1;
        }
        proof {
            assert(self.items@.take(i as int) =~= self.items@);
        }
        out
    }
}

/// When keys determine values, the set built from a list by `from_vec` holds
/// exactly the values of the list.
pub proof fn lemma_sorted_set_members<T: SortKey>(v: Seq<T>, r: Seq<T>)
    requires
        forall|a: T, b: T| #[trigger] a.sort_key() == #[trigger] b.sort_key() ==> a == b,
        forall|m: int| 0 <= m < v.len() ==> has_key(r, #[trigger] v[m].sort_key()),
        forall|i: int| 0 <= i < r.len() ==> is_first_of_key(v, #[trigger] r[i]),
    ensures
        forall|x: T| r.contains(x) <==> v.contains(x),
{
    assert forall|x: T| r.contains(x) <==> v.contains(x) by {
        if r.contains(x) {
            let i = choose|i: int| 0 <= i < r.len() && r[i] == x;
            assert(is_first_of_key(v, r[i]));
            let m = choose|m: int| first_with_key(v, 0, m) && v[m] == r[i];
            assert(v[m] == x);
        }
        if v.contains(x) {
            let m = choose|m: int| 0 <= m < v.len() && v[m] == x;
            assert(has_key(r, v[m].sort_key()));
            let i = choose|i: int| 0 <= i < r.len() && #[trigger] r[i].sort_key() == v[m].sort_key();
            assert(r[i] == x);
        }
    }
}

/// Inserts `x` where its key belongs, replacing the value with the same key
/// if there is one. Gives back the position and whether the key was present.
fn insert_keyed<T: SortKey>(items: &mut Vec<T>, x: T) -> (r: (usize, bool))
    requires
        keys_increasing(old(items)@),
    ensures
        keys_increasing(final(items)@),
        r.1 == has_key(old(items)@, x.sort_key()),
        r.1 ==> old(items)@[r.0 as int].sort_key() == x.sort_key(),
        r.1 ==> r.0 < old(items)@.len() && final(items)@ == old(items)@.update(r.0 as int, x),
        !r.1 ==> r.0 <= old(items)@.len() && final(items)@ == old(items)@.insert(r.0 as int, x),
{
    let ghost s = items@;
    let kx = x.key_words();
    let mut i: usize = 0;
    while i < items.len()
        invariant
            s == items@,
            s == old(items)@,
            keys_increasing(s),
            ints(kx@) == x.sort_key(),
            0 <= i <= s.len(),
            forall|j: int| 0 <= j < i ==> lex_lt(#[trigger] s[j].sort_key(), x.sort_key()),
        decreases s.len() - i,
    {
        let ki = items[i].key_words();
        match compare_keys(&ki, &kx) {
            KeyOrder::Less => {},
            KeyOrder::Equal => {
                proof {
                    assert(has_key(s, x.sort_key()));
                    assert forall|p: int, q: int| 0 <= p < q < s.len() implies lex_lt(
                        #[trigger] s.update(i as int, x)[p].sort_key(),
                        #[trigger] s.update(i as int, x)[q].sort_key(),
                    ) by {
                        assert(lex_lt(s[p].sort_key(), s[q].sort_key()));
                    }
                }
                items.set(i, x);
                return (i, true);
            },
            KeyOrder::Greater => {
                proof {
                    lemma_absent_at(s, x.sort_key(), i as int);
                    lemma_insert_keeps_increasing(s, x, i as int);
                }
                items.insert(i, x);
                return (i, false);
            },
        }
        i = i + 1;
    }
    proof {
        lemma_absent_at(s, x.sort_key(), i as int);
        lemma_insert_keeps_increasing(s, x, i as int);
    }
    items.insert(i, x);
    (i, false)
}

/// A key that comes after all the keys before `pos` and before the key at
/// `pos` is not among the keys.
pub proof fn lemma_absent_at<T: SortKey>(s: Seq<T>, k: Seq<int>, pos: int)
    requires
        keys_increasing(s),
        0 <= pos <= s.len(),
        forall|j: int| 0 <= j < pos ==> lex_lt(#[trigger] s[j].sort_key(), k),
        pos < s.len() ==> lex_lt(k, s[pos].sort_key()),
    ensures
        !has_key(s, k),
{
    if has_key(s, k) {
        let i = choose|i: int| 0 <= i < s.len() && #[trigger] s[i].sort_key() == k;
        lemma_lex_irreflexive(k);
        if i > pos {
            assert(lex_lt(s[pos].sort_key(), s[i].sort_key()));
            lemma_lex_transitive(k, s[pos].sort_key(), k);
        }
    }
}

/// Inserting at a position between smaller and larger keys keeps keys increasing.
pub proof fn lemma_insert_keeps_increasing<T: SortKey>(s: Seq<T>, x: T, pos: int)
    requires
        keys_increasing(s),
        0 <= pos <= s.len(),
        forall|j: int| 0 <= j < pos ==> lex_lt(#[trigger] s[j].sort_key(), x.sort_key()),
        pos < s.len() ==> lex_lt(x.sort_key(), s[pos].sort_key()),
    ensures
        keys_increasing(s.insert(pos, x)),
{
    let t = s.insert(pos, x);
    assert forall|i: int, j: int| 0 <= i < j < t.len() implies lex_lt(
        #[trigger] t[i].sort_key(),
        #[trigger] t[j].sort_key(),
    ) by {
        if i < pos && j == pos {
        } else if i < pos && j > pos {
            assert(t[j] == s[j - 1]);
            if j - 1 > pos {
                assert(lex_lt(s[pos].sort_key(), s[j - 1].sort_key()));
                lemma_lex_transitive(x.sort_key(), s[pos].sort_key(), s[j - 1].sort_key());
            }
            lemma_lex_transitive(s[i].sort_key(), x.sort_key(), s[j - 1].sort_key());
        } else if i == pos {
            assert(t[j] == s[j - 1]);
            if j - 1 > pos {
                assert(lex_lt(s[pos].sort_key(), s[j - 1].sort_key()));
                lemma_lex_transitive(x.sort_key(), s[pos].sort_key(), s[j - 1].sort_key());
            }
        } else if i > pos {
            assert(t[i] == s[i - 1]);
            assert(t[j] == s[j - 1]);
        } else {
            assert(t[i] == s[i]);
            assert(t[j] == s[j]);
        }
    }
}

} // verus!
