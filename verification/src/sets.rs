//! The elements of a set of integers, listed in increasing order.

use std::collections::BTreeSet;
use vstd::prelude::*;
use vstd::std_specs::cmp::OrdSpec;
use vstd::std_specs::iter::IteratorSpec;

verus! {

broadcast use vstd::std_specs::btree::group_btree_axioms;

/// The elements strictly increase along the sequence.
pub open spec fn increasing_usize(q: Seq<usize>) -> bool {
    forall|i: int, j: int| 0 <= i < j < q.len() ==> q[i] < q[j]
}

/// The elements strictly increase along the sequence.
pub open spec fn increasing_u32(q: Seq<u32>) -> bool {
    forall|i: int, j: int| 0 <= i < j < q.len() ==> q[i] < q[j]
}

/// The elements of a finite set of `usize`, in increasing order.
pub open spec fn sorted_usize(s: Set<usize>) -> Seq<usize> {
    choose|q: Seq<usize>| increasing_usize(q) && q.to_set() == s
}

/// The elements of a finite set of `u32`, in increasing order.
pub open spec fn sorted_u32(s: Set<u32>) -> Seq<u32> {
    choose|q: Seq<u32>| increasing_u32(q) && q.to_set() == s
}

/// An increasing sequence is the sorted listing of its set of elements.
pub proof fn lemma_sorted_usize(q: Seq<usize>)
    requires
        increasing_usize(q),
    ensures
        sorted_usize(q.to_set()) == q,
{
    let p = sorted_usize(q.to_set());
    assert(increasing_usize(p) && p.to_set() == q.to_set());
    if p != q {
        let n = if p.len() < q.len() {
            p.len() as int
        } else {
            q.len() as int
        };
        if forall|i: int| 0 <= i < n ==> p[i] == q[i] {
            if p.len() == q.len() {
                assert(p =~= q);
            } else if p.len() < q.len() {
                assert(q.to_set().contains(q[n]));
                let m = choose|m: int| 0 <= m < p.len() && p[m] == q[n];
                assert(p[m] == q[m]);
            } else {
                assert(p.to_set().contains(p[n]));
                let m = choose|m: int| 0 <= m < q.len() && q[m] == p[n];
                assert(p[m] == q[m]);
            }
        } else {
            let d = choose|i: int| 0 <= i < n && p[i] != q[i];
            let f = first_diff_usize(p, q, d);
            if p[f] < q[f] {
                assert(q.to_set().contains(p[f]));
                let m = choose|m: int| 0 <= m < q.len() && q[m] == p[f];
                if m < f {
                    assert(p[m] == q[m]);
                }
            } else {
                assert(p.to_set().contains(q[f]));
                let m = choose|m: int| 0 <= m < p.len() && p[m] == q[f];
                if m < f {
                    assert(p[m] == q[m]);
                }
            }
        }
    }
}

proof fn first_diff_usize(p: Seq<usize>, q: Seq<usize>, d: int) -> (r: int)
    requires
        0 <= d < p.len(),
        d < q.len(),
        p[d] != q[d],
    ensures
        0 <= r <= d,
        p[r] != q[r],
        forall|i: int| 0 <= i < r ==> p[i] == q[i],
    decreases d,
{
    if forall|i: int| 0 <= i < d ==> p[i] == q[i] {
        d
    } else {
        let e = choose|i: int| 0 <= i < d && p[i] != q[i];
        first_diff_usize(p, q, e)
    }
}

/// An increasing sequence is the sorted listing of its set of elements.
pub proof fn lemma_sorted_u32(q: Seq<u32>)
    requires
        increasing_u32(q),
    ensures
        sorted_u32(q.to_set()) == q,
{
    let p = sorted_u32(q.to_set());
    assert(increasing_u32(p) && p.to_set() == q.to_set());
    if p != q {
        let n = if p.len() < q.len() {
            p.len() as int
        } else {
            q.len() as int
        };
        if forall|i: int| 0 <= i < n ==> p[i] == q[i] {
            if p.len() == q.len() {
                assert(p =~= q);
            } else if p.len() < q.len() {
                assert(q.to_set().contains(q[n]));
                let m = choose|m: int| 0 <= m < p.len() && p[m] == q[n];
                assert(p[m] == q[m]);
            } else {
                assert(p.to_set().contains(p[n]));
                let m = choose|m: int| 0 <= m < q.len() && q[m] == p[n];
                assert(p[m] == q[m]);
            }
        } else {
            let d = choose|i: int| 0 <= i < n && p[i] != q[i];
            let f = first_diff_u32(p, q, d);
            if p[f] < q[f] {
                assert(q.to_set().contains(p[f]));
                let m = choose|m: int| 0 <= m < q.len() && q[m] == p[f];
                if m < f {
                    assert(p[m] == q[m]);
                }
            } else {
                assert(p.to_set().contains(q[f]));
                let m = choose|m: int| 0 <= m < p.len() && p[m] == q[f];
                if m < f {
                    assert(p[m] == q[m]);
                }
            }
        }
    }
}

proof fn first_diff_u32(p: Seq<u32>, q: Seq<u32>, d: int) -> (r: int)
    requires
        0 <= d < p.len(),
        d < q.len(),
        p[d] != q[d],
    ensures
        0 <= r <= d,
        p[r] != q[r],
        forall|i: int| 0 <= i < r ==> p[i] == q[i],
    decreases d,
{
    if forall|i: int| 0 <= i < d ==> p[i] == q[i] {
        d
    } else {
        let e = choose|i: int| 0 <= i < d && p[i] != q[i];
        first_diff_u32(p, q, e)
    }
}

proof fn lemma_btree_increasing_usize(s: Seq<&usize>)
    requires
        vstd::std_specs::btree::increasing_seq(s),
    ensures
        forall|i: int, j: int| 0 <= i < j < s.len() ==> *s[i] < *s[j],
{
    assert(vstd::laws_cmp::obeys_cmp::<usize>());
    assert(vstd::laws_cmp::obeys_cmp::<&usize>());
    vstd::std_specs::btree::axiom_increasing_seq_meaning(s);
    assert forall|i: int, j: int| 0 <= i < j < s.len() implies *s[i] < *s[j] by {
        assert(OrdSpec::cmp_spec(&s[i], &s[j]) is Less);
        assert(OrdSpec::cmp_spec(s[i], s[j]) is Less);
    }
}

proof fn lemma_btree_increasing_u32(s: Seq<&u32>)
    requires
        vstd::std_specs::btree::increasing_seq(s),
    ensures
        forall|i: int, j: int| 0 <= i < j < s.len() ==> *s[i] < *s[j],
{
    assert(vstd::laws_cmp::obeys_cmp::<u32>());
    assert(vstd::laws_cmp::obeys_cmp::<&u32>());
    vstd::std_specs::btree::axiom_increasing_seq_meaning(s);
    assert forall|i: int, j: int| 0 <= i < j < s.len() implies *s[i] < *s[j] by {
        assert(OrdSpec::cmp_spec(&s[i], &s[j]) is Less);
        assert(OrdSpec::cmp_spec(s[i], s[j]) is Less);
    }
}

/// The elements of a set of `usize`, in increasing order.
pub fn usize_elems(s: &BTreeSet<usize>) -> (r: Vec<usize>)
    ensures
        r@ == sorted_usize(s@),
        r@.to_set() == s@,
        r@.len() == s@.len(),
        increasing_usize(r@),
{
    let mut out: Vec<usize> = Vec::new();
    let ghost whole = s.iter().remaining().map_values(|x: &usize| *x);
    proof {
        vstd::std_specs::btree::axiom_spec_btree_keys_iter(s);
        assert(whole =~= s.iter().remaining().unref());
        lemma_btree_increasing_usize(s.iter().remaining());
    }
    for k in it: s.iter()
        invariant
            whole == s.iter().remaining().map_values(|x: &usize| *x),
            it.seq() == s.iter().remaining(),
            out@ == whole.take(it.index() as int),
    {
        out.push(*k);
    }
    proof {
        assert(out@ =~= whole);
        lemma_sorted_usize(out@);
    }
    out
}

/// The elements of a set of `u32`, in increasing order.
pub fn u32_elems(s: &BTreeSet<u32>) -> (r: Vec<u32>)
    ensures
        r@ == sorted_u32(s@),
        r@.to_set() == s@,
        r@.len() == s@.len(),
        increasing_u32(r@),
{
    let mut out: Vec<u32> = Vec::new();
    let ghost whole = s.iter().remaining().map_values(|x: &u32| *x);
    proof {
        vstd::std_specs::btree::axiom_spec_btree_keys_iter(s);
        assert(whole =~= s.iter().remaining().unref());
        lemma_btree_increasing_u32(s.iter().remaining());
    }
    for k in it: s.iter()
        invariant
            whole == s.iter().remaining().map_values(|x: &u32| *x),
            it.seq() == s.iter().remaining(),
            out@ == whole.take(it.index() as int),
    {
        out.push(*k);
    }
    proof {
        assert(out@ =~= whole);
        lemma_sorted_u32(out@);
    }
    out
}

} // verus!
