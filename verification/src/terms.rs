//! Finite maps from names to values held as vectors sorted by name, with the
//! lemmas that tie such a vector to the map it stands for.

use vstd::prelude::*;

use crate::order::{compare_texts, lemma_text_order, text_lt, KeyOrder};

verus! {

/// The names and values of a vector of named entries.
pub open spec fn entries_view<V>(v: Seq<(String, V)>) -> Seq<(Seq<char>, V)> {
    v.map_values(|e: (String, V)| (e.0@, e.1))
}

/// Names strictly increase along the sequence (so no name occurs twice).
pub open spec fn sorted_names<V>(s: Seq<(Seq<char>, V)>) -> bool {
    forall|i: int, j: int| 0 <= i < j < s.len() ==> text_lt(#[trigger] s[i].0, #[trigger] s[j].0)
}

/// Whether `k` is one of the names of the sequence.
pub open spec fn has_name<V>(s: Seq<(Seq<char>, V)>, k: Seq<char>) -> bool {
    exists|i: int| 0 <= i < s.len() && #[trigger] s[i].0 == k
}

/// The map that a sequence of named entries stands for.
pub open spec fn entries_map<V>(s: Seq<(Seq<char>, V)>) -> Map<Seq<char>, V> {
    Map::new(
        |k: Seq<char>| has_name(s, k),
        |k: Seq<char>| s[choose|i: int| 0 <= i < s.len() && #[trigger] s[i].0 == k].1,
    )
}

/// In a sorted sequence, each entry is what the map holds for its name.
pub proof fn lemma_entries_map_at<V>(s: Seq<(Seq<char>, V)>, i: int)
    requires
        sorted_names(s),
        0 <= i < s.len(),
    ensures
        entries_map(s).contains_key(s[i].0),
        entries_map(s)[s[i].0] == s[i].1,
{
    assert(has_name(s, s[i].0));
    let j = choose|j: int| 0 <= j < s.len() && #[trigger] s[j].0 == s[i].0;
    if j != i {
        lemma_text_order(s[i].0, s[i].0, s[i].0);
        if j < i {
            assert(text_lt(s[j].0, s[i].0));
        } else {
            assert(text_lt(s[i].0, s[j].0));
        }
    }
}

/// The map of a sorted sequence: its domain is the set of names and each name
/// maps to the value next to it.
pub proof fn lemma_entries_map_all<V>(s: Seq<(Seq<char>, V)>)
    requires
        sorted_names(s),
    ensures
        forall|i: int|
            0 <= i < s.len() ==> entries_map(s).contains_key(#[trigger] s[i].0) && entries_map(
                s,
            )[s[i].0] == s[i].1,
        forall|k: Seq<char>| #[trigger] entries_map(s).contains_key(k) <==> has_name(s, k),
{
    assert forall|i: int| 0 <= i < s.len() implies entries_map(s).contains_key(
        #[trigger] s[i].0,
    ) && entries_map(s)[s[i].0] == s[i].1 by {
        lemma_entries_map_at(s, i);
    }
}

/// Where a name stands, or would stand, in a sorted sequence.
pub open spec fn is_position<V>(s: Seq<(Seq<char>, V)>, k: Seq<char>, pos: int, found: bool) -> bool {
    &&& 0 <= pos <= s.len()
    &&& forall|j: int| 0 <= j < pos ==> text_lt(#[trigger] s[j].0, k)
    &&& found ==> pos < s.len() && s[pos].0 == k
    &&& !found ==> (pos == s.len() || text_lt(k, s[pos].0))
}

/// A name that is not found at its position is not in the sequence.
pub proof fn lemma_position_absent<V>(s: Seq<(Seq<char>, V)>, k: Seq<char>, pos: int)
    requires
        sorted_names(s),
        is_position(s, k, pos, false),
    ensures
        !has_name(s, k),
        !entries_map(s).contains_key(k),
{
    if has_name(s, k) {
        let i = choose|i: int| 0 <= i < s.len() && #[trigger] s[i].0 == k;
        lemma_text_order(k, k, k);
        if i < pos {
            assert(text_lt(s[i].0, k));
        } else if i == pos {
            assert(text_lt(k, s[pos].0));
        } else {
            assert(text_lt(s[pos].0, s[i].0));
            lemma_text_order(k, s[pos].0, s[i].0);
        }
    }
}

/// Inserting a new name at its position keeps the sequence sorted and adds
/// the entry to the map.
pub proof fn lemma_insert_at_position<V>(s: Seq<(Seq<char>, V)>, k: Seq<char>, v: V, pos: int)
    requires
        sorted_names(s),
        is_position(s, k, pos, false),
    ensures
        sorted_names(s.insert(pos, (k, v))),
        entries_map(s.insert(pos, (k, v))) == entries_map(s).insert(k, v),
{
    let t = s.insert(pos, (k, v));
    assert forall|i: int, j: int| 0 <= i < j < t.len() implies text_lt(
        #[trigger] t[i].0,
        #[trigger] t[j].0,
    ) by {
        if i < pos && j == pos {
        } else if i < pos && j > pos {
            assert(t[j] == s[j - 1]);
            if pos < s.len() {
                lemma_text_order(s[i].0, k, s[pos].0);
                if j - 1 > pos {
                    assert(text_lt(s[pos].0, s[j - 1].0));
                    lemma_text_order(s[i].0, s[pos].0, s[j - 1].0);
                }
            }
        } else if i == pos {
            assert(t[j] == s[j - 1]);
            if j - 1 > pos {
                assert(text_lt(s[pos].0, s[j - 1].0));
                lemma_text_order(k, s[pos].0, s[j - 1].0);
            }
        } else if i > pos {
            assert(t[i] == s[i - 1]);
            assert(t[j] == s[j - 1]);
        } else {
            assert(t[i] == s[i]);
            assert(t[j] == s[j]);
        }
    }
    lemma_position_absent(s, k, pos);
    lemma_entries_map_all(s);
    lemma_entries_map_all(t);
    assert forall|key: Seq<char>| #[trigger] has_name(t, key) <==> (key == k || has_name(s, key)) by {
        if has_name(t, key) {
            let i = choose|i: int| 0 <= i < t.len() && #[trigger] t[i].0 == key;
            if i < pos {
                assert(s[i].0 == key);
            } else if i > pos {
                assert(s[i - 1].0 == key);
            }
        }
        if has_name(s, key) {
            let i = choose|i: int| 0 <= i < s.len() && #[trigger] s[i].0 == key;
            if i < pos {
                assert(t[i].0 == key);
            } else {
                assert(t[i + 1].0 == key);
            }
        }
        if key == k {
            assert(t[pos].0 == key);
        }
    }
    assert forall|key: Seq<char>| entries_map(t).contains_key(key) implies entries_map(t)[key]
        == entries_map(s).insert(k, v)[key] by {
        let i = choose|i: int| 0 <= i < t.len() && #[trigger] t[i].0 == key;
        if i < pos {
            assert(t[i] == s[i]);
        } else if i > pos {
            assert(t[i] == s[i - 1]);
        }
    }
    assert(entries_map(t) =~= entries_map(s).insert(k, v));
}

/// Replacing the value of an existing name keeps the sequence sorted and
/// updates the map.
pub proof fn lemma_update_at_position<V>(s: Seq<(Seq<char>, V)>, v: V, pos: int)
    requires
        sorted_names(s),
        0 <= pos < s.len(),
    ensures
        sorted_names(s.update(pos, (s[pos].0, v))),
        entries_map(s.update(pos, (s[pos].0, v))) == entries_map(s).insert(s[pos].0, v),
{
    let k = s[pos].0;
    let t = s.update(pos, (k, v));
    assert forall|i: int, j: int| 0 <= i < j < t.len() implies text_lt(
        #[trigger] t[i].0,
        #[trigger] t[j].0,
    ) by {
        assert(t[i].0 == s[i].0);
        assert(t[j].0 == s[j].0);
    }
    lemma_entries_map_all(s);
    lemma_entries_map_all(t);
    assert forall|key: Seq<char>| #[trigger] has_name(t, key) <==> has_name(s, key) by {
        if has_name(t, key) {
            let i = choose|i: int| 0 <= i < t.len() && #[trigger] t[i].0 == key;
            assert(s[i].0 == key);
        }
        if has_name(s, key) {
            let i = choose|i: int| 0 <= i < s.len() && #[trigger] s[i].0 == key;
            assert(t[i].0 == key);
        }
    }
    assert forall|key: Seq<char>| entries_map(t).contains_key(key) implies entries_map(t)[key]
        == entries_map(s).insert(k, v)[key] by {
        let i = choose|i: int| 0 <= i < t.len() && #[trigger] t[i].0 == key;
        if i != pos {
            assert(t[i] == s[i]);
            lemma_entries_map_at(s, pos);
            if key == k {
                lemma_text_order(k, k, k);
                if i < pos {
                    assert(text_lt(s[i].0, s[pos].0));
                } else {
                    assert(text_lt(s[pos].0, s[i].0));
                }
            }
        }
    }
    assert(entries_map(t) =~= entries_map(s).insert(k, v));
}

/// Two sorted sequences that stand for the same map are the same sequence.
pub proof fn lemma_sorted_unique<V>(s: Seq<(Seq<char>, V)>, t: Seq<(Seq<char>, V)>)
    requires
        sorted_names(s),
        sorted_names(t),
        entries_map(s) == entries_map(t),
    ensures
        s == t,
{
    lemma_entries_map_all(s);
    lemma_entries_map_all(t);
    if s != t {
        let n = if s.len() < t.len() {
            s.len() as int
        } else {
            t.len() as int
        };
        if forall|i: int| 0 <= i < n ==> s[i] == t[i] {
            if s.len() == t.len() {
                assert(s =~= t);
            } else if s.len() < t.len() {
                let k = t[n].0;
                assert(has_name(t, k));
                let j = choose|j: int| 0 <= j < s.len() && #[trigger] s[j].0 == k;
                assert(t[j] == s[j]);
                assert(text_lt(t[j].0, t[n].0));
                lemma_text_order(k, k, k);
            } else {
                let k = s[n].0;
                assert(has_name(s, k));
                let j = choose|j: int| 0 <= j < t.len() && #[trigger] t[j].0 == k;
                assert(t[j] == s[j]);
                assert(text_lt(s[j].0, s[n].0));
                lemma_text_order(k, k, k);
            }
        } else {
            let d = choose|i: int| 0 <= i < n && s[i] != t[i];
            let first = first_difference(s, t, d);
            let a = s[first].0;
            let b = t[first].0;
            lemma_text_order(a, b, a);
            if a == b {
                assert(entries_map(s)[a] == s[first].1);
                assert(entries_map(t)[a] == t[first].1);
                assert(s[first] == t[first]);
            } else if text_lt(a, b) {
                assert(has_name(t, a));
                let j = choose|j: int| 0 <= j < t.len() && #[trigger] t[j].0 == a;
                if j < first {
                    assert(s[j] == t[j]);
                    assert(text_lt(s[j].0, s[first].0));
                    lemma_text_order(a, a, a);
                } else if j > first {
                    assert(text_lt(t[first].0, t[j].0));
                }
            } else {
                assert(has_name(s, b));
                let j = choose|j: int| 0 <= j < s.len() && #[trigger] s[j].0 == b;
                if j < first {
                    assert(s[j] == t[j]);
                    assert(text_lt(t[j].0, t[first].0));
                    lemma_text_order(b, b, b);
                } else if j > first {
                    assert(text_lt(s[first].0, s[j].0));
                }
            }
        }
    }
}

/// The first index, at most `d`, where two sequences differ.
proof fn first_difference<V>(s: Seq<(Seq<char>, V)>, t: Seq<(Seq<char>, V)>, d: int) -> (r: int)
    requires
        0 <= d < s.len(),
        d < t.len(),
        s[d] != t[d],
    ensures
        0 <= r <= d,
        s[r] != t[r],
        forall|i: int| 0 <= i < r ==> s[i] == t[i],
    decreases d,
{
    if forall|i: int| 0 <= i < d ==> s[i] == t[i] {
        d
    } else {
        let e = choose|i: int| 0 <= i < d && s[i] != t[i];
        first_difference(s, t, e)
    }
}

/// Finds where `name` stands, or would stand, among sorted named entries.
pub fn find_position<V>(v: &Vec<(String, V)>, name: &str) -> (r: (usize, bool))
    requires
        sorted_names(entries_view(v@)),
    ensures
        is_position(entries_view(v@), name@, r.0 as int, r.1),
{
    let ghost s = entries_view(v@);
    let mut i: usize = 0;
    while i < v.len()
        invariant
            s == entries_view(v@),
            sorted_names(s),
            0 <= i <= v@.len(),
            forall|j: int| 0 <= j < i ==> text_lt(#[trigger] s[j].0, name@),
        decreases v@.len() - i,
    {
        let c = compare_texts(v[i].0.as_str(), name);
        match c {
            KeyOrder::Less => {},
            KeyOrder::Equal => {
                return (i, true);
            },
            KeyOrder::Greater => {
                return (i, false);
            },
        }
        i = i + 1;
    }
    (i, false)
}

/// The value held for `name`, if any.
pub fn get_entry<V: Copy>(v: &Vec<(String, V)>, name: &str) -> (r: Option<V>)
    requires
        sorted_names(entries_view(v@)),
    ensures
        match r {
            Some(x) => entries_map(entries_view(v@)).contains_key(name@) && entries_map(
                entries_view(v@),
            )[name@] == x,
            None => !entries_map(entries_view(v@)).contains_key(name@),
        },
{
    let ghost s = entries_view(v@);
    let (pos, found) = find_position(v, name);
    proof {
        lemma_entries_map_all(s);
    }
    if found {
        proof {
            lemma_entries_map_at(s, pos as int);
        }
        Some(v[pos].1)
    } else {
        proof {
            lemma_position_absent(s, name@, pos as int);
        }
        None
    }
}

/// Sets the value held for `name`, adding the name where it belongs if it is new.
pub fn set_entry<V: Copy>(v: &mut Vec<(String, V)>, name: &String, value: V)
    requires
        sorted_names(entries_view(old(v)@)),
    ensures
        sorted_names(entries_view(final(v)@)),
        entries_map(entries_view(final(v)@)) == entries_map(entries_view(old(v)@)).insert(
            name@,
            value,
        ),
{
    let ghost s = entries_view(v@);
    let (pos, found) = find_position(v, name.as_str());
    if found {
        proof {
            lemma_update_at_position(s, value, pos as int);
        }
        v.set(pos, (name.clone(), value));
        proof {
            assert(entries_view(v@) =~= s.update(pos as int, (s[pos as int].0, value)));
        }
    } else {
        proof {
            lemma_insert_at_position(s, name@, value, pos as int);
        }
        v.insert(pos, (name.clone(), value));
        proof {
            assert(entries_view(v@) =~= s.insert(pos as int, (name@, value)));
        }
    }
}

/// A copy of a vector of named entries.
pub fn copy_entries<V: Copy>(v: &Vec<(String, V)>) -> (r: Vec<(String, V)>)
    ensures
        entries_view(r@) == entries_view(v@),
{
    let mut out: Vec<(String, V)> = Vec::new();
    let mut i: usize = 0;
    while i < v.len()
        invariant
            0 <= i <= v@.len(),
            entries_view(out@) == entries_view(v@).take(i as int),
        decreases v@.len() - i,
    {
        let name = v[i].0.clone();
        let ghost before = out@;
        out.push((name, v[i].1));
        proof {
            assert(out@ == before.push((name, v@[i as int].1)));
            assert(entries_view(out@) =~= entries_view(before).push((name@, v@[i as int].1)));
            assert(entries_view(out@) =~= entries_view(v@).take(i + 1));
        }
        i = i + 1;
    }
    proof {
        assert(entries_view(v@).take(v@.len() as int) =~= entries_view(v@));
    }
    out
}

/// Growing a prefix of a sorted sequence by one entry adds that entry's name,
/// which was not yet there, to the map.
pub proof fn lemma_take_push<V>(s: Seq<(Seq<char>, V)>, i: int)
    requires
        sorted_names(s),
        0 <= i < s.len(),
    ensures
        sorted_names(s.take(i)),
        sorted_names(s.take(i + 1)),
        !entries_map(s.take(i)).contains_key(s[i].0),
        entries_map(s.take(i + 1)) == entries_map(s.take(i)).insert(s[i].0, s[i].1),
{
    let prefix = s.take(i);
    assert forall|jj: int| 0 <= jj < i implies text_lt(#[trigger] prefix[jj].0, s[i].0) by {
        assert(prefix[jj] == s[jj]);
    }
    assert(is_position(prefix, s[i].0, i, false));
    lemma_insert_at_position(prefix, s[i].0, s[i].1, i);
    lemma_position_absent(prefix, s[i].0, i);
    assert(prefix.insert(i, (s[i].0, s[i].1)) =~= s.take(i + 1));
}

/// Pushing an entry of a sorted sequence after entries whose names all come before it
/// keeps the result sorted and adds the entry to its map.
pub proof fn lemma_push_after<V>(out: Seq<(Seq<char>, V)>, s: Seq<(Seq<char>, V)>, i: int)
    requires
        sorted_names(s),
        sorted_names(out),
        0 <= i < s.len(),
        forall|p: int| 0 <= p < out.len() ==> text_lt(#[trigger] out[p].0, s[i].0),
    ensures
        sorted_names(out.push(s[i])),
        entries_map(out.push(s[i])) == entries_map(out).insert(s[i].0, s[i].1),
{
    assert(is_position(out, s[i].0, out.len() as int, false));
    lemma_insert_at_position(out, s[i].0, s[i].1, out.len() as int);
    assert(out.insert(out.len() as int, (s[i].0, s[i].1)) =~= out.push(s[i]));
}

} // verus!
