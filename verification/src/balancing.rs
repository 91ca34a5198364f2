//! Balancing tables: for each set of weeks that offer the same slots, how
//! many slots each teacher, time slot, or both, has in each of these weeks.

use std::collections::BTreeSet;
use vstd::prelude::*;

use crate::colloscope::{
    variable_name, BalancingObject, SlotWithTeacher, Subject, TeacherAndTimeslotBalancing,
    TeacherBalancing, TimeslotBalancing, Variable, WeekSelection,
};
use crate::interrogations::{names_of_vars, ones, sum_of_vars};
use crate::linexpr::Expr;
use crate::translator::IlpTranslator;
use crate::validation::ValidatedData;
use crate::order::{compare_keys, ints, lemma_lex_irreflexive, lemma_lex_transitive, lex_lt, KeyOrder};
use crate::sets::{increasing_u32, lemma_sorted_u32, sorted_u32, u32_elems};
use crate::sorted::{keys_increasing, lemma_absent_at, lemma_insert_keeps_increasing, SortKey};
use crate::time::{lemma_weekday_index_roundtrip, weekday_index, Time};

verus! {

broadcast use {vstd::std_specs::btree::group_btree_axioms, vstd::laws_cmp::group_laws_cmp};

/// A criterion over which the slots of a subject are balanced: the value it
/// takes on each slot, ordered by a sort key that determines it.
pub trait BalancingData: SortKey + Sized + Copy {
    /// The value taken on a slot.
    spec fn of_slot(slot: SlotWithTeacher) -> Self;

    /// The value taken on a slot.
    fn from_subject_slot(slot: &SlotWithTeacher) -> (r: Self)
        ensures
            r == Self::of_slot(*slot),
    ;

    /// Two values with the same sort key are equal.
    proof fn lemma_key_determines(a: Self, b: Self)
        requires
            a.sort_key() == b.sort_key(),
        ensures
            a == b,
    ;

    /// Whether this value is the one taken on the slot.
    fn is_slot_relevant(&self, slot: &SlotWithTeacher) -> (r: bool)
        ensures
            r == (*self == Self::of_slot(*slot)),
    {
        let other = Self::from_subject_slot(slot);
        let a = self.key_words();
        let b = other.key_words();
        match compare_keys(&a, &b) {
            KeyOrder::Equal => {
                proof {
                    Self::lemma_key_determines(*self, other);
                }
                true
            },
            _ => false,
        }
    }
}

impl SortKey for TeacherBalancing {
    open spec fn sort_key(&self) -> Seq<int> {
        seq![self.teacher as int]
    }

    fn key_words(&self) -> (r: Vec<u64>) {
        let mut v: Vec<u64> = Vec::new();
        v.push(self.teacher as u64);
        proof {
            assert(ints(v@) =~= self.sort_key());
        }
        v
    }
}

impl BalancingData for TeacherBalancing {
    open spec fn of_slot(slot: SlotWithTeacher) -> Self {
        TeacherBalancing { teacher: slot.teacher }
    }

    fn from_subject_slot(slot: &SlotWithTeacher) -> (r: Self) {
        TeacherBalancing { teacher: slot.teacher }
    }

    proof fn lemma_key_determines(a: Self, b: Self) {
        assert(a.sort_key() == seq![a.teacher as int]);
        assert(b.sort_key() == seq![b.teacher as int]);
        assert(seq![a.teacher as int][0] == a.teacher as int);
        assert(seq![b.teacher as int][0] == b.teacher as int);
        assert(a.teacher == b.teacher);
    }
}

impl SortKey for TimeslotBalancing {
    open spec fn sort_key(&self) -> Seq<int> {
        seq![weekday_index(self.weekday) as int, self.time.minutes() as int]
    }

    fn key_words(&self) -> (r: Vec<u64>) {
        let mut v: Vec<u64> = Vec::new();
        v.push(self.weekday.index() as u64);
        v.push(self.time.get() as u64);
        proof {
            assert(ints(v@) =~= self.sort_key());
        }
        v
    }
}

impl BalancingData for TimeslotBalancing {
    open spec fn of_slot(slot: SlotWithTeacher) -> Self {
        TimeslotBalancing { weekday: slot.start.weekday, time: slot.start.start_time }
    }

    fn from_subject_slot(slot: &SlotWithTeacher) -> (r: Self) {
        TimeslotBalancing { weekday: slot.start.weekday, time: slot.start.start_time }
    }

    proof fn lemma_key_determines(a: Self, b: Self) {
        assert(a.sort_key()[0] == b.sort_key()[0]);
        assert(a.sort_key()[1] == b.sort_key()[1]);
        lemma_weekday_index_roundtrip(a.weekday, 0);
        lemma_weekday_index_roundtrip(b.weekday, 0);
        Time::lemma_minutes_injective(a.time, b.time);
    }
}

impl SortKey for TeacherAndTimeslotBalancing {
    open spec fn sort_key(&self) -> Seq<int> {
        seq![self.teacher as int, weekday_index(self.weekday) as int, self.time.minutes() as int]
    }

    fn key_words(&self) -> (r: Vec<u64>) {
        let mut v: Vec<u64> = Vec::new();
        v.push(self.teacher as u64);
        v.push(self.weekday.index() as u64);
        v.push(self.time.get() as u64);
        proof {
            assert(ints(v@) =~= self.sort_key());
        }
        v
    }
}

impl BalancingData for TeacherAndTimeslotBalancing {
    open spec fn of_slot(slot: SlotWithTeacher) -> Self {
        TeacherAndTimeslotBalancing {
            teacher: slot.teacher,
            weekday: slot.start.weekday,
            time: slot.start.start_time,
        }
    }

    fn from_subject_slot(slot: &SlotWithTeacher) -> (r: Self) {
        TeacherAndTimeslotBalancing {
            teacher: slot.teacher,
            weekday: slot.start.weekday,
            time: slot.start.start_time,
        }
    }

    proof fn lemma_key_determines(a: Self, b: Self) {
        assert(a.sort_key()[0] == b.sort_key()[0]);
        assert(a.sort_key()[1] == b.sort_key()[1]);
        assert(a.sort_key()[2] == b.sort_key()[2]);
        lemma_weekday_index_roundtrip(a.weekday, 0);
        lemma_weekday_index_roundtrip(b.weekday, 0);
        Time::lemma_minutes_injective(a.time, b.time);
    }
}

/// The slot falls in week `w`, when a week is given.
pub open spec fn in_week(slot: SlotWithTeacher, w: Option<u32>) -> bool {
    w matches Some(x) ==> slot.start.week == x
}

/// Number of slots, among the first `n`, in week `w` (any week for `None`)
/// that take the value `d`.
pub open spec fn slot_count<T: BalancingData>(slots: Seq<SlotWithTeacher>, w: Option<u32>, d: T, n: int) -> nat
    decreases n,
{
    if n <= 0 {
        0
    } else {
        slot_count(slots, w, d, n - 1) + (if in_week(slots[n - 1], w) && T::of_slot(slots[n - 1]) == d {
            1nat
        } else {
            0nat
        })
    }
}

/// Number of slots in week `w` that take the value `d`.
pub open spec fn week_count_of<T: BalancingData>(slots: Seq<SlotWithTeacher>, w: u32, d: T) -> nat {
    slot_count(slots, Some(w), d, slots.len() as int)
}

/// The values of a list of counted values.
pub open spec fn pattern_keys<T>(p: Seq<(T, usize)>) -> Seq<T> {
    p.map_values(|e: (T, usize)| e.0)
}

/// `p` lists, in increasing key order, each value taken by a slot of week
/// `w` (of any week for `None`), with the number of those slots that take it.
pub open spec fn is_pattern<T: BalancingData>(slots: Seq<SlotWithTeacher>, w: Option<u32>, p: Seq<(T, usize)>) -> bool {
    &&& keys_increasing(pattern_keys(p))
    &&& forall|t: int| 0 <= t < p.len() ==> #[trigger] p[t].1 == slot_count(slots, w, p[t].0, slots.len() as int) && p[t].1 > 0
    &&& forall|j: int|
        0 <= j < slots.len() && in_week(slots[j], w) ==> exists|t: int|
            0 <= t < p.len() && #[trigger] p[t].0 == T::of_slot(#[trigger] slots[j])
}

/// `p` lists, in increasing key order, each value taken by a slot of week
/// `w`, with the number of slots of that week that take it.
pub open spec fn is_week_pattern<T: BalancingData>(slots: Seq<SlotWithTeacher>, w: u32, p: Seq<(T, usize)>) -> bool {
    is_pattern(slots, Some(w), p)
}

/// At most `n` slots are counted among the first `n`.
proof fn lemma_slot_count_bound<T: BalancingData>(slots: Seq<SlotWithTeacher>, w: Option<u32>, d: T, n: int)
    requires
        0 <= n,
    ensures
        slot_count(slots, w, d, n) <= n,
    decreases n,
{
    if n > 0 {
        lemma_slot_count_bound(slots, w, d, n - 1);
    }
}

/// Where the value `x` stands, or would stand, in a list kept in increasing key order.
fn find_pattern_position<T: BalancingData>(p: &Vec<(T, usize)>, x: &T) -> (r: (usize, bool))
    requires
        keys_increasing(pattern_keys(p@)),
    ensures
        r.0 <= p@.len(),
        r.1 ==> r.0 < p@.len() && p@[r.0 as int].0 == *x,
        !r.1 ==> forall|t: int| 0 <= t < r.0 ==> lex_lt(#[trigger] p@[t].0.sort_key(), x.sort_key()),
        !r.1 ==> r.0 < p@.len() ==> lex_lt(x.sort_key(), p@[r.0 as int].0.sort_key()),
{
    let kx = x.key_words();
    let mut i: usize = 0;
    while i < p.len()
        invariant
            ints(kx@) == x.sort_key(),
            0 <= i <= p@.len(),
            forall|t: int| 0 <= t < i ==> lex_lt(#[trigger] p@[t].0.sort_key(), x.sort_key()),
        decreases p@.len() - i,
    {
        let ki = p[i].0.key_words();
        match compare_keys(&ki, &kx) {
            KeyOrder::Less => {},
            KeyOrder::Equal => {
                proof {
                    T::lemma_key_determines(p@[i as int].0, *x);
                }
                return (i, true);
            },
            KeyOrder::Greater => {
                return (i, false);
            },
        }
        i = i + 1;
    }
    (i, false)
}

/// Each value taken by a slot of week `w` (of any week for `None`), in
/// increasing key order, with the number of those slots that take it.
fn pattern_of<T: BalancingData>(slots: &Vec<SlotWithTeacher>, w: Option<u32>) -> (p: Vec<(T, usize)>)
    ensures
        is_pattern(slots@, w, p@),
{
    let mut p: Vec<(T, usize)> = Vec::new();
    let mut j: usize = 0;
    while j < slots.len()
        invariant
            0 <= j <= slots@.len(),
            keys_increasing(pattern_keys(p@)),
            forall|t: int|
                0 <= t < p@.len() ==> #[trigger] p@[t].1 == slot_count(slots@, w, p@[t].0, j as int)
                    && p@[t].1 > 0,
            forall|d: T|
                #[trigger] slot_count(slots@, w, d, j as int) > 0 ==> exists|t: int|
                    0 <= t < p@.len() && #[trigger] p@[t].0 == d,
        decreases slots@.len() - j,
    {
        let ghost before = p@;
        let counted = match w {
            Some(x) => slots[j].start.week == x,
            None => true,
        };
        if counted {
            let d: T = T::from_subject_slot(&slots[j]);
            let (pos, found) = find_pattern_position(&p, &d);
            if found {
                let c: usize = p[pos].1;
                proof {
                    lemma_slot_count_bound(slots@, w, d, j as int);
                }
                p.set(pos, (d, c + 1));
                proof {
                    assert(pattern_keys(p@) =~= pattern_keys(before));
                    assert forall|t: int|
                        0 <= t < p@.len() implies #[trigger] p@[t].1 == slot_count(slots@, w, p@[t].0, j + 1)
                            && p@[t].1 > 0 by {
                        if t != pos {
                            assert(p@[t] == before[t]);
                            if before[t].0 == d {
                                T::lemma_key_determines(before[t].0, before[pos as int].0);
                                assert(keys_increasing(pattern_keys(before)));
                                if t < pos {
                                    assert(lex_lt(pattern_keys(before)[t].sort_key(), pattern_keys(before)[pos as int].sort_key()));
                                } else {
                                    assert(lex_lt(pattern_keys(before)[pos as int].sort_key(), pattern_keys(before)[t].sort_key()));
                                }
                                lemma_lex_irreflexive(d.sort_key());
                            }
                        }
                    }
                    assert forall|e: T|
                        #[trigger] slot_count(slots@, w, e, j + 1) > 0 implies exists|t: int|
                            0 <= t < p@.len() && #[trigger] p@[t].0 == e by {
                        if e == d {
                            assert(p@[pos as int].0 == e);
                        } else {
                            assert(slot_count(slots@, w, e, j as int) > 0);
                            let t = choose|t: int| 0 <= t < before.len() && #[trigger] before[t].0 == e;
                            assert(p@[t].0 == e);
                        }
                    }
                }
            } else {
                proof {
                    lemma_absent_at(pattern_keys(before), d.sort_key(), pos as int);
                    lemma_insert_keeps_increasing(pattern_keys(before), d, pos as int);
                    assert(pattern_keys(before.insert(pos as int, (d, 1usize))) =~= pattern_keys(before).insert(pos as int, d));
                    if slot_count(slots@, w, d, j as int) > 0 {
                        let t = choose|t: int| 0 <= t < before.len() && #[trigger] before[t].0 == d;
                        assert(pattern_keys(before)[t].sort_key() == d.sort_key());
                    }
                }
                p.insert(pos, (d, 1));
                proof {
                    assert forall|t: int|
                        0 <= t < p@.len() implies #[trigger] p@[t].1 == slot_count(slots@, w, p@[t].0, j + 1)
                            && p@[t].1 > 0 by {
                        if t < pos {
                            assert(p@[t] == before[t]);
                            if before[t].0 == d {
                                assert(pattern_keys(before)[t].sort_key() == d.sort_key());
                            }
                        } else if t > pos {
                            assert(p@[t] == before[t - 1]);
                            if before[t - 1].0 == d {
                                assert(pattern_keys(before)[t - 1].sort_key() == d.sort_key());
                            }
                        }
                    }
                    assert forall|e: T|
                        #[trigger] slot_count(slots@, w, e, j + 1) > 0 implies exists|t: int|
                            0 <= t < p@.len() && #[trigger] p@[t].0 == e by {
                        if e == d {
                            assert(p@[pos as int].0 == e);
                        } else {
                            assert(slot_count(slots@, w, e, j as int) > 0);
                            let t = choose|t: int| 0 <= t < before.len() && #[trigger] before[t].0 == e;
                            if t < pos {
                                assert(p@[t].0 == e);
                            } else {
                                assert(p@[t + 1].0 == e);
                            }
                        }
                    }
                }
            }
        } else {
            proof {
                assert forall|t: int|
                    0 <= t < p@.len() implies #[trigger] p@[t].1 == slot_count(slots@, w, p@[t].0, j + 1)
                        && p@[t].1 > 0 by {
                }
                assert forall|e: T|
                    #[trigger] slot_count(slots@, w, e, j + 1) > 0 implies exists|t: int|
                        0 <= t < p@.len() && #[trigger] p@[t].0 == e by {
                    assert(slot_count(slots@, w, e, j as int) > 0);
                }
            }
        }
        j = j + 1;
    }
    proof {
        assert forall|jj: int|
            0 <= jj < slots@.len() && in_week(slots@[jj], w) implies exists|t: int|
                0 <= t < p@.len() && #[trigger] p@[t].0 == T::of_slot(#[trigger] slots@[jj]) by {
            lemma_slot_count_positive::<T>(slots@, w, jj, slots@.len() as int);
        }
    }
    p
}

/// A slot of week `w` among the first `n` counts towards its own value.
proof fn lemma_slot_count_positive<T: BalancingData>(slots: Seq<SlotWithTeacher>, w: Option<u32>, jj: int, n: int)
    requires
        0 <= jj < n <= slots.len(),
        in_week(slots[jj], w),
    ensures
        slot_count(slots, w, T::of_slot(slots[jj]), n) > 0,
    decreases n,
{
    if jj < n - 1 {
        lemma_slot_count_positive::<T>(slots, w, jj, n - 1);
    }
}

/// A slot that counts towards a value, among the first `n`, exists.
proof fn lemma_slot_count_witness<T: BalancingData>(slots: Seq<SlotWithTeacher>, w: Option<u32>, d: T, n: int)
    requires
        slot_count(slots, w, d, n) > 0,
    ensures
        exists|j: int| 0 <= j < n && in_week(slots[j], w) && #[trigger] T::of_slot(slots[j]) == d,
    decreases n,
{
    if n > 0 && slot_count(slots, w, d, n - 1) > 0 {
        lemma_slot_count_witness(slots, w, d, n - 1);
    }
}

/// Two lists of values in strictly increasing key order that hold the same
/// values are equal.
proof fn lemma_same_values<T: BalancingData>(a: Seq<T>, b: Seq<T>)
    requires
        keys_increasing(a),
        keys_increasing(b),
        forall|i: int| 0 <= i < a.len() ==> b.contains(#[trigger] a[i]),
        forall|j: int| 0 <= j < b.len() ==> a.contains(#[trigger] b[j]),
    ensures
        a == b,
    decreases a.len(),
{
    if a.len() == 0 {
        if b.len() > 0 {
            assert(a.contains(b[0]));
        }
        assert(a =~= b);
    } else {
        assert(b.contains(a[0]));
        let j0 = choose|j: int| 0 <= j < b.len() && b[j] == a[0];
        assert(a.contains(b[0]));
        let i0 = choose|i: int| 0 <= i < a.len() && a[i] == b[0];
        if j0 > 0 {
            assert(lex_lt(b[0].sort_key(), b[j0].sort_key()));
            if i0 > 0 {
                assert(lex_lt(a[0].sort_key(), a[i0].sort_key()));
                lemma_lex_transitive(a[0].sort_key(), b[0].sort_key(), a[0].sort_key());
            }
            lemma_lex_irreflexive(a[0].sort_key());
        }
        assert(b[0] == a[0]);
        let a1 = a.drop_first();
        let b1 = b.drop_first();
        assert forall|i: int| 0 <= i < a1.len() implies b1.contains(#[trigger] a1[i]) by {
            assert(a1[i] == a[i + 1]);
            assert(b.contains(a[i + 1]));
            let j = choose|j: int| 0 <= j < b.len() && b[j] == a[i + 1];
            if j == 0 {
                assert(lex_lt(a[0].sort_key(), a[i + 1].sort_key()));
                lemma_lex_irreflexive(a[0].sort_key());
            }
            assert(b1[j - 1] == a1[i]);
        }
        assert forall|j: int| 0 <= j < b1.len() implies a1.contains(#[trigger] b1[j]) by {
            assert(b1[j] == b[j + 1]);
            assert(a.contains(b[j + 1]));
            let i = choose|i: int| 0 <= i < a.len() && a[i] == b[j + 1];
            if i == 0 {
                assert(lex_lt(b[0].sort_key(), b[j + 1].sort_key()));
                lemma_lex_irreflexive(b[0].sort_key());
            }
            assert(a1[i - 1] == b1[j]);
        }
        lemma_same_values(a1, b1);
        assert(a =~= seq![a[0]] + a1);
        assert(b =~= seq![b[0]] + b1);
    }
}

/// Two weeks in which every value has as many slots have the same pattern.
proof fn lemma_pattern_unique<T: BalancingData>(
    slots: Seq<SlotWithTeacher>,
    w1: u32,
    w2: u32,
    p1: Seq<(T, usize)>,
    p2: Seq<(T, usize)>,
)
    requires
        is_week_pattern(slots, w1, p1),
        is_week_pattern(slots, w2, p2),
        forall|d: T| week_count_of(slots, w1, d) == week_count_of(slots, w2, d),
    ensures
        p1 == p2,
{
    let k1 = pattern_keys(p1);
    let k2 = pattern_keys(p2);
    assert forall|i: int| 0 <= i < k1.len() implies k2.contains(#[trigger] k1[i]) by {
        let d = p1[i].0;
        assert(p1[i].1 == week_count_of(slots, w1, d));
        assert(week_count_of(slots, w2, d) > 0);
        lemma_slot_count_witness(slots, Some(w2), d, slots.len() as int);
        let jj = choose|jj: int| 0 <= jj < slots.len() && in_week(slots[jj], Some(w2)) && #[trigger] T::of_slot(slots[jj]) == d;
        assert(slots[jj].start.week == w2);
        let t = choose|t: int| 0 <= t < p2.len() && #[trigger] p2[t].0 == T::of_slot(#[trigger] slots[jj]);
        assert(k2[t] == k1[i]);
    }
    assert forall|j: int| 0 <= j < k2.len() implies k1.contains(#[trigger] k2[j]) by {
        let d = p2[j].0;
        assert(p2[j].1 == week_count_of(slots, w2, d));
        assert(week_count_of(slots, w1, d) > 0);
        lemma_slot_count_witness(slots, Some(w1), d, slots.len() as int);
        let jj = choose|jj: int| 0 <= jj < slots.len() && in_week(slots[jj], Some(w1)) && #[trigger] T::of_slot(slots[jj]) == d;
        assert(slots[jj].start.week == w1);
        let t = choose|t: int| 0 <= t < p1.len() && #[trigger] p1[t].0 == T::of_slot(#[trigger] slots[jj]);
        assert(k1[t] == k2[j]);
    }
    lemma_same_values(k1, k2);
    assert forall|i: int| 0 <= i < p1.len() implies p1[i] == p2[i] by {
        assert(k1[i] == k2[i]);
        assert(p1[i].1 == week_count_of(slots, w1, p1[i].0));
        assert(p2[i].1 == week_count_of(slots, w2, p2[i].0));
    }
    assert(p1.len() == k1.len());
    assert(p1 =~= p2);
}

/// Some slot is in week `w`.
pub open spec fn is_slot_week(slots: Seq<SlotWithTeacher>, w: u32) -> bool {
    exists|j: int| 0 <= j < slots.len() && #[trigger] slots[j].start.week == w
}

/// Sort key of a set of weeks, following the order of sets: element by
/// element in increasing order, each preceded by 1, the end marked by 0 (so
/// that a set comes before the sets it is a strict beginning of).
pub open spec fn selection_key(s: Set<u32>) -> Seq<int> {
    let q = sorted_u32(s);
    Seq::new((2 * q.len()) as nat, |k: int| if k % 2 == 0 { 1int } else { q[k / 2] as int }).push(0)
}

/// Week `w` is in one of the entries of `r`.
pub open spec fn in_some_entry<T>(r: Seq<(WeekSelection, Vec<(T, usize)>)>, w: u32) -> bool {
    exists|p: int| 0 <= p < r.len() && #[trigger] r[p].0.selection@.contains(w)
}

/// `r` is the balancing table of the slots: its entries hold sets of weeks in
/// increasing order, each week of a slot is in exactly one entry, each week of
/// an entry is a week of a slot, the list of an entry is the pattern of each
/// of its weeks, and weeks of different entries differ in the number of slots
/// of some value.
pub open spec fn is_balancing_table<T: BalancingData>(
    slots: Seq<SlotWithTeacher>,
    r: Seq<(WeekSelection, Vec<(T, usize)>)>,
) -> bool {
    &&& forall|p: int, w: u32|
        0 <= p < r.len() && #[trigger] r[p].0.selection@.contains(w) ==> is_slot_week(slots, w)
            && is_week_pattern(slots, w, r[p].1@)
    &&& forall|j: int| 0 <= j < slots.len() ==> in_some_entry(r, #[trigger] slots[j].start.week)
    &&& forall|p: int, q: int, w1: u32, w2: u32|
        0 <= p < r.len() && 0 <= q < r.len() && p != q && #[trigger] r[p].0.selection@.contains(w1)
            && #[trigger] r[q].0.selection@.contains(w2) ==> exists|d: T|
            week_count_of(slots, w1, d) != week_count_of(slots, w2, d)
    &&& forall|p: int| 0 <= p < r.len() ==> (#[trigger] r[p]).0.selection@ != Set::<u32>::empty()
    &&& forall|p: int, q: int|
        0 <= p < q < r.len() ==> lex_lt(
            selection_key(#[trigger] r[p].0.selection@),
            selection_key(#[trigger] r[q].0.selection@),
        )
}

/// The weeks of the slots, in increasing order.
fn slot_weeks(slots: &Vec<SlotWithTeacher>) -> (r: Vec<u32>)
    ensures
        increasing_u32(r@),
        forall|w: u32| r@.contains(w) <==> is_slot_week(slots@, w),
{
    let mut set: BTreeSet<u32> = BTreeSet::new();
    let mut j: usize = 0;
    while j < slots.len()
        invariant
            0 <= j <= slots@.len(),
            forall|w: u32|
                #[trigger] set@.contains(w) <==> exists|jj: int| 0 <= jj < j && #[trigger] slots@[jj].start.week == w,
        decreases slots@.len() - j,
    {
        set.insert(slots[j].start.week);
        j = j + 1;
    }
    let r = u32_elems(&set);
    proof {
        assert forall|w: u32| r@.contains(w) <==> is_slot_week(slots@, w) by {
            if r@.contains(w) {
                assert(r@.to_set().contains(w));
            }
            if is_slot_week(slots@, w) {
                assert(set@.contains(w));
                assert(r@.to_set().contains(w));
            }
        }
    }
    r
}

/// Whether two lists of counted values are the same.
fn same_pattern<T: BalancingData>(a: &Vec<(T, usize)>, b: &Vec<(T, usize)>) -> (r: bool)
    ensures
        r == (a@ == b@),
{
    if a.len() != b.len() {
        return false;
    }
    let mut i: usize = 0;
    while i < a.len()
        invariant
            a@.len() == b@.len(),
            0 <= i <= a@.len(),
            forall|t: int| 0 <= t < i ==> a@[t] == b@[t],
        decreases a@.len() - i,
    {
        if a[i].1 != b[i].1 {
            return false;
        }
        let ka = a[i].0.key_words();
        let kb = b[i].0.key_words();
        match compare_keys(&ka, &kb) {
            KeyOrder::Equal => {
                proof {
                    T::lemma_key_determines(a@[i as int].0, b@[i as int].0);
                }
            },
            _ => {
                return false;
            },
        }
        i = i + 1;
    }
    proof {
        assert(a@ =~= b@);
    }
    true
}

/// The first entry whose list is `p`, if any.
fn find_entry<T: BalancingData>(out: &Vec<(WeekSelection, Vec<(T, usize)>)>, p: &Vec<(T, usize)>) -> (r: Option<usize>)
    ensures
        match r {
            Some(q) => q < out@.len() && out@[q as int].1@ == p@,
            None => forall|q: int| 0 <= q < out@.len() ==> (#[trigger] out@[q]).1@ != p@,
        },
{
    let mut q: usize = 0;
    while q < out.len()
        invariant
            0 <= q <= out@.len(),
            forall|t: int| 0 <= t < q ==> (#[trigger] out@[t]).1@ != p@,
        decreases out@.len() - q,
    {
        if same_pattern(&out[q].1, p) {
            return Some(q);
        }
        q = q + 1;
    }
    None
}

/// The state of the grouping of the weeks, once the first `i` weeks are placed.
spec fn grouping_state<T: BalancingData>(
    slots: Seq<SlotWithTeacher>,
    weeks: Seq<u32>,
    i: int,
    out: Seq<(WeekSelection, Vec<(T, usize)>)>,
    lists: Seq<Seq<u32>>,
    owner: Seq<int>,
) -> bool {
    &&& lists.len() == out.len()
    &&& forall|q: int|
        0 <= q < lists.len() ==> increasing_u32(#[trigger] lists[q]) && lists[q].len() > 0
            && lists[q].to_set() == out[q].0.selection@
    &&& forall|q: int, k: int|
        0 <= q < lists.len() && 0 <= k < lists[q].len() ==> weeks.take(i).contains(#[trigger] lists[q][k])
    &&& owner.len() == i
    &&& forall|t: int|
        0 <= t < i ==> 0 <= #[trigger] owner[t] < out.len() && out[owner[t]].0.selection@.contains(weeks[t])
    &&& forall|q: int, w: u32|
        0 <= q < out.len() && #[trigger] out[q].0.selection@.contains(w) ==> is_week_pattern(slots, w, out[q].1@)
    &&& forall|q1: int, q2: int| 0 <= q1 < q2 < lists.len() ==> #[trigger] lists[q1][0] < #[trigger] lists[q2][0]
    &&& forall|q1: int, q2: int|
        0 <= q1 < out.len() && 0 <= q2 < out.len() && q1 != q2 ==> (#[trigger] out[q1]).1@ != (#[trigger] out[q2]).1@
}

/// A week already placed comes before the week at position `i`.
proof fn lemma_taken_before(weeks: Seq<u32>, i: int, x: u32)
    requires
        increasing_u32(weeks),
        0 <= i < weeks.len(),
        weeks.take(i).contains(x),
    ensures
        x < weeks[i],
{
    let k = choose|k: int| 0 <= k < i && weeks.take(i)[k] == x;
    assert(weeks[k] == x);
}

/// Once all weeks are placed, the grouping is the balancing table.
proof fn lemma_table_of_grouping<T: BalancingData>(
    slots: Seq<SlotWithTeacher>,
    weeks: Seq<u32>,
    out: Seq<(WeekSelection, Vec<(T, usize)>)>,
    lists: Seq<Seq<u32>>,
    owner: Seq<int>,
)
    requires
        increasing_u32(weeks),
        forall|w: u32| weeks.contains(w) <==> is_slot_week(slots, w),
        grouping_state(slots, weeks, weeks.len() as int, out, lists, owner),
    ensures
        is_balancing_table(slots, out),
{
    assert(weeks.take(weeks.len() as int) =~= weeks);
    assert forall|p: int, w: u32|
        0 <= p < out.len() && #[trigger] out[p].0.selection@.contains(w) implies is_slot_week(slots, w)
            && is_week_pattern(slots, w, out[p].1@) by {
        assert(lists[p].to_set().contains(w));
        let k = choose|k: int| 0 <= k < lists[p].len() && lists[p][k] == w;
        assert(weeks.take(weeks.len() as int).contains(lists[p][k]));
    }
    assert forall|j: int| 0 <= j < slots.len() implies in_some_entry(out, #[trigger] slots[j].start.week) by {
        let w = slots[j].start.week;
        assert(is_slot_week(slots, w));
        assert(weeks.contains(w));
        let t = choose|t: int| 0 <= t < weeks.len() && weeks[t] == w;
        assert(0 <= owner[t] < out.len());
        assert(out[owner[t]].0.selection@.contains(slots[j].start.week));
    }
    assert forall|p: int, q: int, w1: u32, w2: u32|
        0 <= p < out.len() && 0 <= q < out.len() && p != q && #[trigger] out[p].0.selection@.contains(w1)
            && #[trigger] out[q].0.selection@.contains(w2) implies exists|d: T|
            week_count_of(slots, w1, d) != week_count_of(slots, w2, d) by {
        if forall|d: T| week_count_of(slots, w1, d) == week_count_of(slots, w2, d) {
            lemma_pattern_unique(slots, w1, w2, out[p].1@, out[q].1@);
            assert(out[p].1@ != out[q].1@);
        }
    }
    assert forall|p: int| 0 <= p < out.len() implies (#[trigger] out[p]).0.selection@ != Set::<u32>::empty() by {
        assert(lists[p].to_set().contains(lists[p][0]));
    }
    assert forall|p: int, q: int|
        0 <= p < q < out.len() implies lex_lt(
            selection_key(#[trigger] out[p].0.selection@),
            selection_key(#[trigger] out[q].0.selection@),
        ) by {
        lemma_sorted_u32(lists[p]);
        lemma_sorted_u32(lists[q]);
        let a = selection_key(out[p].0.selection@);
        let b = selection_key(out[q].0.selection@);
        assert(a[0] == 1 && b[0] == 1);
        assert(a[1] == lists[p][0] && b[1] == lists[q][0]);
        assert(a.drop_first()[0] == a[1]);
        assert(b.drop_first()[0] == b[1]);
        assert(lex_lt(a.drop_first(), b.drop_first()));
    }
}

impl BalancingObject {
    /// The balancing table of the slots for the values of type `T`.
    fn build_data<T: BalancingData>(slots: &Vec<SlotWithTeacher>) -> (r: Vec<(WeekSelection, Vec<(T, usize)>)>)
        ensures
            is_balancing_table(slots@, r@),
    {
        let weeks = slot_weeks(slots);
        let mut out: Vec<(WeekSelection, Vec<(T, usize)>)> = Vec::new();
        let ghost mut lists: Seq<Seq<u32>> = Seq::empty();
        let ghost mut owner: Seq<int> = Seq::empty();
        let mut i: usize = 0;
        while i < weeks.len()
            invariant
                increasing_u32(weeks@),
                forall|w: u32| weeks@.contains(w) <==> is_slot_week(slots@, w),
                0 <= i <= weeks@.len(),
                lists.len() == out@.len(),
                forall|q: int|
                    0 <= q < lists.len() ==> increasing_u32(#[trigger] lists[q]) && lists[q].len() > 0
                        && lists[q].to_set() == out@[q].0.selection@,
                forall|q: int, k: int|
                    0 <= q < lists.len() && 0 <= k < lists[q].len() ==> weeks@.take(i as int).contains(#[trigger] lists[q][k]),
                owner.len() == i,
                forall|t: int|
                    0 <= t < i ==> 0 <= #[trigger] owner[t] < out@.len() && out@[owner[t]].0.selection@.contains(weeks@[t]),
                forall|q: int, w: u32|
                    0 <= q < out@.len() && #[trigger] out@[q].0.selection@.contains(w) ==> is_week_pattern(slots@, w, out@[q].1@),
                forall|q1: int, q2: int| 0 <= q1 < q2 < lists.len() ==> #[trigger] lists[q1][0] < #[trigger] lists[q2][0],
                forall|q1: int, q2: int|
                    0 <= q1 < out@.len() && 0 <= q2 < out@.len() && q1 != q2 ==> (#[trigger] out@[q1]).1@ != (#[trigger] out@[q2]).1@,
            decreases weeks@.len() - i,
        {
            let w: u32 = weeks[i];
            let p: Vec<(T, usize)> = pattern_of(slots, Some(w));
            let ghost old_out = out@;
            let ghost old_lists = lists;
            let ghost old_owner = owner;
            assert(weeks@.take(i + 1) =~= weeks@.take(i as int).push(w));
            match find_entry(&out, &p) {
                Some(q) => {
                    let (ws, pat) = out.remove(q);
                    let mut sel = ws.selection;
                    sel.insert(w);
                    out.insert(q, (WeekSelection { selection: sel }, pat));
                    proof {
                        let nl = old_lists[q as int].push(w);
                        lists = old_lists.update(q as int, nl);
                        assert(out@ =~= old_out.update(q as int, out@[q as int]));
                        assert(out@[q as int].1@ == p@);
                        assert(nl.to_set() =~= old_lists[q as int].to_set().insert(w)) by {
                            assert forall|x: u32| nl.to_set().contains(x) implies old_lists[q as int].to_set().insert(w).contains(x) by {
                                let k = choose|k: int| 0 <= k < nl.len() && nl[k] == x;
                                if k < old_lists[q as int].len() {
                                    assert(old_lists[q as int][k] == x);
                                }
                            }
                            assert forall|x: u32| old_lists[q as int].to_set().insert(w).contains(x) implies nl.to_set().contains(x) by {
                                if x == w {
                                    assert(nl[nl.len() - 1] == x);
                                } else {
                                    let k = choose|k: int| 0 <= k < old_lists[q as int].len() && old_lists[q as int][k] == x;
                                    assert(nl[k] == x);
                                }
                            }
                        }
                        assert forall|a: int, b: int| 0 <= a < b < nl.len() implies nl[a] < nl[b] by {
                            if b == nl.len() - 1 {
                                assert(weeks@.take(i as int).contains(old_lists[q as int][a]));
                                lemma_taken_before(weeks@, i as int, old_lists[q as int][a]);
                            }
                        }
                        assert forall|qq: int, k: int|
                            0 <= qq < lists.len() && 0 <= k < lists[qq].len() implies weeks@.take(i + 1).contains(
                                #[trigger] lists[qq][k],
                            ) by {
                            if qq == q && k == lists[qq].len() - 1 {
                                assert(weeks@.take(i + 1)[i as int] == w);
                            } else {
                                assert(lists[qq][k] == old_lists[qq][k]);
                                assert(weeks@.take(i as int).contains(old_lists[qq][k]));
                                let kk = choose|kk: int| 0 <= kk < i && weeks@.take(i as int)[kk] == old_lists[qq][k];
                                assert(weeks@.take(i + 1)[kk] == old_lists[qq][k]);
                            }
                        }
                        owner = old_owner.push(q as int);
                        assert forall|t: int|
                            0 <= t < i + 1 implies 0 <= #[trigger] owner[t] < out@.len() && out@[owner[t]].0.selection@.contains(weeks@[t]) by {
                            if t < i {
                                assert(owner[t] == old_owner[t]);
                                assert(old_out[old_owner[t]].0.selection@.contains(weeks@[t]));
                            }
                        }
                        assert forall|qq: int, x: u32|
                            0 <= qq < out@.len() && #[trigger] out@[qq].0.selection@.contains(x) implies is_week_pattern(
                                slots@,
                                x,
                                out@[qq].1@,
                            ) by {
                            if qq != q || x != w {
                                assert(old_out[qq].0.selection@.contains(x));
                            }
                        }
                        assert forall|q1: int, q2: int| 0 <= q1 < q2 < lists.len() implies #[trigger] lists[q1][0]
                            < #[trigger] lists[q2][0] by {
                            assert(lists[q1][0] == old_lists[q1][0]);
                            assert(lists[q2][0] == old_lists[q2][0]);
                        }
                        assert forall|q1: int, q2: int|
                            0 <= q1 < out@.len() && 0 <= q2 < out@.len() && q1 != q2 implies (#[trigger] out@[q1]).1@
                                != (#[trigger] out@[q2]).1@ by {
                            assert(out@[q1].1@ == old_out[q1].1@);
                            assert(out@[q2].1@ == old_out[q2].1@);
                        }
                    }
                },
                None => {
                    let mut sel: BTreeSet<u32> = BTreeSet::new();
                    sel.insert(w);
                    out.push((WeekSelection { selection: sel }, p));
                    proof {
                        let nl = seq![w];
                        lists = old_lists.push(nl);
                        assert(nl.to_set() =~= Set::<u32>::empty().insert(w)) by {
                            assert(nl[0] == w);
                        }
                        assert forall|qq: int, k: int|
                            0 <= qq < lists.len() && 0 <= k < lists[qq].len() implies weeks@.take(i + 1).contains(
                                #[trigger] lists[qq][k],
                            ) by {
                            if qq == old_lists.len() {
                                assert(weeks@.take(i + 1)[i as int] == w);
                            } else {
                                assert(lists[qq][k] == old_lists[qq][k]);
                                assert(weeks@.take(i as int).contains(old_lists[qq][k]));
                                let kk = choose|kk: int| 0 <= kk < i && weeks@.take(i as int)[kk] == old_lists[qq][k];
                                assert(weeks@.take(i + 1)[kk] == old_lists[qq][k]);
                            }
                        }
                        owner = old_owner.push(old_out.len() as int);
                        assert forall|t: int|
                            0 <= t < i + 1 implies 0 <= #[trigger] owner[t] < out@.len() && out@[owner[t]].0.selection@.contains(weeks@[t]) by {
                            if t < i {
                                assert(owner[t] == old_owner[t]);
                                assert(old_out[old_owner[t]].0.selection@.contains(weeks@[t]));
                            }
                        }
                        assert forall|qq: int, x: u32|
                            0 <= qq < out@.len() && #[trigger] out@[qq].0.selection@.contains(x) implies is_week_pattern(
                                slots@,
                                x,
                                out@[qq].1@,
                            ) by {
                            if qq < old_out.len() {
                                assert(old_out[qq].0.selection@.contains(x));
                            }
                        }
                        assert forall|q1: int, q2: int| 0 <= q1 < q2 < lists.len() implies #[trigger] lists[q1][0]
                            < #[trigger] lists[q2][0] by {
                            if q2 == old_lists.len() {
                                assert(weeks@.take(i as int).contains(old_lists[q1][0]));
                                lemma_taken_before(weeks@, i as int, old_lists[q1][0]);
                            }
                        }
                        assert forall|q1: int, q2: int|
                            0 <= q1 < out@.len() && 0 <= q2 < out@.len() && q1 != q2 implies (#[trigger] out@[q1]).1@
                                != (#[trigger] out@[q2]).1@ by {
                            if q1 == old_out.len() {
                                assert(old_out[q2].1@ != p@);
                            } else if q2 == old_out.len() {
                                assert(old_out[q1].1@ != p@);
                            }
                        }
                    }
                },
            }
            i = i + 1;
        }
        proof {
            lemma_table_of_grouping(slots@, weeks@, out@, lists, owner);
        }
        out
    }

    /// Balancing over teachers: for each set of weeks with the same teachers
    /// offering the same number of slots, how many slots each teacher offers.
    pub fn teachers_from_slots(slots: &Vec<SlotWithTeacher>) -> (r: BalancingObject)
        ensures
            match r {
                BalancingObject::Teachers(m) => is_balancing_table(slots@, m@),
                _ => false,
            },
    {
        BalancingObject::Teachers(Self::build_data(slots))
    }

    /// Balancing over time slots: for each set of weeks with the same slots
    /// at the same days and times, how many slots each day and time has.
    pub fn timeslots_from_slots(slots: &Vec<SlotWithTeacher>) -> (r: BalancingObject)
        ensures
            match r {
                BalancingObject::Timeslots(m) => is_balancing_table(slots@, m@),
                _ => false,
            },
    {
        BalancingObject::Timeslots(Self::build_data(slots))
    }

    /// Balancing over teachers and time slots together.
    pub fn teachers_and_timeslots_from_slots(slots: &Vec<SlotWithTeacher>) -> (r: BalancingObject)
        ensures
            match r {
                BalancingObject::TeachersAndTimeslots(m) => is_balancing_table(slots@, m@),
                _ => false,
            },
    {
        BalancingObject::TeachersAndTimeslots(Self::build_data(slots))
    }
}

/// The names of the variables putting group `k` of subject `s` (number `i`)
/// in each of its slots that take the value `d`.
pub open spec fn balancing_names<T: BalancingData>(s: Subject, i: int, d: T, k: int) -> Set<Seq<char>> {
    Set::new(
        |n: Seq<char>|
            exists|j: usize|
                j < s.slots@.len() && T::of_slot(s.slots@[j as int]) == d && #[trigger] variable_name(
                    Variable::GroupInSlot { subject: i as usize, slot: j, group: k as usize },
                ) == n,
    )
}

/// The value and count of each entry of a list of balanced quantities.
pub open spec fn balancing_counts<T>(r: Seq<(T, usize, Vec<Expr>)>) -> Seq<(T, usize)> {
    r.map_values(|e: (T, usize, Vec<Expr>)| (e.0, e.1))
}

impl<'a> IlpTranslator<'a> {
    /// The number of slots of subject `subject` (number `i`) taking the value
    /// `slot_type` that group `k` gets.
    pub fn build_balancing_expr_for_subject_and_group<T: BalancingData>(
        &self,
        i: usize,
        subject: &Subject,
        slot_type: &T,
        k: usize,
    ) -> (r: Expr)
        ensures
            r.coefs() == ones(balancing_names(*subject, i as int, *slot_type, k as int)),
            r.constant_value() == 0,
    {
        let ghost names = balancing_names(*subject, i as int, *slot_type, k as int);
        let mut vars: Vec<Variable> = Vec::new();
        let ghost mut src: Seq<int> = Seq::empty();
        let mut j: usize = 0;
        while j < subject.slots.len()
            invariant
                0 <= j <= subject.slots@.len(),
                src.len() == vars@.len(),
                forall|u: int|
                    0 <= u < vars@.len() ==> 0 <= #[trigger] src[u] < j && T::of_slot(subject.slots@[src[u]]) == *slot_type
                        && vars@[u] == (Variable::GroupInSlot { subject: i, slot: src[u] as usize, group: k }),
                forall|jj: int|
                    0 <= jj < j && T::of_slot(#[trigger] subject.slots@[jj]) == *slot_type ==> exists|u: int|
                        0 <= u < vars@.len() && src[u] == jj,
            decreases subject.slots@.len() - j,
        {
            let ghost old_src = src;
            if slot_type.is_slot_relevant(&subject.slots[j]) {
                vars.push(Variable::GroupInSlot { subject: i, slot: j, group: k });
                proof {
                    src = src.push(j as int);
                }
            }
            proof {
                assert forall|jj: int|
                    0 <= jj < j + 1 && T::of_slot(#[trigger] subject.slots@[jj]) == *slot_type implies exists|u: int|
                        0 <= u < vars@.len() && src[u] == jj by {
                    if jj == j {
                        assert(src[src.len() - 1] == jj);
                    } else {
                        let u = choose|u: int| 0 <= u < old_src.len() && old_src[u] == jj;
                        assert(src[u] == jj);
                    }
                }
            }
            j = j + 1;
        }
        proof {
            assert forall|n: Seq<char>| names_of_vars(vars@).contains(n) <==> names.contains(n) by {
                if names_of_vars(vars@).contains(n) {
                    let u = choose|u: int| 0 <= u < vars@.len() && variable_name(#[trigger] vars@[u]) == n;
                    let jj = src[u] as usize;
                    assert(variable_name(Variable::GroupInSlot { subject: i, slot: jj, group: k }) == n);
                }
                if names.contains(n) {
                    let jj = choose|jj: usize|
                        jj < subject.slots@.len() && T::of_slot(subject.slots@[jj as int]) == *slot_type
                            && #[trigger] variable_name(Variable::GroupInSlot { subject: i, slot: jj, group: k }) == n;
                    assert(T::of_slot(subject.slots@[jj as int]) == *slot_type);
                    let u = choose|u: int| 0 <= u < vars@.len() && src[u] == jj as int;
                    assert(vars@[u] == Variable::GroupInSlot { subject: i, slot: jj, group: k });
                }
            }
            assert(names_of_vars(vars@) =~= names);
        }
        sum_of_vars(&vars).0
    }

    /// For each value taken by a slot of subject `subject` (number `i`), in
    /// increasing key order, the number of its slots taking it, and for each
    /// group, the number of those slots that the group gets.
    pub fn build_balancing_exprs_for_subject<T: BalancingData>(&self, i: usize, subject: &Subject) -> (r: Vec<
        (T, usize, Vec<Expr>),
    >)
        ensures
            is_pattern(subject.slots@, None, balancing_counts(r@)),
            forall|t: int|
                0 <= t < r@.len() ==> (#[trigger] r@[t]).2@.len() == subject.groups.prefilled_groups@.len(),
            forall|t: int, k: int|
                0 <= t < r@.len() && 0 <= k < (#[trigger] r@[t]).2@.len() ==> (#[trigger] r@[t].2@[k]).coefs() == ones(
                    balancing_names(*subject, i as int, r@[t].0, k),
                ) && r@[t].2@[k].constant_value() == 0,
    {
        let p: Vec<(T, usize)> = pattern_of(&subject.slots, None);
        let n_groups: usize = subject.groups.prefilled_groups.len();
        let mut r: Vec<(T, usize, Vec<Expr>)> = Vec::new();
        let mut t: usize = 0;
        while t < p.len()
            invariant
                0 <= t <= p@.len(),
                n_groups == subject.groups.prefilled_groups@.len(),
                r@.len() == t,
                forall|tt: int| 0 <= tt < t ==> (#[trigger] r@[tt]).0 == p@[tt].0 && r@[tt].1 == p@[tt].1,
                forall|tt: int| 0 <= tt < t ==> (#[trigger] r@[tt]).2@.len() == n_groups,
                forall|tt: int, k: int|
                    0 <= tt < t && 0 <= k < (#[trigger] r@[tt]).2@.len() ==> (#[trigger] r@[tt].2@[k]).coefs() == ones(
                        balancing_names(*subject, i as int, r@[tt].0, k),
                    ) && r@[tt].2@[k].constant_value() == 0,
            decreases p@.len() - t,
        {
            let d: T = p[t].0;
            let mut exprs: Vec<Expr> = Vec::new();
            let mut k: usize = 0;
            while k < n_groups
                invariant
                    0 <= k <= n_groups,
                    exprs@.len() == k,
                    forall|kk: int|
                        0 <= kk < k ==> (#[trigger] exprs@[kk]).coefs() == ones(balancing_names(*subject, i as int, d, kk))
                            && exprs@[kk].constant_value() == 0,
                decreases n_groups - k,
            {
                let e = self.build_balancing_expr_for_subject_and_group(i, subject, &d, k);
                exprs.push(e);
                k = k + 1;
            }
            r.push((d, p[t].1, exprs));
            t = t + 1;
        }
        proof {
            assert(balancing_counts(r@) =~= p@);
        }
        r
    }
}

/// `expr` is the number of slots of subject `s` (number `i`) that some
/// group gets among the `count` slots (at least one) taking some value of
/// type `T`.
pub open spec fn balanced_by<T: BalancingData>(s: Subject, i: usize, count: usize, expr: Expr) -> bool {
    exists|d: T, k: int|
        0 <= k < s.groups.prefilled_groups@.len() && #[trigger] slot_count(s.slots@, None, d, s.slots@.len() as int) == count
            && count > 0 && expr.coefs() == #[trigger] ones(balancing_names(s, i as int, d, k)) && expr.constant_value() == 0
}

/// The balancing requirements of subject `s` are over values of type `T`.
pub open spec fn balances_by(s: Subject, kind: int) -> bool {
    &&& s.balancing_requirements is Some
    &&& match s.balancing_requirements->0.object {
        BalancingObject::Teachers(_) => kind == 0,
        BalancingObject::Timeslots(_) => kind == 1,
        BalancingObject::TeachersAndTimeslots(_) => kind == 2,
    }
}

/// Entry `e` (subject, count, expression) is a balanced quantity of the
/// data: the subject asks for balancing, over values of the kind of its
/// requirements.
pub open spec fn is_balancing_entry(d: ValidatedData, e: (usize, usize, Expr)) -> bool {
    let s = d.subject_list()[e.0 as int];
    &&& e.0 < d.subject_list().len()
    &&& (balances_by(s, 0) ==> balanced_by::<TeacherBalancing>(s, e.0, e.1, e.2))
    &&& (balances_by(s, 1) ==> balanced_by::<TimeslotBalancing>(s, e.0, e.1, e.2))
    &&& (balances_by(s, 2) ==> balanced_by::<TeacherAndTimeslotBalancing>(s, e.0, e.1, e.2))
    &&& s.balancing_requirements is Some
}

/// Some entry is subject `i` with `count` slots and these coefficients.
pub open spec fn has_entry(entries: Seq<(usize, usize, Expr)>, i: usize, count: usize, coefs: Map<Seq<char>, i32>) -> bool {
    exists|u: int|
        0 <= u < entries.len() && entries[u].0 == i && entries[u].1 == count && (#[trigger] entries[u]).2.coefs() == coefs
}

/// An entry stays when entries are added after it.
proof fn lemma_has_entry_kept(
    a: Seq<(usize, usize, Expr)>,
    b: Seq<(usize, usize, Expr)>,
    i: usize,
    count: usize,
    coefs: Map<Seq<char>, i32>,
)
    requires
        has_entry(a, i, count, coefs),
        a.len() <= b.len(),
        forall|u: int| 0 <= u < a.len() ==> #[trigger] b[u] == a[u],
    ensures
        has_entry(b, i, count, coefs),
{
    let u = choose|u: int| 0 <= u < a.len() && a[u].0 == i && a[u].1 == count && (#[trigger] a[u]).2.coefs() == coefs;
    assert(b[u] == a[u]);
}

/// Every value of type `T` taken by a slot of subject `s` (number `i`) has,
/// for each group, its entry among `entries`.
pub open spec fn covers<T: BalancingData>(entries: Seq<(usize, usize, Expr)>, s: Subject, i: usize) -> bool {
    forall|d: T, k: int|
        0 <= k < s.groups.prefilled_groups@.len() && slot_count(s.slots@, None, d, s.slots@.len() as int) > 0
            ==> #[trigger] has_entry(
            entries,
            i,
            slot_count(s.slots@, None, d, s.slots@.len() as int) as usize,
            ones(balancing_names(s, i as int, d, k)),
        )
}

/// Every balanced quantity of the first `n` subjects has its entry.
pub open spec fn covers_subjects(d: ValidatedData, entries: Seq<(usize, usize, Expr)>, n: int) -> bool {
    forall|i: int|
        0 <= i < n ==> {
            let s = #[trigger] d.subject_list()[i];
            &&& balances_by(s, 0) ==> covers::<TeacherBalancing>(entries, s, i as usize)
            &&& balances_by(s, 1) ==> covers::<TimeslotBalancing>(entries, s, i as usize)
            &&& balances_by(s, 2) ==> covers::<TeacherAndTimeslotBalancing>(entries, s, i as usize)
        }
}

/// Coverage stays when entries are added after the others.
proof fn lemma_covers_kept<T: BalancingData>(a: Seq<(usize, usize, Expr)>, b: Seq<(usize, usize, Expr)>, s: Subject, i: usize)
    requires
        covers::<T>(a, s, i),
        a.len() <= b.len(),
        forall|u: int| 0 <= u < a.len() ==> #[trigger] b[u] == a[u],
    ensures
        covers::<T>(b, s, i),
{
    assert forall|d: T, k: int|
        0 <= k < s.groups.prefilled_groups@.len() && slot_count(s.slots@, None, d, s.slots@.len() as int) > 0 implies #[trigger] has_entry(
        b,
        i,
        slot_count(s.slots@, None, d, s.slots@.len() as int) as usize,
        ones(balancing_names(s, i as int, d, k)),
    ) by {
        lemma_has_entry_kept(
            a,
            b,
            i,
            slot_count(s.slots@, None, d, s.slots@.len() as int) as usize,
            ones(balancing_names(s, i as int, d, k)),
        );
    }
}

impl<'a> IlpTranslator<'a> {
    /// Appends, for each value of type `T` taken by a slot of subject
    /// `subject` (number `i`) and each group, the number of its slots taking
    /// that value, with the number of those slots that the group gets.
    fn push_balancing_entries<T: BalancingData>(&self, out: &mut Vec<(usize, usize, Expr)>, i: usize, subject: &Subject)
        ensures
            final(out)@.len() >= old(out)@.len(),
            forall|u: int| 0 <= u < old(out)@.len() ==> #[trigger] final(out)@[u] == old(out)@[u],
            forall|u: int|
                old(out)@.len() <= u < final(out)@.len() ==> (#[trigger] final(out)@[u]).0 == i && balanced_by::<T>(
                    *subject,
                    i,
                    final(out)@[u].1,
                    final(out)@[u].2,
                ),
            covers::<T>(final(out)@, *subject, i),
    {
        let ghost start = out@;
        let r = self.build_balancing_exprs_for_subject::<T>(i, subject);
        let ghost p = balancing_counts(r@);
        let ng: usize = subject.groups.prefilled_groups.len();
        let mut t: usize = 0;
        while t < r.len()
            invariant
                is_pattern(subject.slots@, None, p),
                p == balancing_counts(r@),
                ng == subject.groups.prefilled_groups@.len(),
                forall|tt: int| 0 <= tt < r@.len() ==> (#[trigger] r@[tt]).2@.len() == ng,
                forall|tt: int, k: int|
                    0 <= tt < r@.len() && 0 <= k < (#[trigger] r@[tt]).2@.len() ==> (#[trigger] r@[tt].2@[k]).coefs() == ones(
                        balancing_names(*subject, i as int, r@[tt].0, k),
                    ) && r@[tt].2@[k].constant_value() == 0,
                0 <= t <= r@.len(),
                out@.len() >= start.len(),
                forall|u: int| 0 <= u < start.len() ==> #[trigger] out@[u] == start[u],
                forall|u: int|
                    start.len() <= u < out@.len() ==> (#[trigger] out@[u]).0 == i && balanced_by::<T>(*subject, i, out@[u].1, out@[u].2),
                forall|tt: int, k: int|
                    0 <= tt < t && 0 <= k < ng ==> #[trigger] has_entry(out@, i, p[tt].1, ones(balancing_names(*subject, i as int, p[tt].0, k))),
            decreases r@.len() - t,
        {
            let mut k: usize = 0;
            while k < ng
                invariant
                    is_pattern(subject.slots@, None, p),
                    p == balancing_counts(r@),
                    ng == subject.groups.prefilled_groups@.len(),
                    0 <= t < r@.len(),
                    r@[t as int].2@.len() == ng,
                    forall|kk: int|
                        0 <= kk < ng ==> (#[trigger] r@[t as int].2@[kk]).coefs() == ones(
                            balancing_names(*subject, i as int, r@[t as int].0, kk),
                        ) && r@[t as int].2@[kk].constant_value() == 0,
                    0 <= k <= ng,
                    out@.len() >= start.len(),
                    forall|u: int| 0 <= u < start.len() ==> #[trigger] out@[u] == start[u],
                    forall|u: int|
                        start.len() <= u < out@.len() ==> (#[trigger] out@[u]).0 == i && balanced_by::<T>(*subject, i, out@[u].1, out@[u].2),
                    forall|tt: int, kk: int|
                        0 <= tt < t && 0 <= kk < ng ==> #[trigger] has_entry(out@, i, p[tt].1, ones(balancing_names(*subject, i as int, p[tt].0, kk))),
                    forall|kk: int|
                        0 <= kk < k ==> #[trigger] has_entry(out@, i, p[t as int].1, ones(balancing_names(*subject, i as int, p[t as int].0, kk))),
                decreases ng - k,
            {
                let e = r[t].2[k].clone();
                let count: usize = r[t].1;
                let ghost before = out@;
                proof {
                    assert(p[t as int] == (r@[t as int].0, r@[t as int].1));
                    let d = p[t as int].0;
                    assert(p[t as int].1 == slot_count(subject.slots@, None, d, subject.slots@.len() as int) && p[t as int].1 > 0);
                    assert(e.coefs() == ones(balancing_names(*subject, i as int, d, k as int)));
                    assert(balanced_by::<T>(*subject, i, count, e));
                }
                out.push((i, count, e));
                proof {
                    let n = out@.len() - 1;
                    assert(forall|u: int| 0 <= u < before.len() ==> #[trigger] out@[u] == before[u]);
                    assert forall|tt: int, kk: int|
                        0 <= tt < t && 0 <= kk < ng implies #[trigger] has_entry(out@, i, p[tt].1, ones(balancing_names(*subject, i as int, p[tt].0, kk))) by {
                        lemma_has_entry_kept(before, out@, i, p[tt].1, ones(balancing_names(*subject, i as int, p[tt].0, kk)));
                    }
                    assert forall|kk: int|
                        0 <= kk < k + 1 implies #[trigger] has_entry(out@, i, p[t as int].1, ones(balancing_names(*subject, i as int, p[t as int].0, kk))) by {
                        if kk == k {
                            assert(out@[n].2.coefs() == ones(balancing_names(*subject, i as int, p[t as int].0, kk)));
                        } else {
                            lemma_has_entry_kept(before, out@, i, p[t as int].1, ones(balancing_names(*subject, i as int, p[t as int].0, kk)));
                        }
                    }
                }
                k = k + 1;
            }
            t = t + 1;
        }
        proof {
            assert forall|d: T, k: int|
                0 <= k < subject.groups.prefilled_groups@.len() && slot_count(subject.slots@, None, d, subject.slots@.len() as int) > 0 implies #[trigger] has_entry(
                out@,
                i,
                slot_count(subject.slots@, None, d, subject.slots@.len() as int) as usize,
                ones(balancing_names(*subject, i as int, d, k)),
            ) by {
                lemma_slot_count_witness(subject.slots@, None, d, subject.slots@.len() as int);
                let j = choose|j: int|
                    0 <= j < subject.slots@.len() && in_week(subject.slots@[j], None) && #[trigger] T::of_slot(subject.slots@[j]) == d;
                let tt = choose|tt: int| 0 <= tt < p.len() && #[trigger] p[tt].0 == T::of_slot(subject.slots@[j]);
                assert(p[tt].1 == slot_count(subject.slots@, None, p[tt].0, subject.slots@.len() as int));
                assert(has_entry(out@, i, p[tt].1, ones(balancing_names(*subject, i as int, p[tt].0, k))));
            }
        }
    }

    /// For each subject asking for balancing, in order, and each value of
    /// the kind of its requirements taken by one of its slots (in increasing
    /// key order) and each group: the subject, the number of its slots taking
    /// the value, and the number of those slots that the group gets.
    pub fn build_balancing_exprs(&self) -> (r: Vec<(usize, usize, Expr)>)
        ensures
            forall|u: int| 0 <= u < r@.len() ==> is_balancing_entry(self.validated(), #[trigger] r@[u]),
            covers_subjects(self.validated(), r@, self.validated().subject_list().len() as int),
    {
        let ghost d = self.validated();
        let subjects = self.data().subjects();
        let mut out: Vec<(usize, usize, Expr)> = Vec::new();
        let mut i: usize = 0;
        while i < subjects.len()
            invariant
                d == self.validated(),
                subjects@ == d.subject_list(),
                0 <= i <= subjects@.len(),
                forall|u: int| 0 <= u < out@.len() ==> is_balancing_entry(d, #[trigger] out@[u]),
                covers_subjects(d, out@, i as int),
            decreases subjects@.len() - i,
        {
            let subject = &subjects[i];
            let ghost before = out@;
            match &subject.balancing_requirements {
                None => {},
                Some(br) => match &br.object {
                    BalancingObject::Teachers(_) => self.push_balancing_entries::<TeacherBalancing>(&mut out, i, subject),
                    BalancingObject::Timeslots(_) => self.push_balancing_entries::<TimeslotBalancing>(&mut out, i, subject),
                    BalancingObject::TeachersAndTimeslots(_) => self.push_balancing_entries::<TeacherAndTimeslotBalancing>(
                        &mut out,
                        i,
                        subject,
                    ),
                },
            }
            proof {
                assert forall|u: int| 0 <= u < out@.len() implies is_balancing_entry(d, #[trigger] out@[u]) by {
                    if u < before.len() {
                        assert(out@[u] == before[u]);
                    }
                }
                assert forall|m: int| 0 <= m < i + 1 implies {
                    let s = #[trigger] d.subject_list()[m];
                    &&& balances_by(s, 0) ==> covers::<TeacherBalancing>(out@, s, m as usize)
                    &&& balances_by(s, 1) ==> covers::<TimeslotBalancing>(out@, s, m as usize)
                    &&& balances_by(s, 2) ==> covers::<TeacherAndTimeslotBalancing>(out@, s, m as usize)
                } by {
                    if m < i {
                        let s = d.subject_list()[m];
                        if balances_by(s, 0) {
                            lemma_covers_kept::<TeacherBalancing>(before, out@, s, m as usize);
                        }
                        if balances_by(s, 1) {
                            lemma_covers_kept::<TimeslotBalancing>(before, out@, s, m as usize);
                        }
                        if balances_by(s, 2) {
                            lemma_covers_kept::<TeacherAndTimeslotBalancing>(before, out@, s, m as usize);
                        }
                    }
                }
            }
            i = i + 1;
        }
        out
    }
}

} // verus!
