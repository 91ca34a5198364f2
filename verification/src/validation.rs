//! Validation of the data of a colloscope: the checks, in the order in which
//! they are made, and the first error found.

use std::collections::BTreeSet;
use std::ops::Range;
use vstd::prelude::*;

use crate::colloscope::{
    ends_within_day, week_selections, Error, GeneralData, GroupDesc, Incompatibility,
    IncompatibilityGroup, SlotGrouping, SlotGroupingIncompat, SlotRef, SlotStart,
    SlotWithDuration, SlotWithTeacher, Student, Subject,
};
use crate::nonzero::NonZeroU32;
use crate::sets::{increasing_u32, sorted_u32, sorted_usize, u32_elems, usize_elems};
use crate::sorted::SortedVec;
use crate::time::MINUTES_PER_DAY;

verus! {

broadcast use {vstd::std_specs::btree::group_btree_axioms, vstd::laws_cmp::group_laws_cmp};

/// The first of two possible errors.
pub open spec fn or_else(a: Option<Error>, b: Option<Error>) -> Option<Error> {
    match a {
        Some(e) => Some(e),
        None => b,
    }
}

/// The result that goes with a possible error.
pub open spec fn to_result(e: Option<Error>) -> Result<(), Error> {
    match e {
        Some(x) => Err(x),
        None => Ok(()),
    }
}

/// The first element, in order, of the first `n` elements of `q` that is at
/// least `bound`.
pub open spec fn first_at_least(q: Seq<usize>, bound: int, n: int) -> Option<usize>
    decreases n,
{
    if n <= 0 {
        None
    } else {
        match first_at_least(q, bound, n - 1) {
            Some(x) => Some(x),
            None => if q[n - 1] >= bound {
                Some(q[n - 1])
            } else {
                None
            },
        }
    }
}

/// The first element of `q` that is at least `bound`.
pub open spec fn first_at_least_in(q: Seq<usize>, bound: int) -> Option<usize> {
    first_at_least(q, bound, q.len() as int)
}

/// The first element, in order, of the first `n` elements of `q` that is at
/// least `bound`.
pub open spec fn first_at_least_u32(q: Seq<u32>, bound: int, n: int) -> Option<u32>
    decreases n,
{
    if n <= 0 {
        None
    } else {
        match first_at_least_u32(q, bound, n - 1) {
            Some(x) => Some(x),
            None => if q[n - 1] >= bound {
                Some(q[n - 1])
            } else {
                None
            },
        }
    }
}

/// Finds the first element of `v` that is at least `bound`.
fn find_at_least(v: &Vec<usize>, bound: usize) -> (r: Option<usize>)
    ensures
        r == first_at_least_in(v@, bound as int),
{
    let mut i: usize = 0;
    while i < v.len()
        invariant
            0 <= i <= v@.len(),
            first_at_least(v@, bound as int, i as int).is_none(),
        decreases v@.len() - i,
    {
        if v[i] >= bound {
            proof {
                assert(first_at_least(v@, bound as int, i + 1) == Some(v@[i as int]));
                lemma_first_at_least_stays(v@, bound as int, i + 1, v@.len() as int);
            }
            return Some(v[i]);
        }
        i = i + 1;
    }
    None
}

/// When no element of the prefix is at least `bound`, all are below it.
pub proof fn lemma_first_at_least_none(q: Seq<usize>, bound: int, n: int)
    requires
        first_at_least(q, bound, n).is_none(),
    ensures
        forall|t: int| 0 <= t < n ==> q[t] < bound,
    decreases n,
{
    if n > 0 {
        lemma_first_at_least_none(q, bound, n - 1);
    }
}

/// Once found, the first element at least `bound` stays the same on longer prefixes.
proof fn lemma_first_at_least_stays(q: Seq<usize>, bound: int, n: int, m: int)
    requires
        n <= m,
        first_at_least(q, bound, n).is_some(),
    ensures
        first_at_least(q, bound, m) == first_at_least(q, bound, n),
    decreases m - n,
{
    if n < m {
        lemma_first_at_least_stays(q, bound, n, m - 1);
    }
}

/// The first error found by the checks `f(0)`, ..., `f(n - 1)`, made in this order.
pub open spec fn first_error(f: spec_fn(int) -> Option<Error>, n: int) -> Option<Error>
    decreases n,
{
    if n <= 0 {
        None
    } else {
        or_else(first_error(f, n - 1), f(n - 1))
    }
}

/// When no check finds an error, each check passes.
pub proof fn lemma_first_error_none(f: spec_fn(int) -> Option<Error>, n: int, i: int)
    requires
        first_error(f, n).is_none(),
        0 <= i < n,
    ensures
        f(i).is_none(),
    decreases n,
{
    if i < n - 1 {
        lemma_first_error_none(f, n - 1, i);
    }
}

/// Once an error is found, it stays the first one whatever checks follow.
pub proof fn lemma_first_error_stays(f: spec_fn(int) -> Option<Error>, n: int, m: int)
    requires
        n <= m,
        first_error(f, n).is_some(),
    ensures
        first_error(f, m) == first_error(f, n),
    decreases m - n,
{
    if n < m {
        lemma_first_error_stays(f, n, m - 1);
    }
}

// ----- general data -----

/// The first periodicity cut, in increasing order, that is not before the last week.
pub open spec fn cuts_error(g: GeneralData) -> Option<Error> {
    let cuts = sorted_u32(g.periodicity_cuts@);
    match first_at_least_u32(cuts, g.week_count.val() as int, cuts.len() as int) {
        Some(c) => Some(Error::InvalidPeriodicityCut(c, g.week_count.val())),
        None => None,
    }
}

/// An empty range of interrogations per week.
pub open spec fn interrogations_error(g: GeneralData) -> Option<Error> {
    match g.interrogations_per_week {
        Some(r) => if r.start >= r.end {
            Some(Error::SlotGeneralDataWithInvalidInterrogationsPerWeek(r))
        } else {
            None
        },
        None => None,
    }
}

fn check_cuts(g: &GeneralData) -> (r: Result<(), Error>)
    ensures
        r == to_result(cuts_error(*g)),
{
    let cuts = u32_elems(&g.periodicity_cuts);
    let wc: u32 = g.week_count.get();
    let mut i: usize = 0;
    while i < cuts.len()
        invariant
            cuts@ == sorted_u32(g.periodicity_cuts@),
            wc == g.week_count.val(),
            0 <= i <= cuts@.len(),
            first_at_least_u32(cuts@, wc as int, i as int).is_none(),
        decreases cuts@.len() - i,
    {
        if cuts[i] >= wc {
            proof {
                assert(first_at_least_u32(cuts@, wc as int, i + 1) == Some(cuts@[i as int]));
                lemma_first_at_least_u32_stays(cuts@, wc as int, i + 1, cuts@.len() as int);
            }
            return Err(Error::InvalidPeriodicityCut(cuts[i], wc));
        }
        i = i + 1;
    }
    Ok(())
}

proof fn lemma_first_at_least_u32_stays(q: Seq<u32>, bound: int, n: int, m: int)
    requires
        n <= m,
        first_at_least_u32(q, bound, n).is_some(),
    ensures
        first_at_least_u32(q, bound, m) == first_at_least_u32(q, bound, n),
    decreases m - n,
{
    if n < m {
        lemma_first_at_least_u32_stays(q, bound, n, m - 1);
    }
}

/// When no value among the first `n` reaches the bound, all are below it.
proof fn lemma_first_at_least_u32_none(q: Seq<u32>, bound: int, n: int)
    requires
        first_at_least_u32(q, bound, n).is_none(),
    ensures
        forall|i: int| 0 <= i < n ==> #[trigger] q[i] < bound,
    decreases n,
{
    if n > 0 {
        lemma_first_at_least_u32_none(q, bound, n - 1);
    }
}

fn check_interrogations(g: &GeneralData) -> (r: Result<(), Error>)
    ensures
        r == to_result(interrogations_error(*g)),
{
    match &g.interrogations_per_week {
        Some(range) => {
            if range.start >= range.end {
                Err(Error::SlotGeneralDataWithInvalidInterrogationsPerWeek(Range { start: range.start, end: range.end }))
            } else {
                Ok(())
            }
        },
        None => Ok(()),
    }
}

// ----- subjects -----

/// Some week belongs to two of the week selections.
pub open spec fn weeks_overlap(ws: Seq<Set<u32>>) -> bool {
    exists|p: int, q: int, w: u32|
        0 <= p < q < ws.len() && #[trigger] ws[p].contains(w) && #[trigger] ws[q].contains(w)
}

/// Week selections of the balancing requirements that share a week.
pub open spec fn balancing_error(i: usize, s: Subject) -> Option<Error> {
    match s.balancing_requirements {
        Some(br) => if weeks_overlap(week_selections(br.object)) {
            Some(Error::SubjectWithOverlappingWeekSelections(i))
        } else {
            None
        },
        None => None,
    }
}

/// A period longer than the schedule.
pub open spec fn period_error(g: GeneralData, i: usize, s: Subject) -> Option<Error> {
    if s.period.val() > g.week_count.val() {
        Some(Error::SubjectWithPeriodicityTooBig(i, s.period.val(), g.week_count.val()))
    } else {
        None
    }
}

/// An empty range of students per group.
pub open spec fn range_error(i: usize, s: Subject) -> Option<Error> {
    if s.students_per_group.start.val() > s.students_per_group.end.val() {
        Some(Error::SubjectWithInvalidStudentsPerSlotRange(i, s.students_per_group))
    } else {
        None
    }
}

/// A slot with an unknown teacher, after the last week, or running past midnight.
pub open spec fn slot_error(g: GeneralData, i: usize, j: usize, duration: NonZeroU32, slot: SlotWithTeacher) -> Option<Error> {
    if slot.teacher >= g.teacher_count {
        Some(Error::SubjectWithInvalidTeacher(i, j, slot.teacher))
    } else if slot.start.week >= g.week_count.val() {
        Some(Error::SubjectWithSlotAfterLastWeek(i, j, g.week_count.val()))
    } else if slot.start.start_time.minutes() + duration.val() > MINUTES_PER_DAY {
        Some(Error::SubjectWithSlotOverlappingNextDay(i, j))
    } else {
        None
    }
}

/// The check of each slot of subject `i`.
pub open spec fn slot_checks(g: GeneralData, i: usize, s: Subject) -> spec_fn(int) -> Option<Error> {
    |j: int| slot_error(g, i, j as usize, s.duration, s.slots@[j])
}

/// A student of group `j` that does not exist (the smallest such).
pub open spec fn group_students_error(n_students: usize, i: usize, j: usize, grp: GroupDesc) -> Option<Error> {
    match first_at_least_in(sorted_usize(grp.students@), n_students as int) {
        Some(k) => Some(Error::SubjectWithInvalidAssignedStudent(i, j, k)),
        None => None,
    }
}

/// The check of the students of each group of subject `i`.
pub open spec fn group_students_checks(n_students: usize, i: usize, s: Subject) -> spec_fn(int) -> Option<Error> {
    |j: int| group_students_error(n_students, i, j as usize, s.groups.prefilled_groups@[j])
}

/// A student to be placed that does not exist (the smallest such).
pub open spec fn not_assigned_error(n_students: usize, i: usize, s: Subject) -> Option<Error> {
    match first_at_least_in(sorted_usize(s.groups.not_assigned@), n_students as int) {
        Some(k) => Some(Error::SubjectWithInvalidNotAssignedStudent(i, k)),
        None => None,
    }
}

/// Places left in group `grp`, up to `bound` students, if it can be extended.
pub open spec fn seats_left(grp: GroupDesc, bound: int) -> int {
    if grp.can_be_extended && grp.students@.len() < bound {
        bound - grp.students@.len()
    } else {
        0
    }
}

/// Places left, up to `bound` students per group, in the extensible groups
/// among the first `n` groups.
pub open spec fn free_seats(groups: Seq<GroupDesc>, bound: int, n: int) -> int
    decreases n,
{
    if n <= 0 {
        0
    } else {
        free_seats(groups, bound, n - 1) + seats_left(groups[n - 1], bound)
    }
}

/// Free seats are never negative.
pub proof fn lemma_free_seats_nonneg(groups: Seq<GroupDesc>, bound: int, n: int)
    ensures
        0 <= free_seats(groups, bound, n),
    decreases n,
{
    if n > 0 {
        lemma_free_seats_nonneg(groups, bound, n - 1);
    }
}

/// Free seats never decrease as groups are added.
pub proof fn lemma_free_seats_monotone(groups: Seq<GroupDesc>, bound: int, n: int, m: int)
    requires
        n <= m,
    ensures
        free_seats(groups, bound, n) <= free_seats(groups, bound, m),
    decreases m - n,
{
    if n < m {
        lemma_free_seats_monotone(groups, bound, n, m - 1);
    }
}

/// The number of groups that can be extended among the first `n`.
pub open spec fn extensible_groups(groups: Seq<GroupDesc>, n: int) -> int
    decreases n,
{
    if n <= 0 {
        0
    } else {
        extensible_groups(groups, n - 1) + if groups[n - 1].can_be_extended {
            1int
        } else {
            0int
        }
    }
}

/// The number of students already in the groups that can be extended among
/// the first `n`.
pub open spec fn students_in_extensible(groups: Seq<GroupDesc>, n: int) -> int
    decreases n,
{
    if n <= 0 {
        0
    } else {
        students_in_extensible(groups, n - 1) + if groups[n - 1].can_be_extended {
            groups[n - 1].students@.len() as int
        } else {
            0int
        }
    }
}

/// When no group holds more than `bound` students, the free seats and the
/// students already in the extensible groups fill exactly `bound` seats per
/// extensible group.
proof fn lemma_free_seats_fill(groups: Seq<GroupDesc>, bound: int, n: int)
    requires
        0 <= n <= groups.len(),
        forall|k: int| 0 <= k < n ==> (#[trigger] groups[k]).students@.len() <= bound,
    ensures
        free_seats(groups, bound, n) + students_in_extensible(groups, n) == bound * extensible_groups(groups, n),
    decreases n,
{
    if n > 0 {
        lemma_free_seats_fill(groups, bound, n - 1);
        let c = extensible_groups(groups, n - 1);
        assert(bound * (c + 1) == bound * c + bound) by (nonlinear_arith);
        assert(groups[n - 1].students@.len() <= bound);
    }
}

/// Too many students to place for the room left in the groups, or too few to
/// fill them to the lower bound.
pub open spec fn seats_error(i: usize, s: Subject) -> Option<Error> {
    let groups = s.groups.prefilled_groups@;
    let waiting = s.groups.not_assigned@.len();
    if waiting > free_seats(groups, s.students_per_group.end.val() as int, groups.len() as int) {
        Some(Error::SubjectWithTooFewGroups(i, s.students_per_group))
    } else if waiting < free_seats(groups, s.students_per_group.start.val() as int, groups.len() as int) {
        Some(Error::SubjectWithTooManyGroups(i, s.students_per_group))
    } else {
        None
    }
}

/// The first of the first `limit` groups that holds student `k`.
pub open spec fn first_group_with(groups: Seq<GroupDesc>, k: usize, limit: int) -> Option<usize>
    decreases limit,
{
    if limit <= 0 {
        None
    } else {
        match first_group_with(groups, k, limit - 1) {
            Some(x) => Some(x),
            None => if groups[limit - 1].students@.contains(k) {
                Some((limit - 1) as usize)
            } else {
                None
            },
        }
    }
}

/// The check, for each student of group `j` in increasing order, that they
/// are in no earlier group.
pub open spec fn duplicate_in_group_checks(i: usize, j: usize, groups: Seq<GroupDesc>) -> spec_fn(int) -> Option<Error> {
    |t: int| {
        let k = sorted_usize(groups[j as int].students@)[t];
        match first_group_with(groups, k, j as int) {
            Some(first) => Some(Error::SubjectWithDuplicatedStudentInGroups(i, k, first, j)),
            None => None,
        }
    }
}

/// A group with a student already in an earlier group, too many students, or
/// too few students while it cannot be extended.
pub open spec fn group_error(i: usize, j: usize, s: Subject) -> Option<Error> {
    let groups = s.groups.prefilled_groups@;
    let grp = groups[j as int];
    or_else(
        first_error(duplicate_in_group_checks(i, j, groups), grp.students@.len() as int),
        if grp.students@.len() > s.students_per_group.end.val() {
            Some(Error::SubjectWithTooLargeAssignedGroup(i, j, s.students_per_group))
        } else if grp.students@.len() < s.students_per_group.start.val() && !grp.can_be_extended {
            Some(Error::SubjectWithTooSmallNonExtensibleGroup(i, j, s.students_per_group))
        } else {
            None
        },
    )
}

/// The check of each group of subject `i`.
pub open spec fn group_checks(i: usize, s: Subject) -> spec_fn(int) -> Option<Error> {
    |j: int| group_error(i, j as usize, s)
}

/// The check, for each student to be placed in increasing order, that they
/// are in no group.
pub open spec fn duplicate_not_assigned_checks(i: usize, s: Subject) -> spec_fn(int) -> Option<Error> {
    |t: int| {
        let groups = s.groups.prefilled_groups@;
        let k = sorted_usize(s.groups.not_assigned@)[t];
        match first_group_with(groups, k, groups.len() as int) {
            Some(first) => Some(Error::SubjectWithDuplicatedStudentInGroupsAndUnassigned(i, k, first)),
            None => None,
        }
    }
}

/// The first error of subject `i`, checks being made in this order.
pub open spec fn subject_error(g: GeneralData, n_students: usize, i: usize, s: Subject) -> Option<Error> {
    let n_groups = s.groups.prefilled_groups@.len() as int;
    or_else(balancing_error(i, s),
    or_else(period_error(g, i, s),
    or_else(range_error(i, s),
    or_else(first_error(slot_checks(g, i, s), s.slots@.len() as int),
    or_else(first_error(group_students_checks(n_students, i, s), n_groups),
    or_else(not_assigned_error(n_students, i, s),
    or_else(seats_error(i, s),
    or_else(first_error(group_checks(i, s), n_groups),
        first_error(duplicate_not_assigned_checks(i, s), s.groups.not_assigned@.len() as int)))))))))
}

/// The check of each subject.
pub open spec fn subject_checks(g: GeneralData, n_students: usize, subjects: Seq<Subject>) -> spec_fn(int) -> Option<Error> {
    |i: int| subject_error(g, n_students, i as usize, subjects[i])
}

/// Looks for a week shared by two week selections of the balancing requirements.
fn check_balancing(i: usize, s: &Subject) -> (r: Result<(), Error>)
    ensures
        r == to_result(balancing_error(i, *s)),
{
    match &s.balancing_requirements {
        None => Ok(()),
        Some(br) => {
            let n: usize = br.object.week_selection_count();
            let ghost ws = week_selections(br.object);
            let mut weeks: BTreeSet<u32> = BTreeSet::new();
            let mut p: usize = 0;
            while p < n
                invariant
                    s.balancing_requirements == Some(*br),
                    ws == week_selections(br.object),
                    n == ws.len(),
                    0 <= p <= n,
                    forall|w: u32|
                        #[trigger] weeks@.contains(w) <==> exists|q: int|
                            0 <= q < p && #[trigger] ws[q].contains(w),
                    forall|a: int, b: int, w: u32|
                        0 <= a < b < p ==> !(#[trigger] ws[a].contains(w) && #[trigger] ws[b].contains(w)),
                decreases n - p,
            {
                let sel = br.object.week_selection(p);
                let elems = u32_elems(&sel.selection);
                let mut k: usize = 0;
                while k < elems.len()
                    invariant
                        s.balancing_requirements == Some(*br),
                        ws == week_selections(br.object),
                        n == ws.len(),
                        0 <= p < n,
                        forall|a: int, b: int, w: u32|
                            0 <= a < b < p ==> !(#[trigger] ws[a].contains(w) && #[trigger] ws[b].contains(w)),
                        elems@.to_set() == ws[p as int],
                        increasing_u32(elems@),
                        0 <= k <= elems@.len(),
                        forall|w: u32|
                            #[trigger] weeks@.contains(w) <==> ((exists|q: int|
                                0 <= q < p && #[trigger] ws[q].contains(w)) || elems@.take(k as int).contains(w)),
                        forall|t: int, q: int|
                            0 <= t < k && 0 <= q < p ==> !#[trigger] ws[q].contains(#[trigger] elems@[t]),
                    decreases elems@.len() - k,
                {
                    let w: u32 = elems[k];
                    if weeks.contains(&w) {
                        proof {
                            assert(weeks@.contains(w));
                            if elems@.take(k as int).contains(w) {
                                let t = choose|t: int| 0 <= t < k && elems@.take(k as int)[t] == w;
                                assert(elems@[t] == elems@[k as int]);
                            }
                            let q = choose|q: int| 0 <= q < p && #[trigger] ws[q].contains(w);
                            assert(elems@.to_set().contains(elems@[k as int]));
                            assert(ws[p as int].contains(w));
                            assert(weeks_overlap(ws));
                        }
                        return Err(Error::SubjectWithOverlappingWeekSelections(i));
                    }
                    proof {
                        assert forall|q: int| 0 <= q < p implies !#[trigger] ws[q].contains(w) by {
                            assert(weeks@.contains(w) == false);
                        }
                    }
                    let ghost before = weeks@;
                    weeks.insert(w);
                    proof {
                        assert(weeks@ == before.insert(w));
                        assert(elems@.take(k + 1) =~= elems@.take(k as int).push(w));
                        assert forall|x: u32| #[trigger] elems@.take(k + 1).contains(x) <==> (elems@.take(k as int).contains(x) || x == w) by {
                            if elems@.take(k + 1).contains(x) {
                                let t = choose|t: int| 0 <= t < k + 1 && #[trigger] elems@.take(k + 1)[t] == x;
                                if t < k {
                                    assert(elems@.take(k as int)[t] == x);
                                }
                            }
                            if elems@.take(k as int).contains(x) {
                                let t = choose|t: int| 0 <= t < k && #[trigger] elems@.take(k as int)[t] == x;
                                assert(elems@.take(k + 1)[t] == x);
                            }
                            if x == w {
                                assert(elems@.take(k + 1)[k as int] == x);
                            }
                        }
                    }
                    k = k + 1;
                }
                proof {
                    assert(elems@.take(k as int) =~= elems@);
                    assert forall|w: u32|
                        #[trigger] weeks@.contains(w) <==> exists|q: int|
                            0 <= q < p + 1 && #[trigger] ws[q].contains(w) by {
                        if ws[p as int].contains(w) {
                            assert(elems@.to_set().contains(w));
                        }
                        if elems@.contains(w) {
                            assert(elems@.to_set().contains(w));
                            assert(ws[p as int].contains(w));
                        }
                    }
                    assert forall|a: int, b: int, w: u32|
                        0 <= a < b < p + 1 implies !(#[trigger] ws[a].contains(w) && #[trigger] ws[b].contains(w)) by {
                        if b == p && ws[a].contains(w) && ws[b].contains(w) {
                            assert(elems@.to_set().contains(w));
                            let t = choose|t: int| 0 <= t < elems@.len() && elems@[t] == w;
                            assert(!ws[a].contains(elems@[t]));
                        }
                    }
                }
                p = p + 1;
            }
            Ok(())
        },
    }
}

/// Checks the slots of subject `i`, in order.
fn check_slots(g: &GeneralData, i: usize, s: &Subject) -> (r: Result<(), Error>)
    ensures
        r == to_result(first_error(slot_checks(*g, i, *s), s.slots@.len() as int)),
{
    let ghost f = slot_checks(*g, i, *s);
    let mut j: usize = 0;
    while j < s.slots.len()
        invariant
            f == slot_checks(*g, i, *s),
            0 <= j <= s.slots@.len(),
            first_error(f, j as int).is_none(),
        decreases s.slots@.len() - j,
    {
        let slot = &s.slots[j];
        let e: Option<Error> = if slot.teacher >= g.teacher_count {
            Some(Error::SubjectWithInvalidTeacher(i, j, slot.teacher))
        } else if !validate_slot_start(g, &slot.start) {
            Some(Error::SubjectWithSlotAfterLastWeek(i, j, g.week_count.get()))
        } else if !validate_slot_overlap(&slot.start, s.duration) {
            Some(Error::SubjectWithSlotOverlappingNextDay(i, j))
        } else {
            None
        };
        proof {
            assert(e == f(j as int));
        }
        if let Some(err) = e {
            proof {
                lemma_first_error_stays(f, j + 1, s.slots@.len() as int);
            }
            return Err(err);
        }
        j = j + 1;
    }
    Ok(())
}

/// Checks that the students of the groups of subject `i` exist, group by group.
fn check_group_students(n_students: usize, i: usize, s: &Subject) -> (r: Result<(), Error>)
    ensures
        r == to_result(first_error(group_students_checks(n_students, i, *s), s.groups.prefilled_groups@.len() as int)),
{
    let ghost f = group_students_checks(n_students, i, *s);
    let groups = &s.groups.prefilled_groups;
    let mut j: usize = 0;
    while j < groups.len()
        invariant
            f == group_students_checks(n_students, i, *s),
            groups == &s.groups.prefilled_groups,
            0 <= j <= groups@.len(),
            first_error(f, j as int).is_none(),
        decreases groups@.len() - j,
    {
        let elems = usize_elems(&groups[j].students);
        if let Some(k) = find_at_least(&elems, n_students) {
            proof {
                assert(f(j as int) == Some(Error::SubjectWithInvalidAssignedStudent(i, j, k)));
                lemma_first_error_stays(f, j + 1, groups@.len() as int);
            }
            return Err(Error::SubjectWithInvalidAssignedStudent(i, j, k));
        }
        proof {
            assert(f(j as int).is_none());
        }
        j = j + 1;
    }
    Ok(())
}

/// Checks that the students to be placed exist.
fn check_not_assigned(n_students: usize, i: usize, s: &Subject) -> (r: Result<(), Error>)
    ensures
        r == to_result(not_assigned_error(n_students, i, *s)),
{
    let elems = usize_elems(&s.groups.not_assigned);
    match find_at_least(&elems, n_students) {
        Some(k) => Err(Error::SubjectWithInvalidNotAssignedStudent(i, k)),
        None => Ok(()),
    }
}

/// Places left in a group, up to `bound` students, if it can be extended.
fn group_seats_left(grp: &GroupDesc, bound: usize) -> (r: usize)
    ensures
        r == seats_left(*grp, bound as int),
{
    let len: usize = grp.students.len();
    if grp.can_be_extended && len < bound {
        bound - len
    } else {
        0
    }
}

/// Whether the free seats, up to `bound` students per group, are at least `waiting`.
fn enough_seats(groups: &Vec<GroupDesc>, bound: usize, waiting: usize) -> (r: bool)
    ensures
        r == (free_seats(groups@, bound as int, groups@.len() as int) >= waiting),
{
    let mut acc: usize = 0;
    let mut j: usize = 0;
    while j < groups.len()
        invariant
            0 <= j <= groups@.len(),
            acc == free_seats(groups@, bound as int, j as int),
            acc < waiting || (j == 0 && waiting == 0),
        decreases groups@.len() - j,
    {
        if waiting == 0 {
            proof {
                lemma_free_seats_nonneg(groups@, bound as int, groups@.len() as int);
            }
            return true;
        }
        let add: usize = group_seats_left(&groups[j], bound);
        if add >= waiting - acc {
            proof {
                lemma_free_seats_monotone(groups@, bound as int, j + 1, groups@.len() as int);
            }
            return true;
        }
        acc = acc + add;
        j = j + 1;
    }
    if waiting == 0 {
        proof {
            lemma_free_seats_nonneg(groups@, bound as int, groups@.len() as int);
        }
        return true;
    }
    false
}

/// Whether the free seats, up to `bound` students per group, are more than `waiting`.
fn too_many_seats(groups: &Vec<GroupDesc>, bound: usize, waiting: usize) -> (r: bool)
    ensures
        r == (free_seats(groups@, bound as int, groups@.len() as int) > waiting),
{
    let mut acc: usize = 0;
    let mut j: usize = 0;
    while j < groups.len()
        invariant
            0 <= j <= groups@.len(),
            acc == free_seats(groups@, bound as int, j as int),
            acc <= waiting,
        decreases groups@.len() - j,
    {
        let add: usize = group_seats_left(&groups[j], bound);
        if add > waiting - acc {
            proof {
                lemma_free_seats_monotone(groups@, bound as int, j + 1, groups@.len() as int);
            }
            return true;
        }
        acc = acc + add;
        j = j + 1;
    }
    false
}

/// Checks that the students to be placed fit in the groups, and fill them
/// to the lower bound.
fn check_seats(i: usize, s: &Subject) -> (r: Result<(), Error>)
    ensures
        r == to_result(seats_error(i, *s)),
{
    let groups = &s.groups.prefilled_groups;
    let waiting: usize = s.groups.not_assigned.len();
    if !enough_seats(groups, s.students_per_group.end.get(), waiting) {
        return Err(Error::SubjectWithTooFewGroups(i, s.students_per_group));
    }
    if too_many_seats(groups, s.students_per_group.start.get(), waiting) {
        return Err(Error::SubjectWithTooManyGroups(i, s.students_per_group));
    }
    Ok(())
}

/// The first of the first `limit` groups that holds student `k`.
fn find_first_group(groups: &Vec<GroupDesc>, k: usize, limit: usize) -> (r: Option<usize>)
    requires
        limit <= groups@.len(),
    ensures
        r == first_group_with(groups@, k, limit as int),
{
    let mut q: usize = 0;
    while q < limit
        invariant
            limit <= groups@.len(),
            0 <= q <= limit,
            first_group_with(groups@, k, q as int).is_none(),
        decreases limit - q,
    {
        if groups[q].students.contains(&k) {
            proof {
                lemma_first_group_stays(groups@, k, q + 1, limit as int);
            }
            return Some(q);
        }
        q = q + 1;
    }
    None
}

/// Once found, the first group holding a student stays the same as more groups are looked at.
proof fn lemma_first_group_stays(groups: Seq<GroupDesc>, k: usize, n: int, m: int)
    requires
        n <= m,
        first_group_with(groups, k, n).is_some(),
    ensures
        first_group_with(groups, k, m) == first_group_with(groups, k, n),
    decreases m - n,
{
    if n < m {
        lemma_first_group_stays(groups, k, n, m - 1);
    }
}

/// Checks group `j` of subject `i`: its students are in no earlier group, and
/// its size suits the range of students per group.
fn check_group(i: usize, j: usize, s: &Subject) -> (r: Result<(), Error>)
    requires
        j < s.groups.prefilled_groups@.len(),
    ensures
        r == to_result(group_error(i, j, *s)),
{
    let groups = &s.groups.prefilled_groups;
    let ghost f = duplicate_in_group_checks(i, j, groups@);
    let elems = usize_elems(&groups[j].students);
    let mut t: usize = 0;
    while t < elems.len()
        invariant
            groups == &s.groups.prefilled_groups,
            j < groups@.len(),
            f == duplicate_in_group_checks(i, j, groups@),
            elems@ == sorted_usize(groups@[j as int].students@),
            elems@.len() == groups@[j as int].students@.len(),
            0 <= t <= elems@.len(),
            first_error(f, t as int).is_none(),
        decreases elems@.len() - t,
    {
        let k: usize = elems[t];
        if let Some(first) = find_first_group(groups, k, j) {
            proof {
                assert(f(t as int) == Some(Error::SubjectWithDuplicatedStudentInGroups(i, k, first, j)));
                lemma_first_error_stays(f, t + 1, elems@.len() as int);
            }
            return Err(Error::SubjectWithDuplicatedStudentInGroups(i, k, first, j));
        }
        proof {
            assert(f(t as int).is_none());
        }
        t = t + 1;
    }
    let len: usize = groups[j].students.len();
    if len > s.students_per_group.end.get() {
        return Err(Error::SubjectWithTooLargeAssignedGroup(i, j, s.students_per_group));
    }
    if len < s.students_per_group.start.get() && !groups[j].can_be_extended {
        return Err(Error::SubjectWithTooSmallNonExtensibleGroup(i, j, s.students_per_group));
    }
    Ok(())
}

/// Checks the groups of subject `i`, in order.
fn check_groups(i: usize, s: &Subject) -> (r: Result<(), Error>)
    ensures
        r == to_result(first_error(group_checks(i, *s), s.groups.prefilled_groups@.len() as int)),
{
    let ghost f = group_checks(i, *s);
    let mut j: usize = 0;
    while j < s.groups.prefilled_groups.len()
        invariant
            f == group_checks(i, *s),
            0 <= j <= s.groups.prefilled_groups@.len(),
            first_error(f, j as int).is_none(),
        decreases s.groups.prefilled_groups@.len() - j,
    {
        let r = check_group(i, j, s);
        proof {
            assert(f(j as int) == group_error(i, j, *s));
        }
        if r.is_err() {
            proof {
                lemma_first_error_stays(f, j + 1, s.groups.prefilled_groups@.len() as int);
            }
            return r;
        }
        j = j + 1;
    }
    Ok(())
}

/// Checks that no student to be placed is already in a group.
fn check_duplicate_not_assigned(i: usize, s: &Subject) -> (r: Result<(), Error>)
    ensures
        r == to_result(first_error(duplicate_not_assigned_checks(i, *s), s.groups.not_assigned@.len() as int)),
{
    let ghost f = duplicate_not_assigned_checks(i, *s);
    let groups = &s.groups.prefilled_groups;
    let elems = usize_elems(&s.groups.not_assigned);
    let mut t: usize = 0;
    while t < elems.len()
        invariant
            groups == &s.groups.prefilled_groups,
            f == duplicate_not_assigned_checks(i, *s),
            elems@ == sorted_usize(s.groups.not_assigned@),
            elems@.len() == s.groups.not_assigned@.len(),
            0 <= t <= elems@.len(),
            first_error(f, t as int).is_none(),
        decreases elems@.len() - t,
    {
        let k: usize = elems[t];
        if let Some(first) = find_first_group(groups, k, groups.len()) {
            proof {
                assert(f(t as int) == Some(Error::SubjectWithDuplicatedStudentInGroupsAndUnassigned(i, k, first)));
                lemma_first_error_stays(f, t + 1, elems@.len() as int);
            }
            return Err(Error::SubjectWithDuplicatedStudentInGroupsAndUnassigned(i, k, first));
        }
        proof {
            assert(f(t as int).is_none());
        }
        t = t + 1;
    }
    Ok(())
}

/// Checks subject `i`, the checks being made in the order of `subject_error`.
fn check_subject(g: &GeneralData, n_students: usize, i: usize, s: &Subject) -> (r: Result<(), Error>)
    ensures
        r == to_result(subject_error(*g, n_students, i, *s)),
{
    let r = check_balancing(i, s);
    if r.is_err() {
        return r;
    }
    if s.period.get() > g.week_count.get() {
        return Err(Error::SubjectWithPeriodicityTooBig(i, s.period.get(), g.week_count.get()));
    }
    if s.students_per_group.is_empty() {
        return Err(Error::SubjectWithInvalidStudentsPerSlotRange(i, s.students_per_group));
    }
    let r = check_slots(g, i, s);
    if r.is_err() {
        return r;
    }
    let r = check_group_students(n_students, i, s);
    if r.is_err() {
        return r;
    }
    let r = check_not_assigned(n_students, i, s);
    if r.is_err() {
        return r;
    }
    let r = check_seats(i, s);
    if r.is_err() {
        return r;
    }
    let r = check_groups(i, s);
    if r.is_err() {
        return r;
    }
    check_duplicate_not_assigned(i, s)
}

// ----- incompatibilities -----

/// An incompatibility naming an unknown incompatibility group (the smallest
/// such), or whose maximum count leaves no group out.
pub open spec fn incompatibility_error(n_groups: usize, i: usize, inc: Incompatibility) -> Option<Error> {
    or_else(
        match first_at_least_in(sorted_usize(inc.groups@), n_groups as int) {
            Some(k) => Some(Error::IncompatibilityWithInvalidIncompatibilityGroup(i, k)),
            None => None,
        },
        if inc.max_count >= inc.groups@.len() {
            Some(Error::IncompatibilityWithMaxCountTooBig(i, inc.max_count, inc.groups@.len() as usize))
        } else {
            None
        },
    )
}

/// The check of each incompatibility.
pub open spec fn incompatibility_checks(n_groups: usize, incs: Seq<Incompatibility>) -> spec_fn(int) -> Option<Error> {
    |i: int| incompatibility_error(n_groups, i as usize, incs[i])
}

/// A time span of incompatibility group `i` after the last week, or running
/// past midnight.
pub open spec fn span_error(g: GeneralData, i: usize, slot: SlotWithDuration) -> Option<Error> {
    if slot.start.week >= g.week_count.val() {
        Some(Error::IncompatibilityGroupWithSlotAfterLastWeek(i, slot, g.week_count.val()))
    } else if !ends_within_day(slot) {
        Some(Error::IncompatibilityGroupWithSlotOverlappingNextDay(i, slot))
    } else {
        None
    }
}

/// The check of each time span of incompatibility group `i`, in increasing order.
pub open spec fn span_checks(g: GeneralData, i: usize, ig: IncompatibilityGroup) -> spec_fn(int) -> Option<Error> {
    |t: int| span_error(g, i, ig.slots.items()[t])
}

/// The check of each incompatibility group.
pub open spec fn incompat_group_checks(g: GeneralData, igs: Seq<IncompatibilityGroup>) -> spec_fn(int) -> Option<Error> {
    |i: int| first_error(span_checks(g, i as usize, igs[i]), igs[i].slots.items().len() as int)
}

/// A student with an unknown incompatibility (the smallest such).
pub open spec fn student_error(n_incs: usize, i: usize, st: Student) -> Option<Error> {
    match first_at_least_in(sorted_usize(st.incompatibilities@), n_incs as int) {
        Some(k) => Some(Error::StudentWithInvalidIncompatibility(i, k)),
        None => None,
    }
}

/// The check of each student.
pub open spec fn student_checks(n_incs: usize, students: Seq<Student>) -> spec_fn(int) -> Option<Error> {
    |i: int| student_error(n_incs, i as usize, students[i])
}

// ----- slot groupings -----

/// The first of the first `limit` slot groupings that holds the slot `r`.
pub open spec fn first_grouping_with(sgs: Seq<SlotGrouping>, r: SlotRef, limit: int) -> Option<usize>
    decreases limit,
{
    if limit <= 0 {
        None
    } else {
        match first_grouping_with(sgs, r, limit - 1) {
            Some(x) => Some(x),
            None => if sgs[limit - 1].slots.items().contains(r) {
                Some((limit - 1) as usize)
            } else {
                None
            },
        }
    }
}

/// A slot of grouping `i` of an unknown subject, unknown within its subject,
/// or already in an earlier grouping.
pub open spec fn slot_ref_error(subjects: Seq<Subject>, sgs: Seq<SlotGrouping>, i: usize, r: SlotRef) -> Option<Error> {
    if r.subject >= subjects.len() {
        Some(Error::SlotGroupingWithInvalidSubject(i, r))
    } else if r.slot >= subjects[r.subject as int].slots@.len() {
        Some(Error::SlotGroupingWithInvalidSlot(i, r))
    } else {
        match first_grouping_with(sgs, r, i as int) {
            Some(j) => Some(Error::SlotGroupingOverlap(j, i, r)),
            None => None,
        }
    }
}

/// The check of each slot of grouping `i`, in increasing order.
pub open spec fn slot_ref_checks(subjects: Seq<Subject>, sgs: Seq<SlotGrouping>, i: usize) -> spec_fn(int) -> Option<Error> {
    |t: int| slot_ref_error(subjects, sgs, i, sgs[i as int].slots.items()[t])
}

/// The check of each slot grouping.
pub open spec fn grouping_checks(subjects: Seq<Subject>, sgs: Seq<SlotGrouping>) -> spec_fn(int) -> Option<Error> {
    |i: int| first_error(slot_ref_checks(subjects, sgs, i as usize), sgs[i].slots.items().len() as int)
}

/// A grouping incompatibility naming an unknown slot grouping (the smallest
/// such), with fewer than two groupings, or whose limit leaves no grouping out.
pub open spec fn grouping_incompat_error(n_groupings: usize, i: usize, gi: SlotGroupingIncompat) -> Option<Error> {
    let len = gi.groupings@.len();
    or_else(
        match first_at_least_in(sorted_usize(gi.groupings@), n_groupings as int) {
            Some(k) => Some(Error::SlotGroupingIncompatWithInvalidSlotGrouping(i, k)),
            None => None,
        },
        if len < 2 {
            Some(Error::SlotGroupingIncompatDoesNotHaveEnoughGroupings(i, len as usize))
        } else if gi.max_count.val() >= len {
            Some(Error::SlotGroupingIncompatWithLimitTooBig(i, gi.max_count.val(), len as usize))
        } else {
            None
        },
    )
}

/// The check of each grouping incompatibility, in increasing order.
pub open spec fn grouping_incompat_checks(n_groupings: usize, gis: Seq<SlotGroupingIncompat>) -> spec_fn(int) -> Option<Error> {
    |i: int| grouping_incompat_error(n_groupings, i as usize, gis[i])
}

/// The first error in the data of a colloscope, the checks being made in
/// this order: periodicity cuts, subjects, incompatibilities, incompatibility
/// groups, students, slot groupings, grouping incompatibilities, and the range
/// of interrogations per week.
pub open spec fn validation_error(
    g: GeneralData,
    subjects: Seq<Subject>,
    igs: Seq<IncompatibilityGroup>,
    incs: Seq<Incompatibility>,
    students: Seq<Student>,
    sgs: Seq<SlotGrouping>,
    gis: Seq<SlotGroupingIncompat>,
) -> Option<Error> {
    or_else(cuts_error(g),
    or_else(first_error(subject_checks(g, students.len() as usize, subjects), subjects.len() as int),
    or_else(first_error(incompatibility_checks(igs.len() as usize, incs), incs.len() as int),
    or_else(first_error(incompat_group_checks(g, igs), igs.len() as int),
    or_else(first_error(student_checks(incs.len() as usize, students), students.len() as int),
    or_else(first_error(grouping_checks(subjects, sgs), sgs.len() as int),
    or_else(first_error(grouping_incompat_checks(sgs.len() as usize, gis), gis.len() as int),
        interrogations_error(g))))))))
}

/// Checks the subjects, in order.
fn check_subjects(g: &GeneralData, n_students: usize, subjects: &Vec<Subject>) -> (r: Result<(), Error>)
    ensures
        r == to_result(first_error(subject_checks(*g, n_students, subjects@), subjects@.len() as int)),
{
    let ghost f = subject_checks(*g, n_students, subjects@);
    let mut i: usize = 0;
    while i < subjects.len()
        invariant
            f == subject_checks(*g, n_students, subjects@),
            0 <= i <= subjects@.len(),
            first_error(f, i as int).is_none(),
        decreases subjects@.len() - i,
    {
        let r = check_subject(g, n_students, i, &subjects[i]);
        proof {
            assert(f(i as int) == subject_error(*g, n_students, i, subjects@[i as int]));
        }
        if r.is_err() {
            proof {
                lemma_first_error_stays(f, i + 1, subjects@.len() as int);
            }
            return r;
        }
        i = i + 1;
    }
    Ok(())
}

/// Checks the incompatibilities, in order.
fn check_incompatibilities(n_groups: usize, incs: &Vec<Incompatibility>) -> (r: Result<(), Error>)
    ensures
        r == to_result(first_error(incompatibility_checks(n_groups, incs@), incs@.len() as int)),
{
    let ghost f = incompatibility_checks(n_groups, incs@);
    let mut i: usize = 0;
    while i < incs.len()
        invariant
            f == incompatibility_checks(n_groups, incs@),
            0 <= i <= incs@.len(),
            first_error(f, i as int).is_none(),
        decreases incs@.len() - i,
    {
        let inc = &incs[i];
        let elems = usize_elems(&inc.groups);
        if let Some(k) = find_at_least(&elems, n_groups) {
            proof {
                assert(f(i as int) == Some(Error::IncompatibilityWithInvalidIncompatibilityGroup(i, k)));
                lemma_first_error_stays(f, i + 1, incs@.len() as int);
            }
            return Err(Error::IncompatibilityWithInvalidIncompatibilityGroup(i, k));
        }
        let len: usize = inc.groups.len();
        if inc.max_count >= len {
            proof {
                assert(f(i as int) == Some(Error::IncompatibilityWithMaxCountTooBig(i, inc.max_count, len)));
                lemma_first_error_stays(f, i + 1, incs@.len() as int);
            }
            return Err(Error::IncompatibilityWithMaxCountTooBig(i, inc.max_count, len));
        }
        proof {
            assert(f(i as int).is_none());
        }
        i = i + 1;
    }
    Ok(())
}

/// Checks the time spans of incompatibility group `i`, in increasing order.
fn check_incompat_group(g: &GeneralData, i: usize, ig: &IncompatibilityGroup) -> (r: Result<(), Error>)
    ensures
        r == to_result(first_error(span_checks(*g, i, *ig), ig.slots.items().len() as int)),
{
    let ghost f = span_checks(*g, i, *ig);
    let mut t: usize = 0;
    while t < ig.slots.len()
        invariant
            f == span_checks(*g, i, *ig),
            0 <= t <= ig.slots.items().len(),
            first_error(f, t as int).is_none(),
        decreases ig.slots.items().len() - t,
    {
        let slot: SlotWithDuration = *ig.slots.get(t);
        let e: Option<Error> = if !validate_slot_start(g, &slot.start) {
            Some(Error::IncompatibilityGroupWithSlotAfterLastWeek(i, slot, g.week_count.get()))
        } else if !validate_slot_overlap(&slot.start, slot.duration) {
            Some(Error::IncompatibilityGroupWithSlotOverlappingNextDay(i, slot))
        } else {
            None
        };
        proof {
            assert(e == f(t as int));
        }
        if let Some(err) = e {
            proof {
                lemma_first_error_stays(f, t + 1, ig.slots.items().len() as int);
            }
            return Err(err);
        }
        t = t + 1;
    }
    Ok(())
}

/// Checks the incompatibility groups, in order.
fn check_incompat_groups(g: &GeneralData, igs: &Vec<IncompatibilityGroup>) -> (r: Result<(), Error>)
    ensures
        r == to_result(first_error(incompat_group_checks(*g, igs@), igs@.len() as int)),
{
    let ghost f = incompat_group_checks(*g, igs@);
    let mut i: usize = 0;
    while i < igs.len()
        invariant
            f == incompat_group_checks(*g, igs@),
            0 <= i <= igs@.len(),
            first_error(f, i as int).is_none(),
        decreases igs@.len() - i,
    {
        let r = check_incompat_group(g, i, &igs[i]);
        proof {
            assert(f(i as int) == first_error(span_checks(*g, i, igs@[i as int]), igs@[i as int].slots.items().len() as int));
        }
        if r.is_err() {
            proof {
                lemma_first_error_stays(f, i + 1, igs@.len() as int);
            }
            return r;
        }
        i = i + 1;
    }
    Ok(())
}

/// Checks the students, in order.
fn check_students(n_incs: usize, students: &Vec<Student>) -> (r: Result<(), Error>)
    ensures
        r == to_result(first_error(student_checks(n_incs, students@), students@.len() as int)),
{
    let ghost f = student_checks(n_incs, students@);
    let mut i: usize = 0;
    while i < students.len()
        invariant
            f == student_checks(n_incs, students@),
            0 <= i <= students@.len(),
            first_error(f, i as int).is_none(),
        decreases students@.len() - i,
    {
        let elems = usize_elems(&students[i].incompatibilities);
        if let Some(k) = find_at_least(&elems, n_incs) {
            proof {
                assert(f(i as int) == Some(Error::StudentWithInvalidIncompatibility(i, k)));
                lemma_first_error_stays(f, i + 1, students@.len() as int);
            }
            return Err(Error::StudentWithInvalidIncompatibility(i, k));
        }
        proof {
            assert(f(i as int).is_none());
        }
        i = i + 1;
    }
    Ok(())
}

/// Whether the slot grouping holds the slot `r`.
fn grouping_holds(sg: &SlotGrouping, r: SlotRef) -> (b: bool)
    ensures
        b == sg.slots.items().contains(r),
{
    let mut t: usize = 0;
    while t < sg.slots.len()
        invariant
            0 <= t <= sg.slots.items().len(),
            forall|u: int| 0 <= u < t ==> #[trigger] sg.slots.items()[u] != r,
        decreases sg.slots.items().len() - t,
    {
        let x: SlotRef = *sg.slots.get(t);
        if x.subject == r.subject && x.slot == r.slot {
            proof {
                assert(sg.slots.items()[t as int] == r);
            }
            return true;
        }
        t = t + 1;
    }
    false
}

/// The first of the first `limit` slot groupings that holds the slot `r`.
fn find_first_grouping(sgs: &Vec<SlotGrouping>, r: SlotRef, limit: usize) -> (res: Option<usize>)
    requires
        limit <= sgs@.len(),
    ensures
        res == first_grouping_with(sgs@, r, limit as int),
{
    let mut q: usize = 0;
    while q < limit
        invariant
            limit <= sgs@.len(),
            0 <= q <= limit,
            first_grouping_with(sgs@, r, q as int).is_none(),
        decreases limit - q,
    {
        if grouping_holds(&sgs[q], r) {
            proof {
                lemma_first_grouping_stays(sgs@, r, q + 1, limit as int);
            }
            return Some(q);
        }
        q = q + 1;
    }
    None
}

/// Once found, the first grouping holding a slot stays the same as more groupings are looked at.
proof fn lemma_first_grouping_stays(sgs: Seq<SlotGrouping>, r: SlotRef, n: int, m: int)
    requires
        n <= m,
        first_grouping_with(sgs, r, n).is_some(),
    ensures
        first_grouping_with(sgs, r, m) == first_grouping_with(sgs, r, n),
    decreases m - n,
{
    if n < m {
        lemma_first_grouping_stays(sgs, r, n, m - 1);
    }
}

/// Checks the slots of slot grouping `i`, in increasing order.
fn check_grouping(subjects: &Vec<Subject>, sgs: &Vec<SlotGrouping>, i: usize) -> (res: Result<(), Error>)
    requires
        i < sgs@.len(),
    ensures
        res == to_result(first_error(slot_ref_checks(subjects@, sgs@, i), sgs@[i as int].slots.items().len() as int)),
{
    let ghost f = slot_ref_checks(subjects@, sgs@, i);
    let sg = &sgs[i];
    let mut t: usize = 0;
    while t < sg.slots.len()
        invariant
            i < sgs@.len(),
            sg == &sgs@[i as int],
            f == slot_ref_checks(subjects@, sgs@, i),
            0 <= t <= sg.slots.items().len(),
            first_error(f, t as int).is_none(),
        decreases sg.slots.items().len() - t,
    {
        let r: SlotRef = *sg.slots.get(t);
        let e: Option<Error> = if r.subject >= subjects.len() {
            Some(Error::SlotGroupingWithInvalidSubject(i, r))
        } else if r.slot >= subjects[r.subject].slots.len() {
            Some(Error::SlotGroupingWithInvalidSlot(i, r))
        } else {
            match find_first_grouping(sgs, r, i) {
                Some(j) => Some(Error::SlotGroupingOverlap(j, i, r)),
                None => None,
            }
        };
        proof {
            assert(e == f(t as int));
        }
        if let Some(err) = e {
            proof {
                lemma_first_error_stays(f, t + 1, sg.slots.items().len() as int);
            }
            return Err(err);
        }
        t = t + 1;
    }
    Ok(())
}

/// Checks the slot groupings, in order.
fn check_groupings(subjects: &Vec<Subject>, sgs: &Vec<SlotGrouping>) -> (res: Result<(), Error>)
    ensures
        res == to_result(first_error(grouping_checks(subjects@, sgs@), sgs@.len() as int)),
{
    let ghost f = grouping_checks(subjects@, sgs@);
    let mut i: usize = 0;
    while i < sgs.len()
        invariant
            f == grouping_checks(subjects@, sgs@),
            0 <= i <= sgs@.len(),
            first_error(f, i as int).is_none(),
        decreases sgs@.len() - i,
    {
        let r = check_grouping(subjects, sgs, i);
        proof {
            assert(f(i as int) == first_error(slot_ref_checks(subjects@, sgs@, i), sgs@[i as int].slots.items().len() as int));
        }
        if r.is_err() {
            proof {
                lemma_first_error_stays(f, i + 1, sgs@.len() as int);
            }
            return r;
        }
        i = i + 1;
    }
    Ok(())
}

/// Checks the grouping incompatibilities, in increasing order.
fn check_grouping_incompats(n_groupings: usize, gis: &SortedVec<SlotGroupingIncompat>) -> (res: Result<(), Error>)
    ensures
        res == to_result(first_error(grouping_incompat_checks(n_groupings, gis.items()), gis.items().len() as int)),
{
    let ghost f = grouping_incompat_checks(n_groupings, gis.items());
    let mut i: usize = 0;
    while i < gis.len()
        invariant
            f == grouping_incompat_checks(n_groupings, gis.items()),
            0 <= i <= gis.items().len(),
            first_error(f, i as int).is_none(),
        decreases gis.items().len() - i,
    {
        let gi = gis.get(i);
        let elems = usize_elems(&gi.groupings);
        let len: usize = gi.groupings.len();
        let e: Option<Error> = match find_at_least(&elems, n_groupings) {
            Some(k) => Some(Error::SlotGroupingIncompatWithInvalidSlotGrouping(i, k)),
            None => if len < 2 {
                Some(Error::SlotGroupingIncompatDoesNotHaveEnoughGroupings(i, len))
            } else if gi.max_count.get() >= len {
                Some(Error::SlotGroupingIncompatWithLimitTooBig(i, gi.max_count.get(), len))
            } else {
                None
            },
        };
        proof {
            assert(e == f(i as int));
        }
        if let Some(err) = e {
            proof {
                lemma_first_error_stays(f, i + 1, gis.items().len() as int);
            }
            return Err(err);
        }
        i = i + 1;
    }
    Ok(())
}

/// Whether a slot starts before the last week of the schedule.
fn validate_slot_start(general: &GeneralData, slot_start: &SlotStart) -> (r: bool)
    ensures
        r == (slot_start.week < general.week_count.val()),
{
    slot_start.week < general.week_count.get()
}

/// Whether an interrogation of `duration` minutes starting at `slot_start` ends by midnight.
fn validate_slot_overlap(slot_start: &SlotStart, duration: NonZeroU32) -> (r: bool)
    ensures
        r == (slot_start.start_time.minutes() + duration.val() <= MINUTES_PER_DAY),
{
    slot_start.start_time.fit_in_day(duration.get())
}

/// The data of a colloscope, once every check has passed.
#[derive(Debug, PartialEq, Eq)]
pub struct ValidatedData {
    general: GeneralData,
    subjects: Vec<Subject>,
    incompatibility_groups: Vec<IncompatibilityGroup>,
    incompatibilities: Vec<Incompatibility>,
    students: Vec<Student>,
    slot_groupings: Vec<SlotGrouping>,
    slot_grouping_incompats: SortedVec<SlotGroupingIncompat>,
}

impl ValidatedData {
    #[verifier::type_invariant]
    spec fn inv(self) -> bool {
        validation_error(
            self.general,
            self.subjects@,
            self.incompatibility_groups@,
            self.incompatibilities@,
            self.students@,
            self.slot_groupings@,
            self.slot_grouping_incompats.items(),
        ).is_none()
    }

    /// The general parameters.
    pub closed spec fn general_data(self) -> GeneralData {
        self.general
    }

    /// The subjects.
    pub closed spec fn subject_list(self) -> Seq<Subject> {
        self.subjects@
    }

    /// There are at most `usize::MAX` subjects.
    pub(crate) proof fn lemma_subject_count_fits(self)
        ensures
            self.subject_list().len() <= usize::MAX,
    {
        vstd::std_specs::vec::axiom_spec_len(&self.subjects);
    }

    /// The incompatibility groups.
    pub closed spec fn incompatibility_group_list(self) -> Seq<IncompatibilityGroup> {
        self.incompatibility_groups@
    }

    /// The incompatibilities.
    pub closed spec fn incompatibility_list(self) -> Seq<Incompatibility> {
        self.incompatibilities@
    }

    /// The students.
    pub closed spec fn student_list(self) -> Seq<Student> {
        self.students@
    }

    /// The slot groupings.
    pub closed spec fn slot_grouping_list(self) -> Seq<SlotGrouping> {
        self.slot_groupings@
    }

    /// The grouping incompatibilities, in increasing order.
    pub closed spec fn grouping_incompat_list(self) -> Seq<SlotGroupingIncompat> {
        self.slot_grouping_incompats.items()
    }

    /// Checks the data and keeps it if no check fails; otherwise gives the
    /// first error found, in the order of `validation_error`.
    pub fn new(
        general: GeneralData,
        subjects: Vec<Subject>,
        incompatibility_groups: Vec<IncompatibilityGroup>,
        incompatibilities: Vec<Incompatibility>,
        students: Vec<Student>,
        slot_groupings: Vec<SlotGrouping>,
        grouping_incompats: SortedVec<SlotGroupingIncompat>,
    ) -> (r: Result<ValidatedData, Error>)
        ensures
            match r {
                Ok(d) => {
                    &&& validation_error(
                        general,
                        subjects@,
                        incompatibility_groups@,
                        incompatibilities@,
                        students@,
                        slot_groupings@,
                        grouping_incompats.items(),
                    ).is_none()
                    &&& d.general_data() == general
                    &&& d.subject_list() == subjects@
                    &&& d.incompatibility_group_list() == incompatibility_groups@
                    &&& d.incompatibility_list() == incompatibilities@
                    &&& d.student_list() == students@
                    &&& d.slot_grouping_list() == slot_groupings@
                    &&& d.grouping_incompat_list() == grouping_incompats.items()
                    &&& forall|i: int|
                        0 <= i < subjects@.len() ==> (#[trigger] subjects@[i]).groups.not_assigned@.len() + students_in_extensible(
                            subjects@[i].groups.prefilled_groups@,
                            subjects@[i].groups.prefilled_groups@.len() as int,
                        ) <= subjects@[i].students_per_group.end.val() * extensible_groups(
                            subjects@[i].groups.prefilled_groups@,
                            subjects@[i].groups.prefilled_groups@.len() as int,
                        )
                },
                Err(e) => validation_error(
                    general,
                    subjects@,
                    incompatibility_groups@,
                    incompatibilities@,
                    students@,
                    slot_groupings@,
                    grouping_incompats.items(),
                ) == Some(e),
            },
    {
        let r = check_cuts(&general);
        if let Err(e) = r {
            return Err(e);
        }
        let r = check_subjects(&general, students.len(), &subjects);
        if let Err(e) = r {
            return Err(e);
        }
        let r = check_incompatibilities(incompatibility_groups.len(), &incompatibilities);
        if let Err(e) = r {
            return Err(e);
        }
        let r = check_incompat_groups(&general, &incompatibility_groups);
        if let Err(e) = r {
            return Err(e);
        }
        let r = check_students(incompatibilities.len(), &students);
        if let Err(e) = r {
            return Err(e);
        }
        let r = check_groupings(&subjects, &slot_groupings);
        if let Err(e) = r {
            return Err(e);
        }
        let r = check_grouping_incompats(slot_groupings.len(), &grouping_incompats);
        if let Err(e) = r {
            return Err(e);
        }
        let r = check_interrogations(&general);
        if let Err(e) = r {
            return Err(e);
        }
        let d = ValidatedData {
            general,
            subjects,
            incompatibility_groups,
            incompatibilities,
            students,
            slot_groupings,
            slot_grouping_incompats: grouping_incompats,
        };
        proof {
            assert forall|i: int| 0 <= i < d.subject_list().len() implies (#[trigger] d.subject_list()[i]).groups.not_assigned@.len()
                + students_in_extensible(
                d.subject_list()[i].groups.prefilled_groups@,
                d.subject_list()[i].groups.prefilled_groups@.len() as int,
            ) <= d.subject_list()[i].students_per_group.end.val() * extensible_groups(
                d.subject_list()[i].groups.prefilled_groups@,
                d.subject_list()[i].groups.prefilled_groups@.len() as int,
            ) by {
                d.lemma_valid_room(i);
            }
        }
        Ok(d)
    }

    /// The data passes every check.
    pub open spec fn check_valid_spec(self) -> bool {
        validation_error(
            self.general_data(),
            self.subject_list(),
            self.incompatibility_group_list(),
            self.incompatibility_list(),
            self.student_list(),
            self.slot_grouping_list(),
            self.grouping_incompat_list(),
        ).is_none()
    }

    /// In validated data, each slot of a slot grouping names an existing slot
    /// of an existing subject.
    pub proof fn lemma_valid_slot_ref(self, k: int, t: int)
        requires
            self.check_valid_spec(),
            self.slot_grouping_list().len() <= usize::MAX,
            0 <= k < self.slot_grouping_list().len(),
            0 <= t < self.slot_grouping_list()[k].slots.items().len(),
        ensures
            self.slot_grouping_list()[k].slots.items()[t].subject < self.subject_list().len(),
            self.slot_grouping_list()[k].slots.items()[t].slot < self.subject_list()[self.slot_grouping_list()[k].slots.items()[t].subject as int].slots@.len(),
    {
        lemma_valid_slot_ref(
            self.general_data(),
            self.subject_list(),
            self.incompatibility_group_list(),
            self.incompatibility_list(),
            self.student_list(),
            self.slot_grouping_list(),
            self.grouping_incompat_list(),
            k,
            t,
        );
    }

    /// In validated data, no group already holds more students than a group
    /// may have.
    pub proof fn lemma_valid_group_size(self, i: int, k: int)
        requires
            self.check_valid_spec(),
            self.subject_list().len() <= usize::MAX,
            0 <= i < self.subject_list().len(),
            0 <= k < self.subject_list()[i].groups.prefilled_groups@.len(),
            k <= usize::MAX,
        ensures
            self.subject_list()[i].groups.prefilled_groups@[k].students@.len() <= self.subject_list()[i].students_per_group.end.val(),
    {
        let ss = self.subject_list();
        let f = subject_checks(self.general_data(), self.student_list().len() as usize, ss);
        assert(first_error(f, ss.len() as int).is_none());
        lemma_first_error_none(f, ss.len() as int, i);
        let s = ss[i];
        assert(subject_error(self.general_data(), self.student_list().len() as usize, i as usize, s).is_none());
        let gf = group_checks(i as usize, s);
        assert(first_error(gf, s.groups.prefilled_groups@.len() as int).is_none());
        lemma_first_error_none(gf, s.groups.prefilled_groups@.len() as int, k);
        assert(gf(k) == group_error(i as usize, k as usize, s));
        assert(group_error(i as usize, k as usize, s).is_none());
        assert((k as usize) as int == k);
        let grp = s.groups.prefilled_groups@[k];
        assert(!(grp.students@.len() > s.students_per_group.end.val()));
    }

    /// In validated data, each slot of a subject ends within its day.
    pub proof fn lemma_valid_subject_slot(self, i: int, j: int)
        requires
            self.check_valid_spec(),
            self.subject_list().len() <= usize::MAX,
            0 <= i < self.subject_list().len(),
            0 <= j < self.subject_list()[i].slots@.len(),
            j <= usize::MAX,
        ensures
            self.subject_list()[i].slots@[j].start.start_time.minutes() + self.subject_list()[i].duration.val() <= MINUTES_PER_DAY,
    {
        let ss = self.subject_list();
        let f = subject_checks(self.general_data(), self.student_list().len() as usize, ss);
        assert(first_error(f, ss.len() as int).is_none());
        lemma_first_error_none(f, ss.len() as int, i);
        let s = ss[i];
        assert(subject_error(self.general_data(), self.student_list().len() as usize, i as usize, s).is_none());
        let sf = slot_checks(self.general_data(), i as usize, s);
        assert(first_error(sf, s.slots@.len() as int).is_none());
        lemma_first_error_none(sf, s.slots@.len() as int, j);
        assert(sf(j) == slot_error(self.general_data(), i as usize, j as usize, s.duration, s.slots@[j]));
    }

    /// In validated data, the students to be placed of each subject fit in
    /// its extensible groups: with the students already in those groups,
    /// they number at most the largest group size times the number of
    /// extensible groups, so each can be placed without any group exceeding
    /// the largest size.
    pub proof fn lemma_valid_room(self, i: int)
        requires
            self.check_valid_spec(),
            0 <= i < self.subject_list().len(),
        ensures
            ({
                let s = self.subject_list()[i];
                let groups = s.groups.prefilled_groups@;
                s.groups.not_assigned@.len() + students_in_extensible(groups, groups.len() as int)
                    <= s.students_per_group.end.val() * extensible_groups(groups, groups.len() as int)
            }),
    {
        self.lemma_subject_count_fits();
        let ss = self.subject_list();
        let s = ss[i];
        let groups = s.groups.prefilled_groups@;
        vstd::std_specs::vec::axiom_spec_len(&s.groups.prefilled_groups);
        assert forall|k: int| 0 <= k < groups.len() implies (#[trigger] groups[k]).students@.len() <= s.students_per_group.end.val() by {
            self.lemma_valid_group_size(i, k);
        }
        let f = subject_checks(self.general_data(), self.student_list().len() as usize, ss);
        assert(first_error(f, ss.len() as int).is_none());
        lemma_first_error_none(f, ss.len() as int, i);
        assert(subject_error(self.general_data(), self.student_list().len() as usize, i as usize, s).is_none());
        assert(seats_error(i as usize, s).is_none());
        lemma_free_seats_fill(groups, s.students_per_group.end.val() as int, groups.len() as int);
    }

    /// In validated data, the students of each group and the students to be
    /// placed of each subject exist.
    pub proof fn lemma_valid_subject_students(self, i: int)
        requires
            self.check_valid_spec(),
            self.subject_list().len() <= usize::MAX,
            self.student_list().len() <= usize::MAX,
            0 <= i < self.subject_list().len(),
            self.subject_list()[i].groups.prefilled_groups@.len() <= usize::MAX,
        ensures
            forall|t: int|
                0 <= t < sorted_usize(self.subject_list()[i].groups.not_assigned@).len() ==> #[trigger] sorted_usize(
                    self.subject_list()[i].groups.not_assigned@,
                )[t] < self.student_list().len(),
            forall|k: int, t: int|
                0 <= k < self.subject_list()[i].groups.prefilled_groups@.len() && 0 <= t < sorted_usize(
                    self.subject_list()[i].groups.prefilled_groups@[k].students@,
                ).len() ==> #[trigger] sorted_usize(self.subject_list()[i].groups.prefilled_groups@[k].students@)[t]
                    < self.student_list().len(),
    {
        let ss = self.subject_list();
        let n = self.student_list().len() as usize;
        let f = subject_checks(self.general_data(), n, ss);
        assert(first_error(f, ss.len() as int).is_none());
        lemma_first_error_none(f, ss.len() as int, i);
        let s = ss[i];
        assert(subject_error(self.general_data(), n, i as usize, s).is_none());
        assert(not_assigned_error(n, i as usize, s).is_none());
        let q = sorted_usize(s.groups.not_assigned@);
        lemma_first_at_least_none(q, n as int, q.len() as int);
        let gf = group_students_checks(n, i as usize, s);
        let n_groups = s.groups.prefilled_groups@.len() as int;
        assert(first_error(gf, n_groups).is_none());
        assert forall|k: int, t: int|
            0 <= k < n_groups && 0 <= t < sorted_usize(s.groups.prefilled_groups@[k].students@).len() implies #[trigger] sorted_usize(
                s.groups.prefilled_groups@[k].students@,
            )[t] < n by {
            lemma_first_error_none(gf, n_groups, k);
            assert(gf(k) == group_students_error(n, i as usize, k as usize, s.groups.prefilled_groups@[k]));
            let gq = sorted_usize(s.groups.prefilled_groups@[k].students@);
            lemma_first_at_least_none(gq, n as int, gq.len() as int);
        }
    }

    /// In validated data, the incompatibility groups of each incompatibility
    /// exist.
    pub proof fn lemma_valid_incompat_groups(self, p: int)
        requires
            self.check_valid_spec(),
            self.incompatibility_list().len() <= usize::MAX,
            self.incompatibility_group_list().len() <= usize::MAX,
            0 <= p < self.incompatibility_list().len(),
        ensures
            forall|t: int|
                0 <= t < sorted_usize(self.incompatibility_list()[p].groups@).len() ==> #[trigger] sorted_usize(
                    self.incompatibility_list()[p].groups@,
                )[t] < self.incompatibility_group_list().len(),
    {
        let incs = self.incompatibility_list();
        let n = self.incompatibility_group_list().len() as usize;
        let f = incompatibility_checks(n, incs);
        assert(first_error(f, incs.len() as int).is_none());
        lemma_first_error_none(f, incs.len() as int, p);
        assert(f(p) == incompatibility_error(n, p as usize, incs[p]));
        let gq = sorted_usize(incs[p].groups@);
        assert(first_at_least_in(gq, n as int).is_none());
        lemma_first_at_least_none(gq, n as int, gq.len() as int);
    }

    /// In validated data, each time span of an incompatibility group ends
    /// within its day.
    pub proof fn lemma_valid_span(self, q: int, t: int)
        requires
            self.check_valid_spec(),
            self.incompatibility_group_list().len() <= usize::MAX,
            0 <= q < self.incompatibility_group_list().len(),
            0 <= t < self.incompatibility_group_list()[q].slots.items().len(),
        ensures
            ends_within_day(self.incompatibility_group_list()[q].slots.items()[t]),
    {
        let igs = self.incompatibility_group_list();
        let f = incompat_group_checks(self.general_data(), igs);
        assert(first_error(f, igs.len() as int).is_none());
        lemma_first_error_none(f, igs.len() as int, q);
        let sf = span_checks(self.general_data(), q as usize, igs[q]);
        assert(first_error(sf, igs[q].slots.items().len() as int).is_none());
        lemma_first_error_none(sf, igs[q].slots.items().len() as int, t);
        assert(sf(t) == span_error(self.general_data(), q as usize, igs[q].slots.items()[t]));
    }

    /// In validated data, every periodicity cut comes before the last week.
    pub proof fn lemma_valid_cuts(self)
        requires
            self.check_valid_spec(),
        ensures
            forall|i: int|
                0 <= i < sorted_u32(self.general_data().periodicity_cuts@).len() ==> #[trigger] sorted_u32(
                    self.general_data().periodicity_cuts@,
                )[i] < self.general_data().week_count.val(),
    {
        let g = self.general_data();
        let cuts = sorted_u32(g.periodicity_cuts@);
        assert(cuts_error(g).is_none());
        lemma_first_at_least_u32_none(cuts, g.week_count.val() as int, cuts.len() as int);
    }

    /// In validated data, the incompatibilities of each student exist.
    pub proof fn lemma_valid_student_incompats(self, i: int)
        requires
            self.check_valid_spec(),
            self.student_list().len() <= usize::MAX,
            0 <= i < self.student_list().len(),
        ensures
            first_at_least_in(
                sorted_usize(self.student_list()[i].incompatibilities@),
                self.incompatibility_list().len() as usize as int,
            ).is_none(),
    {
        let f = student_checks(self.incompatibility_list().len() as usize, self.student_list());
        assert(first_error(f, self.student_list().len() as int).is_none());
        lemma_first_error_none(f, self.student_list().len() as int, i);
    }

    /// Every validated data passes every check.
    pub fn check_valid(&self)
        ensures
            validation_error(
                self.general_data(),
                self.subject_list(),
                self.incompatibility_group_list(),
                self.incompatibility_list(),
                self.student_list(),
                self.slot_grouping_list(),
                self.grouping_incompat_list(),
            ).is_none(),
    {
        proof {
            use_type_invariant(self);
        }
    }

    /// The general parameters.
    pub fn general(&self) -> (r: &GeneralData)
        ensures
            *r == self.general_data(),
    {
        &self.general
    }

    /// The subjects.
    pub fn subjects(&self) -> (r: &Vec<Subject>)
        ensures
            r@ == self.subject_list(),
    {
        &self.subjects
    }

    /// The incompatibility groups.
    pub fn incompatibility_groups(&self) -> (r: &Vec<IncompatibilityGroup>)
        ensures
            r@ == self.incompatibility_group_list(),
    {
        &self.incompatibility_groups
    }

    /// The incompatibilities.
    pub fn incompatibilities(&self) -> (r: &Vec<Incompatibility>)
        ensures
            r@ == self.incompatibility_list(),
    {
        &self.incompatibilities
    }

    /// The students.
    pub fn students(&self) -> (r: &Vec<Student>)
        ensures
            r@ == self.student_list(),
    {
        &self.students
    }

    /// The slot groupings.
    pub fn slot_groupings(&self) -> (r: &Vec<SlotGrouping>)
        ensures
            r@ == self.slot_grouping_list(),
    {
        &self.slot_groupings
    }

    /// The grouping incompatibilities.
    pub fn slot_grouping_incompats(&self) -> (r: &SortedVec<SlotGroupingIncompat>)
        ensures
            r.items() == self.grouping_incompat_list(),
    {
        &self.slot_grouping_incompats
    }
}

/// In data that passes every check, each slot of a slot grouping names an
/// existing slot of an existing subject.
pub proof fn lemma_valid_slot_ref(
    g: GeneralData,
    subjects: Seq<Subject>,
    igs: Seq<IncompatibilityGroup>,
    incs: Seq<Incompatibility>,
    students: Seq<Student>,
    sgs: Seq<SlotGrouping>,
    gis: Seq<SlotGroupingIncompat>,
    k: int,
    t: int,
)
    requires
        validation_error(g, subjects, igs, incs, students, sgs, gis).is_none(),
        sgs.len() <= usize::MAX,
        0 <= k < sgs.len(),
        0 <= t < sgs[k].slots.items().len(),
    ensures
        sgs[k].slots.items()[t].subject < subjects.len(),
        sgs[k].slots.items()[t].slot < subjects[sgs[k].slots.items()[t].subject as int].slots@.len(),
{
    assert(first_error(grouping_checks(subjects, sgs), sgs.len() as int).is_none());
    lemma_first_error_none(grouping_checks(subjects, sgs), sgs.len() as int, k);
    assert(first_error(slot_ref_checks(subjects, sgs, k as usize), sgs[k].slots.items().len() as int).is_none());
    lemma_first_error_none(slot_ref_checks(subjects, sgs, k as usize), sgs[k].slots.items().len() as int, t);
    assert(slot_ref_error(subjects, sgs, k as usize, sgs[k].slots.items()[t]).is_none());
}

} // verus!
