//! The data describing a colloscope: subjects with their interrogation slots
//! and groups of students, incompatibilities, slot groupings and general
//! parameters of the schedule.

use std::collections::BTreeSet;
use std::ops::Range;
use vstd::prelude::*;

use crate::nonzero::{NonZeroU32, NonZeroUsize, NonZeroUsizeRange};
use crate::order::ints;
use crate::sorted::{SortKey, SortedVec};
use crate::text::{lemma_nat_digits_injective, lemma_nat_digits_no_underscore, nat_digits, push_nat, push_str};
use crate::time::{weekday_index, Time, Weekday, MINUTES_PER_DAY};

verus! {

/// Reasons why the data of a colloscope is refused.
#[derive(Debug, PartialEq, Eq)]
pub enum Error {
    InvalidPeriodicityCut(u32, u32),
    SubjectWithInvalidStudentsPerSlotRange(usize, NonZeroUsizeRange),
    SubjectWithSlotAfterLastWeek(usize, usize, u32),
    SubjectWithSlotOverlappingNextDay(usize, usize),
    SubjectWithInvalidTeacher(usize, usize, usize),
    SubjectWithDuplicatedStudentInGroups(usize, usize, usize, usize),
    SubjectWithDuplicatedStudentInGroupsAndUnassigned(usize, usize, usize),
    SubjectWithInvalidNotAssignedStudent(usize, usize),
    SubjectWithInvalidAssignedStudent(usize, usize, usize),
    SubjectWithTooLargeAssignedGroup(usize, usize, NonZeroUsizeRange),
    SubjectWithTooSmallNonExtensibleGroup(usize, usize, NonZeroUsizeRange),
    SubjectWithTooFewGroups(usize, NonZeroUsizeRange),
    SubjectWithTooManyGroups(usize, NonZeroUsizeRange),
    SubjectWithPeriodicityTooBig(usize, u32, u32),
    SubjectWithOverlappingWeekSelections(usize),
    StudentWithInvalidIncompatibility(usize, usize),
    IncompatibilityWithInvalidIncompatibilityGroup(usize, usize),
    IncompatibilityWithMaxCountTooBig(usize, usize, usize),
    IncompatibilityGroupWithSlotAfterLastWeek(usize, SlotWithDuration, u32),
    IncompatibilityGroupWithSlotOverlappingNextDay(usize, SlotWithDuration),
    SlotGroupingWithInvalidSubject(usize, SlotRef),
    SlotGroupingWithInvalidSlot(usize, SlotRef),
    SlotGroupingOverlap(usize, usize, SlotRef),
    SlotGroupingIncompatDoesNotHaveEnoughGroupings(usize, usize),
    SlotGroupingIncompatWithInvalidSlotGrouping(usize, usize),
    SlotGroupingIncompatWithLimitTooBig(usize, usize, usize),
    SlotGeneralDataWithInvalidInterrogationsPerWeek(Range<u32>),
}

/// When an interrogation starts: week, day of the week and time of day.
#[derive(Clone, Copy, Debug, PartialEq, Eq, PartialOrd, Ord, Hash)]
pub struct SlotStart {
    pub week: u32,
    pub weekday: Weekday,
    pub start_time: Time,
}

/// A time span: its start and its length in minutes.
#[derive(Clone, Copy, Debug, PartialEq, Eq, PartialOrd, Ord, Hash)]
pub struct SlotWithDuration {
    pub start: SlotStart,
    pub duration: NonZeroU32,
}

/// The span ends within the day of its start.
pub open spec fn ends_within_day(s: SlotWithDuration) -> bool {
    s.start.start_time.minutes() + s.duration.val() <= MINUTES_PER_DAY
}

/// Minute of the day of the last minute of the span.
pub open spec fn last_minute(s: SlotWithDuration) -> int {
    s.start.start_time.minutes() + s.duration.val() - 1
}

/// Two spans share a minute, in the sense of `overlap_with`.
pub open spec fn spans_overlap(a: SlotWithDuration, b: SlotWithDuration) -> bool {
    &&& a.start.week == b.start.week
    &&& a.start.weekday == b.start.weekday
    &&& if a.start.start_time.minutes() < b.start.start_time.minutes() {
        last_minute(a) >= b.start.start_time.minutes()
    } else {
        a.start.start_time.minutes() < last_minute(b)
    }
}

impl SlotWithDuration {
    /// The time of the last minute of the span.
    pub fn end_time(&self) -> (r: Time)
        requires
            ends_within_day(*self),
        ensures
            r.minutes() == last_minute(*self),
    {
        let d = self.duration.get();
        let t = self.start.start_time.add(d - 1);
        t.unwrap()
    }

    /// Whether the two spans share a minute; both must be on the same day of
    /// the same week.
    pub fn overlap_with(&self, other: &SlotWithDuration) -> (r: bool)
        requires
            self.start.start_time.minutes() < other.start.start_time.minutes() ==> ends_within_day(
                *self,
            ),
            !(self.start.start_time.minutes() < other.start.start_time.minutes())
                ==> ends_within_day(*other),
        ensures
            r == spans_overlap(*self, *other),
    {
        if self.start.week != other.start.week {
            return false;
        }
        if self.start.weekday != other.start.weekday {
            return false;
        }
        if self.start.start_time.is_before(&other.start.start_time) {
            let end = self.end_time();
            !end.is_before(&other.start.start_time)
        } else {
            let end = other.end_time();
            self.start.start_time.is_before(&end)
        }
    }
}

impl SortKey for SlotWithDuration {
    open spec fn sort_key(&self) -> Seq<int> {
        seq![
            self.start.week as int,
            weekday_index(self.start.weekday) as int,
            self.start.start_time.minutes() as int,
            self.duration.val() as int,
        ]
    }

    fn key_words(&self) -> (r: Vec<u64>) {
        let mut v: Vec<u64> = Vec::new();
        v.push(self.start.week as u64);
        v.push(self.start.weekday.index() as u64);
        v.push(self.start.start_time.get() as u64);
        v.push(self.duration.get() as u64);
        proof {
            assert(ints(v@) =~= self.sort_key());
        }
        v
    }
}

/// An interrogation slot of a subject: its teacher, its start and its cost.
#[derive(Clone, Copy, Debug, PartialEq, Eq, Hash)]
pub struct SlotWithTeacher {
    pub teacher: usize,
    pub start: SlotStart,
    pub cost: u32,
}

/// A group of students, which may or may not receive more students.
#[derive(Clone, Debug, PartialEq, Eq)]
pub struct GroupDesc {
    pub students: BTreeSet<usize>,
    pub can_be_extended: bool,
}

/// The groups of a subject and the students still to be placed in them.
#[derive(Clone, Debug, PartialEq, Eq)]
pub struct GroupsDesc {
    pub prefilled_groups: Vec<GroupDesc>,
    pub not_assigned: BTreeSet<usize>,
}

impl GroupsDesc {
    /// No group and no student to place.
    pub fn default() -> (r: GroupsDesc)
        ensures
            r.prefilled_groups@.len() == 0,
            r.not_assigned@ == Set::<usize>::empty(),
    {
        GroupsDesc { prefilled_groups: Vec::new(), not_assigned: BTreeSet::new() }
    }
}

/// How strictly the balancing of a subject is enforced.
#[derive(Clone, Copy, Debug, PartialEq, Eq, Structural)]
pub enum BalancingStrictness {
    OverallOnly,
    StrictWithCuts,
    Strict,
}

impl BalancingStrictness {
    /// The default strictness: overall only.
    pub fn default() -> (r: BalancingStrictness)
        ensures
            r == BalancingStrictness::OverallOnly,
    {
        BalancingStrictness::OverallOnly
    }
}

/// A set of weeks.
#[derive(Clone, Debug, PartialEq, Eq)]
pub struct WeekSelection {
    pub selection: BTreeSet<u32>,
}

/// The teacher of a slot, as a balancing criterion.
#[derive(Debug, Clone, Copy, PartialEq, Eq, PartialOrd, Ord, Hash)]
pub struct TeacherBalancing {
    pub teacher: usize,
}

/// The day and time of a slot, as a balancing criterion.
#[derive(Debug, Clone, Copy, PartialEq, Eq, PartialOrd, Ord, Hash)]
pub struct TimeslotBalancing {
    pub weekday: Weekday,
    pub time: Time,
}

/// The teacher, day and time of a slot, as a balancing criterion.
#[derive(Debug, Clone, Copy, PartialEq, Eq, PartialOrd, Ord, Hash)]
pub struct TeacherAndTimeslotBalancing {
    pub teacher: usize,
    pub weekday: Weekday,
    pub time: Time,
}

/// What the interrogations of a subject are balanced over, and for each set of
/// weeks sharing the same pattern, how many slots each value has per week.
#[derive(Clone, Debug, PartialEq, Eq)]
pub enum BalancingObject {
    Teachers(Vec<(WeekSelection, Vec<(TeacherBalancing, usize)>)>),
    Timeslots(Vec<(WeekSelection, Vec<(TimeslotBalancing, usize)>)>),
    TeachersAndTimeslots(Vec<(WeekSelection, Vec<(TeacherAndTimeslotBalancing, usize)>)>),
}

/// The week selections of a balancing object, in order.
pub open spec fn week_selections(o: BalancingObject) -> Seq<Set<u32>> {
    match o {
        BalancingObject::Teachers(m) => m@.map_values(
            |e: (WeekSelection, Vec<(TeacherBalancing, usize)>)| e.0.selection@,
        ),
        BalancingObject::Timeslots(m) => m@.map_values(
            |e: (WeekSelection, Vec<(TimeslotBalancing, usize)>)| e.0.selection@,
        ),
        BalancingObject::TeachersAndTimeslots(m) => m@.map_values(
            |e: (WeekSelection, Vec<(TeacherAndTimeslotBalancing, usize)>)| e.0.selection@,
        ),
    }
}

impl BalancingObject {
    /// The number of week selections.
    pub fn week_selection_count(&self) -> (r: usize)
        ensures
            r == week_selections(*self).len(),
    {
        match self {
            BalancingObject::Teachers(m) => m.len(),
            BalancingObject::Timeslots(m) => m.len(),
            BalancingObject::TeachersAndTimeslots(m) => m.len(),
        }
    }

    /// The week selection at position `i`.
    pub fn week_selection(&self, i: usize) -> (r: &WeekSelection)
        requires
            i < week_selections(*self).len(),
        ensures
            r.selection@ == week_selections(*self)[i as int],
    {
        match self {
            BalancingObject::Teachers(m) => &m[i].0,
            BalancingObject::Timeslots(m) => &m[i].0,
            BalancingObject::TeachersAndTimeslots(m) => &m[i].0,
        }
    }

    /// Copies of the week selections, in order.
    pub fn extract_week_selections(&self) -> (r: Vec<WeekSelection>)
        ensures
            r@.len() == week_selections(*self).len(),
            forall|i: int|
                0 <= i < r@.len() ==> #[trigger] r@[i].selection@ == week_selections(*self)[i],
    {
        let n = self.week_selection_count();
        let mut out: Vec<WeekSelection> = Vec::new();
        let mut i: usize = 0;
        while i < n
            invariant
                n == week_selections(*self).len(),
                0 <= i <= n,
                out@.len() == i,
                forall|j: int| 0 <= j < i ==> #[trigger] out@[j].selection@ == week_selections(*self)[j],
            decreases n - i,
        {
            let ws = self.week_selection(i);
            let copy = ws.selection.clone();
            out.push(WeekSelection { selection: copy });
            i = i + 1;
        }
        out
    }
}

/// The balancing asked for a subject.
#[derive(Clone, Debug, PartialEq, Eq)]
pub struct BalancingRequirements {
    pub strictness: BalancingStrictness,
    pub object: BalancingObject,
}

/// A subject: how its students are grouped, how often and how long they are
/// interrogated, and the interrogation slots on offer.
#[derive(Clone, Debug, PartialEq, Eq)]
pub struct Subject {
    pub students_per_group: NonZeroUsizeRange,
    pub max_groups_per_slot: NonZeroUsize,
    pub period: NonZeroU32,
    pub period_is_strict: bool,
    pub is_tutorial: bool,
    pub balancing_requirements: Option<BalancingRequirements>,
    pub duration: NonZeroU32,
    pub slots: Vec<SlotWithTeacher>,
    pub groups: GroupsDesc,
}

impl Subject {
    /// Groups of 2 to 3 students, one group per slot, every 2 weeks, 60
    /// minutes, no slot and no group.
    pub fn default() -> (r: Subject)
        ensures
            r.students_per_group.start.val() == 2,
            r.students_per_group.end.val() == 3,
            r.max_groups_per_slot.val() == 1,
            r.period.val() == 2,
            !r.period_is_strict,
            !r.is_tutorial,
            r.balancing_requirements.is_none(),
            r.duration.val() == 60,
            r.slots@.len() == 0,
            r.groups.prefilled_groups@.len() == 0,
            r.groups.not_assigned@ == Set::<usize>::empty(),
    {
        Subject {
            students_per_group: NonZeroUsizeRange::new(
                NonZeroUsize::new(2).unwrap(),
                NonZeroUsize::new(3).unwrap(),
            ),
            max_groups_per_slot: NonZeroUsize::new(1).unwrap(),
            period: NonZeroU32::new(2).unwrap(),
            period_is_strict: false,
            is_tutorial: false,
            balancing_requirements: None,
            duration: NonZeroU32::new(60).unwrap(),
            slots: Vec::new(),
            groups: GroupsDesc::default(),
        }
    }
}

/// A slot of a subject, by indices.
#[derive(Clone, Copy, Debug, PartialEq, Eq, PartialOrd, Ord, Hash)]
pub struct SlotRef {
    pub subject: usize,
    pub slot: usize,
}

impl SortKey for SlotRef {
    open spec fn sort_key(&self) -> Seq<int> {
        seq![self.subject as int, self.slot as int]
    }

    fn key_words(&self) -> (r: Vec<u64>) {
        let mut v: Vec<u64> = Vec::new();
        v.push(self.subject as u64);
        v.push(self.slot as u64);
        proof {
            assert(ints(v@) =~= self.sort_key());
        }
        v
    }
}

/// Slots, of one or more subjects, that are used together or not at all.
#[derive(Debug, PartialEq, Eq)]
pub struct SlotGrouping {
    pub slots: SortedVec<SlotRef>,
}

/// At most `max_count` of the given slot groupings may be used.
#[derive(Clone, Debug, PartialEq, Eq)]
pub struct SlotGroupingIncompat {
    pub groupings: BTreeSet<usize>,
    pub max_count: NonZeroUsize,
}

/// Sort key of a set of indices followed by a count: each index is preceded
/// by 1 and the indices end with 0, so that a prefix comes first.
pub open spec fn indices_then_count_key(s: Seq<usize>, count: usize) -> Seq<int> {
    indices_key(s) + seq![0int, count as int]
}

/// Each index of the sequence preceded by 1.
pub open spec fn indices_key(s: Seq<usize>) -> Seq<int>
    decreases s.len(),
{
    if s.len() == 0 {
        Seq::empty()
    } else {
        indices_key(s.drop_last()) + seq![1int, s.last() as int]
    }
}

impl SortKey for SlotGroupingIncompat {
    open spec fn sort_key(&self) -> Seq<int> {
        indices_then_count_key(crate::sets::sorted_usize(self.groupings@), self.max_count.val())
    }

    fn key_words(&self) -> (r: Vec<u64>) {
        let elems = crate::sets::usize_elems(&self.groupings);
        let mut v: Vec<u64> = Vec::new();
        let mut i: usize = 0;
        proof {
            assert(elems@.take(0) =~= Seq::<usize>::empty());
            assert(ints(v@) =~= indices_key(elems@.take(0)));
        }
        while i < elems.len()
            invariant
                0 <= i <= elems@.len(),
                ints(v@) == indices_key(elems@.take(i as int)),
            decreases elems@.len() - i,
        {
            let ghost before = v@;
            v.push(1);
            v.push(elems[i] as u64);
            proof {
                assert(elems@.take(i + 1).drop_last() =~= elems@.take(i as int));
                assert(ints(v@) =~= ints(before) + seq![1int, elems@[i as int] as int]);
            }
            i = i + 1;
        }
        let ghost before = v@;
        v.push(0);
        v.push(self.max_count.get() as u64);
        proof {
            assert(elems@.take(elems@.len() as int) =~= elems@);
            assert(ints(v@) =~= ints(before) + seq![0int, self.max_count.val() as int]);
        }
        v
    }
}

/// Time spans during which some students are not available.
#[derive(Debug, PartialEq, Eq)]
pub struct IncompatibilityGroup {
    pub slots: SortedVec<SlotWithDuration>,
}

/// Students with this incompatibility must leave free all but at most
/// `max_count` of the given incompatibility groups.
#[derive(Clone, Debug, PartialEq, Eq)]
pub struct Incompatibility {
    pub groups: BTreeSet<usize>,
    pub max_count: usize,
}

/// A student, with the incompatibilities that apply to them.
#[derive(Clone, Debug, PartialEq, Eq)]
pub struct Student {
    pub incompatibilities: BTreeSet<usize>,
}

/// Parameters of the whole schedule.
#[derive(Debug, PartialEq, Eq)]
pub struct GeneralData {
    pub teacher_count: usize,
    pub week_count: NonZeroU32,
    pub interrogations_per_week: Option<Range<u32>>,
    pub max_interrogations_per_day: Option<NonZeroU32>,
    pub periodicity_cuts: BTreeSet<u32>,
}

impl Clone for GeneralData {
    fn clone(&self) -> (r: GeneralData)
        ensures
            r.teacher_count == self.teacher_count,
            r.week_count == self.week_count,
            r.interrogations_per_week == self.interrogations_per_week,
            r.max_interrogations_per_day == self.max_interrogations_per_day,
            r.periodicity_cuts@ == self.periodicity_cuts@,
    {
        let interrogations_per_week = match &self.interrogations_per_week {
            None => None,
            Some(range) => Some(Range { start: range.start, end: range.end }),
        };
        GeneralData {
            teacher_count: self.teacher_count,
            week_count: self.week_count,
            interrogations_per_week,
            max_interrogations_per_day: self.max_interrogations_per_day,
            periodicity_cuts: self.periodicity_cuts.clone(),
        }
    }
}

/// The subjects of a colloscope.
pub type SubjectList = Vec<Subject>;

/// The slot groupings of a colloscope.
pub type SlotGroupingList = Vec<SlotGrouping>;

/// The grouping incompatibilities of a colloscope, in increasing order.
pub type SlotGroupingIncompatSet = SortedVec<SlotGroupingIncompat>;

/// The incompatibility groups of a colloscope.
pub type IncompatibilityGroupList = Vec<IncompatibilityGroup>;

/// The incompatibilities of a colloscope.
pub type IncompatibilityList = Vec<Incompatibility>;

/// The students of a colloscope.
pub type StudentList = Vec<Student>;

/// A solved colloscope: for each subject, its groups and the groups placed in each slot.
#[derive(Clone, Debug, PartialEq, Eq)]
pub struct Colloscope {
    pub subjects: Vec<ColloscopeSubject>,
}

/// The groups of a subject (the students of each) and, for each slot, the
/// groups interrogated in it.
#[derive(Clone, Debug, PartialEq, Eq)]
pub struct ColloscopeSubject {
    pub groups: Vec<BTreeSet<usize>>,
    pub slots: Vec<BTreeSet<usize>>,
}

/// The 0/1 variables of the planning problem.
#[derive(Clone, Copy, Debug, PartialEq, Eq, PartialOrd, Ord, Hash)]
pub enum Variable {
    GroupInSlot { subject: usize, slot: usize, group: usize },
    GroupOnWeekSelection { subject: usize, week_selection: usize, group: usize },
    DynamicGroupAssignment { subject: usize, slot: usize, group: usize, student: usize },
    StudentInGroup { subject: usize, student: usize, group: usize },
    UseGrouping(usize),
    IncompatGroupForStudent { incompat_group: usize, student: usize },
}

/// A prefix followed by numbers, each preceded by an underscore.
pub open spec fn tagged_name(prefix: Seq<char>, nums: Seq<nat>) -> Seq<char>
    decreases nums.len(),
{
    if nums.len() == 0 {
        prefix
    } else {
        tagged_name(prefix, nums.drop_last()) + seq!['_'] + nat_digits(nums.last())
    }
}

/// The name of a variable, as used in the planning problem.
pub open spec fn variable_name(v: Variable) -> Seq<char> {
    match v {
        Variable::GroupInSlot { subject, slot, group } =>
            tagged_name(seq!['G', 'i', 'S'], seq![subject as nat, slot as nat, group as nat]),
        Variable::GroupOnWeekSelection { subject, week_selection, group } =>
            tagged_name(seq!['G', 'o', 'W', 'S'], seq![subject as nat, week_selection as nat, group as nat]),
        Variable::DynamicGroupAssignment { subject, slot, group, student } =>
            tagged_name(seq!['D', 'G', 'A'], seq![subject as nat, slot as nat, group as nat, student as nat]),
        Variable::StudentInGroup { subject, student, group } =>
            tagged_name(seq!['S', 'i', 'G'], seq![subject as nat, student as nat, group as nat]),
        Variable::UseGrouping(num) => tagged_name(seq!['U', 'G'], seq![num as nat]),
        Variable::IncompatGroupForStudent { incompat_group, student } =>
            tagged_name(seq!['I', 'G', 'f', 'S'], seq![incompat_group as nat, student as nat]),
    }
}

/// Appends `_` and the decimal writing of `n`.
fn push_tag(s: &mut String, n: usize)
    ensures
        final(s)@ == old(s)@ + seq!['_'] + nat_digits(n as nat),
{
    proof {
        reveal_strlit("_");
    }
    push_str(s, "_");
    push_nat(s, n as u64);
}

impl Variable {
    /// The name of the variable: a tag for its kind followed by its indices,
    /// each preceded by an underscore.
    pub fn to_string(&self) -> (r: String)
        ensures
            r@ == variable_name(*self),
    {
        let mut s = String::new();
        proof {
            reveal_with_fuel(tagged_name, 5);
        }
        match *self {
            Variable::GroupInSlot { subject, slot, group } => {
                proof {
                    reveal_strlit("GiS");
                }
                push_str(&mut s, "GiS");
                push_tag(&mut s, subject);
                push_tag(&mut s, slot);
                push_tag(&mut s, group);
                proof {
                    let n = seq![subject as nat, slot as nat, group as nat];
                    assert(n.drop_last() =~= seq![subject as nat, slot as nat]);
                    assert(n.drop_last().drop_last() =~= seq![subject as nat]);
                    assert(n.drop_last().drop_last().drop_last() =~= Seq::<nat>::empty());
                }
            },
            Variable::GroupOnWeekSelection { subject, week_selection, group } => {
                proof {
                    reveal_strlit("GoWS");
                }
                push_str(&mut s, "GoWS");
                push_tag(&mut s, subject);
                push_tag(&mut s, week_selection);
                push_tag(&mut s, group);
                proof {
                    let n = seq![subject as nat, week_selection as nat, group as nat];
                    assert(n.drop_last() =~= seq![subject as nat, week_selection as nat]);
                    assert(n.drop_last().drop_last() =~= seq![subject as nat]);
                    assert(n.drop_last().drop_last().drop_last() =~= Seq::<nat>::empty());
                }
            },
            Variable::DynamicGroupAssignment { subject, slot, group, student } => {
                proof {
                    reveal_strlit("DGA");
                }
                push_str(&mut s, "DGA");
                push_tag(&mut s, subject);
                push_tag(&mut s, slot);
                push_tag(&mut s, group);
                push_tag(&mut s, student);
                proof {
                    let n = seq![subject as nat, slot as nat, group as nat, student as nat];
                    assert(n.drop_last() =~= seq![subject as nat, slot as nat, group as nat]);
                    assert(n.drop_last().drop_last() =~= seq![subject as nat, slot as nat]);
                    assert(n.drop_last().drop_last().drop_last() =~= seq![subject as nat]);
                    assert(n.drop_last().drop_last().drop_last().drop_last() =~= Seq::<nat>::empty());
                }
            },
            Variable::StudentInGroup { subject, student, group } => {
                proof {
                    reveal_strlit("SiG");
                }
                push_str(&mut s, "SiG");
                push_tag(&mut s, subject);
                push_tag(&mut s, student);
                push_tag(&mut s, group);
                proof {
                    let n = seq![subject as nat, student as nat, group as nat];
                    assert(n.drop_last() =~= seq![subject as nat, student as nat]);
                    assert(n.drop_last().drop_last() =~= seq![subject as nat]);
                    assert(n.drop_last().drop_last().drop_last() =~= Seq::<nat>::empty());
                }
            },
            Variable::UseGrouping(num) => {
                proof {
                    reveal_strlit("UG");
                }
                push_str(&mut s, "UG");
                push_tag(&mut s, num);
                proof {
                    let n = seq![num as nat];
                    assert(n.drop_last() =~= Seq::<nat>::empty());
                }
            },
            Variable::IncompatGroupForStudent { incompat_group, student } => {
                proof {
                    reveal_strlit("IGfS");
                }
                push_str(&mut s, "IGfS");
                push_tag(&mut s, incompat_group);
                push_tag(&mut s, student);
                proof {
                    let n = seq![incompat_group as nat, student as nat];
                    assert(n.drop_last() =~= seq![incompat_group as nat]);
                    assert(n.drop_last().drop_last() =~= Seq::<nat>::empty());
                }
            },
        }
        s
    }
}

impl SortKey for Variable {
    open spec fn sort_key(&self) -> Seq<int> {
        match *self {
            Variable::GroupInSlot { subject, slot, group } => seq![0int, subject as int, slot as int, group as int],
            Variable::GroupOnWeekSelection { subject, week_selection, group } => seq![
                1int,
                subject as int,
                week_selection as int,
                group as int,
            ],
            Variable::DynamicGroupAssignment { subject, slot, group, student } => seq![
                2int,
                subject as int,
                slot as int,
                group as int,
                student as int,
            ],
            Variable::StudentInGroup { subject, student, group } => seq![
                3int,
                subject as int,
                student as int,
                group as int,
            ],
            Variable::UseGrouping(num) => seq![4int, num as int],
            Variable::IncompatGroupForStudent { incompat_group, student } => seq![
                5int,
                incompat_group as int,
                student as int,
            ],
        }
    }

    fn key_words(&self) -> (r: Vec<u64>) {
        let mut v: Vec<u64> = Vec::new();
        match *self {
            Variable::GroupInSlot { subject, slot, group } => {
                v.push(0);
                v.push(subject as u64);
                v.push(slot as u64);
                v.push(group as u64);
            },
            Variable::GroupOnWeekSelection { subject, week_selection, group } => {
                v.push(1);
                v.push(subject as u64);
                v.push(week_selection as u64);
                v.push(group as u64);
            },
            Variable::DynamicGroupAssignment { subject, slot, group, student } => {
                v.push(2);
                v.push(subject as u64);
                v.push(slot as u64);
                v.push(group as u64);
                v.push(student as u64);
            },
            Variable::StudentInGroup { subject, student, group } => {
                v.push(3);
                v.push(subject as u64);
                v.push(student as u64);
                v.push(group as u64);
            },
            Variable::UseGrouping(num) => {
                v.push(4);
                v.push(num as u64);
            },
            Variable::IncompatGroupForStudent { incompat_group, student } => {
                v.push(5);
                v.push(incompat_group as u64);
                v.push(student as u64);
            },
        }
        proof {
            assert(ints(v@) =~= self.sort_key());
        }
        v
    }
}

/// Two variables with the same sort key are the same variable.
pub proof fn lemma_variable_key_injective(a: Variable, b: Variable)
    requires
        a.sort_key() == b.sort_key(),
    ensures
        a == b,
{
    let (ka, kb) = (a.sort_key(), b.sort_key());
    assert(ka.len() == kb.len());
    assert(ka[0] == kb[0]);
    if ka.len() > 1 {
        assert(ka[1] == kb[1]);
    }
    if ka.len() > 2 {
        assert(ka[2] == kb[2]);
    }
    if ka.len() > 3 {
        assert(ka[3] == kb[3]);
    }
    if ka.len() > 4 {
        assert(ka[4] == kb[4]);
    }
}

/// The tag of the kind of a variable.
pub open spec fn name_prefix(v: Variable) -> Seq<char> {
    match v {
        Variable::GroupInSlot { .. } => seq!['G', 'i', 'S'],
        Variable::GroupOnWeekSelection { .. } => seq!['G', 'o', 'W', 'S'],
        Variable::DynamicGroupAssignment { .. } => seq!['D', 'G', 'A'],
        Variable::StudentInGroup { .. } => seq!['S', 'i', 'G'],
        Variable::UseGrouping(_) => seq!['U', 'G'],
        Variable::IncompatGroupForStudent { .. } => seq!['I', 'G', 'f', 'S'],
    }
}

/// The indices of a variable, in the order of its name.
pub open spec fn name_numbers(v: Variable) -> Seq<nat> {
    match v {
        Variable::GroupInSlot { subject, slot, group } => seq![subject as nat, slot as nat, group as nat],
        Variable::GroupOnWeekSelection { subject, week_selection, group } =>
            seq![subject as nat, week_selection as nat, group as nat],
        Variable::DynamicGroupAssignment { subject, slot, group, student } =>
            seq![subject as nat, slot as nat, group as nat, student as nat],
        Variable::StudentInGroup { subject, student, group } => seq![subject as nat, student as nat, group as nat],
        Variable::UseGrouping(num) => seq![num as nat],
        Variable::IncompatGroupForStudent { incompat_group, student } => seq![incompat_group as nat, student as nat],
    }
}

/// A name starts with its prefix.
proof fn lemma_tagged_name_prefix(prefix: Seq<char>, nums: Seq<nat>)
    ensures
        tagged_name(prefix, nums).len() >= prefix.len(),
        tagged_name(prefix, nums).subrange(0, prefix.len() as int) == prefix,
    decreases nums.len(),
{
    if nums.len() > 0 {
        lemma_tagged_name_prefix(prefix, nums.drop_last());
        let t = tagged_name(prefix, nums.drop_last());
        assert(tagged_name(prefix, nums).subrange(0, prefix.len() as int) =~= t.subrange(0, prefix.len() as int));
    }
}

/// A text cut at its last underscore is cut in one way only.
proof fn lemma_split_last_underscore(a: Seq<char>, b: Seq<char>, c: Seq<char>, d: Seq<char>)
    requires
        a + seq!['_'] + b == c + seq!['_'] + d,
        !b.contains('_'),
        !d.contains('_'),
    ensures
        a == c,
        b == d,
{
    let s = a + seq!['_'] + b;
    let t = c + seq!['_'] + d;
    assert(s == t);
    assert(s.len() == a.len() + 1 + b.len());
    assert(t.len() == c.len() + 1 + d.len());
    assert(s[a.len() as int] == '_');
    assert(t[c.len() as int] == '_');
    if b.len() < d.len() {
        let k: int = a.len() - c.len() - 1;
        assert(0 <= k < d.len());
        let cu = c + seq!['_'];
        assert(t == cu + d);
        assert(t[a.len() as int] == d[k]);
        assert(d.contains(d[k]));
    } else if d.len() < b.len() {
        let k: int = c.len() - a.len() - 1;
        assert(0 <= k < b.len());
        let au = a + seq!['_'];
        assert(s == au + b);
        assert(s[c.len() as int] == b[k]);
        assert(b.contains(b[k]));
    }
    assert(b =~= s.subrange(a.len() as int + 1, s.len() as int));
    assert(d =~= t.subrange(c.len() as int + 1, t.len() as int));
    assert(a =~= s.subrange(0, a.len() as int));
    assert(c =~= t.subrange(0, c.len() as int));
}

/// Names with the same prefix and as many numbers are equal only for equal
/// numbers.
proof fn lemma_tagged_name_injective(prefix: Seq<char>, x: Seq<nat>, y: Seq<nat>)
    requires
        x.len() == y.len(),
        tagged_name(prefix, x) == tagged_name(prefix, y),
    ensures
        x == y,
    decreases x.len(),
{
    if x.len() > 0 {
        lemma_nat_digits_no_underscore(x.last());
        lemma_nat_digits_no_underscore(y.last());
        lemma_split_last_underscore(
            tagged_name(prefix, x.drop_last()),
            nat_digits(x.last()),
            tagged_name(prefix, y.drop_last()),
            nat_digits(y.last()),
        );
        lemma_nat_digits_injective(x.last(), y.last());
        lemma_tagged_name_injective(prefix, x.drop_last(), y.drop_last());
        assert(x =~= x.drop_last().push(x.last()));
        assert(y =~= y.drop_last().push(y.last()));
    }
}

/// Two variables with the same name are the same variable: the planning
/// problem tells the variables apart by their names.
pub proof fn lemma_variable_name_injective(a: Variable, b: Variable)
    requires
        variable_name(a) == variable_name(b),
    ensures
        a == b,
{
    assert(variable_name(a) == tagged_name(name_prefix(a), name_numbers(a)));
    assert(variable_name(b) == tagged_name(name_prefix(b), name_numbers(b)));
    lemma_tagged_name_prefix(name_prefix(a), name_numbers(a));
    lemma_tagged_name_prefix(name_prefix(b), name_numbers(b));
    let n = variable_name(a);
    assert(n[0] == name_prefix(a)[0] && n[1] == name_prefix(a)[1]);
    assert(n[0] == name_prefix(b)[0] && n[1] == name_prefix(b)[1]);
    assert(name_prefix(a) == name_prefix(b));
    assert(name_numbers(a).len() == name_numbers(b).len());
    lemma_tagged_name_injective(name_prefix(a), name_numbers(a), name_numbers(b));
    let (x, y) = (name_numbers(a), name_numbers(b));
    assert(x[0] == y[0]);
    if x.len() > 1 {
        assert(x[1] == y[1]);
    }
    if x.len() > 2 {
        assert(x[2] == y[2]);
    }
    if x.len() > 3 {
        assert(x[3] == y[3]);
    }
}

} // verus!
