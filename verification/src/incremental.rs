//! The weeks that each part of a colloscope touches, used to build an initial
//! solution one period of weeks at a time.

use std::collections::BTreeSet;
use vstd::prelude::*;

use crate::colloscope::{variable_name, week_selections, IncompatibilityGroup, SlotGrouping, Subject, Variable, WeekSelection};
use crate::ilp::{first_undeclared, has_undeclared, is_cleaned, Config, FeasableConfig, Problem, ProblemBuilder};
use crate::interrogations::describe;
use crate::linexpr::{nonzero_part, Constraint, Sign};
use crate::solving::{
    config_from_recorded, fixing_description, fixings, names_unique, recorded, set_relevant_variables, update_set_variables, updated, ConfigInitializer,
};
use crate::text::{str_equal, string_views};
use crate::nonzero::NonZeroU32;
use crate::sets::u32_elems;
use crate::assembly::{add_all, is_problem_var};
use crate::solving::{GenericInitializer, GenericSolver};
use crate::validation::{lemma_valid_slot_ref, ValidatedData};

verus! {

broadcast use {vstd::std_specs::btree::group_btree_axioms, vstd::laws_cmp::group_laws_cmp};

/// The weeks of the slots of a subject, slot by slot.
pub open spec fn subject_weeks(s: Subject) -> Seq<u32> {
    s.slots@.map_values(|x: crate::colloscope::SlotWithTeacher| x.start.week)
}

/// The week selections of the balancing requirements of a subject (none without them).
pub open spec fn subject_selections(s: Subject) -> Seq<Set<u32>> {
    match s.balancing_requirements {
        Some(br) => week_selections(br.object),
        None => Seq::empty(),
    }
}

/// The weeks of the slots of a slot grouping.
pub open spec fn grouping_weeks(subjects: Seq<Subject>, sg: SlotGrouping) -> Set<u32> {
    Set::new(
        |w: u32|
            exists|t: int|
                0 <= t < sg.slots.items().len() && #[trigger] subjects[sg.slots.items()[t].subject as int].slots@[sg.slots.items()[t].slot as int].start.week
                    == w,
    )
}

/// The weeks of the time spans of an incompatibility group.
pub open spec fn span_weeks(ig: IncompatibilityGroup) -> Set<u32> {
    Set::new(|w: u32| exists|t: int| 0 <= t < ig.slots.items().len() && #[trigger] ig.slots.items()[t].start.week == w)
}

/// The number of periods of `period_length` weeks needed to cover `week_count` weeks.
pub open spec fn period_count_for(week_count: u32, period_length: u32) -> int {
    (week_count - 1) / (period_length as int) + 1
}

/// Enough periods of `period_length` weeks cover `week_count` weeks, and one
/// period fewer would leave some week out: every week `w < week_count` lies
/// in a period `w / period_length` below the count, and the count is the
/// least positive one that does so.
pub proof fn lemma_periods_cover(week_count: u32, period_length: u32)
    requires
        week_count >= 1,
        period_length >= 1,
    ensures
        period_count_for(week_count, period_length) >= 1,
        period_count_for(week_count, period_length) * period_length >= week_count,
        (period_count_for(week_count, period_length) - 1) * period_length < week_count,
        forall|w: u32| w < week_count ==> #[trigger] (w / period_length) < period_count_for(week_count, period_length),
{
    let c = period_count_for(week_count, period_length);
    let w1: int = week_count - 1;
    let l: int = period_length as int;
    let q: int = w1 / l;
    assert(c == q + 1);
    assert(q >= 0 && q * l <= w1 && w1 < q * l + l) by (nonlinear_arith)
        requires
            w1 >= 0,
            l >= 1,
            q == w1 / l,
    ;
    assert(c * l == q * l + l) by (nonlinear_arith)
        requires
            c == q + 1,
    ;
    assert forall|w: u32| w < week_count implies #[trigger] (w / period_length) < c by {
        let wi: int = w as int;
        assert(wi / l <= w1 / l) by (nonlinear_arith)
            requires
                0 <= wi <= w1,
                l >= 1,
        ;
    }
}

/// For a colloscope, the length of a period in weeks, the number of periods,
/// and the weeks touched by each subject, week selection, slot grouping and
/// incompatibility group, with the settings of the search run period by period.
pub struct IncrementalInitializer<T: GenericInitializer, S: GenericSolver> {
    period_length: NonZeroU32,
    period_count: NonZeroU32,
    subject_week_map: Vec<Vec<u32>>,
    subject_week_selection_map: Vec<Vec<BTreeSet<u32>>>,
    grouping_week_map: Vec<BTreeSet<u32>>,
    incompat_groups_week_map: Vec<BTreeSet<u32>>,
    variables: Vec<Variable>,
    max_steps: Option<usize>,
    retries: usize,
    initializer: T,
    solver: S,
    quick_init: bool,
}

impl<T: GenericInitializer, S: GenericSolver> IncrementalInitializer<T, S> {
    /// Length of a period, in weeks.
    pub closed spec fn period_len(self) -> u32 {
        self.period_length.val()
    }

    /// Number of periods.
    pub closed spec fn periods(self) -> u32 {
        self.period_count.val()
    }

    /// The weeks of the slots of each subject.
    pub closed spec fn subject_week_list(self) -> Seq<Seq<u32>> {
        self.subject_week_map@.map_values(|v: Vec<u32>| v@)
    }

    /// The week selections of each subject.
    pub closed spec fn subject_selection_list(self) -> Seq<Seq<Set<u32>>> {
        self.subject_week_selection_map@.map_values(
            |v: Vec<BTreeSet<u32>>| v@.map_values(|b: BTreeSet<u32>| b@),
        )
    }

    /// The weeks of each slot grouping.
    pub closed spec fn grouping_week_list(self) -> Seq<Set<u32>> {
        self.grouping_week_map@.map_values(|b: BTreeSet<u32>| b@)
    }

    /// The weeks of each incompatibility group.
    pub closed spec fn incompat_week_list(self) -> Seq<Set<u32>> {
        self.incompat_groups_week_map@.map_values(|b: BTreeSet<u32>| b@)
    }

    /// The settings of the search: the step limit, the number of tries and
    /// whether solutions are only hinted at.
    pub closed spec fn settings(self) -> (Option<usize>, usize, bool) {
        (self.max_steps, self.retries, self.quick_init)
    }

    /// The initializer that proposes a configuration of each period problem.
    pub closed spec fn initializer(self) -> T {
        self.initializer
    }

    /// The solver that makes each proposed configuration feasable.
    pub closed spec fn solver(self) -> S {
        self.solver
    }

    /// The variables of the planning problem, kind after kind.
    pub closed spec fn variable_list(self) -> Seq<Variable> {
        self.variables@
    }
}

/// The weeks of the slots of a subject, slot by slot.
fn weeks_of_subject(s: &Subject) -> (r: Vec<u32>)
    ensures
        r@ == subject_weeks(*s),
{
    let mut r: Vec<u32> = Vec::new();
    let mut j: usize = 0;
    while j < s.slots.len()
        invariant
            0 <= j <= s.slots@.len(),
            r@ == subject_weeks(*s).take(j as int),
        decreases s.slots@.len() - j,
    {
        r.push(s.slots[j].start.week);
        proof {
            assert(subject_weeks(*s).take(j + 1) =~= subject_weeks(*s).take(j as int).push(s.slots@[j as int].start.week));
        }
        j = j + 1;
    }
    proof {
        assert(subject_weeks(*s).take(j as int) =~= subject_weeks(*s));
    }
    r
}

/// The week selections of a subject, as sets of weeks.
fn selections_of_subject(s: &Subject) -> (r: Vec<BTreeSet<u32>>)
    ensures
        r@.len() == subject_selections(*s).len(),
        forall|k: int| 0 <= k < r@.len() ==> (#[trigger] r@[k])@ == subject_selections(*s)[k],
{
    match &s.balancing_requirements {
        None => Vec::new(),
        Some(br) => {
            let wss: Vec<WeekSelection> = br.object.extract_week_selections();
            let mut r: Vec<BTreeSet<u32>> = Vec::new();
            let mut k: usize = 0;
            while k < wss.len()
                invariant
                    s.balancing_requirements == Some(*br),
                    wss@.len() == week_selections(br.object).len(),
                    forall|m: int| 0 <= m < wss@.len() ==> #[trigger] wss@[m].selection@ == week_selections(br.object)[m],
                    0 <= k <= wss@.len(),
                    r@.len() == k,
                    forall|m: int| 0 <= m < k ==> (#[trigger] r@[m])@ == week_selections(br.object)[m],
                decreases wss@.len() - k,
            {
                r.push(wss[k].selection.clone());
                k = k + 1;
            }
            r
        },
    }
}

/// The weeks of the slots of a slot grouping whose slots all exist.
fn weeks_of_grouping(subjects: &Vec<Subject>, sg: &SlotGrouping) -> (r: BTreeSet<u32>)
    requires
        forall|t: int|
            0 <= t < sg.slots.items().len() ==> (#[trigger] sg.slots.items()[t]).subject < subjects@.len()
                && sg.slots.items()[t].slot < subjects@[sg.slots.items()[t].subject as int].slots@.len(),
    ensures
        r@ == grouping_weeks(subjects@, *sg),
{
    let mut r: BTreeSet<u32> = BTreeSet::new();
    let mut t: usize = 0;
    while t < sg.slots.len()
        invariant
            forall|u: int|
                0 <= u < sg.slots.items().len() ==> (#[trigger] sg.slots.items()[u]).subject < subjects@.len()
                    && sg.slots.items()[u].slot < subjects@[sg.slots.items()[u].subject as int].slots@.len(),
            0 <= t <= sg.slots.items().len(),
            forall|w: u32|
                #[trigger] r@.contains(w) <==> exists|u: int|
                    0 <= u < t && #[trigger] subjects@[sg.slots.items()[u].subject as int].slots@[sg.slots.items()[u].slot as int].start.week
                        == w,
        decreases sg.slots.items().len() - t,
    {
        let sr = sg.slots.get(t);
        let w: u32 = subjects[sr.subject].slots[sr.slot].start.week;
        r.insert(w);
        t = t + 1;
    }
    proof {
        assert(r@ =~= grouping_weeks(subjects@, *sg));
    }
    r
}

/// The weeks of the time spans of an incompatibility group.
fn weeks_of_incompat_group(ig: &IncompatibilityGroup) -> (r: BTreeSet<u32>)
    ensures
        r@ == span_weeks(*ig),
{
    let mut r: BTreeSet<u32> = BTreeSet::new();
    let mut t: usize = 0;
    while t < ig.slots.len()
        invariant
            0 <= t <= ig.slots.items().len(),
            forall|w: u32|
                #[trigger] r@.contains(w) <==> exists|u: int| 0 <= u < t && #[trigger] ig.slots.items()[u].start.week == w,
        decreases ig.slots.items().len() - t,
    {
        let w: u32 = ig.slots.get(t).start.week;
        r.insert(w);
        t = t + 1;
    }
    proof {
        assert(r@ =~= span_weeks(*ig));
    }
    r
}

impl<T: GenericInitializer, S: GenericSolver> IncrementalInitializer<T, S> {
    /// The weeks touched by each part of the validated data, for periods of
    /// `period_length` weeks, with the settings of the search.
    pub fn new(
        data: &ValidatedData,
        period_length: NonZeroU32,
        initializer: T,
        solver: S,
        max_steps: Option<usize>,
        retries: usize,
        quick_init: bool,
    ) -> (r: IncrementalInitializer<T, S>)
        ensures
            r.period_len() == period_length.val(),
            r.periods() == period_count_for(data.general_data().week_count.val(), period_length.val()),
            r.periods() * r.period_len() >= data.general_data().week_count.val(),
            (r.periods() - 1) * r.period_len() < data.general_data().week_count.val(),
            forall|w: u32| w < data.general_data().week_count.val() ==> #[trigger] (w / r.period_len()) < r.periods(),
            r.subject_week_list().len() == data.subject_list().len(),
            forall|i: int|
                0 <= i < data.subject_list().len() ==> #[trigger] r.subject_week_list()[i] == subject_weeks(
                    data.subject_list()[i],
                ),
            r.subject_selection_list().len() == data.subject_list().len(),
            forall|i: int|
                0 <= i < data.subject_list().len() ==> #[trigger] r.subject_selection_list()[i]
                    == subject_selections(data.subject_list()[i]),
            r.grouping_week_list().len() == data.slot_grouping_list().len(),
            forall|k: int|
                0 <= k < data.slot_grouping_list().len() ==> #[trigger] r.grouping_week_list()[k]
                    == grouping_weeks(data.subject_list(), data.slot_grouping_list()[k]),
            r.incompat_week_list().len() == data.incompatibility_group_list().len(),
            forall|k: int|
                0 <= k < data.incompatibility_group_list().len() ==> #[trigger] r.incompat_week_list()[k]
                    == span_weeks(data.incompatibility_group_list()[k]),
            r.settings() == (max_steps, retries, quick_init),
            r.initializer() == initializer,
            r.solver() == solver,
            forall|v: Variable| r.variable_list().contains(v) <==> is_problem_var(*data, v),
    {
        data.check_valid();
        let variables = data.ilp_translator().problem_variable_list();
        let week_count: u32 = data.general().week_count.get();
        let pl: u32 = period_length.get();
        let count: u32 = (week_count - 1) / pl + 1;
        let period_count = NonZeroU32::new(count).unwrap();
        let subjects = data.subjects();
        let mut subject_week_map: Vec<Vec<u32>> = Vec::new();
        let mut subject_week_selection_map: Vec<Vec<BTreeSet<u32>>> = Vec::new();
        let mut i: usize = 0;
        while i < subjects.len()
            invariant
                0 <= i <= subjects@.len(),
                subject_week_map@.len() == i,
                subject_week_selection_map@.len() == i,
                forall|m: int| 0 <= m < i ==> (#[trigger] subject_week_map@[m])@ == subject_weeks(subjects@[m]),
                forall|m: int|
                    0 <= m < i ==> (#[trigger] subject_week_selection_map@[m])@.map_values(|b: BTreeSet<u32>| b@)
                        == subject_selections(subjects@[m]),
            decreases subjects@.len() - i,
        {
            subject_week_map.push(weeks_of_subject(&subjects[i]));
            let sels = selections_of_subject(&subjects[i]);
            proof {
                assert(sels@.map_values(|b: BTreeSet<u32>| b@) =~= subject_selections(subjects@[i as int]));
            }
            subject_week_selection_map.push(sels);
            i = i + 1;
        }
        let groupings = data.slot_groupings();
        let mut grouping_week_map: Vec<BTreeSet<u32>> = Vec::new();
        let mut k: usize = 0;
        while k < groupings.len()
            invariant
                data.check_valid_spec(),
                subjects@ == data.subject_list(),
                groupings@ == data.slot_grouping_list(),
                0 <= k <= groupings@.len(),
                grouping_week_map@.len() == k,
                forall|m: int| 0 <= m < k ==> (#[trigger] grouping_week_map@[m])@ == grouping_weeks(subjects@, groupings@[m]),
            decreases groupings@.len() - k,
        {
            proof {
                assert forall|t: int| 0 <= t < groupings@[k as int].slots.items().len() implies (#[trigger] groupings@[k as int].slots.items()[t]).subject
                    < subjects@.len() && groupings@[k as int].slots.items()[t].slot < subjects@[groupings@[k as int].slots.items()[t].subject as int].slots@.len() by {
                    data.lemma_valid_slot_ref(k as int, t);
                }
            }
            grouping_week_map.push(weeks_of_grouping(subjects, &groupings[k]));
            k = k + 1;
        }
        let igs = data.incompatibility_groups();
        let mut incompat_groups_week_map: Vec<BTreeSet<u32>> = Vec::new();
        let mut k: usize = 0;
        while k < igs.len()
            invariant
                0 <= k <= igs@.len(),
                incompat_groups_week_map@.len() == k,
                forall|m: int| 0 <= m < k ==> (#[trigger] incompat_groups_week_map@[m])@ == span_weeks(igs@[m]),
            decreases igs@.len() - k,
        {
            incompat_groups_week_map.push(weeks_of_incompat_group(&igs[k]));
            k = k + 1;
        }
        proof {
            lemma_periods_cover(week_count, pl);
        }
        IncrementalInitializer {
            period_length,
            period_count,
            subject_week_map,
            subject_week_selection_map,
            grouping_week_map,
            incompat_groups_week_map,
            variables,
            max_steps,
            retries,
            initializer,
            solver,
            quick_init,
        }
    }

    /// Length of a period, in weeks.
    pub fn period_length(&self) -> (r: u32)
        ensures
            r == self.period_len(),
    {
        self.period_length.get()
    }

    /// Number of periods.
    pub fn period_count(&self) -> (r: u32)
        ensures
            r == self.periods(),
    {
        self.period_count.get()
    }

    /// The step limit, the number of tries and whether solutions are only hinted at.
    pub fn search_settings(&self) -> (r: (Option<usize>, usize, bool))
        ensures
            r == self.settings(),
    {
        (self.max_steps, self.retries, self.quick_init)
    }

    /// Whether `week` falls in period `period`.
    pub fn is_week_in_period(&self, week: u32, period: u32) -> (r: bool)
        ensures
            r == (week / self.period_len() == period),
    {
        let period_for_week: u32 = week / self.period_length.get();
        period_for_week == period
    }

    /// Whether a slot of subject `subject` falls in period `period`.
    pub fn is_subject_concerned_by_period(&self, subject: usize, period: u32) -> (r: bool)
        requires
            subject < self.subject_week_list().len(),
        ensures
            r == exists|j: int|
                0 <= j < self.subject_week_list()[subject as int].len() && #[trigger] self.subject_week_list()[subject as int][j]
                    / self.period_len() == period,
    {
        let weeks = &self.subject_week_map[subject];
        let mut j: usize = 0;
        while j < weeks.len()
            invariant
                weeks@ == self.subject_week_list()[subject as int],
                0 <= j <= weeks@.len(),
                forall|u: int| 0 <= u < j ==> #[trigger] weeks@[u] / self.period_len() != period,
            decreases weeks@.len() - j,
        {
            if self.is_week_in_period(weeks[j], period) {
                return true;
            }
            j = j + 1;
        }
        false
    }

    /// Whether some week of the set falls in period `period`.
    fn set_meets_period(&self, weeks: &BTreeSet<u32>, period: u32) -> (r: bool)
        ensures
            r == exists|w: u32| weeks@.contains(w) && #[trigger] (w / self.period_len()) == period,
    {
        let elems = u32_elems(weeks);
        let mut j: usize = 0;
        while j < elems.len()
            invariant
                elems@.to_set() == weeks@,
                0 <= j <= elems@.len(),
                forall|u: int| 0 <= u < j ==> #[trigger] elems@[u] / self.period_len() != period,
            decreases elems@.len() - j,
        {
            if self.is_week_in_period(elems[j], period) {
                proof {
                    assert(elems@.to_set().contains(elems@[j as int]));
                }
                return true;
            }
            j = j + 1;
        }
        proof {
            assert forall|w: u32| weeks@.contains(w) implies #[trigger] (w / self.period_len()) != period by {
                assert(elems@.to_set().contains(w));
                let u = choose|u: int| 0 <= u < elems@.len() && elems@[u] == w;
                assert(elems@[u] / self.period_len() != period);
            }
        }
        false
    }

    /// Whether a slot of slot grouping `grouping` falls in period `period`.
    pub fn is_grouping_concerned_by_period(&self, grouping: usize, period: u32) -> (r: bool)
        requires
            grouping < self.grouping_week_list().len(),
        ensures
            r == exists|w: u32|
                self.grouping_week_list()[grouping as int].contains(w) && #[trigger] (w / self.period_len()) == period,
    {
        self.set_meets_period(&self.grouping_week_map[grouping], period)
    }

    /// Whether a time span of incompatibility group `incompat_group` falls in period `period`.
    pub fn is_incompat_group_concerned_by_period(&self, incompat_group: usize, period: u32) -> (r: bool)
        requires
            incompat_group < self.incompat_week_list().len(),
        ensures
            r == exists|w: u32|
                self.incompat_week_list()[incompat_group as int].contains(w) && #[trigger] (w / self.period_len())
                    == period,
    {
        self.set_meets_period(&self.incompat_groups_week_map[incompat_group], period)
    }

    /// Whether a week of the selection falls in period `period`.
    pub fn does_week_selection_cover_period(&self, week_selection: &BTreeSet<u32>, period: u32) -> (r: bool)
        ensures
            r == exists|w: u32| week_selection@.contains(w) && #[trigger] (w / self.period_len()) == period,
    {
        self.set_meets_period(week_selection, period)
    }
}

impl<T: GenericInitializer, S: GenericSolver> IncrementalInitializer<T, S> {
    /// The indices in `v` point into the weeks known here: its subject and
    /// slot, week selection, slot grouping or incompatibility group.
    pub open spec fn knows_variable(self, v: Variable) -> bool {
        match v {
            Variable::GroupInSlot { subject, slot, .. } => subject < self.subject_week_list().len() && slot
                < self.subject_week_list()[subject as int].len(),
            Variable::GroupOnWeekSelection { subject, week_selection, .. } => subject < self.subject_selection_list().len()
                && week_selection < self.subject_selection_list()[subject as int].len(),
            Variable::DynamicGroupAssignment { subject, slot, .. } => subject < self.subject_week_list().len() && slot
                < self.subject_week_list()[subject as int].len(),
            Variable::StudentInGroup { subject, .. } => subject < self.subject_week_list().len(),
            Variable::UseGrouping(grouping) => grouping < self.grouping_week_list().len(),
            Variable::IncompatGroupForStudent { incompat_group, .. } => incompat_group < self.incompat_week_list().len(),
        }
    }

    /// Variable `v` concerns period `period`: its slot falls in it, or some
    /// week of its week selection, subject, slot grouping or incompatibility
    /// group does.
    pub open spec fn concerns_period(self, v: Variable, period: u32) -> bool {
        match v {
            Variable::GroupInSlot { subject, slot, .. } => self.subject_week_list()[subject as int][slot as int]
                / self.period_len() == period,
            Variable::GroupOnWeekSelection { subject, week_selection, .. } => exists|w: u32|
                self.subject_selection_list()[subject as int][week_selection as int].contains(w) && #[trigger] (w
                    / self.period_len()) == period,
            Variable::DynamicGroupAssignment { subject, slot, .. } => self.subject_week_list()[subject as int][slot as int]
                / self.period_len() == period,
            Variable::StudentInGroup { subject, .. } => exists|j: int|
                0 <= j < self.subject_week_list()[subject as int].len() && #[trigger] self.subject_week_list()[subject as int][j]
                    / self.period_len() == period,
            Variable::UseGrouping(grouping) => exists|w: u32|
                self.grouping_week_list()[grouping as int].contains(w) && #[trigger] (w / self.period_len()) == period,
            Variable::IncompatGroupForStudent { incompat_group, .. } => exists|w: u32|
                self.incompat_week_list()[incompat_group as int].contains(w) && #[trigger] (w / self.period_len()) == period,
        }
    }

    /// Whether variable `v` concerns period `period`.
    pub fn is_variable_relevant(&self, v: &Variable, period: u32) -> (r: bool)
        requires
            self.knows_variable(*v),
        ensures
            r == self.concerns_period(*v, period),
    {
        match v {
            Variable::GroupInSlot { subject, slot, .. } => {
                let week: u32 = self.subject_week_map[*subject][*slot];
                self.is_week_in_period(week, period)
            },
            Variable::GroupOnWeekSelection { subject, week_selection, .. } => {
                let selection = &self.subject_week_selection_map[*subject][*week_selection];
                self.does_week_selection_cover_period(selection, period)
            },
            Variable::DynamicGroupAssignment { subject, slot, .. } => {
                let week: u32 = self.subject_week_map[*subject][*slot];
                self.is_week_in_period(week, period)
            },
            Variable::StudentInGroup { subject, .. } => self.is_subject_concerned_by_period(*subject, period),
            Variable::UseGrouping(grouping) => self.is_grouping_concerned_by_period(*grouping, period),
            Variable::IncompatGroupForStudent { incompat_group, .. } => self.is_incompat_group_concerned_by_period(
                *incompat_group,
                period,
            ),
        }
    }

    /// The variables that concern period `period`, in their order.
    pub fn filter_relevant_variables(&self, variables: &Vec<Variable>, period: u32) -> (r: Vec<Variable>)
        requires
            forall|u: int| 0 <= u < variables@.len() ==> self.knows_variable(#[trigger] variables@[u]),
        ensures
            r@ == variables@.filter(|v: Variable| self.concerns_period(v, period)),
    {
        let ghost keep = |v: Variable| self.concerns_period(v, period);
        let mut out: Vec<Variable> = Vec::new();
        let mut u: usize = 0;
        while u < variables.len()
            invariant
                forall|w: int| 0 <= w < variables@.len() ==> self.knows_variable(#[trigger] variables@[w]),
                keep == (|v: Variable| self.concerns_period(v, period)),
                0 <= u <= variables@.len(),
                out@ == variables@.take(u as int).filter(keep),
            decreases variables@.len() - u,
        {
            let v = variables[u];
            let relevant = self.is_variable_relevant(&v, period);
            proof {
                assert(variables@.take(u + 1).drop_last() =~= variables@.take(u as int));
                assert(variables@.take(u + 1).last() == v);
                reveal(Seq::filter);
            }
            if relevant {
                out.push(v);
            }
            u = u + 1;
        }
        proof {
            assert(variables@.take(u as int) =~= variables@);
        }
        out
    }
}

/// Every variable of the left-hand side of `c` is among `names`.
pub open spec fn within(c: Constraint, names: Set<Seq<char>>) -> bool {
    forall|k: Seq<char>| #[trigger] c.expr().coefs().contains_key(k) ==> names.contains(k)
}

/// Whether every variable of the left-hand side of `c` is in the list.
fn constraint_within(c: &Constraint, names: &Vec<String>) -> (r: bool)
    ensures
        r == within(*c, string_views(names@).to_set()),
{
    let vars = c.variables();
    let ghost set = string_views(names@).to_set();
    let mut i: usize = 0;
    while i < vars.len()
        invariant
            set == string_views(names@).to_set(),
            forall|t: int| 0 <= t < vars@.len() ==> c.expr().coefs().contains_key(#[trigger] vars@[t]@),
            0 <= i <= vars@.len(),
            forall|t: int| 0 <= t < i ==> set.contains(#[trigger] vars@[t]@),
        decreases vars@.len() - i,
    {
        let mut found = false;
        let mut j: usize = 0;
        while j < names.len()
            invariant
                0 <= i < vars@.len(),
                0 <= j <= names@.len(),
                found ==> string_views(names@).contains(vars@[i as int]@),
                !found ==> forall|t: int| 0 <= t < j ==> names@[t]@ != vars@[i as int]@,
            decreases names@.len() - j,
        {
            if str_equal(names[j].as_str(), vars[i].as_str()) {
                found = true;
                proof {
                    assert(string_views(names@)[j as int] == vars@[i as int]@);
                }
            }
            j = j + 1;
        }
        if !found {
            proof {
                assert(!set.contains(vars@[i as int]@)) by {
                    if string_views(names@).contains(vars@[i as int]@) {
                        let t = choose|t: int| 0 <= t < names@.len() && string_views(names@)[t] == vars@[i as int]@;
                        assert(names@[t]@ == vars@[i as int]@);
                    }
                }
                assert(c.expr().coefs().contains_key(vars@[i as int]@));
            }
            return false;
        }
        i = i + 1;
    }
    proof {
        assert forall|k: Seq<char>| #[trigger] c.expr().coefs().contains_key(k) implies set.contains(k) by {
            let t = choose|t: int| 0 <= t < vars@.len() && #[trigger] vars@[t]@ == k;
        }
    }
    true
}

impl<T: GenericInitializer, S: GenericSolver> IncrementalInitializer<T, S> {
    /// Whether the indices in `v` point into the weeks known here.
    fn knows(&self, v: &Variable) -> (r: bool)
        ensures
            r == self.knows_variable(*v),
    {
        match v {
            Variable::GroupInSlot { subject, slot, .. } => *subject < self.subject_week_map.len() && *slot
                < self.subject_week_map[*subject].len(),
            Variable::GroupOnWeekSelection { subject, week_selection, .. } => *subject
                < self.subject_week_selection_map.len() && *week_selection
                < self.subject_week_selection_map[*subject].len(),
            Variable::DynamicGroupAssignment { subject, slot, .. } => *subject < self.subject_week_map.len() && *slot
                < self.subject_week_map[*subject].len(),
            Variable::StudentInGroup { subject, .. } => *subject < self.subject_week_map.len(),
            Variable::UseGrouping(grouping) => *grouping < self.grouping_week_map.len(),
            Variable::IncompatGroupForStudent { incompat_group, .. } => *incompat_group
                < self.incompat_groups_week_map.len(),
        }
    }

    /// The variables of the planning problem that concern period `period`
    /// (those whose indices point into the weeks known here), in order.
    pub open spec fn relevant_variables(self, period: u32) -> Seq<Variable> {
        self.variable_list().filter(|v: Variable| self.knows_variable(v) && self.concerns_period(v, period))
    }

    /// The names of the variables that concern period `period`, in order.
    pub open spec fn relevant_names(self, period: u32) -> Seq<Seq<char>> {
        self.relevant_variables(period).map_values(|v: Variable| variable_name(v))
    }

    /// The names of the variables that concern period `period`.
    fn relevant_names_of(&self, period: u32) -> (r: Vec<String>)
        ensures
            string_views(r@) == self.relevant_names(period),
    {
        let ghost keep = |v: Variable| self.knows_variable(v) && self.concerns_period(v, period);
        let mut out: Vec<String> = Vec::new();
        let mut u: usize = 0;
        while u < self.variables.len()
            invariant
                keep == (|v: Variable| self.knows_variable(v) && self.concerns_period(v, period)),
                0 <= u <= self.variables@.len(),
                string_views(out@) == self.variables@.take(u as int).filter(keep).map_values(|v: Variable| variable_name(v)),
            decreases self.variables@.len() - u,
        {
            let v = self.variables[u];
            let ghost before = out@;
            proof {
                assert(self.variables@.take(u + 1).drop_last() =~= self.variables@.take(u as int));
                assert(self.variables@.take(u + 1).last() == v);
                reveal(Seq::filter);
            }
            if self.knows(&v) && self.is_variable_relevant(&v, period) {
                out.push(v.to_string());
                proof {
                    assert(string_views(out@) =~= string_views(before).push(variable_name(v)));
                    assert(self.variables@.take(u + 1).filter(keep) == self.variables@.take(u as int).filter(keep).push(v));
                    assert(self.variables@.take(u + 1).filter(keep).map_values(|v: Variable| variable_name(v))
                        =~= self.variables@.take(u as int).filter(keep).map_values(|v: Variable| variable_name(v)).push(variable_name(v)));
                }
            } else {
                proof {
                    assert(self.variables@.take(u + 1).filter(keep) == self.variables@.take(u as int).filter(keep));
                }
            }
            u = u + 1;
        }
        proof {
            assert(self.variables@.take(u as int) =~= self.variables@);
        }
        out
    }
}

/// A constraint description without its zero coefficients, as
/// `ProblemBuilder::build` leaves it.
pub open spec fn cleaned(d: (Map<Seq<char>, i32>, int, Sign)) -> (Map<Seq<char>, i32>, int, Sign) {
    (nonzero_part(d.0), d.1, d.2)
}

/// Every variable of each fixing constraint is among the names.
proof fn lemma_fixings_over(names: Seq<Seq<char>>, records: Seq<(String, bool)>, n: int)
    requires
        0 <= n <= names.len(),
    ensures
        forall|t: int|
            0 <= t < fixings(names, records, n).len() ==> exists|j: int|
                0 <= j < n && (#[trigger] fixings(names, records, n)[t]).0 == map![names[j] => 1i32],
    decreases n,
{
    if n > 0 {
        lemma_fixings_over(names, records, n - 1);
        let prev = fixings(names, records, n - 1);
        assert forall|t: int|
            0 <= t < fixings(names, records, n).len() implies exists|j: int|
                0 <= j < n && (#[trigger] fixings(names, records, n)[t]).0 == map![names[j] => 1i32] by {
            if t < prev.len() {
                assert(fixings(names, records, n)[t] == prev[t]);
                let j = choose|j: int| 0 <= j < n - 1 && (#[trigger] prev[t]).0 == map![names[j] => 1i32];
            } else {
                assert(fixings(names, records, n)[t].0 == map![names[n - 1] => 1i32]);
            }
        }
    }
}

/// No constraint of a list whose coefficients only name declared variables
/// has an undeclared variable.
proof fn lemma_none_undeclared(vars: Set<Seq<char>>, cs: Seq<Constraint>, n: int)
    requires
        0 <= n <= cs.len(),
        forall|t: int, k: Seq<char>| 0 <= t < cs.len() && #[trigger] cs[t].expr().coefs().contains_key(k) ==> vars.contains(k),
    ensures
        first_undeclared(vars, cs, n) is None,
    decreases n,
{
    if n > 0 {
        lemma_none_undeclared(vars, cs, n - 1);
        let c = cs[n - 1];
        assert(!has_undeclared(vars, c.expr().coefs()));
    }
}

impl<T: GenericInitializer, S: GenericSolver> IncrementalInitializer<T, S> {
    /// The constraints of the problem of period `period`, in order: those of
    /// `problem` over the variables of the period only, then those fixing
    /// the variables of the period that `records` gives a value.
    pub open spec fn period_descriptions(self, problem: Problem, records: Seq<(String, bool)>, period: u32) -> Seq<
        (Map<Seq<char>, i32>, int, Sign),
    > {
        problem.constraint_list().filter(|c: Constraint| within(c, self.relevant_names(period).to_set())).map_values(
            |c: Constraint| describe(c),
        ) + fixings(self.relevant_names(period), records, self.relevant_names(period).len() as int)
    }

    /// The problem of period `period` fits the limits of `ProblemBuilder::build`.
    pub open spec fn period_fits(self, problem: Problem, records: Seq<(String, bool)>, period: u32) -> bool {
        let n = self.relevant_names(period).len();
        &&& n <= isize::MAX
        &&& self.period_descriptions(problem, records, period).len() * n <= isize::MAX
    }

    /// `p` is the problem of period `period`: the variables of the period,
    /// and the constraints of `period_descriptions`, cleaned.
    pub open spec fn is_period_problem(self, problem: Problem, records: Seq<(String, bool)>, period: u32, p: Problem) -> bool {
        &&& p.variable_names().to_set() == self.relevant_names(period).to_set()
        &&& p.constraint_list().map_values(|c: Constraint| describe(c)) == self.period_descriptions(problem, records, period).map_values(
            |d: (Map<Seq<char>, i32>, int, Sign)| cleaned(d),
        )
    }

    /// Every variable of the constraints of a period problem is a variable
    /// of the period.
    proof fn lemma_period_declared(self, problem: Problem, records: Seq<(String, bool)>, period: u32, cs: Seq<Constraint>)
        requires
            cs.map_values(|c: Constraint| describe(c)) == self.period_descriptions(problem, records, period),
        ensures
            first_undeclared(self.relevant_names(period).to_set(), cs, cs.len() as int) is None,
    {
        let names = self.relevant_names(period);
        let rel = names.to_set();
        let kept = problem.constraint_list().filter(|c: Constraint| within(c, rel));
        let fx = fixings(names, records, names.len() as int);
        lemma_fixings_over(names, records, names.len() as int);
        assert forall|t: int, k: Seq<char>| 0 <= t < cs.len() && #[trigger] cs[t].expr().coefs().contains_key(k) implies rel.contains(k) by {
            assert(cs.map_values(|c: Constraint| describe(c))[t] == describe(cs[t]));
            let descs = self.period_descriptions(problem, records, period);
            let km = kept.map_values(|c: Constraint| describe(c));
            assert(descs == km + fx);
            assert(km.len() == kept.len());
            assert(cs.len() == descs.len());
            if t < kept.len() {
                assert(descs[t] == describe(kept[t]));
                broadcast use vstd::seq_lib::group_filter_ensures;
                assert(within(kept[t], rel));
            } else {
                assert(descs[t] == fx[t - km.len()]);
                assert(0 <= t - kept.len() < fx.len());
                let j = choose|j: int| 0 <= j < names.len() && (#[trigger] fx[t - kept.len()]).0 == map![names[j] => 1i32];
                assert(names.contains(names[j]));
            }
        }
        lemma_none_undeclared(rel, cs, cs.len() as int);
    }
}

impl<T: GenericInitializer, S: GenericSolver> IncrementalInitializer<T, S> {
    /// The problem restricted to period `period`: the variables that concern
    /// the period, the constraints of `problem` over those variables only, in
    /// order, then the constraints that fix the variables of the period that
    /// have a recorded value.
    pub fn period_problem_builder(&self, problem: &Problem, set_variables: &Vec<(String, bool)>, period: u32) -> (r:
        ProblemBuilder)
        ensures
            r.variable_set() == self.relevant_names(period).to_set(),
            r.constraint_list().map_values(|c: Constraint| describe(c)) == self.period_descriptions(*problem, set_variables@, period),
    {
        let names = self.relevant_names_of(period);
        let ghost rel = self.relevant_names(period).to_set();
        let ghost keep = |c: Constraint| within(c, self.relevant_names(period).to_set());
        let fixed = set_relevant_variables(&names, set_variables);
        let mut b = ProblemBuilder::new().add_variables(names.clone());
        proof {
            assert(b.variable_set() =~= rel);
        }
        let cs = problem.constraints();
        let mut i: usize = 0;
        while i < cs.len()
            invariant
                string_views(names@) == self.relevant_names(period),
                rel == self.relevant_names(period).to_set(),
                keep == (|c: Constraint| within(c, self.relevant_names(period).to_set())),
                cs@ == problem.constraint_list(),
                0 <= i <= cs@.len(),
                b.variable_set() == rel,
                b.constraint_list().map_values(|c: Constraint| describe(c)) == cs@.take(i as int).filter(keep).map_values(
                    |c: Constraint| describe(c),
                ),
            decreases cs@.len() - i,
        {
            let ghost before = b.constraint_list();
            proof {
                assert(cs@.take(i + 1).drop_last() =~= cs@.take(i as int));
                assert(cs@.take(i + 1).last() == cs@[i as int]);
                reveal(Seq::filter);
            }
            if constraint_within(&cs[i], &names) {
                let cl = cs[i].clone();
                b = b.add(cl);
                proof {
                    assert(describe(cl) == describe(cs@[i as int]));
                    assert(b.constraint_list().map_values(|c: Constraint| describe(c)) =~= before.map_values(|c: Constraint| describe(c)).push(
                        describe(cs@[i as int]),
                    ));
                    assert(cs@.take(i + 1).filter(keep) == cs@.take(i as int).filter(keep).push(cs@[i as int]));
                    assert(b.constraint_list().map_values(|c: Constraint| describe(c)) =~= cs@.take(i + 1).filter(keep).map_values(
                        |c: Constraint| describe(c),
                    ));
                }
            } else {
                proof {
                    assert(cs@.take(i + 1).filter(keep) == cs@.take(i as int).filter(keep));
                }
            }
            i = i + 1;
        }
        proof {
            assert(cs@.take(i as int) =~= cs@);
        }
        let ghost kept = b.constraint_list();
        let ghost fx = fixed@;
        let b = add_all(b, fixed);
        proof {
            assert(b.constraint_list().map_values(|c: Constraint| describe(c)) =~= kept.map_values(|c: Constraint| describe(c))
                + fx.map_values(|c: Constraint| describe(c)));
        }
        b
    }
}

impl<T: GenericInitializer, S: GenericSolver> IncrementalInitializer<T, S> {
    /// The problem of period `period`: the constraints and variables of
    /// `period_problem_builder`, built (each constraint cleaned of its zero
    /// coefficients); `None` when its size leaves the limits of
    /// `ProblemBuilder::build`.
    pub fn construct_period_problem(&self, problem: &Problem, set_variables: &Vec<(String, bool)>, period: u32) -> (r:
        Option<Problem>)
        ensures
            r is Some <==> self.period_fits(*problem, set_variables@, period),
            r matches Some(p) ==> self.is_period_problem(*problem, set_variables@, period, p),
    {
        let names = self.relevant_names_of(period);
        let b = self.period_problem_builder(problem, set_variables, period);
        let count: usize = b.constraint_count();
        let n: usize = names.len();
        let ghost descs = self.period_descriptions(*problem, set_variables@, period);
        proof {
            self.relevant_names(period).lemma_cardinality_of_set();
            assert(string_views(names@).len() == n);
            assert(b.constraint_list().map_values(|c: Constraint| describe(c)).len() == count);
        }
        let max: usize = isize::MAX as usize;
        if n > max {
            return None;
        }
        match count.checked_mul(n) {
            Some(prod) => {
                if prod > max {
                    return None;
                }
            },
            None => {
                return None;
            },
        }
        proof {
            assert(b.constraint_list().len() * b.variable_set().len() <= count * n) by (nonlinear_arith)
                requires
                    b.constraint_list().len() == count,
                    b.variable_set().len() <= n,
            ;
            self.lemma_period_declared(*problem, set_variables@, period, b.constraint_list());
        }
        let ghost bl = b.constraint_list();
        match b.build() {
            Ok(p) => {
                proof {
                    assert(p.constraint_list().map_values(|c: Constraint| describe(c)) =~= descs.map_values(
                        |d: (Map<Seq<char>, i32>, int, Sign)| cleaned(d),
                    )) by {
                        assert forall|t: int| 0 <= t < p.constraint_list().len() implies describe(#[trigger] p.constraint_list()[t])
                            == cleaned(descs[t]) by {
                            assert(is_cleaned(bl[t], p.constraint_list()[t]));
                            assert(bl.map_values(|c: Constraint| describe(c))[t] == describe(bl[t]));
                        }
                    }
                }
                Some(p)
            },
            Err(_) => None,
        }
    }

    /// A feasable configuration of `problem`, from a proposal of the
    /// initializer made feasable by the solver, in at most `retries` tries.
    fn construct_init_config<'p>(&mut self, problem: &'p Problem) -> (r: Option<FeasableConfig<'p>>)
        ensures
            final(self).same_plan(*old(self)),
    {
        let ghost start = *self;
        let retries: usize = self.retries;
        let mut found: Option<FeasableConfig<'p>> = None;
        let mut i: usize = 0;
        while i < retries && found.is_none()
            invariant
                self.same_plan(start),
            decreases retries - i,
        {
            found = self.construct_init_config_one_try(problem);
            i = i + 1;
        }
        found
    }

    /// One try: a proposal of the initializer, made feasable by the solver.
    fn construct_init_config_one_try<'p>(&mut self, problem: &'p Problem) -> (r: Option<FeasableConfig<'p>>)
        ensures
            final(self).same_plan(*old(self)),
    {
        let init_config = self.initializer.build_init_config(problem);
        let hint_only = self.quick_init;
        self.solver.restore_feasability_with_origin_and_max_steps_and_hint_only(&init_config, None, self.max_steps, hint_only)
    }

    /// Records the values of a configuration of the problem of each period
    /// in turn, period 0 first on its own, then every period in order: each
    /// period problem is built from the values recorded so far, and fixes
    /// them. The run stops, with `None`, at the first period problem that
    /// cannot be built (before calling the initializer on it) or that the
    /// solver leaves unsolved.
    fn build_init_config_internal(&mut self, problem: &Problem, set_variables: &mut Vec<(String, bool)>) -> (r: Option<()>)
        ensures
            final(self).same_plan(*old(self)),
            exists|hist: Seq<Seq<(String, bool)>>|
                #[trigger] old(self).is_run(*problem, hist) && hist[0] == old(set_variables)@
                    && hist.last() == final(set_variables)@ && (r is Some <==> hist.len() == old(self).periods() + 2),
            names_unique(old(set_variables)@) ==> names_unique(final(set_variables)@),
    {
        let ghost me = *self;
        let ghost start = set_variables@;
        let ghost mut hist: Seq<Seq<(String, bool)>> = seq![set_variables@];
        let first = match self.construct_period_problem(problem, set_variables, 0) {
            Some(p) => p,
            None => {
                proof {
                    assert(me.is_run(*problem, hist));
                }
                return None;
            },
        };
        match self.construct_init_config(&first) {
            Some(config) => {
                let ghost before = set_variables@;
                update_set_variables(set_variables, &config);
                proof {
                    self.lemma_same_plan(me, 0);
                    assert(me.is_period_problem(*problem, before, 0, first));
                    lemma_step(before, set_variables@, config.inner_config());
                    hist = hist.push(set_variables@);
                    assert(me.is_run(*problem, hist)) by {
                        assert(hist[0] == before);
                    }
                }
            },
            None => {
                proof {
                    assert(me.is_run(*problem, hist));
                }
                return None;
            },
        }
        let count: u32 = self.period_count.get();
        let mut period: u32 = 0;
        let mut failed = false;
        while period < count && !failed
            invariant
                self.same_plan(me),
                count == me.periods(),
                0 <= period <= count,
                !failed ==> hist.len() == period + 2,
                failed ==> hist.len() < count + 2,
                me.is_run(*problem, hist),
                hist[0] == start,
                hist.last() == set_variables@,
                names_unique(start) ==> names_unique(set_variables@),
            decreases count - period + (if failed { 0int } else { 1int }),
        {
            match self.construct_period_problem(problem, set_variables, period) {
                Some(period_problem) => {
                    let ghost fits_before = set_variables@;
                    proof {
                        self.lemma_same_plan(me, period);
                    }
                    match self.construct_init_config(&period_problem) {
                        Some(config) => {
                            let ghost before = set_variables@;
                            let ghost old_hist = hist;
                            update_set_variables(set_variables, &config);
                            proof {
                                lemma_step(before, set_variables@, config.inner_config());
                                hist = hist.push(set_variables@);
                                assert(period_of_step(old_hist.len() - 1) == period);
                                assert(old_hist[old_hist.len() - 1] == before);
                                assert(me.period_fits(*problem, before, period));
                                assert(me.is_period_problem(*problem, before, period, period_problem));
                                assert forall|j: int| 0 <= j < hist.len() - 1 implies me.period_fits(
                                    *problem,
                                    #[trigger] hist[j],
                                    period_of_step(j),
                                ) && is_step(hist[j], hist[j + 1]) by {
                                    if j < old_hist.len() - 1 {
                                        assert(hist[j] == old_hist[j]);
                                        assert(hist[j + 1] == old_hist[j + 1]);
                                    } else {
                                        assert(hist[j] == before);
                                        assert(hist[j + 1] == set_variables@);
                                    }
                                }
                            }
                            period = period + 1;
                        },
                        None => {
                            failed = true;
                        },
                    }
                },
                None => {
                    failed = true;
                },
            }
        }
        if failed {
            return None;
        }
        Some(())
    }
}

impl<T: GenericInitializer, S: GenericSolver> IncrementalInitializer<T, S> {
    /// The two initializers plan the same periods with the same settings:
    /// they may differ only in the state of their initializer and solver.
    pub closed spec fn same_plan(self, other: Self) -> bool {
        &&& self.period_length == other.period_length
        &&& self.period_count == other.period_count
        &&& self.subject_week_map@ == other.subject_week_map@
        &&& self.subject_week_selection_map@ == other.subject_week_selection_map@
        &&& self.grouping_week_map@ == other.grouping_week_map@
        &&& self.incompat_groups_week_map@ == other.incompat_groups_week_map@
        &&& self.variables@ == other.variables@
        &&& self.max_steps == other.max_steps
        &&& self.retries == other.retries
        &&& self.quick_init == other.quick_init
    }

    /// Initializers with the same plan build the same period problems.
    proof fn lemma_same_plan(self, other: Self, period: u32)
        requires
            self.same_plan(other),
        ensures
            self.relevant_names(period) == other.relevant_names(period),
            self.periods() == other.periods(),
            forall|problem: Problem, records: Seq<(String, bool)>|
                #[trigger] self.period_fits(problem, records, period) == other.period_fits(problem, records, period),
            forall|problem: Problem, records: Seq<(String, bool)>, p: Problem|
                #[trigger] self.is_period_problem(problem, records, period, p) == other.is_period_problem(problem, records, period, p),
    {
        assert(self.subject_week_list() == other.subject_week_list());
        assert(self.subject_selection_list() == other.subject_selection_list());
        assert(self.grouping_week_list() == other.grouping_week_list());
        assert(self.incompat_week_list() == other.incompat_week_list());
        assert(self.period_len() == other.period_len());
        let f = |v: Variable| self.knows_variable(v) && self.concerns_period(v, period);
        let g = |v: Variable| other.knows_variable(v) && other.concerns_period(v, period);
        assert(f =~= g);
        assert(self.relevant_variables(period) == other.relevant_variables(period));
        let rel = self.relevant_names(period).to_set();
        let kf = |c: Constraint| within(c, self.relevant_names(period).to_set());
        let kg = |c: Constraint| within(c, other.relevant_names(period).to_set());
        assert(kf =~= kg);
        assert forall|problem: Problem, records: Seq<(String, bool)>|
            self.period_descriptions(problem, records, period) == other.period_descriptions(problem, records, period) by {
        }
    }
}

/// The records after a step are those before, with, for each name not yet
/// recorded, the value that `vals` gives it among `names`.
pub open spec fn steps_with(before: Seq<(String, bool)>, after: Seq<(String, bool)>, names: Seq<Seq<char>>, vals: Seq<bool>) -> bool {
    forall|name: Seq<char>|
        #[trigger] recorded(after, name) == match recorded(before, name) {
            Some(b) => Some(b),
            None => if names.contains(name) {
                Some(vals[names.index_of(name)])
            } else {
                None
            },
        }
}

/// The records after a step keep those before and add the values of some
/// configuration for the names not yet recorded.
pub open spec fn is_step(before: Seq<(String, bool)>, after: Seq<(String, bool)>) -> bool {
    exists|names: Seq<Seq<char>>, vals: Seq<bool>| #[trigger] steps_with(before, after, names, vals)
}

/// Recording the values of a configuration is a step.
proof fn lemma_step(before: Seq<(String, bool)>, after: Seq<(String, bool)>, c: Config)
    requires
        forall|name: Seq<char>| #[trigger] recorded(after, name) == updated(before, c, name),
    ensures
        is_step(before, after),
{
    assert(steps_with(before, after, c.problem().variable_names(), c.values()));
}

/// The period solved at step `j`: period 0 first on its own, then every
/// period in order.
pub open spec fn period_of_step(j: int) -> u32 {
    if j <= 0 {
        0
    } else {
        (j - 1) as u32
    }
}

impl<T: GenericInitializer, S: GenericSolver> IncrementalInitializer<T, S> {
    /// `hist` lists the records of a run, step after step: each step built
    /// the problem of its period from the records so far (so that problem
    /// fits the limits of `ProblemBuilder::build` and fixes every recorded
    /// variable of the period) and recorded the values of a configuration.
    pub open spec fn is_run(self, problem: Problem, hist: Seq<Seq<(String, bool)>>) -> bool {
        &&& 1 <= hist.len() <= self.periods() + 2
        &&& forall|j: int|
            0 <= j < hist.len() - 1 ==> self.period_fits(problem, #[trigger] hist[j], period_of_step(j)) && is_step(
                hist[j],
                hist[j + 1],
            ) && exists|p: Problem| self.is_period_problem(problem, hist[j], period_of_step(j), p)
    }

    /// The problem of a period fixes each variable of the period that has a
    /// recorded value to that value.
    pub proof fn lemma_period_problem_fixes(
        self,
        problem: Problem,
        records: Seq<(String, bool)>,
        period: u32,
        p: Problem,
        name: Seq<char>,
        val: bool,
    )
        requires
            self.is_period_problem(problem, records, period, p),
            self.relevant_names(period).contains(name),
            recorded(records, name) == Some(val),
        ensures
            p.constraint_list().map_values(|c: Constraint| describe(c)).contains(cleaned(fixing_description(name, val))),
    {
        let names = self.relevant_names(period);
        let j = choose|j: int| 0 <= j < names.len() && names[j] == name;
        lemma_fixings_contain(names, records, names.len() as int, j, val);
        let fx = fixings(names, records, names.len() as int);
        let t = choose|t: int| 0 <= t < fx.len() && fx[t] == fixing_description(name, val);
        let descs = self.period_descriptions(problem, records, period);
        let km = problem.constraint_list().filter(|c: Constraint| within(c, names.to_set())).map_values(|c: Constraint| describe(c));
        assert(descs == km + fx);
        assert(descs[km.len() + t] == fixing_description(name, val));
        let cl = descs.map_values(|d: (Map<Seq<char>, i32>, int, Sign)| cleaned(d));
        assert(cl[km.len() + t] == cleaned(fixing_description(name, val)));
        assert(p.constraint_list().map_values(|c: Constraint| describe(c)) == cl);
    }
}

/// The fixing constraints of the first `n` names hold one for each name
/// among them that has a recorded value.
proof fn lemma_fixings_contain(names: Seq<Seq<char>>, records: Seq<(String, bool)>, n: int, j: int, val: bool)
    requires
        0 <= j < n <= names.len(),
        recorded(records, names[j]) == Some(val),
    ensures
        fixings(names, records, n).contains(fixing_description(names[j], val)),
    decreases n,
{
    if j < n - 1 {
        lemma_fixings_contain(names, records, n - 1, j, val);
        let prev = fixings(names, records, n - 1);
        let t = choose|t: int| 0 <= t < prev.len() && prev[t] == fixing_description(names[j], val);
        assert(fixings(names, records, n)[t] == prev[t]);
    } else {
        let f = fixings(names, records, n);
        assert(f[f.len() - 1] == fixing_description(names[j], val));
    }
}

impl<T: GenericInitializer, S: GenericSolver> ConfigInitializer for IncrementalInitializer<T, S> {
    /// The configuration of `problem` that sets to true the variables that a
    /// run from no record (see `build_init_config_internal`) recorded as
    /// true, and the others to false.
    fn build_init_config<'b>(&mut self, problem: &'b Problem) -> (r: Config<'b>)
        ensures
            r.problem() == *problem,
            exists|hist: Seq<Seq<(String, bool)>>|
                #[trigger] old(self).is_run(*problem, hist) && hist[0] == Seq::<(String, bool)>::empty() && names_unique(hist.last())
                    && forall|i: int|
                    0 <= i < problem.variable_names().len() ==> #[trigger] r.values()[i] == (recorded(
                        hist.last(),
                        problem.variable_names()[i],
                    ) == Some(true)),
    {
        let mut set_variables: Vec<(String, bool)> = Vec::new();
        let _ = self.build_init_config_internal(problem, &mut set_variables);
        config_from_recorded(problem, &set_variables)
    }
}

} // verus!
