//! The planning problems of a colloscope: every variable, with the goals
//! (soft problem) or with the rules (hard problem).

use vstd::prelude::*;

use crate::colloscope::{variable_name, Variable};
use crate::groupings::{all_week_selections_descriptions, grouping_use_names, groupings_descriptions, incompat_count_descriptions};
use crate::groups::{
    all_size_descriptions, assignment_descriptions, group_bounds_fit, max_groups_descriptions, single_group_descriptions,
};
use crate::ilp::{Config, ProblemBuilder};
use crate::incompat_constraints::all_incompat_descriptions;
use crate::interrogations::{
    count_description, days_descriptions, describe, students_even_weeks_descriptions, units_descriptions, weeks_descriptions,
};
use crate::linexpr::{Constraint, Sign};
use crate::resolution::{gcd_all, resolution_times};
use crate::rhythm::{all_empty_groups_descriptions, all_periods_descriptions};
use crate::sorted::SortedVec;
use crate::text::string_views;
use crate::translator::{
    config_value, group_is_fixed, is_group_fixed, subject_readable,
    is_dynamic_group_assignment_var, is_group_in_slot_var, is_group_on_week_selection_var, is_incompat_group_for_student_var,
    is_student_in_group_var, is_use_grouping_var, IlpTranslator,
};
use crate::validation::ValidatedData;

verus! {

/// `v` is a variable of the planning problem of the data.
pub open spec fn is_problem_var(d: ValidatedData, v: Variable) -> bool {
    ||| is_group_in_slot_var(d.subject_list(), v)
    ||| is_dynamic_group_assignment_var(d.subject_list(), v)
    ||| is_student_in_group_var(d.subject_list(), v)
    ||| is_use_grouping_var(d.slot_grouping_list().len() as int, v)
    ||| is_incompat_group_for_student_var(d.student_list(), d.incompatibility_list(), v)
    ||| is_group_on_week_selection_var(d.subject_list(), v)
}

/// The names of the variables of the planning problem of the data.
pub open spec fn problem_var_names(d: ValidatedData) -> Set<Seq<char>> {
    Set::new(|n: Seq<char>| exists|v: Variable| #[trigger] is_problem_var(d, v) && variable_name(v) == n)
}

/// The goals of the soft problem: even weeks, free days, strict rhythms.
pub open spec fn soft_descriptions(d: ValidatedData) -> Seq<(Map<Seq<char>, i32>, int, Sign)> {
    let ss = d.subject_list();
    let n_students = d.student_list().len() as int;
    let week_count = d.general_data().week_count.val();
    students_even_weeks_descriptions(ss, week_count - 1, n_students) + days_descriptions(ss, None, n_students, week_count as int)
        + all_periods_descriptions(d.general_data(), ss, ss.len() as int, true)
}

/// The numbers that the rules turn into `i32` constants fit in an `i32`.
pub open spec fn rules_fit(d: ValidatedData) -> bool {
    &&& forall|i: int| 0 <= i < d.subject_list().len() ==> (#[trigger] d.subject_list()[i]).max_groups_per_slot.val() <= i32::MAX
    &&& forall|i: int| 0 <= i < d.subject_list().len() ==> group_bounds_fit(#[trigger] d.subject_list()[i])
    &&& d.general_data().interrogations_per_week matches Some(range) ==> range.start <= i32::MAX && range.end <= i32::MAX
    &&& d.general_data().max_interrogations_per_day matches Some(m) ==> m.val() <= i32::MAX
    &&& forall|u: int| 0 <= u < d.grouping_incompat_list().len() ==> (#[trigger] d.grouping_incompat_list()[u]).max_count.val() <= i32::MAX
    &&& forall|u: int| 0 <= u < d.incompatibility_list().len() ==> (#[trigger] d.incompatibility_list()[u]).max_count <= i32::MAX
}

/// The rules of the hard problem, family after family: groups per slot,
/// one interrogation per time unit, one interrogation per period, empty
/// groups, group sizes, one group per student, assignments and groups,
/// assignments and slots, interrogations per week, interrogations per day,
/// slot groupings, incompatible groupings, incompatibility groups, the
/// students' incompatibilities, week selections.
pub open spec fn hard_descriptions(d: ValidatedData) -> Seq<(Map<Seq<char>, i32>, int, Sign)> {
    let ss = d.subject_list();
    let n = ss.len() as int;
    let n_students = d.student_list().len() as int;
    let g = d.general_data();
    let week_count = g.week_count.val();
    max_groups_descriptions(ss, n) + units_descriptions(
        ss,
        n_students,
        gcd_all(24 * 60, resolution_times(ss, d.incompatibility_group_list())) as int,
        week_count as int,
    ) + all_periods_descriptions(g, ss, n, false) + all_empty_groups_descriptions(week_count as int, ss, n)
        + all_size_descriptions(ss, n) + single_group_descriptions(ss, n) + assignment_descriptions(ss, n, false)
        + assignment_descriptions(ss, n, true) + match g.interrogations_per_week {
        None => Seq::empty(),
        Some(range) => weeks_descriptions(ss, range, n_students, week_count as int),
    } + match g.max_interrogations_per_day {
        None => Seq::empty(),
        Some(m) => days_descriptions(ss, Some(m.val()), n_students, week_count as int),
    } + groupings_descriptions(ss, d.slot_grouping_list(), d.slot_grouping_list().len() as int)
        + d.grouping_incompat_list().map_values(
        |gi: crate::colloscope::SlotGroupingIncompat| count_description(grouping_use_names(gi), 1, -gi.max_count.val(), Sign::LessThan),
    ) + all_incompat_descriptions(d.incompatibility_group_list(), d.incompatibility_list(), d.student_list(), ss, n)
        + incompat_count_descriptions(d.incompatibility_list(), d.student_list(), n_students) + all_week_selections_descriptions(ss, n)
}

/// The names of the variables of a set.
fn names_of(list: &SortedVec<Variable>) -> (r: Vec<String>)
    ensures
        forall|n: Seq<char>|
            string_views(r@).contains(n) <==> exists|v: Variable| #[trigger] list.items().contains(v) && variable_name(v) == n,
{
    let items = list.to_vec();
    let mut out: Vec<String> = Vec::new();
    let mut t: usize = 0;
    while t < items.len()
        invariant
            items@ == list.items(),
            0 <= t <= items@.len(),
            out@.len() == t,
            forall|u: int| 0 <= u < t ==> (#[trigger] out@[u])@ == variable_name(items@[u]),
        decreases items@.len() - t,
    {
        out.push(items[t].to_string());
        t = t + 1;
    }
    proof {
        assert forall|n: Seq<char>|
            string_views(out@).contains(n) <==> exists|v: Variable| #[trigger] list.items().contains(v) && variable_name(v) == n by {
            if string_views(out@).contains(n) {
                let u = choose|u: int| 0 <= u < string_views(out@).len() && string_views(out@)[u] == n;
                assert(list.items().contains(items@[u]));
                assert(variable_name(items@[u]) == n);
            }
            if exists|v: Variable| #[trigger] list.items().contains(v) && variable_name(v) == n {
                let v = choose|v: Variable| #[trigger] list.items().contains(v) && variable_name(v) == n;
                let u = choose|u: int| 0 <= u < items@.len() && items@[u] == v;
                assert(string_views(out@)[u] == n);
            }
        }
    }
    out
}

/// Adds the constraints of the list, in order.
pub(crate) fn add_all(builder: ProblemBuilder, constraints: Vec<Constraint>) -> (r: ProblemBuilder)
    ensures
        r.constraint_list() == builder.constraint_list() + constraints@,
        r.variable_set() == builder.variable_set(),
{
    let mut b = builder;
    let mut t: usize = 0;
    let n: usize = constraints.len();
    let mut rest = constraints;
    let ghost all = rest@;
    while t < n
        invariant
            n == all.len(),
            0 <= t <= n,
            rest@ == all.skip(t as int),
            b.constraint_list() == builder.constraint_list() + all.take(t as int),
            b.variable_set() == builder.variable_set(),
        decreases n - t,
    {
        let c = rest.remove(0);
        proof {
            assert(c == all[t as int]);
            assert(rest@ =~= all.skip(t + 1));
            assert(all.take(t + 1) =~= all.take(t as int).push(c));
        }
        b = b.add(c);
        t = t + 1;
    }
    proof {
        assert(all.take(t as int) =~= all);
    }
    b
}

impl<'a> IlpTranslator<'a> {
    /// A builder that declares every variable of the planning problem, with
    /// no constraint.
    fn problem_variables(&self) -> (r: ProblemBuilder)
        ensures
            r.variable_set() == problem_var_names(self.validated()),
            r.constraint_list().len() == 0,
    {
        let ghost d = self.validated();
        let gis_set = self.build_group_in_slot_variables();
        let dga_set = self.build_dynamic_group_assignment_variables();
        let sig_set = self.build_student_in_group_variables();
        let ug_set = self.build_use_grouping_variables();
        let igfs_set = self.build_incompat_group_for_student_variables();
        let gows_set = self.build_group_on_week_selection_variables();
        let gis = names_of(&gis_set);
        let dga = names_of(&dga_set);
        let sig = names_of(&sig_set);
        let ug = names_of(&ug_set);
        let igfs = names_of(&igfs_set);
        let gows = names_of(&gows_set);
        let ghost s1 = string_views(gis@);
        let ghost s2 = string_views(dga@);
        let ghost s3 = string_views(sig@);
        let ghost s4 = string_views(ug@);
        let ghost s5 = string_views(igfs@);
        let ghost s6 = string_views(gows@);
        let b = ProblemBuilder::new();
        let b = b.add_variables(gis);
        let b = b.add_variables(dga);
        let b = b.add_variables(sig);
        let b = b.add_variables(ug);
        let b = b.add_variables(igfs);
        let b = b.add_variables(gows);
        proof {
            assert forall|n: Seq<char>| b.variable_set().contains(n) <==> problem_var_names(d).contains(n) by {
                assert(b.variable_set().contains(n) <==> s1.contains(n) || s2.contains(n) || s3.contains(n) || s4.contains(n)
                    || s5.contains(n) || s6.contains(n));
                if problem_var_names(d).contains(n) {
                    let v = choose|v: Variable| #[trigger] is_problem_var(d, v) && variable_name(v) == n;
                    if is_group_in_slot_var(d.subject_list(), v) {
                        assert(gis_set.items().contains(v));
                    } else if is_dynamic_group_assignment_var(d.subject_list(), v) {
                        assert(dga_set.items().contains(v));
                    } else if is_student_in_group_var(d.subject_list(), v) {
                        assert(sig_set.items().contains(v));
                    } else if is_use_grouping_var(d.slot_grouping_list().len() as int, v) {
                        assert(ug_set.items().contains(v));
                    } else if is_incompat_group_for_student_var(d.student_list(), d.incompatibility_list(), v) {
                        assert(igfs_set.items().contains(v));
                    } else {
                        assert(gows_set.items().contains(v));
                    }
                }
                if s1.contains(n) {
                    let v = choose|v: Variable| #[trigger] gis_set.items().contains(v) && variable_name(v) == n;
                    assert(is_problem_var(d, v));
                }
                if s2.contains(n) {
                    let v = choose|v: Variable| #[trigger] dga_set.items().contains(v) && variable_name(v) == n;
                    assert(is_problem_var(d, v));
                }
                if s3.contains(n) {
                    let v = choose|v: Variable| #[trigger] sig_set.items().contains(v) && variable_name(v) == n;
                    assert(is_problem_var(d, v));
                }
                if s4.contains(n) {
                    let v = choose|v: Variable| #[trigger] ug_set.items().contains(v) && variable_name(v) == n;
                    assert(is_problem_var(d, v));
                }
                if s5.contains(n) {
                    let v = choose|v: Variable| #[trigger] igfs_set.items().contains(v) && variable_name(v) == n;
                    assert(is_problem_var(d, v));
                }
                if s6.contains(n) {
                    let v = choose|v: Variable| #[trigger] gows_set.items().contains(v) && variable_name(v) == n;
                    assert(is_problem_var(d, v));
                }
            }
            assert(b.variable_set() =~= problem_var_names(d));
        }
        b
    }

    /// Every variable of the planning problem, kind after kind.
    pub fn problem_variable_list(&self) -> (r: Vec<Variable>)
        ensures
            forall|v: Variable| r@.contains(v) <==> is_problem_var(self.validated(), v),
    {
        let ghost d = self.validated();
        let mut out = self.build_group_in_slot_variables().to_vec();
        let ghost l1 = out@;
        let mut more = self.build_dynamic_group_assignment_variables().to_vec();
        let ghost l2 = more@;
        out.append(&mut more);
        let mut more = self.build_student_in_group_variables().to_vec();
        let ghost l3 = more@;
        out.append(&mut more);
        let mut more = self.build_use_grouping_variables().to_vec();
        let ghost l4 = more@;
        out.append(&mut more);
        let mut more = self.build_incompat_group_for_student_variables().to_vec();
        let ghost l5 = more@;
        out.append(&mut more);
        let mut more = self.build_group_on_week_selection_variables().to_vec();
        let ghost l6 = more@;
        out.append(&mut more);
        proof {
            let all = l1 + l2 + l3 + l4 + l5 + l6;
            assert(out@ =~= all);
            assert forall|v: Variable| out@.contains(v) <==> is_problem_var(d, v) by {
                if is_problem_var(d, v) {
                    let k: int = if is_group_in_slot_var(d.subject_list(), v) {
                        l1.index_of(v)
                    } else if is_dynamic_group_assignment_var(d.subject_list(), v) {
                        l1.len() + l2.index_of(v)
                    } else if is_student_in_group_var(d.subject_list(), v) {
                        l1.len() + l2.len() + l3.index_of(v)
                    } else if is_use_grouping_var(d.slot_grouping_list().len() as int, v) {
                        l1.len() + l2.len() + l3.len() + l4.index_of(v)
                    } else if is_incompat_group_for_student_var(d.student_list(), d.incompatibility_list(), v) {
                        l1.len() + l2.len() + l3.len() + l4.len() + l5.index_of(v)
                    } else {
                        l1.len() + l2.len() + l3.len() + l4.len() + l5.len() + l6.index_of(v)
                    };
                    if is_group_in_slot_var(d.subject_list(), v) {
                        assert(l1.contains(v));
                    } else if is_dynamic_group_assignment_var(d.subject_list(), v) {
                        assert(l2.contains(v));
                    } else if is_student_in_group_var(d.subject_list(), v) {
                        assert(l3.contains(v));
                    } else if is_use_grouping_var(d.slot_grouping_list().len() as int, v) {
                        assert(l4.contains(v));
                    } else if is_incompat_group_for_student_var(d.student_list(), d.incompatibility_list(), v) {
                        assert(l5.contains(v));
                    } else {
                        assert(l6.contains(v));
                    }
                    assert(0 <= k < all.len());
                    assert(all[k] == v);
                    assert(all.contains(v));
                }
                if out@.contains(v) {
                    let k = choose|k: int| 0 <= k < all.len() && all[k] == v;
                    if k < l1.len() {
                        assert(l1.contains(v));
                    } else if k < l1.len() + l2.len() {
                        assert(l2[k - l1.len()] == v);
                        assert(l2.contains(v));
                    } else if k < l1.len() + l2.len() + l3.len() {
                        assert(l3[k - l1.len() - l2.len()] == v);
                        assert(l3.contains(v));
                    } else if k < l1.len() + l2.len() + l3.len() + l4.len() {
                        assert(l4[k - l1.len() - l2.len() - l3.len()] == v);
                        assert(l4.contains(v));
                    } else if k < l1.len() + l2.len() + l3.len() + l4.len() + l5.len() {
                        assert(l5[k - l1.len() - l2.len() - l3.len() - l4.len()] == v);
                        assert(l5.contains(v));
                    } else {
                        assert(l6[k - l1.len() - l2.len() - l3.len() - l4.len() - l5.len()] == v);
                        assert(l6.contains(v));
                    }
                    assert(is_problem_var(d, v));
                }
            }
        }
        out
    }

    /// Every variable, with the goals: as many interrogations in each week
    /// as in the next, no interrogation on a day, and a strict rhythm for
    /// the subjects whose rhythm is not strict.
    pub fn problem_builder_soft(&self) -> (r: ProblemBuilder)
        ensures
            r.variable_set() == problem_var_names(self.validated()),
            r.constraint_list().map_values(|c: Constraint| describe(c)) == soft_descriptions(self.validated()),
    {
        let b = self.problem_variables();
        let c1 = self.build_interrogations_per_week_optimizer();
        let c2 = self.build_max_interrogations_per_day_optimizer();
        let c3 = self.build_one_interrogation_per_period_optimizer();
        let ghost (l1, l2, l3) = (c1@, c2@, c3@);
        let b = add_all(b, c1);
        let b = add_all(b, c2);
        let b = add_all(b, c3);
        proof {
            assert(b.constraint_list() =~= l1 + l2 + l3);
            assert(b.constraint_list().map_values(|c: Constraint| describe(c)) =~= l1.map_values(|c: Constraint| describe(c))
                + l2.map_values(|c: Constraint| describe(c)) + l3.map_values(|c: Constraint| describe(c)));
        }
        b
    }

    /// Every variable, with the rules, family after family (see
    /// `hard_descriptions`), then the balancing constraints given.
    #[verifier::spinoff_prover]
    #[verifier::rlimit(40)]
    pub fn problem_builder_hard(&self, balancing: Vec<Constraint>) -> (r: ProblemBuilder)
        requires
            rules_fit(self.validated()),
        ensures
            r.variable_set() == problem_var_names(self.validated()),
            r.constraint_list().map_values(|c: Constraint| describe(c)) == hard_descriptions(self.validated())
                + balancing@.map_values(|c: Constraint| describe(c)),
    {
        let ghost d = self.validated();
        let b = self.problem_variables();
        let c = self.build_at_most_max_groups_per_slot_constraints();
        let ghost l1 = c@;
        let b = add_all(b, c);
        let c = self.build_at_most_one_interrogation_per_time_unit_constraints();
        let ghost l2 = c@;
        let b = add_all(b, c);
        let c = self.build_one_interrogation_per_period_constraints();
        let ghost l3 = c@;
        let b = add_all(b, c);
        let c = self.build_at_most_one_interrogation_per_period_for_empty_groups_contraints();
        let ghost l4 = c@;
        let b = add_all(b, c);
        let c = self.build_students_per_group_count_constraints();
        let ghost l5 = c@;
        let b = add_all(b, c);
        let c = self.build_student_in_single_group_constraints();
        let ghost l6 = c@;
        let b = add_all(b, c);
        let c = self.build_dynamic_groups_student_in_group_constraints();
        let ghost l7 = c@;
        let b = add_all(b, c);
        let c = self.build_dynamic_groups_group_in_slot_constraints();
        let ghost l8 = c@;
        let b = add_all(b, c);
        let c = self.build_interrogations_per_week_constraints();
        let ghost l9 = c@;
        let b = add_all(b, c);
        let c = self.build_max_interrogations_per_day_constraints();
        let ghost l10 = c@;
        let b = add_all(b, c);
        let c = self.build_grouping_constraints();
        let ghost l11 = c@;
        let b = add_all(b, c);
        let c = self.build_grouping_incompats_constraints();
        let ghost l12 = c@;
        let b = add_all(b, c);
        let c = self.build_incompat_group_for_student_constraints();
        let ghost l13 = c@;
        let b = add_all(b, c);
        let c = self.build_student_incompat_max_count_constraints();
        let ghost l14 = c@;
        let b = add_all(b, c);
        let c = self.build_group_on_week_selection_constraints();
        let ghost l15 = c@;
        let b = add_all(b, c);
        let ghost l16 = balancing@;
        let b = add_all(b, balancing);
        proof {
            let f = |c: Constraint| describe(c);
            assert(b.constraint_list() =~= l1 + l2 + l3 + l4 + l5 + l6 + l7 + l8 + l9 + l10 + l11 + l12 + l13 + l14 + l15 + l16);
            assert(b.constraint_list().map_values(f) =~= l1.map_values(f) + l2.map_values(f) + l3.map_values(f) + l4.map_values(f)
                + l5.map_values(f) + l6.map_values(f) + l7.map_values(f) + l8.map_values(f) + l9.map_values(f) + l10.map_values(f)
                + l11.map_values(f) + l12.map_values(f) + l13.map_values(f) + l14.map_values(f) + l15.map_values(f)
                + l16.map_values(f));
        }
        b
    }
}

impl<'a> IlpTranslator<'a> {
    /// Whether the numbers that the rules turn into `i32` constants fit in an
    /// `i32` (see `rules_fit`).
    pub fn constants_fit(&self) -> (r: bool)
        ensures
            r == rules_fit(self.validated()),
    {
        let d = self.data();
        let subjects = d.subjects();
        let max: usize = 0x7fff_ffff;
        let mut i: usize = 0;
        while i < subjects.len()
            invariant
                subjects@ == self.validated().subject_list(),
                max == i32::MAX,
                0 <= i <= subjects@.len(),
                forall|u: int| 0 <= u < i ==> (#[trigger] subjects@[u]).max_groups_per_slot.val() <= i32::MAX,
                forall|u: int| 0 <= u < i ==> group_bounds_fit(#[trigger] subjects@[u]),
            decreases subjects@.len() - i,
        {
            let subject = &subjects[i];
            if subject.max_groups_per_slot.get() > max {
                return false;
            }
            let groups = &subject.groups.prefilled_groups;
            let end: usize = subject.students_per_group.end.get();
            let start: usize = subject.students_per_group.start.get();
            let mut k: usize = 0;
            while k < groups.len()
                invariant
                    subjects@ == self.validated().subject_list(),
                    0 <= i < subjects@.len(),
                    *subject == subjects@[i as int],
                    groups@ == subject.groups.prefilled_groups@,
                    max == i32::MAX,
                    end == subject.students_per_group.end.val(),
                    start == subject.students_per_group.start.val(),
                    0 <= k <= groups@.len(),
                    forall|kk: int|
                        0 <= kk < k && !group_is_fixed(#[trigger] groups@[kk], *subject) ==> {
                            let len = groups@[kk].students@.len();
                            &&& subject.students_per_group.end.val() - len <= i32::MAX
                            &&& subject.students_per_group.start.val() - len <= i32::MAX
                        },
                decreases groups@.len() - k,
            {
                if !is_group_fixed(&groups[k], subject) {
                    let len: usize = groups[k].students.len();
                    if (end > len && end - len > max) || (start > len && start - len > max) {
                        proof {
                            let sj = subjects@[i as int];
                            assert(sj.groups.prefilled_groups@[k as int] == groups@[k as int]);
                            assert(!group_is_fixed(sj.groups.prefilled_groups@[k as int], sj));
                            assert(sj.groups.prefilled_groups@[k as int].students@.len() == len);
                            assert(!group_bounds_fit(sj));
                        }
                        return false;
                    }
                }
                k = k + 1;
            }
            i = i + 1;
        }
        let g = d.general();
        match &g.interrogations_per_week {
            Some(range) => {
                if range.start > 0x7fff_ffff || range.end > 0x7fff_ffff {
                    return false;
                }
            },
            None => {},
        }
        match &g.max_interrogations_per_day {
            Some(m) => {
                if m.get() > 0x7fff_ffff {
                    return false;
                }
            },
            None => {},
        }
        let gis = d.slot_grouping_incompats();
        let mut u: usize = 0;
        while u < gis.len()
            invariant
                gis.items() == self.validated().grouping_incompat_list(),
                max == i32::MAX,
                0 <= u <= gis.items().len(),
                forall|t: int| 0 <= t < u ==> (#[trigger] gis.items()[t]).max_count.val() <= i32::MAX,
            decreases gis.items().len() - u,
        {
            if gis.get(u).max_count.get() > max {
                return false;
            }
            u = u + 1;
        }
        let incs = d.incompatibilities();
        let mut u: usize = 0;
        while u < incs.len()
            invariant
                incs@ == self.validated().incompatibility_list(),
                max == i32::MAX,
                0 <= u <= incs@.len(),
                forall|t: int| 0 <= t < u ==> (#[trigger] incs@[t]).max_count <= i32::MAX,
            decreases incs@.len() - u,
        {
            if incs[u].max_count > max {
                return false;
            }
            u = u + 1;
        }
        true
    }
}

/// Every configuration of a problem over exactly the variables of the data,
/// as the soft and hard problems are, reads back as a colloscope: each
/// variable that the solution of a subject is read from is declared.
pub proof fn lemma_problem_configs_readable(d: ValidatedData, c: Config)
    requires
        c.problem().variable_names().to_set() == problem_var_names(d),
    ensures
        forall|i: int| 0 <= i < d.subject_list().len() ==> subject_readable(c, i, #[trigger] d.subject_list()[i]),
{
    let ss = d.subject_list();
    let names = c.problem().variable_names();
    d.lemma_subject_count_fits();
    assert forall|i: int| 0 <= i < ss.len() implies subject_readable(c, i, #[trigger] ss[i]) by {
        let s = ss[i];
        assert forall|k: int, st: usize|
            0 <= k < s.groups.prefilled_groups@.len() && !group_is_fixed(s.groups.prefilled_groups@[k], s)
                && s.groups.not_assigned@.contains(st) implies #[trigger] config_value(
                c,
                Variable::StudentInGroup { subject: i as usize, student: st, group: k as usize },
            ) is Some by {
            let v = Variable::StudentInGroup { subject: i as usize, student: st, group: k as usize };
            vstd::std_specs::vec::axiom_spec_len(&s.groups.prefilled_groups);
            assert(is_student_in_group_var(ss, v));
            assert(is_problem_var(d, v));
            assert(problem_var_names(d).contains(variable_name(v)));
            assert(names.to_set().contains(variable_name(v)));
        }
        assert forall|j: int, k: int|
            0 <= j < s.slots@.len() && 0 <= k < s.groups.prefilled_groups@.len() implies #[trigger] config_value(
                c,
                Variable::GroupInSlot { subject: i as usize, slot: j as usize, group: k as usize },
            ) is Some by {
            vstd::std_specs::vec::axiom_spec_len(&s.slots);
            vstd::std_specs::vec::axiom_spec_len(&s.groups.prefilled_groups);
            let v = Variable::GroupInSlot { subject: i as usize, slot: j as usize, group: k as usize };
            assert(is_problem_var(d, v));
            assert(problem_var_names(d).contains(variable_name(v)));
            assert(names.to_set().contains(variable_name(v)));
        }
    }
}

} // verus!
