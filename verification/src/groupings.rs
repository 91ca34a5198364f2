//! Constraints on slot groupings, on incompatible groupings, and on the
//! incompatibilities of the students.

use vstd::prelude::*;

use crate::colloscope::{
    variable_name, week_selections, Incompatibility, SlotGroupingIncompat, SlotRef, Subject, Variable, WeekSelection,
};
use crate::groups::{leq_description, var_leq};
use crate::interrogations::{count_at_most, count_description, describe, is_count_constraint, names_of_vars, ones, sum_of_vars};
use crate::linexpr::{scale_map, sum_map, Constraint, Expr, Sign};
use crate::sets::{sorted_usize, usize_elems};
use crate::translator::IlpTranslator;
use crate::validation::lemma_first_at_least_none;

verus! {

broadcast use {vstd::std_specs::btree::group_btree_axioms, vstd::laws_cmp::group_laws_cmp};

/// The names of the variables of the slot groupings of an incompatibility.
pub open spec fn grouping_use_names(gi: SlotGroupingIncompat) -> Set<Seq<char>> {
    Set::new(|n: Seq<char>| exists|g: usize| gi.groupings@.contains(g) && #[trigger] variable_name(Variable::UseGrouping(g)) == n)
}

/// The names of the variables saying that `student` has each incompatibility
/// group of an incompatibility.
pub open spec fn incompat_group_names(incompat: Incompatibility, student: usize) -> Set<Seq<char>> {
    Set::new(
        |n: Seq<char>|
            exists|g: usize|
                incompat.groups@.contains(g) && #[trigger] variable_name(
                    Variable::IncompatGroupForStudent { incompat_group: g, student },
                ) == n,
    )
}

/// The variable of the use of each slot grouping of a list.
fn use_grouping_vars(indices: &Vec<usize>) -> (r: Vec<Variable>)
    ensures
        r@.len() == indices@.len(),
        forall|u: int| 0 <= u < r@.len() ==> #[trigger] r@[u] == Variable::UseGrouping(indices@[u]),
{
    let mut out: Vec<Variable> = Vec::new();
    let mut t: usize = 0;
    while t < indices.len()
        invariant
            0 <= t <= indices@.len(),
            out@.len() == t,
            forall|u: int| 0 <= u < t ==> #[trigger] out@[u] == Variable::UseGrouping(indices@[u]),
        decreases indices@.len() - t,
    {
        out.push(Variable::UseGrouping(indices[t]));
        t = t + 1;
    }
    out
}

/// The variable saying that `student` has each incompatibility group of a
/// list.
fn incompat_group_vars(indices: &Vec<usize>, student: usize) -> (r: Vec<Variable>)
    ensures
        r@.len() == indices@.len(),
        forall|u: int|
            0 <= u < r@.len() ==> #[trigger] r@[u] == (Variable::IncompatGroupForStudent { incompat_group: indices@[u], student }),
{
    let mut out: Vec<Variable> = Vec::new();
    let mut t: usize = 0;
    while t < indices.len()
        invariant
            0 <= t <= indices@.len(),
            out@.len() == t,
            forall|u: int|
                0 <= u < t ==> #[trigger] out@[u] == (Variable::IncompatGroupForStudent { incompat_group: indices@[u], student }),
        decreases indices@.len() - t,
    {
        out.push(Variable::IncompatGroupForStudent { incompat_group: indices[t], student });
        t = t + 1;
    }
    out
}

/// The constraints of the slot groupings, grouping after grouping, slot
/// after slot: each group in a slot of a grouping uses the grouping.
pub open spec fn grouping_slot_descriptions(ss: Seq<Subject>, i: int, slot: SlotRef) -> Seq<(Map<Seq<char>, i32>, int, Sign)> {
    Seq::new(
        ss[slot.subject as int].groups.prefilled_groups@.len(),
        |k: int|
            leq_description(
                Variable::GroupInSlot { subject: slot.subject, slot: slot.slot, group: k as usize },
                Variable::UseGrouping(i as usize),
            ),
    )
}

/// The constraints of the first `n` slots of a grouping.
pub open spec fn grouping_slots_descriptions(ss: Seq<Subject>, i: int, slots: Seq<SlotRef>, n: int) -> Seq<
    (Map<Seq<char>, i32>, int, Sign),
>
    decreases n,
{
    if n <= 0 {
        Seq::empty()
    } else {
        grouping_slots_descriptions(ss, i, slots, n - 1) + grouping_slot_descriptions(ss, i, slots[n - 1])
    }
}

/// The constraints of the first `n` slot groupings.
pub open spec fn groupings_descriptions(ss: Seq<Subject>, sgs: Seq<crate::colloscope::SlotGrouping>, n: int) -> Seq<
    (Map<Seq<char>, i32>, int, Sign),
>
    decreases n,
{
    if n <= 0 {
        Seq::empty()
    } else {
        groupings_descriptions(ss, sgs, n - 1) + grouping_slots_descriptions(
            ss,
            n - 1,
            sgs[n - 1].slots.items(),
            sgs[n - 1].slots.items().len() as int,
        )
    }
}

/// The constraints of the students' incompatibilities for the first `n`
/// students, incompatibilities in increasing order.
pub open spec fn incompat_count_descriptions(incs: Seq<Incompatibility>, students: Seq<crate::colloscope::Student>, n: int) -> Seq<
    (Map<Seq<char>, i32>, int, Sign),
>
    decreases n,
{
    if n <= 0 {
        Seq::empty()
    } else {
        incompat_count_descriptions(incs, students, n - 1) + sorted_usize(students[n - 1].incompatibilities@).map_values(
            |j: usize| count_description(incompat_group_names(incs[j as int], (n - 1) as usize), 1, -incs[j as int].max_count, Sign::LessThan),
        )
    }
}

impl<'a> IlpTranslator<'a> {
    /// Group `k` in the slot of grouping `i` uses the grouping.
    pub fn build_grouping_constraint_for_group_in_slot(&self, i: usize, slot: &SlotRef, k: usize) -> (r: Constraint)
        ensures
            describe(r) == leq_description(
                Variable::GroupInSlot { subject: slot.subject, slot: slot.slot, group: k },
                Variable::UseGrouping(i),
            ),
    {
        var_leq(Variable::GroupInSlot { subject: slot.subject, slot: slot.slot, group: k }, Variable::UseGrouping(i))
    }

    /// The constraints of the slot groupings: each group in a slot of a
    /// grouping uses the grouping; grouping after grouping, slot after slot,
    /// group after group.
    pub fn build_grouping_constraints(&self) -> (r: Vec<Constraint>)
        ensures
            r@.map_values(|c: Constraint| describe(c)) == groupings_descriptions(
                self.validated().subject_list(),
                self.validated().slot_grouping_list(),
                self.validated().slot_grouping_list().len() as int,
            ),
    {
        let data = self.data();
        data.check_valid();
        let subjects = data.subjects();
        let groupings = data.slot_groupings();
        let ghost ss = subjects@;
        let ghost sgs = groupings@;
        let n_groupings: usize = groupings.len();
        let mut constraints: Vec<Constraint> = Vec::new();
        let mut i: usize = 0;
        while i < groupings.len()
            invariant
                ss == subjects@,
                ss == data.subject_list(),
                sgs == groupings@,
                sgs == data.slot_grouping_list(),
                n_groupings == sgs.len(),
                data.check_valid_spec(),
                0 <= i <= sgs.len(),
                constraints@.map_values(|c: Constraint| describe(c)) == groupings_descriptions(ss, sgs, i as int),
            decreases sgs.len() - i,
        {
            let grouping = &groupings[i];
            let ghost items = grouping.slots.items();
            let ghost base = constraints@.map_values(|c: Constraint| describe(c));
            let mut t: usize = 0;
            while t < grouping.slots.len()
                invariant
                    ss == subjects@,
                    ss == data.subject_list(),
                    sgs == data.slot_grouping_list(),
                    n_groupings == sgs.len(),
                    data.check_valid_spec(),
                    0 <= i < sgs.len(),
                    *grouping == sgs[i as int],
                    items == grouping.slots.items(),
                    0 <= t <= items.len(),
                    constraints@.map_values(|c: Constraint| describe(c)) == base + grouping_slots_descriptions(ss, i as int, items, t as int),
                decreases items.len() - t,
            {
                let slot = grouping.slots.get(t);
                proof {
                    data.lemma_valid_slot_ref(i as int, t as int);
                }
                let subject = &subjects[slot.subject];
                let ghost part = grouping_slot_descriptions(ss, i as int, *slot);
                let ghost slot_base = constraints@.map_values(|c: Constraint| describe(c));
                let mut k: usize = 0;
                while k < subject.groups.prefilled_groups.len()
                    invariant
                        *subject == ss[slot.subject as int],
                        part == grouping_slot_descriptions(ss, i as int, *slot),
                        0 <= k <= subject.groups.prefilled_groups@.len(),
                        constraints@.map_values(|c: Constraint| describe(c)) == slot_base + part.take(k as int),
                    decreases subject.groups.prefilled_groups@.len() - k,
                {
                    let c = self.build_grouping_constraint_for_group_in_slot(i, slot, k);
                    let ghost before = constraints@;
                    constraints.push(c);
                    proof {
                        assert(part.take(k + 1) =~= part.take(k as int).push(describe(c)));
                        assert(constraints@.map_values(|c: Constraint| describe(c)) =~= before.map_values(|c: Constraint| describe(c)).push(describe(c)));
                    }
                    k = k + 1;
                }
                proof {
                    assert(part.take(k as int) =~= part);
                }
                t = t + 1;
            }
            i = i + 1;
        }
        constraints
    }

    /// At most `max_count` of the groupings of the incompatibility used.
    pub fn build_grouping_incompats_constraint_for_incompat(&self, grouping_incompat: &SlotGroupingIncompat) -> (r: Constraint)
        requires
            grouping_incompat.max_count.val() <= i32::MAX,
        ensures
            is_count_constraint(r, grouping_use_names(*grouping_incompat), 1, -grouping_incompat.max_count.val(), Sign::LessThan),
    {
        let ghost names = grouping_use_names(*grouping_incompat);
        let indices = usize_elems(&grouping_incompat.groupings);
        let vars = use_grouping_vars(&indices);
        proof {
            assert forall|n: Seq<char>| names_of_vars(vars@).contains(n) <==> names.contains(n) by {
                if names_of_vars(vars@).contains(n) {
                    let u = choose|u: int| 0 <= u < vars@.len() && variable_name(#[trigger] vars@[u]) == n;
                    assert(indices@.to_set().contains(indices@[u]));
                    assert(variable_name(Variable::UseGrouping(indices@[u])) == n);
                }
                if names.contains(n) {
                    let g = choose|g: usize| grouping_incompat.groupings@.contains(g) && #[trigger] variable_name(Variable::UseGrouping(g)) == n;
                    assert(indices@.to_set().contains(g));
                    let u = choose|u: int| 0 <= u < indices@.len() && indices@[u] == g;
                    assert(variable_name(vars@[u]) == n);
                }
            }
            assert(names_of_vars(vars@) =~= names);
        }
        let (expr, _) = sum_of_vars(&vars);
        let max: i32 = grouping_incompat.max_count.get() as i32;
        count_at_most(&expr, max, Ghost(names))
    }

    /// At most `max_count` of the groupings of each incompatibility used, in
    /// the order of the incompatibilities.
    pub fn build_grouping_incompats_constraints(&self) -> (r: Vec<Constraint>)
        requires
            forall|u: int|
                0 <= u < self.validated().grouping_incompat_list().len() ==> (#[trigger] self.validated().grouping_incompat_list()[u]).max_count.val()
                    <= i32::MAX,
        ensures
            r@.map_values(|c: Constraint| describe(c)) == self.validated().grouping_incompat_list().map_values(
                |gi: SlotGroupingIncompat| count_description(grouping_use_names(gi), 1, -gi.max_count.val(), Sign::LessThan),
            ),
    {
        let list = self.data().slot_grouping_incompats();
        let ghost items = list.items();
        let ghost expected = items.map_values(
            |gi: SlotGroupingIncompat| count_description(grouping_use_names(gi), 1, -gi.max_count.val(), Sign::LessThan),
        );
        let mut constraints: Vec<Constraint> = Vec::new();
        let mut t: usize = 0;
        while t < list.len()
            invariant
                items == list.items(),
                items == self.validated().grouping_incompat_list(),
                forall|u: int| 0 <= u < items.len() ==> (#[trigger] items[u]).max_count.val() <= i32::MAX,
                expected == items.map_values(
                    |gi: SlotGroupingIncompat| count_description(grouping_use_names(gi), 1, -gi.max_count.val(), Sign::LessThan),
                ),
                0 <= t <= items.len(),
                constraints@.map_values(|c: Constraint| describe(c)) == expected.take(t as int),
            decreases items.len() - t,
        {
            let gi = list.get(t);
            assert(gi.max_count.val() <= i32::MAX);
            let c = self.build_grouping_incompats_constraint_for_incompat(gi);
            let ghost before = constraints@;
            constraints.push(c);
            proof {
                assert(expected.take(t + 1) =~= expected.take(t as int).push(describe(c)));
                assert(constraints@.map_values(|c: Constraint| describe(c)) =~= before.map_values(|c: Constraint| describe(c)).push(describe(c)));
            }
            t = t + 1;
        }
        proof {
            assert(expected.take(t as int) =~= expected);
        }
        constraints
    }

    /// At most `max_count` of the incompatibility groups of the
    /// incompatibility for `student`.
    pub fn build_student_incompat_max_count_constraint_for_student_and_incompat(
        &self,
        student: usize,
        incompat: &Incompatibility,
    ) -> (r: Constraint)
        requires
            incompat.max_count <= i32::MAX,
        ensures
            is_count_constraint(r, incompat_group_names(*incompat, student), 1, -incompat.max_count, Sign::LessThan),
    {
        let ghost names = incompat_group_names(*incompat, student);
        let indices = usize_elems(&incompat.groups);
        let vars = incompat_group_vars(&indices, student);
        proof {
            assert forall|n: Seq<char>| names_of_vars(vars@).contains(n) <==> names.contains(n) by {
                if names_of_vars(vars@).contains(n) {
                    let u = choose|u: int| 0 <= u < vars@.len() && variable_name(#[trigger] vars@[u]) == n;
                    assert(indices@.to_set().contains(indices@[u]));
                    assert(variable_name(Variable::IncompatGroupForStudent { incompat_group: indices@[u], student }) == n);
                }
                if names.contains(n) {
                    let g = choose|g: usize|
                        incompat.groups@.contains(g) && #[trigger] variable_name(
                            Variable::IncompatGroupForStudent { incompat_group: g, student },
                        ) == n;
                    assert(indices@.to_set().contains(g));
                    let u = choose|u: int| 0 <= u < indices@.len() && indices@[u] == g;
                    assert(variable_name(vars@[u]) == n);
                }
            }
            assert(names_of_vars(vars@) =~= names);
        }
        let (expr, _) = sum_of_vars(&vars);
        let max: i32 = incompat.max_count as i32;
        count_at_most(&expr, max, Ghost(names))
    }

    /// For each student and each of their incompatibilities, in increasing
    /// order, at most `max_count` of its incompatibility groups.
    pub fn build_student_incompat_max_count_constraints(&self) -> (r: Vec<Constraint>)
        requires
            forall|u: int|
                0 <= u < self.validated().incompatibility_list().len() ==> (#[trigger] self.validated().incompatibility_list()[u]).max_count
                    <= i32::MAX,
        ensures
            r@.map_values(|c: Constraint| describe(c)) == incompat_count_descriptions(
                self.validated().incompatibility_list(),
                self.validated().student_list(),
                self.validated().student_list().len() as int,
            ),
    {
        let data = self.data();
        data.check_valid();
        let students = data.students();
        let incompats = data.incompatibilities();
        let ghost sts = students@;
        let ghost incs = incompats@;
        let n_students: usize = students.len();
        let mut constraints: Vec<Constraint> = Vec::new();
        let mut i: usize = 0;
        while i < students.len()
            invariant
                sts == students@,
                sts == data.student_list(),
                incs == incompats@,
                incs == data.incompatibility_list(),
                n_students == sts.len(),
                data.check_valid_spec(),
                forall|u: int| 0 <= u < incs.len() ==> (#[trigger] incs[u]).max_count <= i32::MAX,
                0 <= i <= sts.len(),
                constraints@.map_values(|c: Constraint| describe(c)) == incompat_count_descriptions(incs, sts, i as int),
            decreases sts.len() - i,
        {
            let list = usize_elems(&students[i].incompatibilities);
            proof {
                data.lemma_valid_student_incompats(i as int);
                lemma_first_at_least_none(list@, incs.len() as usize as int, list@.len() as int);
            }
            let ghost part = list@.map_values(
                |j: usize| count_description(incompat_group_names(incs[j as int], i), 1, -incs[j as int].max_count, Sign::LessThan),
            );
            let ghost base = constraints@.map_values(|c: Constraint| describe(c));
            let mut t: usize = 0;
            while t < list.len()
                invariant
                    incs == incompats@,
                    forall|u: int| 0 <= u < incs.len() ==> (#[trigger] incs[u]).max_count <= i32::MAX,
                    forall|u: int| 0 <= u < list@.len() ==> #[trigger] list@[u] < incs.len() as usize as int,
                    part == list@.map_values(
                        |j: usize| count_description(incompat_group_names(incs[j as int], i), 1, -incs[j as int].max_count, Sign::LessThan),
                    ),
                    0 <= t <= list@.len(),
                    constraints@.map_values(|c: Constraint| describe(c)) == base + part.take(t as int),
                decreases list@.len() - t,
            {
                let j: usize = list[t];
                assert(j < incs.len());
                let incompat = &incompats[j];
                assert(incompat.max_count <= i32::MAX);
                let c = self.build_student_incompat_max_count_constraint_for_student_and_incompat(i, incompat);
                let ghost before = constraints@;
                constraints.push(c);
                proof {
                    assert(part.take(t + 1) =~= part.take(t as int).push(describe(c)));
                    assert(constraints@.map_values(|c: Constraint| describe(c)) =~= before.map_values(|c: Constraint| describe(c)).push(describe(c)));
                }
                t = t + 1;
            }
            proof {
                assert(part.take(t as int) =~= part);
            }
            i = i + 1;
        }
        constraints
    }
}

/// The slots of subject `s` that fall in a week of the selection, in order.
pub open spec fn selected_slots(s: Subject, selection: Set<u32>) -> Seq<int> {
    Seq::new(s.slots@.len(), |j: int| j).filter(|j: int| selection.contains(s.slots@[j].start.week))
}

/// The names of the variables putting group `k` of subject `i` in each slot
/// of the selection.
pub open spec fn selected_slot_names(s: Subject, i: int, selection: Set<u32>, k: int) -> Set<Seq<char>> {
    Set::new(
        |n: Seq<char>|
            exists|j: usize|
                j < s.slots@.len() && selection.contains(s.slots@[j as int].start.week) && #[trigger] variable_name(
                    Variable::GroupInSlot { subject: i as usize, slot: j, group: k as usize },
                ) == n,
    )
}

/// The constraints of week selection `j` (weeks `selection`) for group `k`
/// of subject `s` (number `i`): group `k` in a slot of the selection is on
/// the selection, slot after slot; then the group is on the selection only
/// when in one of its slots.
pub open spec fn week_selection_descriptions(s: Subject, i: int, j: int, selection: Set<u32>, k: int) -> Seq<
    (Map<Seq<char>, i32>, int, Sign),
> {
    let gows = Variable::GroupOnWeekSelection { subject: i as usize, week_selection: j as usize, group: k as usize };
    selected_slots(s, selection).map_values(
        |sn: int| leq_description(Variable::GroupInSlot { subject: i as usize, slot: sn as usize, group: k as usize }, gows),
    ) + seq![
        (
            sum_map(map![variable_name(gows) => 1i32], scale_map(ones(selected_slot_names(s, i, selection, k)), -1)),
            0int,
            Sign::LessThan,
        ),
    ]
}

/// The constraints of week selection `j` for the first `n` groups.
pub open spec fn week_selection_groups_descriptions(s: Subject, i: int, j: int, selection: Set<u32>, n: int) -> Seq<
    (Map<Seq<char>, i32>, int, Sign),
>
    decreases n,
{
    if n <= 0 {
        Seq::empty()
    } else {
        week_selection_groups_descriptions(s, i, j, selection, n - 1) + week_selection_descriptions(s, i, j, selection, n - 1)
    }
}

/// The constraints of the first `n` week selections of subject `s`.
pub open spec fn week_selections_descriptions(s: Subject, i: int, sels: Seq<Set<u32>>, n: int) -> Seq<
    (Map<Seq<char>, i32>, int, Sign),
>
    decreases n,
{
    if n <= 0 {
        Seq::empty()
    } else {
        week_selections_descriptions(s, i, sels, n - 1) + week_selection_groups_descriptions(
            s,
            i,
            n - 1,
            sels[n - 1],
            s.groups.prefilled_groups@.len() as int,
        )
    }
}

/// The week selection constraints of the first `n` subjects (none for a
/// subject without balancing requirements).
pub open spec fn all_week_selections_descriptions(ss: Seq<Subject>, n: int) -> Seq<(Map<Seq<char>, i32>, int, Sign)>
    decreases n,
{
    if n <= 0 {
        Seq::empty()
    } else {
        let s = ss[n - 1];
        all_week_selections_descriptions(ss, n - 1) + match s.balancing_requirements {
            None => Seq::empty(),
            Some(br) => week_selections_descriptions(s, n - 1, week_selections(br.object), week_selections(br.object).len() as int),
        }
    }
}

impl<'a> IlpTranslator<'a> {
    /// The constraints of week selection `j` for group `k` of subject
    /// `subject` (number `i`): group `k` in a slot of the selection is on the
    /// selection, slot after slot; then the group is on the selection only
    /// when in one of its slots.
    pub fn build_group_on_week_selection_constraints_for_subject_week_selection_and_group(
        &self,
        i: usize,
        subject: &Subject,
        j: usize,
        week_selection: &WeekSelection,
        k: usize,
    ) -> (r: Vec<Constraint>)
        ensures
            r@.map_values(|c: Constraint| describe(c)) == week_selection_descriptions(
                *subject,
                i as int,
                j as int,
                week_selection.selection@,
                k as int,
            ),
    {
        let ghost sel = week_selection.selection@;
        let ghost all_j = Seq::new(subject.slots@.len(), |u: int| u);
        let ghost keep = |u: int| sel.contains(subject.slots@[u].start.week);
        let gows_var = Variable::GroupOnWeekSelection { subject: i, week_selection: j, group: k };
        let ghost first_part = selected_slots(*subject, sel).map_values(
            |sn: int| leq_description(Variable::GroupInSlot { subject: i, slot: sn as usize, group: k }, gows_var),
        );
        let mut constraints: Vec<Constraint> = Vec::new();
        let mut vars: Vec<Variable> = Vec::new();
        let mut slot_num: usize = 0;
        while slot_num < subject.slots.len()
            invariant
                sel == week_selection.selection@,
                all_j == Seq::new(subject.slots@.len(), |u: int| u),
                keep == (|u: int| sel.contains(subject.slots@[u].start.week)),
                gows_var == (Variable::GroupOnWeekSelection { subject: i, week_selection: j, group: k }),
                0 <= slot_num <= subject.slots@.len(),
                constraints@.map_values(|c: Constraint| describe(c)) == all_j.take(slot_num as int).filter(keep).map_values(
                    |sn: int| leq_description(Variable::GroupInSlot { subject: i, slot: sn as usize, group: k }, gows_var),
                ),
                vars@ == all_j.take(slot_num as int).filter(keep).map_values(
                    |sn: int| Variable::GroupInSlot { subject: i, slot: sn as usize, group: k },
                ),
            decreases subject.slots@.len() - slot_num,
        {
            let selected = week_selection.selection.contains(&subject.slots[slot_num].start.week);
            let ghost before = constraints@;
            let ghost before_vars = vars@;
            proof {
                assert(all_j.take(slot_num + 1) =~= all_j.take(slot_num as int).push(slot_num as int));
                reveal(Seq::filter);
                assert(all_j.take(slot_num + 1).drop_last() =~= all_j.take(slot_num as int));
            }
            if selected {
                let gis_var = Variable::GroupInSlot { subject: i, slot: slot_num, group: k };
                let c = var_leq(gis_var, gows_var);
                constraints.push(c);
                vars.push(gis_var);
                proof {
                    assert(all_j.take(slot_num + 1).filter(keep) == all_j.take(slot_num as int).filter(keep).push(slot_num as int));
                    assert(constraints@.map_values(|c: Constraint| describe(c)) =~= before.map_values(|c: Constraint| describe(c)).push(describe(c)));
                    assert(constraints@.map_values(|c: Constraint| describe(c)) =~= all_j.take(slot_num + 1).filter(keep).map_values(
                        |sn: int| leq_description(Variable::GroupInSlot { subject: i, slot: sn as usize, group: k }, gows_var),
                    ));
                    assert(vars@ =~= all_j.take(slot_num + 1).filter(keep).map_values(
                        |sn: int| Variable::GroupInSlot { subject: i, slot: sn as usize, group: k },
                    ));
                }
            } else {
                proof {
                    assert(all_j.take(slot_num + 1).filter(keep) == all_j.take(slot_num as int).filter(keep));
                }
            }
            slot_num = slot_num + 1;
        }
        proof {
            assert(all_j.take(slot_num as int) =~= all_j);
        }
        let ghost names = selected_slot_names(*subject, i as int, sel, k as int);
        proof {
            let listed = all_j.filter(keep);
            assert forall|n: Seq<char>| names_of_vars(vars@).contains(n) <==> names.contains(n) by {
                if names_of_vars(vars@).contains(n) {
                    let u = choose|u: int| 0 <= u < vars@.len() && variable_name(#[trigger] vars@[u]) == n;
                    let sn = listed[u];
                    assert(listed.contains(sn));
                    all_j.lemma_filter_contains_rev(keep, sn);
                    all_j.lemma_filter_pred(keep, u);
                    assert(vars@[u] == Variable::GroupInSlot { subject: i, slot: sn as usize, group: k });
                    assert(keep(sn));
                    assert(variable_name(Variable::GroupInSlot { subject: i, slot: (sn as usize), group: k }) == n);
                    assert(0 <= sn < subject.slots@.len());
                }
                if names.contains(n) {
                    let sj = choose|sj: usize|
                        sj < subject.slots@.len() && sel.contains(subject.slots@[sj as int].start.week) && #[trigger] variable_name(
                            Variable::GroupInSlot { subject: i, slot: sj, group: k },
                        ) == n;
                    assert(all_j[sj as int] == sj as int);
                    all_j.lemma_filter_contains(keep, sj as int);
                    let u = choose|u: int| 0 <= u < listed.len() && listed[u] == sj as int;
                    assert(variable_name(vars@[u]) == n);
                }
            }
            assert(names_of_vars(vars@) =~= names);
        }
        let (expr_sum, _) = sum_of_vars(&vars);
        let expr_gows = Expr::var(gows_var.to_string().as_str());
        let last = expr_gows.leq(&expr_sum);
        let ghost before = constraints@;
        constraints.push(last);
        proof {
            assert(constraints@.map_values(|c: Constraint| describe(c)) =~= before.map_values(|c: Constraint| describe(c)).push(describe(last)));
            assert(constraints@.map_values(|c: Constraint| describe(c)) =~= week_selection_descriptions(
                *subject,
                i as int,
                j as int,
                sel,
                k as int,
            ));
        }
        constraints
    }

    /// The week selection constraints of the subjects with balancing
    /// requirements: subject after subject, selection after selection, group
    /// after group.
    pub fn build_group_on_week_selection_constraints(&self) -> (r: Vec<Constraint>)
        ensures
            r@.map_values(|c: Constraint| describe(c)) == all_week_selections_descriptions(
                self.validated().subject_list(),
                self.validated().subject_list().len() as int,
            ),
    {
        let subjects = self.data().subjects();
        let ghost ss = subjects@;
        let mut constraints: Vec<Constraint> = Vec::new();
        let mut i: usize = 0;
        while i < subjects.len()
            invariant
                ss == subjects@,
                0 <= i <= ss.len(),
                constraints@.map_values(|c: Constraint| describe(c)) == all_week_selections_descriptions(ss, i as int),
            decreases ss.len() - i,
        {
            let subject = &subjects[i];
            match &subject.balancing_requirements {
                None => {},
                Some(br) => {
                    let list = br.object.extract_week_selections();
                    let ghost sels = week_selections(br.object);
                    let ghost base = constraints@.map_values(|c: Constraint| describe(c));
                    let mut j: usize = 0;
                    while j < list.len()
                        invariant
                            *subject == ss[i as int],
                            subject.balancing_requirements == Some(*br),
                            sels == week_selections(br.object),
                            list@.len() == sels.len(),
                            forall|u: int| 0 <= u < list@.len() ==> #[trigger] list@[u].selection@ == sels[u],
                            0 <= j <= list@.len(),
                            constraints@.map_values(|c: Constraint| describe(c)) == base + week_selections_descriptions(
                                *subject,
                                i as int,
                                sels,
                                j as int,
                            ),
                        decreases list@.len() - j,
                    {
                        let ghost sel_base = constraints@.map_values(|c: Constraint| describe(c));
                        let mut k: usize = 0;
                        while k < subject.groups.prefilled_groups.len()
                            invariant
                                0 <= j < list@.len(),
                                list@[j as int].selection@ == sels[j as int],
                                0 <= k <= subject.groups.prefilled_groups@.len(),
                                constraints@.map_values(|c: Constraint| describe(c)) == sel_base + week_selection_groups_descriptions(
                                    *subject,
                                    i as int,
                                    j as int,
                                    sels[j as int],
                                    k as int,
                                ),
                            decreases subject.groups.prefilled_groups@.len() - k,
                        {
                            let more = self.build_group_on_week_selection_constraints_for_subject_week_selection_and_group(
                                i,
                                subject,
                                j,
                                &list[j],
                                k,
                            );
                            let ghost before = constraints@;
                            crate::rhythm::append_constraints(&mut constraints, more);
                            proof {
                                assert(constraints@.map_values(|c: Constraint| describe(c)) =~= before.map_values(
                                    |c: Constraint| describe(c),
                                ) + more@.map_values(|c: Constraint| describe(c)));
                            }
                            k = k + 1;
                        }
                        j = j + 1;
                    }
                },
            }
            i = i + 1;
        }
        constraints
    }
}

} // verus!
