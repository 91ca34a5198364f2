//! The 0/1 variables of the planning problem of a validated colloscope.

use vstd::prelude::*;

use std::collections::BTreeSet;

use crate::colloscope::{
    lemma_variable_key_injective, variable_name, week_selections, Colloscope, ColloscopeSubject, GroupDesc,
    Incompatibility, Student, Subject, Variable,
};
use crate::ilp::{Config, FeasableConfig};
use crate::sets::usize_elems;
use crate::sorted::{lemma_sorted_set_members, SortKey, SortedVec};
use crate::validation::ValidatedData;

verus! {

broadcast use {vstd::std_specs::btree::group_btree_axioms, vstd::laws_cmp::group_laws_cmp, vstd::seq_lib::group_seq_properties};

/// A group is fixed when it cannot receive more students: it is not
/// extensible, or it is full.
pub open spec fn group_is_fixed(g: GroupDesc, s: Subject) -> bool {
    !g.can_be_extended || g.students@.len() == s.students_per_group.end.val()
}

/// `v` says that group `group` of subject `subject` is interrogated in slot `slot`.
pub open spec fn is_group_in_slot_var(subjects: Seq<Subject>, v: Variable) -> bool {
    &&& v matches Variable::GroupInSlot { subject, slot, group }
    &&& subject < subjects.len()
    &&& slot < subjects[subject as int].slots@.len()
    &&& group < subjects[subject as int].groups.prefilled_groups@.len()
}

/// `v` says that a group of a subject with balancing requirements is
/// interrogated on a week selection of these requirements.
pub open spec fn is_group_on_week_selection_var(subjects: Seq<Subject>, v: Variable) -> bool {
    &&& v matches Variable::GroupOnWeekSelection { subject, week_selection, group }
    &&& subject < subjects.len()
    &&& subjects[subject as int].balancing_requirements is Some
    &&& week_selection < week_selections(subjects[subject as int].balancing_requirements->0.object).len()
    &&& group < subjects[subject as int].groups.prefilled_groups@.len()
}

/// `v` says that a student still to be placed joins a group that is not
/// fixed, for one slot of the subject.
pub open spec fn is_dynamic_group_assignment_var(subjects: Seq<Subject>, v: Variable) -> bool {
    &&& v matches Variable::DynamicGroupAssignment { subject, slot, group, student }
    &&& subject < subjects.len()
    &&& subjects[subject as int].groups.not_assigned@.contains(student)
    &&& slot < subjects[subject as int].slots@.len()
    &&& group < subjects[subject as int].groups.prefilled_groups@.len()
    &&& !group_is_fixed(subjects[subject as int].groups.prefilled_groups@[group as int], subjects[subject as int])
}

/// `v` says that a student still to be placed joins a group that is not fixed.
pub open spec fn is_student_in_group_var(subjects: Seq<Subject>, v: Variable) -> bool {
    &&& v matches Variable::StudentInGroup { subject, student, group }
    &&& subject < subjects.len()
    &&& subjects[subject as int].groups.not_assigned@.contains(student)
    &&& group < subjects[subject as int].groups.prefilled_groups@.len()
    &&& !group_is_fixed(subjects[subject as int].groups.prefilled_groups@[group as int], subjects[subject as int])
}

/// `v` says that a slot grouping is used.
pub open spec fn is_use_grouping_var(n_groupings: int, v: Variable) -> bool {
    &&& v matches Variable::UseGrouping(i)
    &&& i < n_groupings
}

/// `v` says that a student must leave free an incompatibility group named by
/// one of the student's incompatibilities.
pub open spec fn is_incompat_group_for_student_var(students: Seq<Student>, incs: Seq<Incompatibility>, v: Variable) -> bool {
    &&& v matches Variable::IncompatGroupForStudent { incompat_group, student }
    &&& student < students.len()
    &&& exists|j: usize|
        students[student as int].incompatibilities@.contains(j) && j < incs.len() && #[trigger] incs[j as int].groups@.contains(
            incompat_group,
        )
}

/// Reads a validated colloscope as a planning problem.
pub struct IlpTranslator<'a> {
    data: &'a ValidatedData,
}

impl<'a> IlpTranslator<'a> {
    /// The data being translated.
    pub closed spec fn validated(self) -> ValidatedData {
        *self.data
    }

    /// The data being translated.
    pub(crate) fn data(&self) -> (r: &'a ValidatedData)
        ensures
            *r == self.validated(),
    {
        self.data
    }
}

impl ValidatedData {
    /// The translator of this data into a planning problem.
    pub fn ilp_translator(&self) -> (r: IlpTranslator<'_>)
        ensures
            r.validated() == *self,
    {
        IlpTranslator { data: self }
    }
}

/// Whether a group cannot receive more students.
pub fn is_group_fixed(group: &GroupDesc, subject: &Subject) -> (r: bool)
    ensures
        r == group_is_fixed(*group, *subject),
{
    !group.can_be_extended || group.students.len() == subject.students_per_group.end.get()
}

/// The set of the variables of a list: sorted, each once.
fn variable_set(out: Vec<Variable>, Ghost(pred): Ghost<spec_fn(Variable) -> bool>) -> (r: SortedVec<Variable>)
    requires
        forall|v: Variable| out@.contains(v) <==> pred(v),
    ensures
        forall|v: Variable| r.items().contains(v) <==> pred(v),
{
    let ghost list = out@;
    let r = SortedVec::from_vec(out);
    proof {
        assert forall|a: Variable, b: Variable| #[trigger] a.sort_key() == #[trigger] b.sort_key() implies a == b by {
            lemma_variable_key_injective(a, b);
        }
        lemma_sorted_set_members(list, r.items());
    }
    r
}

impl<'a> IlpTranslator<'a> {
    /// One variable for each subject, slot of that subject and group of that subject.
    pub fn build_group_in_slot_variables(&self) -> (r: SortedVec<Variable>)
        ensures
            forall|v: Variable| r.items().contains(v) <==> is_group_in_slot_var(self.validated().subject_list(), v),
    {
        let subjects = self.data.subjects();
        let ghost ss = subjects@;
        let mut out: Vec<Variable> = Vec::new();
        let mut i: usize = 0;
        while i < subjects.len()
            invariant
                ss == subjects@,
                0 <= i <= ss.len(),
                forall|v: Variable| #[trigger] out@.contains(v) <==> (is_group_in_slot_var(ss, v) && v->GroupInSlot_subject < i),
            decreases ss.len() - i,
        {
            let n_slots: usize = subjects[i].slots.len();
            let n_groups: usize = subjects[i].groups.prefilled_groups.len();
            let mut j: usize = 0;
            while j < n_slots
                invariant
                    ss == subjects@,
                    0 <= i < ss.len(),
                    n_slots == ss[i as int].slots@.len(),
                    n_groups == ss[i as int].groups.prefilled_groups@.len(),
                    0 <= j <= n_slots,
                    forall|v: Variable| #[trigger] out@.contains(v) <==> (is_group_in_slot_var(ss, v) && (v->GroupInSlot_subject < i
                        || (v->GroupInSlot_subject == i && v->GroupInSlot_slot < j))),
                decreases n_slots - j,
            {
                let mut k: usize = 0;
                while k < n_groups
                    invariant
                        ss == subjects@,
                        0 <= i < ss.len(),
                        n_slots == ss[i as int].slots@.len(),
                        n_groups == ss[i as int].groups.prefilled_groups@.len(),
                        0 <= j < n_slots,
                        0 <= k <= n_groups,
                        forall|v: Variable| #[trigger] out@.contains(v) <==> (is_group_in_slot_var(ss, v) && (v->GroupInSlot_subject < i
                            || (v->GroupInSlot_subject == i && v->GroupInSlot_slot < j)
                            || (v->GroupInSlot_subject == i && v->GroupInSlot_slot == j && v->GroupInSlot_group < k))),
                    decreases n_groups - k,
                {
                    out.push(Variable::GroupInSlot { subject: i, slot: j, group: k });
                    k = k + 1;
                }
                j = j + 1;
            }
            i = i + 1;
        }
        variable_set(out, Ghost(|v: Variable| is_group_in_slot_var(ss, v)))
    }

    /// One variable for each subject with balancing requirements, week
    /// selection of these requirements and group of the subject.
    pub fn build_group_on_week_selection_variables(&self) -> (r: SortedVec<Variable>)
        ensures
            forall|v: Variable|
                r.items().contains(v) <==> is_group_on_week_selection_var(self.validated().subject_list(), v),
    {
        let subjects = self.data.subjects();
        let ghost ss = subjects@;
        let mut out: Vec<Variable> = Vec::new();
        let mut i: usize = 0;
        while i < subjects.len()
            invariant
                ss == subjects@,
                0 <= i <= ss.len(),
                forall|v: Variable|
                    #[trigger] out@.contains(v) <==> (is_group_on_week_selection_var(ss, v)
                        && v->GroupOnWeekSelection_subject < i),
            decreases ss.len() - i,
        {
            let n_groups: usize = subjects[i].groups.prefilled_groups.len();
            match &subjects[i].balancing_requirements {
                None => {},
                Some(br) => {
                    let n_ws: usize = br.object.week_selection_count();
                    let mut j: usize = 0;
                    while j < n_ws
                        invariant
                            ss == subjects@,
                            0 <= i < ss.len(),
                            ss[i as int].balancing_requirements == Some(*br),
                            n_ws == week_selections(br.object).len(),
                            n_groups == ss[i as int].groups.prefilled_groups@.len(),
                            0 <= j <= n_ws,
                            forall|v: Variable|
                                #[trigger] out@.contains(v) <==> (is_group_on_week_selection_var(ss, v) && (
                                v->GroupOnWeekSelection_subject < i || (v->GroupOnWeekSelection_subject == i
                                    && v->GroupOnWeekSelection_week_selection < j))),
                        decreases n_ws - j,
                    {
                        let mut k: usize = 0;
                        while k < n_groups
                            invariant
                                ss == subjects@,
                                0 <= i < ss.len(),
                                ss[i as int].balancing_requirements == Some(*br),
                                n_ws == week_selections(br.object).len(),
                                n_groups == ss[i as int].groups.prefilled_groups@.len(),
                                0 <= j < n_ws,
                                0 <= k <= n_groups,
                                forall|v: Variable|
                                    #[trigger] out@.contains(v) <==> (is_group_on_week_selection_var(ss, v) && (
                                    v->GroupOnWeekSelection_subject < i || (v->GroupOnWeekSelection_subject == i
                                        && v->GroupOnWeekSelection_week_selection < j) || (
                                    v->GroupOnWeekSelection_subject == i && v->GroupOnWeekSelection_week_selection
                                        == j && v->GroupOnWeekSelection_group < k))),
                            decreases n_groups - k,
                        {
                            out.push(Variable::GroupOnWeekSelection { subject: i, week_selection: j, group: k });
                            k = k + 1;
                        }
                        j = j + 1;
                    }
                },
            }
            i = i + 1;
        }
        variable_set(out, Ghost(|v: Variable| is_group_on_week_selection_var(ss, v)))
    }

    /// One variable for each subject, student of that subject still to be
    /// placed, slot of the subject and group of the subject that is not fixed.
    pub fn build_dynamic_group_assignment_variables(&self) -> (r: SortedVec<Variable>)
        ensures
            forall|v: Variable|
                r.items().contains(v) <==> is_dynamic_group_assignment_var(self.validated().subject_list(), v),
    {
        let subjects = self.data.subjects();
        let ghost ss = subjects@;
        let mut out: Vec<Variable> = Vec::new();
        let mut i: usize = 0;
        while i < subjects.len()
            invariant
                ss == subjects@,
                0 <= i <= ss.len(),
                forall|v: Variable|
                    #[trigger] out@.contains(v) <==> (is_dynamic_group_assignment_var(ss, v)
                        && v->DynamicGroupAssignment_subject < i),
            decreases ss.len() - i,
        {
            let subject = &subjects[i];
            let students = usize_elems(&subject.groups.not_assigned);
            let n_slots: usize = subject.slots.len();
            let n_groups: usize = subject.groups.prefilled_groups.len();
            let mut t: usize = 0;
            while t < students.len()
                invariant
                    ss == subjects@,
                    0 <= i < ss.len(),
                    *subject == ss[i as int],
                    students@.to_set() == subject.groups.not_assigned@,
                    crate::sets::increasing_usize(students@),
                    n_slots == subject.slots@.len(),
                    n_groups == subject.groups.prefilled_groups@.len(),
                    0 <= t <= students@.len(),
                    forall|v: Variable|
                        #[trigger] out@.contains(v) <==> (is_dynamic_group_assignment_var(ss, v) && (
                        v->DynamicGroupAssignment_subject < i || (v->DynamicGroupAssignment_subject == i
                            && students@.take(t as int).contains(v->DynamicGroupAssignment_student)))),
                decreases students@.len() - t,
            {
                let l: usize = students[t];
                let mut j: usize = 0;
                while j < n_slots
                    invariant
                        ss == subjects@,
                        0 <= i < ss.len(),
                        *subject == ss[i as int],
                        students@.to_set() == subject.groups.not_assigned@,
                        crate::sets::increasing_usize(students@),
                        n_slots == subject.slots@.len(),
                        n_groups == subject.groups.prefilled_groups@.len(),
                        0 <= t < students@.len(),
                        l == students@[t as int],
                        0 <= j <= n_slots,
                        forall|v: Variable|
                            #[trigger] out@.contains(v) <==> (is_dynamic_group_assignment_var(ss, v) && (
                            v->DynamicGroupAssignment_subject < i || (v->DynamicGroupAssignment_subject == i
                                && students@.take(t as int).contains(v->DynamicGroupAssignment_student)) || (
                            v->DynamicGroupAssignment_subject == i && v->DynamicGroupAssignment_student == l
                                && v->DynamicGroupAssignment_slot < j))),
                    decreases n_slots - j,
                {
                    let mut k: usize = 0;
                    while k < n_groups
                        invariant
                            ss == subjects@,
                            0 <= i < ss.len(),
                            *subject == ss[i as int],
                            students@.to_set() == subject.groups.not_assigned@,
                            crate::sets::increasing_usize(students@),
                            n_slots == subject.slots@.len(),
                            n_groups == subject.groups.prefilled_groups@.len(),
                            0 <= t < students@.len(),
                            l == students@[t as int],
                            0 <= j < n_slots,
                            0 <= k <= n_groups,
                            forall|v: Variable|
                                #[trigger] out@.contains(v) <==> (is_dynamic_group_assignment_var(ss, v) && (
                                v->DynamicGroupAssignment_subject < i || (v->DynamicGroupAssignment_subject == i
                                    && students@.take(t as int).contains(v->DynamicGroupAssignment_student)) || (
                                v->DynamicGroupAssignment_subject == i && v->DynamicGroupAssignment_student == l
                                    && v->DynamicGroupAssignment_slot < j) || (v->DynamicGroupAssignment_subject
                                    == i && v->DynamicGroupAssignment_student == l
                                    && v->DynamicGroupAssignment_slot == j && v->DynamicGroupAssignment_group
                                    < k))),
                        decreases n_groups - k,
                    {
                        proof {
                            assert(students@.to_set().contains(l));
                        }
                        if !is_group_fixed(&subject.groups.prefilled_groups[k], subject) {
                            out.push(Variable::DynamicGroupAssignment { subject: i, slot: j, group: k, student: l });
                        }
                        k = k + 1;
                    }
                    j = j + 1;
                }
                proof {
                    assert(students@.take(t + 1) =~= students@.take(t as int).push(l));
                    assert forall|v: Variable| #[trigger] out@.contains(v) implies is_dynamic_group_assignment_var(ss, v) by {
                    }
                    assert forall|v: Variable|
                        is_dynamic_group_assignment_var(ss, v) && v->DynamicGroupAssignment_subject == i
                            && v->DynamicGroupAssignment_student == l implies #[trigger] out@.contains(v) by {
                        assert(v->DynamicGroupAssignment_slot < n_slots);
                    }
                }
                t = t + 1;
            }
            proof {
                assert(students@.take(t as int) =~= students@);
                assert forall|v: Variable|
                    is_dynamic_group_assignment_var(ss, v) && v->DynamicGroupAssignment_subject == i implies #[trigger] out@.contains(v) by {
                    assert(students@.to_set().contains(v->DynamicGroupAssignment_student));
                }
            }
            i = i + 1;
        }
        variable_set(out, Ghost(|v: Variable| is_dynamic_group_assignment_var(ss, v)))
    }

    /// One variable for each subject, student of that subject still to be
    /// placed and group of the subject that is not fixed.
    pub fn build_student_in_group_variables(&self) -> (r: SortedVec<Variable>)
        ensures
            forall|v: Variable| r.items().contains(v) <==> is_student_in_group_var(self.validated().subject_list(), v),
    {
        let subjects = self.data.subjects();
        let ghost ss = subjects@;
        let mut out: Vec<Variable> = Vec::new();
        let mut i: usize = 0;
        while i < subjects.len()
            invariant
                ss == subjects@,
                0 <= i <= ss.len(),
                forall|v: Variable|
                    #[trigger] out@.contains(v) <==> (is_student_in_group_var(ss, v) && v->StudentInGroup_subject < i),
            decreases ss.len() - i,
        {
            let subject = &subjects[i];
            let students = usize_elems(&subject.groups.not_assigned);
            let n_groups: usize = subject.groups.prefilled_groups.len();
            let mut t: usize = 0;
            while t < students.len()
                invariant
                    ss == subjects@,
                    0 <= i < ss.len(),
                    *subject == ss[i as int],
                    students@.to_set() == subject.groups.not_assigned@,
                    crate::sets::increasing_usize(students@),
                    n_groups == subject.groups.prefilled_groups@.len(),
                    0 <= t <= students@.len(),
                    forall|v: Variable|
                        #[trigger] out@.contains(v) <==> (is_student_in_group_var(ss, v) && (v->StudentInGroup_subject < i
                            || (v->StudentInGroup_subject == i && students@.take(t as int).contains(
                            v->StudentInGroup_student,
                        )))),
                decreases students@.len() - t,
            {
                let l: usize = students[t];
                let mut k: usize = 0;
                while k < n_groups
                    invariant
                        ss == subjects@,
                        0 <= i < ss.len(),
                        *subject == ss[i as int],
                        students@.to_set() == subject.groups.not_assigned@,
                        crate::sets::increasing_usize(students@),
                        n_groups == subject.groups.prefilled_groups@.len(),
                        0 <= t < students@.len(),
                        l == students@[t as int],
                        0 <= k <= n_groups,
                        forall|v: Variable|
                            #[trigger] out@.contains(v) <==> (is_student_in_group_var(ss, v) && (v->StudentInGroup_subject
                                < i || (v->StudentInGroup_subject == i && students@.take(t as int).contains(
                                v->StudentInGroup_student,
                            )) || (v->StudentInGroup_subject == i && v->StudentInGroup_student == l
                                && v->StudentInGroup_group < k))),
                    decreases n_groups - k,
                {
                    proof {
                        assert(students@.to_set().contains(l));
                    }
                    if !is_group_fixed(&subject.groups.prefilled_groups[k], subject) {
                        out.push(Variable::StudentInGroup { subject: i, student: l, group: k });
                    }
                    k = k + 1;
                }
                proof {
                    assert(students@.take(t + 1) =~= students@.take(t as int).push(l));
                }
                t = t + 1;
            }
            proof {
                assert(students@.take(t as int) =~= students@);
                assert forall|v: Variable|
                    is_student_in_group_var(ss, v) && v->StudentInGroup_subject == i implies #[trigger] out@.contains(v) by {
                    assert(students@.to_set().contains(v->StudentInGroup_student));
                }
            }
            i = i + 1;
        }
        variable_set(out, Ghost(|v: Variable| is_student_in_group_var(ss, v)))
    }

    /// One variable for each slot grouping.
    pub fn build_use_grouping_variables(&self) -> (r: SortedVec<Variable>)
        ensures
            forall|v: Variable|
                r.items().contains(v) <==> is_use_grouping_var(self.validated().slot_grouping_list().len() as int, v),
    {
        let n: usize = self.data.slot_groupings().len();
        let mut out: Vec<Variable> = Vec::new();
        let mut i: usize = 0;
        while i < n
            invariant
                0 <= i <= n,
                forall|v: Variable| #[trigger] out@.contains(v) <==> is_use_grouping_var(i as int, v),
            decreases n - i,
        {
            out.push(Variable::UseGrouping(i));
            i = i + 1;
        }
        variable_set(out, Ghost(|v: Variable| is_use_grouping_var(n as int, v)))
    }

    /// One variable for each student and incompatibility group of one of the
    /// incompatibilities of the student.
    pub fn build_incompat_group_for_student_variables(&self) -> (r: SortedVec<Variable>)
        ensures
            forall|v: Variable|
                r.items().contains(v) <==> is_incompat_group_for_student_var(
                    self.validated().student_list(),
                    self.validated().incompatibility_list(),
                    v,
                ),
    {
        self.data.check_valid();
        let students = self.data.students();
        let incs = self.data.incompatibilities();
        let ghost sts = students@;
        let ghost is = incs@;
        let mut out: Vec<Variable> = Vec::new();
        let mut i: usize = 0;
        while i < students.len()
            invariant
                sts == students@,
                is == incs@,
                sts == self.data.student_list(),
                is == self.data.incompatibility_list(),
                self.data.check_valid_spec(),
                0 <= i <= sts.len(),
                forall|v: Variable|
                    #[trigger] out@.contains(v) <==> (is_incompat_group_for_student_var(sts, is, v)
                        && v->IncompatGroupForStudent_student < i),
            decreases sts.len() - i,
        {
            let incompat_list = usize_elems(&students[i].incompatibilities);
            let n_incs: usize = incs.len();
            proof {
                assert(is.len() as usize as int == is.len());
                self.data.lemma_valid_student_incompats(i as int);
                crate::validation::lemma_first_at_least_none(incompat_list@, is.len() as int, incompat_list@.len() as int);
            }
            let mut t: usize = 0;
            while t < incompat_list.len()
                invariant
                    sts == students@,
                    is == incs@,
                    0 <= i < sts.len(),
                    incompat_list@.to_set() == sts[i as int].incompatibilities@,
                    forall|u: int| 0 <= u < incompat_list@.len() ==> #[trigger] incompat_list@[u] < is.len(),
                    0 <= t <= incompat_list@.len(),
                    forall|v: Variable|
                        #[trigger] out@.contains(v) <==> (is_incompat_group_for_student_var(sts, is, v) && (
                        v->IncompatGroupForStudent_student < i || (v->IncompatGroupForStudent_student == i
                            && exists|u: int|
                            0 <= u < t && #[trigger] is[incompat_list@[u] as int].groups@.contains(
                                v->IncompatGroupForStudent_incompat_group,
                            )))),
                decreases incompat_list@.len() - t,
            {
                let j: usize = incompat_list[t];
                let groups = usize_elems(&incs[j].groups);
                let mut u: usize = 0;
                while u < groups.len()
                    invariant
                        sts == students@,
                        is == incs@,
                        0 <= i < sts.len(),
                        incompat_list@.to_set() == sts[i as int].incompatibilities@,
                        forall|u: int| 0 <= u < incompat_list@.len() ==> #[trigger] incompat_list@[u] < is.len(),
                        0 <= t < incompat_list@.len(),
                        j == incompat_list@[t as int],
                        groups@.to_set() == is[j as int].groups@,
                        0 <= u <= groups@.len(),
                        forall|v: Variable|
                            #[trigger] out@.contains(v) <==> (is_incompat_group_for_student_var(sts, is, v) && (
                            v->IncompatGroupForStudent_student < i || (v->IncompatGroupForStudent_student == i
                                && exists|w: int|
                                0 <= w < t && #[trigger] is[incompat_list@[w] as int].groups@.contains(
                                    v->IncompatGroupForStudent_incompat_group,
                                )) || (v->IncompatGroupForStudent_student == i && groups@.take(u as int).contains(
                                v->IncompatGroupForStudent_incompat_group,
                            )))),
                    decreases groups@.len() - u,
                {
                    let k: usize = groups[u];
                    let x = Variable::IncompatGroupForStudent { incompat_group: k, student: i };
                    proof {
                        assert(groups@.to_set().contains(k));
                        assert(is[j as int].groups@.contains(k));
                        assert(incompat_list@.to_set().contains(j));
                        assert(sts[i as int].incompatibilities@.contains(j));
                        assert(j < is.len());
                        assert(exists|jj: usize|
                            sts[i as int].incompatibilities@.contains(jj) && jj < is.len()
                                && #[trigger] is[jj as int].groups@.contains(k));
                        assert(x is IncompatGroupForStudent);
                        assert(x->IncompatGroupForStudent_student == i);
                        assert(x->IncompatGroupForStudent_incompat_group == k);
                        assert(is_incompat_group_for_student_var(sts, is, x));
                        assert(groups@.take(u + 1) =~= groups@.take(u as int).push(k));
                    }
                    out.push(x);
                    u = u + 1;
                }
                proof {
                    assert(groups@.take(u as int) =~= groups@);
                    assert forall|v: Variable|
                        #[trigger] out@.contains(v) <==> (is_incompat_group_for_student_var(sts, is, v) && (
                        v->IncompatGroupForStudent_student < i || (v->IncompatGroupForStudent_student == i
                            && exists|w: int|
                            0 <= w < t + 1 && #[trigger] is[incompat_list@[w] as int].groups@.contains(
                                v->IncompatGroupForStudent_incompat_group,
                            )))) by {
                        let g = v->IncompatGroupForStudent_incompat_group;
                        if groups@.contains(g) {
                            assert(groups@.to_set().contains(g));
                        }
                        if is[j as int].groups@.contains(g) {
                            assert(groups@.to_set().contains(g));
                        }
                    }
                }
                t = t + 1;
            }
            proof {
                assert forall|v: Variable|
                    #[trigger] out@.contains(v) <==> (is_incompat_group_for_student_var(sts, is, v)
                        && v->IncompatGroupForStudent_student < i + 1) by {
                    if is_incompat_group_for_student_var(sts, is, v) && v->IncompatGroupForStudent_student == i {
                        let g = v->IncompatGroupForStudent_incompat_group;
                        let jj = choose|jj: usize|
                            sts[i as int].incompatibilities@.contains(jj) && jj < is.len() && #[trigger] is[jj as int].groups@.contains(g);
                        assert(incompat_list@.to_set().contains(jj));
                        let w = choose|w: int| 0 <= w < incompat_list@.len() && incompat_list@[w] == jj;
                        assert(is[incompat_list@[w] as int].groups@.contains(g));
                    }
                    if out@.contains(v) && v->IncompatGroupForStudent_student == i {
                        assert(is_incompat_group_for_student_var(sts, is, v));
                    }
                }
            }
            i = i + 1;
        }
        variable_set(out, Ghost(|v: Variable| is_incompat_group_for_student_var(sts, is, v)))
    }
}

/// The value a configuration gives a variable, when its problem declares it.
pub open spec fn config_value(c: Config, v: Variable) -> Option<bool> {
    let names = c.problem().variable_names();
    if names.contains(variable_name(v)) {
        Some(c.values()[names.index_of(variable_name(v))])
    } else {
        None
    }
}

/// Every variable that the solution of subject `i` is read from is declared:
/// student `st` in group `k` for the groups that can still grow and the
/// students to place, and group `k` in slot `j` for every slot and group.
pub open spec fn subject_readable(c: Config, i: int, s: Subject) -> bool {
    &&& forall|k: int, st: usize|
        0 <= k < s.groups.prefilled_groups@.len() && !group_is_fixed(s.groups.prefilled_groups@[k], s)
            && s.groups.not_assigned@.contains(st) ==> #[trigger] config_value(
            c,
            Variable::StudentInGroup { subject: i as usize, student: st, group: k as usize },
        ) is Some
    &&& forall|j: int, k: int|
        0 <= j < s.slots@.len() && 0 <= k < s.groups.prefilled_groups@.len() ==> #[trigger] config_value(
            c,
            Variable::GroupInSlot { subject: i as usize, slot: j as usize, group: k as usize },
        ) is Some
}

/// The students of group `k` of subject `i` in a solution: those already in
/// it, and, unless it is fixed, the students to place that the solution
/// puts in it.
pub open spec fn solution_group(c: Config, i: int, s: Subject, k: int) -> Set<usize> {
    let g = s.groups.prefilled_groups@[k];
    if group_is_fixed(g, s) {
        g.students@
    } else {
        g.students@ + s.groups.not_assigned@.filter(
            |st: usize| config_value(c, Variable::StudentInGroup { subject: i as usize, student: st, group: k as usize }) == Some(true),
        )
    }
}

/// The groups interrogated in slot `j` of subject `i` in a solution.
pub open spec fn solution_slot(c: Config, i: int, s: Subject, j: int) -> Set<usize> {
    Set::new(
        |k: usize|
            k < s.groups.prefilled_groups@.len() && config_value(
                c,
                Variable::GroupInSlot { subject: i as usize, slot: j as usize, group: k },
            ) == Some(true),
    )
}

/// `r` is subject `i` as read from the solution.
pub open spec fn is_solution_subject(c: Config, i: int, s: Subject, r: ColloscopeSubject) -> bool {
    &&& r.groups@.len() == s.groups.prefilled_groups@.len()
    &&& forall|k: int| 0 <= k < r.groups@.len() ==> (#[trigger] r.groups@[k])@ == solution_group(c, i, s, k)
    &&& r.slots@.len() == s.slots@.len()
    &&& forall|j: int| 0 <= j < r.slots@.len() ==> (#[trigger] r.slots@[j])@ == solution_slot(c, i, s, j)
}

/// The value of a variable in a configuration, or `None` when its problem
/// does not declare it.
fn read_variable(config: &Config, v: Variable) -> (r: Option<bool>)
    ensures
        r == config_value(*config, v),
{
    let name = v.to_string();
    match config.get(name.as_str()) {
        Ok(b) => {
            proof {
                let names = config.problem().variable_names();
                let idx = names.index_of(variable_name(v));
                assert(0 <= idx < names.len() && names[idx] == variable_name(v));
            }
            Some(b)
        },
        Err(_) => None,
    }
}

impl<'a> IlpTranslator<'a> {
    /// Subject `i` as read from a configuration, or `None` when the
    /// configuration lacks one of the variables it is read from.
    fn read_subject(&self, config: &Config, i: usize, subject: &Subject) -> (r: Option<ColloscopeSubject>)
        ensures
            r is Some <==> subject_readable(*config, i as int, *subject),
            r matches Some(cs) ==> is_solution_subject(*config, i as int, *subject, cs),
    {
        let ghost s = *subject;
        let n_groups: usize = subject.groups.prefilled_groups.len();
        let students = usize_elems(&subject.groups.not_assigned);
        let mut groups: Vec<BTreeSet<usize>> = Vec::new();
        let mut k: usize = 0;
        while k < n_groups
            invariant
                s == *subject,
                n_groups == s.groups.prefilled_groups@.len(),
                students@.to_set() == s.groups.not_assigned@,
                0 <= k <= n_groups,
                groups@.len() == k,
                forall|u: int| 0 <= u < k ==> (#[trigger] groups@[u])@ == solution_group(*config, i as int, s, u),
                forall|u: int, st: usize|
                    0 <= u < k && !group_is_fixed(s.groups.prefilled_groups@[u], s) && s.groups.not_assigned@.contains(st)
                        ==> #[trigger] config_value(
                        *config,
                        Variable::StudentInGroup { subject: i, student: st, group: u as usize },
                    ) is Some,
            decreases n_groups - k,
        {
            let group = &subject.groups.prefilled_groups[k];
            let mut output = group.students.clone();
            if !is_group_fixed(group, subject) {
                let mut t: usize = 0;
                while t < students.len()
                    invariant
                        s == *subject,
                        n_groups == s.groups.prefilled_groups@.len(),
                        students@.to_set() == s.groups.not_assigned@,
                        0 <= k < n_groups,
                        *group == s.groups.prefilled_groups@[k as int],
                        !group_is_fixed(*group, s),
                        0 <= t <= students@.len(),
                        output@ == group.students@ + Set::new(
                            |st: usize|
                                students@.take(t as int).contains(st) && config_value(
                                    *config,
                                    Variable::StudentInGroup { subject: i, student: st, group: k },
                                ) == Some(true),
                        ),
                        forall|u: int|
                            0 <= u < t ==> #[trigger] config_value(
                                *config,
                                Variable::StudentInGroup { subject: i, student: students@[u], group: k },
                            ) is Some,
                    decreases students@.len() - t,
                {
                    let st: usize = students[t];
                    let value = read_variable(config, Variable::StudentInGroup { subject: i, student: st, group: k });
                    match value {
                        None => {
                            proof {
                                assert(students@.to_set().contains(st));
                                assert(!subject_readable(*config, i as int, s)) by {
                                    assert(config_value(
                                        *config,
                                        Variable::StudentInGroup { subject: (i as int) as usize, student: st, group: (k as int) as usize },
                                    ) is None);
                                }
                            }
                            return None;
                        },
                        Some(b) => {
                            let ghost before = output@;
                            if b {
                                output.insert(st);
                            }
                            proof {
                                assert(students@.take(t + 1) =~= students@.take(t as int).push(st));
                                assert(output@ =~= group.students@ + Set::new(
                                    |x: usize|
                                        students@.take(t + 1).contains(x) && config_value(
                                            *config,
                                            Variable::StudentInGroup { subject: i, student: x, group: k },
                                        ) == Some(true),
                                ));
                            }
                        },
                    }
                    t = t + 1;
                }
                proof {
                    assert(students@.take(t as int) =~= students@);
                    assert(output@ =~= solution_group(*config, i as int, s, k as int));
                    assert forall|st: usize| s.groups.not_assigned@.contains(st) implies #[trigger] config_value(
                        *config,
                        Variable::StudentInGroup { subject: i, student: st, group: k },
                    ) is Some by {
                        assert(students@.to_set().contains(st));
                        let u = choose|u: int| 0 <= u < students@.len() && students@[u] == st;
                        assert(config_value(*config, Variable::StudentInGroup { subject: i, student: students@[u], group: k }) is Some);
                    }
                }
            }
            groups.push(output);
            proof {
                assert forall|u: int, st: usize|
                    0 <= u < k + 1 && !group_is_fixed(s.groups.prefilled_groups@[u], s) && s.groups.not_assigned@.contains(st)
                        implies #[trigger] config_value(
                        *config,
                        Variable::StudentInGroup { subject: i, student: st, group: u as usize },
                    ) is Some by {
                    if u == k {
                        assert(u as usize == k);
                    }
                }
            }
            k = k + 1;
        }
        let n_slots: usize = subject.slots.len();
        let mut slots: Vec<BTreeSet<usize>> = Vec::new();
        let mut j: usize = 0;
        while j < n_slots
            invariant
                s == *subject,
                n_groups == s.groups.prefilled_groups@.len(),
                n_slots == s.slots@.len(),
                0 <= j <= n_slots,
                slots@.len() == j,
                forall|u: int| 0 <= u < j ==> (#[trigger] slots@[u])@ == solution_slot(*config, i as int, s, u),
                forall|u: int, w: int|
                    0 <= u < j && 0 <= w < n_groups ==> #[trigger] config_value(
                        *config,
                        Variable::GroupInSlot { subject: i, slot: u as usize, group: w as usize },
                    ) is Some,
            decreases n_slots - j,
        {
            let mut assigned: BTreeSet<usize> = BTreeSet::new();
            let mut w: usize = 0;
            while w < n_groups
                invariant
                    s == *subject,
                    n_groups == s.groups.prefilled_groups@.len(),
                    n_slots == s.slots@.len(),
                    0 <= j < n_slots,
                    0 <= w <= n_groups,
                    assigned@ == Set::new(
                        |x: usize|
                            x < w && config_value(*config, Variable::GroupInSlot { subject: i, slot: j, group: x }) == Some(true),
                    ),
                    forall|x: int|
                        0 <= x < w ==> #[trigger] config_value(
                            *config,
                            Variable::GroupInSlot { subject: i, slot: j, group: x as usize },
                        ) is Some,
                decreases n_groups - w,
            {
                match read_variable(config, Variable::GroupInSlot { subject: i, slot: j, group: w }) {
                    None => {
                        proof {
                            assert(!subject_readable(*config, i as int, s)) by {
                                assert(config_value(
                                    *config,
                                    Variable::GroupInSlot { subject: (i as int) as usize, slot: (j as int) as usize, group: (w as int) as usize },
                                ) is None);
                            }
                        }
                        return None;
                    },
                    Some(b) => {
                        if b {
                            assigned.insert(w);
                        }
                        proof {
                            assert(assigned@ =~= Set::new(
                                |x: usize|
                                    x < w + 1 && config_value(*config, Variable::GroupInSlot { subject: i, slot: j, group: x })
                                        == Some(true),
                            ));
                        }
                    },
                }
                w = w + 1;
            }
            proof {
                assert(assigned@ =~= solution_slot(*config, i as int, s, j as int));
            }
            slots.push(assigned);
            proof {
                assert forall|u: int, x: int|
                    0 <= u < j + 1 && 0 <= x < n_groups implies #[trigger] config_value(
                        *config,
                        Variable::GroupInSlot { subject: i, slot: u as usize, group: x as usize },
                    ) is Some by {
                    if u == j {
                        assert(u as usize == j);
                    }
                }
            }
            j = j + 1;
        }
        Some(ColloscopeSubject { groups, slots })
    }

    /// The colloscope that a feasable configuration describes, or `None`
    /// when the configuration lacks one of the variables it is read from.
    pub fn read_solution(&self, config: &FeasableConfig) -> (r: Option<Colloscope>)
        ensures
            r is Some <==> forall|i: int|
                0 <= i < self.validated().subject_list().len() ==> subject_readable(
                    config.inner_config(),
                    i,
                    #[trigger] self.validated().subject_list()[i],
                ),
            r matches Some(col) ==> {
                &&& col.subjects@.len() == self.validated().subject_list().len()
                &&& forall|i: int|
                    0 <= i < col.subjects@.len() ==> is_solution_subject(
                        config.inner_config(),
                        i,
                        self.validated().subject_list()[i],
                        #[trigger] col.subjects@[i],
                    )
            },
    {
        let c = config.inner();
        let data_subjects = self.data.subjects();
        let ghost ss = data_subjects@;
        let mut subjects: Vec<ColloscopeSubject> = Vec::new();
        let mut i: usize = 0;
        while i < data_subjects.len()
            invariant
                ss == data_subjects@,
                ss == self.validated().subject_list(),
                *c == config.inner_config(),
                0 <= i <= ss.len(),
                subjects@.len() == i,
                forall|u: int| 0 <= u < i ==> subject_readable(*c, u, #[trigger] ss[u]),
                forall|u: int| 0 <= u < i ==> is_solution_subject(*c, u, ss[u], #[trigger] subjects@[u]),
            decreases ss.len() - i,
        {
            match self.read_subject(c, i, &data_subjects[i]) {
                None => {
                    return None;
                },
                Some(cs) => {
                    subjects.push(cs);
                },
            }
            i = i + 1;
        }
        Some(Colloscope { subjects })
    }
}

} // verus!
