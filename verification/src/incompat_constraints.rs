//! Constraints tying the interrogations of a student to the incompatibility
//! groups that they fall in.

use vstd::prelude::*;

use crate::colloscope::{
    ends_within_day, spans_overlap, Incompatibility, IncompatibilityGroup, SlotStart, SlotWithDuration,
    SlotWithTeacher, Student, Subject, Variable,
};
use crate::groups::{leq_description, var_leq};
use crate::interrogations::describe;
use crate::linexpr::{Constraint, Sign};
use crate::nonzero::NonZeroU32;
use crate::rhythm::append_constraints;
use crate::sets::{sorted_usize, usize_elems};
use crate::translator::{group_is_fixed, is_group_fixed, IlpTranslator};

verus! {

broadcast use {vstd::std_specs::btree::group_btree_axioms, vstd::laws_cmp::group_laws_cmp};

/// Some time span of the incompatibility group shares a minute with the
/// interrogation starting at `start` and lasting `duration` minutes.
pub open spec fn meets_group(start: SlotStart, duration: NonZeroU32, ig: IncompatibilityGroup) -> bool {
    exists|t: int|
        0 <= t < ig.slots.items().len() && #[trigger] spans_overlap(
            ig.slots.items()[t],
            SlotWithDuration { start, duration },
        )
}

/// The constraint for student `i`, incompatibility group `q`, and slot `l`
/// of group `k` of subject `j`: the interrogation puts the student in the
/// incompatibility group.
pub open spec fn incompat_case_description(i: usize, j: usize, k: usize, l: usize, q: usize, assigned: bool) -> (
    Map<Seq<char>, i32>,
    int,
    Sign,
) {
    leq_description(
        if assigned {
            Variable::GroupInSlot { subject: j, slot: l, group: k }
        } else {
            Variable::DynamicGroupAssignment { subject: j, slot: l, group: k, student: i }
        },
        Variable::IncompatGroupForStudent { incompat_group: q, student: i },
    )
}

/// The constraints for the first `n` incompatibility groups of a list, for
/// slot `l` of subject `s` (number `j`): one for each group met by the slot.
pub open spec fn incompat_groups_descriptions(
    igs: Seq<IncompatibilityGroup>,
    s: Subject,
    i: usize,
    j: usize,
    k: usize,
    l: usize,
    qs: Seq<usize>,
    n: int,
    assigned: bool,
) -> Seq<(Map<Seq<char>, i32>, int, Sign)>
    decreases n,
{
    if n <= 0 {
        Seq::empty()
    } else {
        let q = qs[n - 1];
        incompat_groups_descriptions(igs, s, i, j, k, l, qs, n - 1, assigned) + if meets_group(
            s.slots@[l as int].start,
            s.duration,
            igs[q as int],
        ) {
            seq![incompat_case_description(i, j, k, l, q, assigned)]
        } else {
            Seq::empty()
        }
    }
}

/// The constraints for the first `n` incompatibilities of a list, for slot
/// `l` of subject `s`.
pub open spec fn incompats_descriptions(
    igs: Seq<IncompatibilityGroup>,
    incs: Seq<Incompatibility>,
    s: Subject,
    i: usize,
    j: usize,
    k: usize,
    l: usize,
    ps: Seq<usize>,
    n: int,
    assigned: bool,
) -> Seq<(Map<Seq<char>, i32>, int, Sign)>
    decreases n,
{
    if n <= 0 {
        Seq::empty()
    } else {
        let qs = sorted_usize(incs[ps[n - 1] as int].groups@);
        incompats_descriptions(igs, incs, s, i, j, k, l, ps, n - 1, assigned) + incompat_groups_descriptions(
            igs,
            s,
            i,
            j,
            k,
            l,
            qs,
            qs.len() as int,
            assigned,
        )
    }
}

/// The constraints for student `i` with incompatibilities `st` and the
/// first `n` slots of group `k` of subject `s` (number `j`).
pub open spec fn student_slots_descriptions(
    igs: Seq<IncompatibilityGroup>,
    incs: Seq<Incompatibility>,
    s: Subject,
    i: usize,
    st: Student,
    j: usize,
    k: usize,
    n: int,
    assigned: bool,
) -> Seq<(Map<Seq<char>, i32>, int, Sign)>
    decreases n,
{
    if n <= 0 {
        Seq::empty()
    } else {
        let ps = sorted_usize(st.incompatibilities@);
        student_slots_descriptions(igs, incs, s, i, st, j, k, n - 1, assigned) + incompats_descriptions(
            igs,
            incs,
            s,
            i,
            j,
            k,
            (n - 1) as usize,
            ps,
            ps.len() as int,
            assigned,
        )
    }
}

/// The constraints for the first `n` students of a list, in group `k` of
/// subject `s` (number `j`).
pub open spec fn students_descriptions(
    igs: Seq<IncompatibilityGroup>,
    incs: Seq<Incompatibility>,
    sts: Seq<Student>,
    s: Subject,
    j: usize,
    k: usize,
    list: Seq<usize>,
    n: int,
    assigned: bool,
) -> Seq<(Map<Seq<char>, i32>, int, Sign)>
    decreases n,
{
    if n <= 0 {
        Seq::empty()
    } else {
        let i = list[n - 1];
        students_descriptions(igs, incs, sts, s, j, k, list, n - 1, assigned) + student_slots_descriptions(
            igs,
            incs,
            s,
            i,
            sts[i as int],
            j,
            k,
            s.slots@.len() as int,
            assigned,
        )
    }
}

/// The constraints for group `k` of subject `s` (number `j`): its students,
/// then, if it can grow, the students to be placed.
pub open spec fn group_incompat_descriptions(
    igs: Seq<IncompatibilityGroup>,
    incs: Seq<Incompatibility>,
    sts: Seq<Student>,
    s: Subject,
    j: usize,
    k: usize,
) -> Seq<(Map<Seq<char>, i32>, int, Sign)> {
    let g = s.groups.prefilled_groups@[k as int];
    let members = sorted_usize(g.students@);
    let to_place = sorted_usize(s.groups.not_assigned@);
    students_descriptions(igs, incs, sts, s, j, k, members, members.len() as int, true) + if group_is_fixed(g, s) {
        Seq::empty()
    } else {
        students_descriptions(igs, incs, sts, s, j, k, to_place, to_place.len() as int, false)
    }
}

/// The constraints for the first `n` groups of subject `s` (number `j`).
pub open spec fn groups_incompat_descriptions(
    igs: Seq<IncompatibilityGroup>,
    incs: Seq<Incompatibility>,
    sts: Seq<Student>,
    s: Subject,
    j: usize,
    n: int,
) -> Seq<(Map<Seq<char>, i32>, int, Sign)>
    decreases n,
{
    if n <= 0 {
        Seq::empty()
    } else {
        groups_incompat_descriptions(igs, incs, sts, s, j, n - 1) + group_incompat_descriptions(
            igs,
            incs,
            sts,
            s,
            j,
            (n - 1) as usize,
        )
    }
}

/// The constraints for the first `n` subjects.
pub open spec fn all_incompat_descriptions(
    igs: Seq<IncompatibilityGroup>,
    incs: Seq<Incompatibility>,
    sts: Seq<Student>,
    ss: Seq<Subject>,
    n: int,
) -> Seq<(Map<Seq<char>, i32>, int, Sign)>
    decreases n,
{
    if n <= 0 {
        Seq::empty()
    } else {
        all_incompat_descriptions(igs, incs, sts, ss, n - 1) + groups_incompat_descriptions(
            igs,
            incs,
            sts,
            ss[n - 1],
            (n - 1) as usize,
            ss[n - 1].groups.prefilled_groups@.len() as int,
        )
    }
}

impl<'a> IlpTranslator<'a> {
    /// Whether some time span of the incompatibility group shares a minute
    /// with the interrogation starting at `slot_start` and lasting `duration`
    /// minutes.
    pub fn need_building_for_slot_and_incompat_group(
        &self,
        slot_start: &SlotStart,
        duration: NonZeroU32,
        incompat_group: &IncompatibilityGroup,
    ) -> (r: bool)
        requires
            slot_start.start_time.minutes() + duration.val() <= crate::time::MINUTES_PER_DAY,
            forall|t: int|
                0 <= t < incompat_group.slots.items().len() ==> ends_within_day(#[trigger] incompat_group.slots.items()[t]),
        ensures
            r == meets_group(*slot_start, duration, *incompat_group),
    {
        let other = SlotWithDuration { start: *slot_start, duration };
        let mut t: usize = 0;
        while t < incompat_group.slots.len()
            invariant
                other == (SlotWithDuration { start: *slot_start, duration }),
                ends_within_day(other),
                forall|u: int|
                    0 <= u < incompat_group.slots.items().len() ==> ends_within_day(#[trigger] incompat_group.slots.items()[u]),
                0 <= t <= incompat_group.slots.items().len(),
                forall|u: int| 0 <= u < t ==> !spans_overlap(#[trigger] incompat_group.slots.items()[u], other),
            decreases incompat_group.slots.items().len() - t,
        {
            let span = incompat_group.slots.get(t);
            assert(ends_within_day(*span));
            if span.overlap_with(&other) {
                return true;
            }
            t = t + 1;
        }
        false
    }

    /// The constraint for student `i`, incompatibility group `q` and slot `l`
    /// of group `k` of subject `subject` (number `j`), when the slot meets
    /// the incompatibility group: the interrogation puts the student in it.
    pub fn build_incompat_group_for_student_constraints_for_subject_slot_student_and_incompat_group(
        &self,
        i: usize,
        j: usize,
        subject: &Subject,
        k: usize,
        l: usize,
        slot: &SlotWithTeacher,
        q: usize,
        incompat_group: &IncompatibilityGroup,
        assigned: bool,
    ) -> (r: Option<Constraint>)
        requires
            slot.start.start_time.minutes() + subject.duration.val() <= crate::time::MINUTES_PER_DAY,
            forall|t: int|
                0 <= t < incompat_group.slots.items().len() ==> ends_within_day(#[trigger] incompat_group.slots.items()[t]),
        ensures
            match r {
                None => !meets_group(slot.start, subject.duration, *incompat_group),
                Some(c) => meets_group(slot.start, subject.duration, *incompat_group) && describe(c) == incompat_case_description(
                    i,
                    j,
                    k,
                    l,
                    q,
                    assigned,
                ),
            },
    {
        if !self.need_building_for_slot_and_incompat_group(&slot.start, subject.duration, incompat_group) {
            return None;
        }
        let igfs = Variable::IncompatGroupForStudent { incompat_group: q, student: i };
        if assigned {
            Some(var_leq(Variable::GroupInSlot { subject: j, slot: l, group: k }, igfs))
        } else {
            Some(var_leq(Variable::DynamicGroupAssignment { subject: j, slot: l, group: k, student: i }, igfs))
        }
    }

    /// The constraints for student `i` (with incompatibilities `student`) in
    /// group `k` of subject `subject` (number `j`): slot after slot,
    /// incompatibility after incompatibility, incompatibility group after
    /// incompatibility group, for the groups that the slot meets.
    pub fn build_incompat_group_for_student_constraints_for_subject_and_student(
        &self,
        i: usize,
        student: &Student,
        j: usize,
        subject: &Subject,
        k: usize,
        assigned: bool,
    ) -> (r: Vec<Constraint>)
        requires
            self.validated().check_valid_spec(),
            j < self.validated().subject_list().len(),
            *subject == self.validated().subject_list()[j as int],
            forall|t: int|
                0 <= t < sorted_usize(student.incompatibilities@).len() ==> #[trigger] sorted_usize(student.incompatibilities@)[t]
                    < self.validated().incompatibility_list().len(),
        ensures
            r@.map_values(|c: Constraint| describe(c)) == student_slots_descriptions(
                self.validated().incompatibility_group_list(),
                self.validated().incompatibility_list(),
                *subject,
                i,
                *student,
                j,
                k,
                subject.slots@.len() as int,
                assigned,
            ),
    {
        let data = self.data();
        let igs_vec = data.incompatibility_groups();
        let incs_vec = data.incompatibilities();
        let ghost igs = igs_vec@;
        let ghost incs = incs_vec@;
        let n_subjects: usize = data.subjects().len();
        let n_incs: usize = incs_vec.len();
        let n_igs: usize = igs_vec.len();
        let ps = usize_elems(&student.incompatibilities);
        let mut constraints: Vec<Constraint> = Vec::new();
        let mut l: usize = 0;
        while l < subject.slots.len()
            invariant
                igs == igs_vec@,
                incs == incs_vec@,
                igs == data.incompatibility_group_list(),
                incs == data.incompatibility_list(),
                *data == self.validated(),
                data.check_valid_spec(),
                n_subjects == data.subject_list().len(),
                n_incs == incs.len(),
                n_igs == igs.len(),
                j < data.subject_list().len(),
                *subject == data.subject_list()[j as int],
                ps@ == sorted_usize(student.incompatibilities@),
                forall|t: int| 0 <= t < ps@.len() ==> #[trigger] ps@[t] < incs.len(),
                0 <= l <= subject.slots@.len(),
                constraints@.map_values(|c: Constraint| describe(c)) == student_slots_descriptions(
                    igs,
                    incs,
                    *subject,
                    i,
                    *student,
                    j,
                    k,
                    l as int,
                    assigned,
                ),
            decreases subject.slots@.len() - l,
        {
            let slot = &subject.slots[l];
            proof {
                data.lemma_valid_subject_slot(j as int, l as int);
            }
            let ghost slot_base = constraints@.map_values(|c: Constraint| describe(c));
            let mut t: usize = 0;
            while t < ps.len()
                invariant
                    igs == data.incompatibility_group_list(),
                    incs == data.incompatibility_list(),
                    igs == igs_vec@,
                    incs == incs_vec@,
                    data.check_valid_spec(),
                    n_incs == incs.len(),
                    n_igs == igs.len(),
                    *slot == subject.slots@[l as int],
                    slot.start.start_time.minutes() + subject.duration.val() <= crate::time::MINUTES_PER_DAY,
                    forall|u: int| 0 <= u < ps@.len() ==> #[trigger] ps@[u] < incs.len(),
                    0 <= t <= ps@.len(),
                    constraints@.map_values(|c: Constraint| describe(c)) == slot_base + incompats_descriptions(
                        igs,
                        incs,
                        *subject,
                        i,
                        j,
                        k,
                        l,
                        ps@,
                        t as int,
                        assigned,
                    ),
                decreases ps@.len() - t,
            {
                let p: usize = ps[t];
                let incompat = &incs_vec[p];
                proof {
                    data.lemma_valid_incompat_groups(p as int);
                }
                let qs = usize_elems(&incompat.groups);
                let ghost inc_base = constraints@.map_values(|c: Constraint| describe(c));
                let mut u: usize = 0;
                while u < qs.len()
                    invariant
                        igs == data.incompatibility_group_list(),
                        igs == igs_vec@,
                        data.check_valid_spec(),
                        n_igs == igs.len(),
                        *slot == subject.slots@[l as int],
                        slot.start.start_time.minutes() + subject.duration.val() <= crate::time::MINUTES_PER_DAY,
                        qs@ == sorted_usize(incompat.groups@),
                        forall|w: int| 0 <= w < qs@.len() ==> #[trigger] qs@[w] < igs.len(),
                        0 <= u <= qs@.len(),
                        constraints@.map_values(|c: Constraint| describe(c)) == inc_base + incompat_groups_descriptions(
                            igs,
                            *subject,
                            i,
                            j,
                            k,
                            l,
                            qs@,
                            u as int,
                            assigned,
                        ),
                    decreases qs@.len() - u,
                {
                    let q: usize = qs[u];
                    let incompat_group = &igs_vec[q];
                    proof {
                        assert forall|w: int|
                            0 <= w < incompat_group.slots.items().len() implies ends_within_day(
                            #[trigger] incompat_group.slots.items()[w],
                        ) by {
                            data.lemma_valid_span(q as int, w);
                        }
                    }
                    let c = self.build_incompat_group_for_student_constraints_for_subject_slot_student_and_incompat_group(
                        i,
                        j,
                        subject,
                        k,
                        l,
                        slot,
                        q,
                        incompat_group,
                        assigned,
                    );
                    let ghost before = constraints@;
                    match c {
                        Some(c) => {
                            constraints.push(c);
                            proof {
                                assert(constraints@.map_values(|c: Constraint| describe(c)) =~= before.map_values(
                                    |c: Constraint| describe(c),
                                ).push(describe(c)));
                            }
                        },
                        None => {},
                    }
                    u = u + 1;
                }
                proof {
                    assert(incs[ps@[t as int] as int] == *incompat);
                }
                t = t + 1;
            }
            l = l + 1;
        }
        constraints
    }

    /// The constraints tying interrogations to incompatibility groups:
    /// subject after subject, group after group; for each group, its
    /// students, then, if it can grow, the students to be placed, each in
    /// increasing order.
    pub fn build_incompat_group_for_student_constraints(&self) -> (r: Vec<Constraint>)
        ensures
            r@.map_values(|c: Constraint| describe(c)) == all_incompat_descriptions(
                self.validated().incompatibility_group_list(),
                self.validated().incompatibility_list(),
                self.validated().student_list(),
                self.validated().subject_list(),
                self.validated().subject_list().len() as int,
            ),
    {
        let data = self.data();
        data.check_valid();
        let subjects = data.subjects();
        let students = data.students();
        let ghost ss = subjects@;
        let ghost sts = students@;
        let ghost igs = data.incompatibility_group_list();
        let ghost incs = data.incompatibility_list();
        let n_subjects: usize = subjects.len();
        let n_students: usize = students.len();
        let n_incs: usize = data.incompatibilities().len();
        let mut constraints: Vec<Constraint> = Vec::new();
        let mut j: usize = 0;
        while j < subjects.len()
            invariant
                ss == subjects@,
                sts == students@,
                ss == data.subject_list(),
                sts == data.student_list(),
                igs == data.incompatibility_group_list(),
                incs == data.incompatibility_list(),
                *data == self.validated(),
                data.check_valid_spec(),
                n_subjects == ss.len(),
                n_students == sts.len(),
                n_incs == incs.len(),
                0 <= j <= ss.len(),
                constraints@.map_values(|c: Constraint| describe(c)) == all_incompat_descriptions(igs, incs, sts, ss, j as int),
            decreases ss.len() - j,
        {
            let subject = &subjects[j];
            let n_groups: usize = subject.groups.prefilled_groups.len();
            proof {
                data.lemma_valid_subject_students(j as int);
            }
            let to_place = usize_elems(&subject.groups.not_assigned);
            let ghost subject_base = constraints@.map_values(|c: Constraint| describe(c));
            let mut k: usize = 0;
            while k < n_groups
                invariant
                    ss == data.subject_list(),
                    sts == data.student_list(),
                    sts == students@,
                    igs == data.incompatibility_group_list(),
                    incs == data.incompatibility_list(),
                    *data == self.validated(),
                    data.check_valid_spec(),
                    n_students == sts.len(),
                    n_incs == incs.len(),
                    0 <= j < ss.len(),
                    *subject == ss[j as int],
                    n_groups == subject.groups.prefilled_groups@.len(),
                    to_place@ == sorted_usize(subject.groups.not_assigned@),
                    forall|t: int| 0 <= t < to_place@.len() ==> #[trigger] to_place@[t] < sts.len(),
                    forall|g: int, t: int|
                        0 <= g < subject.groups.prefilled_groups@.len() && 0 <= t < sorted_usize(
                            subject.groups.prefilled_groups@[g].students@,
                        ).len() ==> #[trigger] sorted_usize(subject.groups.prefilled_groups@[g].students@)[t] < sts.len(),
                    0 <= k <= n_groups,
                    constraints@.map_values(|c: Constraint| describe(c)) == subject_base + groups_incompat_descriptions(
                        igs,
                        incs,
                        sts,
                        *subject,
                        j,
                        k as int,
                    ),
                decreases n_groups - k,
            {
                let group = &subject.groups.prefilled_groups[k];
                let members = usize_elems(&group.students);
                let ghost group_base = constraints@.map_values(|c: Constraint| describe(c));
                self.append_students_constraints(&mut constraints, &members, j, subject, k, true);
                let ghost after_members = constraints@.map_values(|c: Constraint| describe(c));
                if !is_group_fixed(group, subject) {
                    self.append_students_constraints(&mut constraints, &to_place, j, subject, k, false);
                    proof {
                        assert(constraints@.map_values(|c: Constraint| describe(c)) =~= group_base
                            + group_incompat_descriptions(igs, incs, sts, *subject, j, k));
                    }
                } else {
                    proof {
                        assert(constraints@.map_values(|c: Constraint| describe(c)) =~= group_base
                            + group_incompat_descriptions(igs, incs, sts, *subject, j, k));
                    }
                }
                k = k + 1;
            }
            j = j + 1;
        }
        constraints
    }

    /// Appends the constraints of each student of the list, in order, for
    /// group `k` of subject `subject` (number `j`).
    fn append_students_constraints(
        &self,
        constraints: &mut Vec<Constraint>,
        list: &Vec<usize>,
        j: usize,
        subject: &Subject,
        k: usize,
        assigned: bool,
    )
        requires
            self.validated().check_valid_spec(),
            j < self.validated().subject_list().len(),
            *subject == self.validated().subject_list()[j as int],
            forall|t: int| 0 <= t < list@.len() ==> #[trigger] list@[t] < self.validated().student_list().len(),
        ensures
            final(constraints)@.map_values(|c: Constraint| describe(c)) == old(constraints)@.map_values(|c: Constraint| describe(c))
                + students_descriptions(
                self.validated().incompatibility_group_list(),
                self.validated().incompatibility_list(),
                self.validated().student_list(),
                *subject,
                j,
                k,
                list@,
                list@.len() as int,
                assigned,
            ),
    {
        let data = self.data();
        let students = data.students();
        let ghost start = constraints@.map_values(|c: Constraint| describe(c));
        let n_students: usize = students.len();
        let n_incs: usize = data.incompatibilities().len();
        let mut t: usize = 0;
        while t < list.len()
            invariant
                *data == self.validated(),
                data.check_valid_spec(),
                students@ == data.student_list(),
                n_students == students@.len(),
                n_incs == data.incompatibility_list().len(),
                j < data.subject_list().len(),
                *subject == data.subject_list()[j as int],
                forall|u: int| 0 <= u < list@.len() ==> #[trigger] list@[u] < students@.len(),
                0 <= t <= list@.len(),
                constraints@.map_values(|c: Constraint| describe(c)) == start + students_descriptions(
                    data.incompatibility_group_list(),
                    data.incompatibility_list(),
                    data.student_list(),
                    *subject,
                    j,
                    k,
                    list@,
                    t as int,
                    assigned,
                ),
            decreases list@.len() - t,
        {
            let i: usize = list[t];
            let student = &students[i];
            proof {
                data.lemma_valid_student_incompats(i as int);
                crate::validation::lemma_first_at_least_none(
                    sorted_usize(student.incompatibilities@),
                    data.incompatibility_list().len() as usize as int,
                    sorted_usize(student.incompatibilities@).len() as int,
                );
            }
            let more = self.build_incompat_group_for_student_constraints_for_subject_and_student(i, student, j, subject, k, assigned);
            let ghost before = constraints@;
            append_constraints(constraints, more);
            proof {
                assert(constraints@.map_values(|c: Constraint| describe(c)) =~= before.map_values(|c: Constraint| describe(c))
                    + more@.map_values(|c: Constraint| describe(c)));
            }
            t = t + 1;
        }
    }
}

} // verus!
