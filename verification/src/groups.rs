//! Constraints on the groups of each subject: how many groups share a slot,
//! how many students a group gets, each student to be placed in exactly one
//! group, and the assignments that follow the groups.

use vstd::prelude::*;

use crate::colloscope::{variable_name, GroupDesc, Subject, Variable};
use crate::interrogations::{
    count_at_least, count_at_most, count_description, count_exactly, describe, is_count_constraint,
    names_of_vars, ones, sum_of_vars,
};
use crate::linexpr::{scale_map, sum_map, Constraint, Expr, Sign};
use crate::sets::{sorted_usize, usize_elems};
use crate::translator::{group_is_fixed, is_group_fixed, IlpTranslator};

verus! {

broadcast use {vstd::std_specs::btree::group_btree_axioms, vstd::laws_cmp::group_laws_cmp};

/// The names of the variables putting each group of subject `s` (number `i`)
/// in slot `j`.
pub open spec fn slot_groups_names(s: Subject, i: int, j: int) -> Set<Seq<char>> {
    Set::new(
        |n: Seq<char>|
            exists|k: usize|
                k < s.groups.prefilled_groups@.len() && #[trigger] variable_name(
                    Variable::GroupInSlot { subject: i as usize, slot: j as usize, group: k },
                ) == n,
    )
}

/// The names of the variables putting each student to be placed of subject
/// `s` (number `i`) in group `k`.
pub open spec fn group_students_names(s: Subject, i: int, k: int) -> Set<Seq<char>> {
    Set::new(
        |n: Seq<char>|
            exists|st: usize|
                s.groups.not_assigned@.contains(st) && #[trigger] variable_name(
                    Variable::StudentInGroup { subject: i as usize, student: st, group: k as usize },
                ) == n,
    )
}

/// The names of the variables putting `student` of subject `s` (number `i`)
/// in each group that can grow.
pub open spec fn student_groups_names(s: Subject, i: int, student: usize) -> Set<Seq<char>> {
    Set::new(
        |n: Seq<char>|
            exists|k: usize|
                k < s.groups.prefilled_groups@.len() && !group_is_fixed(s.groups.prefilled_groups@[k as int], s)
                    && #[trigger] variable_name(Variable::StudentInGroup { subject: i as usize, student, group: k }) == n,
    )
}

/// `x <= y` for two variables, stored as `x - y <= 0`.
pub open spec fn leq_description(x: Variable, y: Variable) -> (Map<Seq<char>, i32>, int, Sign) {
    (
        sum_map(map![variable_name(x) => 1i32], scale_map(map![variable_name(y) => 1i32], -1)),
        0,
        Sign::LessThan,
    )
}

/// The constraint `x <= y` for two variables.
pub(crate) fn var_leq(x: Variable, y: Variable) -> (r: Constraint)
    ensures
        describe(r) == leq_description(x, y),
{
    let lhs = Expr::var(x.to_string().as_str());
    let rhs = Expr::var(y.to_string().as_str());
    lhs.leq(&rhs)
}

/// The sum of the variables named by a list of indices mapped to variables.
fn sum_of_listed(vars: &Vec<Variable>, Ghost(names): Ghost<Set<Seq<char>>>) -> (r: Expr)
    requires
        forall|n: Seq<char>| names.contains(n) <==> exists|u: int| 0 <= u < vars@.len() && variable_name(#[trigger] vars@[u]) == n,
    ensures
        r.coefs() == ones(names),
        r.constant_value() == 0,
{
    proof {
        assert(names_of_vars(vars@) =~= names);
    }
    sum_of_vars(vars).0
}

impl<'a> IlpTranslator<'a> {
    /// At most `max_groups_per_slot` groups of subject `subject` (number `i`)
    /// in slot `j`.
    pub fn build_at_most_max_groups_per_slot_constraint_for_slot(&self, i: usize, subject: &Subject, j: usize) -> (r:
        Constraint)
        requires
            subject.max_groups_per_slot.val() <= i32::MAX,
        ensures
            is_count_constraint(r, slot_groups_names(*subject, i as int, j as int), 1, -subject.max_groups_per_slot.val(), Sign::LessThan),
    {
        let ghost names = slot_groups_names(*subject, i as int, j as int);
        let n_groups: usize = subject.groups.prefilled_groups.len();
        let mut vars: Vec<Variable> = Vec::new();
        let mut k: usize = 0;
        while k < n_groups
            invariant
                n_groups == subject.groups.prefilled_groups@.len(),
                0 <= k <= n_groups,
                vars@.len() == k,
                forall|u: int| 0 <= u < k ==> #[trigger] vars@[u] == (Variable::GroupInSlot { subject: i, slot: j, group: u as usize }),
            decreases n_groups - k,
        {
            vars.push(Variable::GroupInSlot { subject: i, slot: j, group: k });
            k = k + 1;
        }
        proof {
            assert forall|n: Seq<char>| names.contains(n) <==> exists|u: int| 0 <= u < vars@.len() && variable_name(#[trigger] vars@[u]) == n by {
                if names.contains(n) {
                    let g = choose|g: usize|
                        g < subject.groups.prefilled_groups@.len() && #[trigger] variable_name(
                            Variable::GroupInSlot { subject: i, slot: j, group: g },
                        ) == n;
                    assert(vars@[g as int] == Variable::GroupInSlot { subject: i, slot: j, group: g });
                }
                if exists|u: int| 0 <= u < vars@.len() && variable_name(#[trigger] vars@[u]) == n {
                    let u = choose|u: int| 0 <= u < vars@.len() && variable_name(#[trigger] vars@[u]) == n;
                    assert(vars@[u] == Variable::GroupInSlot { subject: i, slot: j, group: u as usize });
                }
            }
        }
        let expr = sum_of_listed(&vars, Ghost(names));
        let max: i32 = subject.max_groups_per_slot.get() as i32;
        count_at_most(&expr, max, Ghost(names))
    }

    /// The number of students to be placed that group `k` of subject
    /// `subject` (number `i`) receives.
    pub fn build_students_per_group_lhs_for_group(&self, i: usize, subject: &Subject, k: usize) -> (r: Expr)
        ensures
            r.coefs() == ones(group_students_names(*subject, i as int, k as int)),
            r.constant_value() == 0,
    {
        let ghost names = group_students_names(*subject, i as int, k as int);
        let students = usize_elems(&subject.groups.not_assigned);
        let mut vars: Vec<Variable> = Vec::new();
        let mut t: usize = 0;
        while t < students.len()
            invariant
                0 <= t <= students@.len(),
                vars@.len() == t,
                forall|u: int| 0 <= u < t ==> #[trigger] vars@[u] == (Variable::StudentInGroup { subject: i, student: students@[u], group: k }),
            decreases students@.len() - t,
        {
            vars.push(Variable::StudentInGroup { subject: i, student: students[t], group: k });
            t = t + 1;
        }
        proof {
            assert forall|n: Seq<char>| names.contains(n) <==> exists|u: int| 0 <= u < vars@.len() && variable_name(#[trigger] vars@[u]) == n by {
                if names.contains(n) {
                    let st = choose|st: usize|
                        subject.groups.not_assigned@.contains(st) && #[trigger] variable_name(
                            Variable::StudentInGroup { subject: i, student: st, group: k },
                        ) == n;
                    assert(students@.to_set().contains(st));
                    let u = choose|u: int| 0 <= u < students@.len() && students@[u] == st;
                    assert(vars@[u] == Variable::StudentInGroup { subject: i, student: st, group: k });
                }
                if exists|u: int| 0 <= u < vars@.len() && variable_name(#[trigger] vars@[u]) == n {
                    let u = choose|u: int| 0 <= u < vars@.len() && variable_name(#[trigger] vars@[u]) == n;
                    assert(students@.to_set().contains(students@[u]));
                    assert(variable_name(Variable::StudentInGroup { subject: i, student: students@[u], group: k }) == n);
                }
            }
        }
        sum_of_listed(&vars, Ghost(names))
    }

    /// At least as many students to be placed in group `k` as it misses to
    /// reach the minimum size; `None` when it already has enough students.
    pub fn build_students_per_group_lower_bound_constraint_for_group(
        &self,
        i: usize,
        subject: &Subject,
        k: usize,
        group: &GroupDesc,
    ) -> (r: Option<Constraint>)
        requires
            subject.students_per_group.start.val() - group.students@.len() <= i32::MAX,
        ensures
            ({
                let min = subject.students_per_group.start.val();
                let len = group.students@.len();
                match r {
                    None => min <= len,
                    Some(c) => min > len && is_count_constraint(
                        c,
                        group_students_names(*subject, i as int, k as int),
                        -1i32,
                        min - len,
                        Sign::LessThan,
                    ),
                }
            }),
    {
        let min: usize = subject.students_per_group.start().get();
        let len: usize = group.students.len();
        if min <= len {
            return None;
        }
        let missing: i32 = (min - len) as i32;
        let lhs = self.build_students_per_group_lhs_for_group(i, subject, k);
        Some(count_at_least(&lhs, missing, Ghost(group_students_names(*subject, i as int, k as int))))
    }

    /// No more students to be placed in group `k` than it has room for.
    pub fn build_students_per_group_upper_bound_constraint_for_group(
        &self,
        i: usize,
        subject: &Subject,
        k: usize,
        group: &GroupDesc,
    ) -> (r: Constraint)
        requires
            group.students@.len() <= subject.students_per_group.end.val(),
            subject.students_per_group.end.val() - group.students@.len() <= i32::MAX,
        ensures
            is_count_constraint(
                r,
                group_students_names(*subject, i as int, k as int),
                1,
                -(subject.students_per_group.end.val() - group.students@.len()),
                Sign::LessThan,
            ),
    {
        let max: usize = subject.students_per_group.end().get();
        let len: usize = group.students.len();
        let room: i32 = (max - len) as i32;
        let lhs = self.build_students_per_group_lhs_for_group(i, subject, k);
        count_at_most(&lhs, room, Ghost(group_students_names(*subject, i as int, k as int)))
    }

    /// Exactly one group, among those that can grow, for `student` of
    /// subject `subject` (number `i`).
    pub fn build_student_in_single_group_constraint_for_student(&self, i: usize, subject: &Subject, student: usize) -> (r:
        Constraint)
        ensures
            is_count_constraint(r, student_groups_names(*subject, i as int, student), 1, -1, Sign::Equals),
    {
        let ghost names = student_groups_names(*subject, i as int, student);
        let n_groups: usize = subject.groups.prefilled_groups.len();
        let mut vars: Vec<Variable> = Vec::new();
        let mut k: usize = 0;
        while k < n_groups
            invariant
                n_groups == subject.groups.prefilled_groups@.len(),
                0 <= k <= n_groups,
                forall|u: int|
                    0 <= u < vars@.len() ==> exists|g: usize|
                        g < k && !group_is_fixed(subject.groups.prefilled_groups@[g as int], *subject) && #[trigger] vars@[u]
                            == (Variable::StudentInGroup { subject: i, student, group: g }),
                forall|g: usize|
                    g < k && !group_is_fixed(subject.groups.prefilled_groups@[g as int], *subject) ==> #[trigger] vars@.contains(
                        Variable::StudentInGroup { subject: i, student, group: g },
                    ),
            decreases n_groups - k,
        {
            let ghost before = vars@;
            if !is_group_fixed(&subject.groups.prefilled_groups[k], subject) {
                vars.push(Variable::StudentInGroup { subject: i, student, group: k });
            }
            proof {
                assert forall|u: int|
                    0 <= u < vars@.len() implies exists|g: usize|
                        g < k + 1 && !group_is_fixed(subject.groups.prefilled_groups@[g as int], *subject) && #[trigger] vars@[u]
                            == (Variable::StudentInGroup { subject: i, student, group: g }) by {
                    if u < before.len() {
                        assert(vars@[u] == before[u]);
                    } else {
                        assert(vars@[u] == Variable::StudentInGroup { subject: i, student, group: k });
                    }
                }
                assert forall|g: usize|
                    g < k + 1 && !group_is_fixed(subject.groups.prefilled_groups@[g as int], *subject) implies #[trigger] vars@.contains(
                        Variable::StudentInGroup { subject: i, student, group: g },
                    ) by {
                    if g < k {
                        assert(before.contains(Variable::StudentInGroup { subject: i, student, group: g }));
                        let u = choose|u: int| 0 <= u < before.len() && before[u] == Variable::StudentInGroup { subject: i, student, group: g };
                        assert(vars@[u] == before[u]);
                    } else {
                        assert(vars@[vars@.len() - 1] == Variable::StudentInGroup { subject: i, student, group: k });
                    }
                }
            }
            k = k + 1;
        }
        proof {
            assert forall|n: Seq<char>| names.contains(n) <==> exists|u: int| 0 <= u < vars@.len() && variable_name(#[trigger] vars@[u]) == n by {
                if names.contains(n) {
                    let g = choose|g: usize|
                        g < subject.groups.prefilled_groups@.len() && !group_is_fixed(subject.groups.prefilled_groups@[g as int], *subject)
                            && #[trigger] variable_name(Variable::StudentInGroup { subject: i, student, group: g }) == n;
                    assert(vars@.contains(Variable::StudentInGroup { subject: i, student, group: g }));
                    let u = choose|u: int| 0 <= u < vars@.len() && vars@[u] == Variable::StudentInGroup { subject: i, student, group: g };
                    assert(variable_name(vars@[u]) == n);
                }
                if exists|u: int| 0 <= u < vars@.len() && variable_name(#[trigger] vars@[u]) == n {
                    let u = choose|u: int| 0 <= u < vars@.len() && variable_name(#[trigger] vars@[u]) == n;
                    let g = choose|g: usize|
                        g < k && !group_is_fixed(subject.groups.prefilled_groups@[g as int], *subject) && #[trigger] vars@[u]
                            == (Variable::StudentInGroup { subject: i, student, group: g });
                    assert(variable_name(Variable::StudentInGroup { subject: i, student, group: g }) == n);
                }
            }
        }
        let expr = sum_of_listed(&vars, Ghost(names));
        count_exactly(&expr, 1, Ghost(names))
    }

    /// The assignment of `student` to group `k` for slot `j` needs the
    /// student in group `k`.
    pub fn build_dynamic_group_student_in_group_constraint_for_case(&self, i: usize, j: usize, k: usize, student: usize) -> (r:
        Constraint)
        ensures
            describe(r) == leq_description(
                Variable::DynamicGroupAssignment { subject: i, slot: j, group: k, student },
                Variable::StudentInGroup { subject: i, student, group: k },
            ),
    {
        var_leq(
            Variable::DynamicGroupAssignment { subject: i, slot: j, group: k, student },
            Variable::StudentInGroup { subject: i, student, group: k },
        )
    }

    /// The assignment of `student` to group `k` for slot `j` needs group `k`
    /// in slot `j`.
    pub fn build_dynamic_groups_group_in_slot_constraint_for_case(&self, i: usize, j: usize, k: usize, student: usize) -> (r:
        Constraint)
        ensures
            describe(r) == leq_description(
                Variable::DynamicGroupAssignment { subject: i, slot: j, group: k, student },
                Variable::GroupInSlot { subject: i, slot: j, group: k },
            ),
    {
        var_leq(
            Variable::DynamicGroupAssignment { subject: i, slot: j, group: k, student },
            Variable::GroupInSlot { subject: i, slot: j, group: k },
        )
    }
}

/// The bounds on the group sizes fit in an `i32` for each group that can
/// grow.
pub open spec fn group_bounds_fit(s: Subject) -> bool {
    forall|k: int|
        0 <= k < s.groups.prefilled_groups@.len() && !group_is_fixed(#[trigger] s.groups.prefilled_groups@[k], s) ==> {
            let len = s.groups.prefilled_groups@[k].students@.len();
            &&& s.students_per_group.end.val() - len <= i32::MAX
            &&& s.students_per_group.start.val() - len <= i32::MAX
        }
}

/// The constraints of at most `max_groups_per_slot` groups per slot for
/// the first `n` subjects, slot after slot.
pub open spec fn max_groups_descriptions(ss: Seq<Subject>, n: int) -> Seq<(Map<Seq<char>, i32>, int, Sign)>
    decreases n,
{
    if n <= 0 {
        Seq::empty()
    } else {
        let s = ss[n - 1];
        max_groups_descriptions(ss, n - 1) + Seq::new(
            s.slots@.len(),
            |j: int| count_description(slot_groups_names(s, n - 1, j), 1, -s.max_groups_per_slot.val(), Sign::LessThan),
        )
    }
}

/// The size constraints of group `k` of subject `s` (number `i`): nothing
/// for a fixed group; otherwise the lower bound when the group misses
/// students, then the upper bound.
pub open spec fn group_size_descriptions(s: Subject, i: int, k: int) -> Seq<(Map<Seq<char>, i32>, int, Sign)> {
    let g = s.groups.prefilled_groups@[k];
    let names = group_students_names(s, i, k);
    let len = g.students@.len();
    let min = s.students_per_group.start.val();
    let max = s.students_per_group.end.val();
    if group_is_fixed(g, s) {
        Seq::empty()
    } else {
        (if min > len {
            seq![count_description(names, -1i32, min - len, Sign::LessThan)]
        } else {
            Seq::empty()
        }) + seq![count_description(names, 1, -(max - len), Sign::LessThan)]
    }
}

/// The size constraints of the first `n` groups of subject `s`.
pub open spec fn groups_size_descriptions(s: Subject, i: int, n: int) -> Seq<(Map<Seq<char>, i32>, int, Sign)>
    decreases n,
{
    if n <= 0 {
        Seq::empty()
    } else {
        groups_size_descriptions(s, i, n - 1) + group_size_descriptions(s, i, n - 1)
    }
}

/// The size constraints of the groups of the first `n` subjects.
pub open spec fn all_size_descriptions(ss: Seq<Subject>, n: int) -> Seq<(Map<Seq<char>, i32>, int, Sign)>
    decreases n,
{
    if n <= 0 {
        Seq::empty()
    } else {
        all_size_descriptions(ss, n - 1) + groups_size_descriptions(ss[n - 1], n - 1, ss[n - 1].groups.prefilled_groups@.len() as int)
    }
}

/// Exactly one group for each student to be placed, for the first `n`
/// subjects, students in increasing order.
pub open spec fn single_group_descriptions(ss: Seq<Subject>, n: int) -> Seq<(Map<Seq<char>, i32>, int, Sign)>
    decreases n,
{
    if n <= 0 {
        Seq::empty()
    } else {
        let s = ss[n - 1];
        single_group_descriptions(ss, n - 1) + sorted_usize(s.groups.not_assigned@).map_values(
            |st: usize| count_description(student_groups_names(s, n - 1, st), 1, -1, Sign::Equals),
        )
    }
}

/// The second variable of the constraint on the assignment of `student` to
/// group `k` for slot `j` of subject `i`: the student in the group, or the
/// group in the slot.
pub open spec fn assignment_bound(in_slot: bool, i: usize, j: usize, k: usize, student: usize) -> Variable {
    if in_slot {
        Variable::GroupInSlot { subject: i, slot: j, group: k }
    } else {
        Variable::StudentInGroup { subject: i, student, group: k }
    }
}

/// The constraints on the assignments for slot `j` and group `k` of subject
/// `s` (number `i`): one per student to be placed, in increasing order,
/// when the group can grow.
pub open spec fn assignment_case_descriptions(s: Subject, i: int, j: int, k: int, in_slot: bool) -> Seq<
    (Map<Seq<char>, i32>, int, Sign),
> {
    if group_is_fixed(s.groups.prefilled_groups@[k], s) {
        Seq::empty()
    } else {
        sorted_usize(s.groups.not_assigned@).map_values(
            |st: usize|
                leq_description(
                    Variable::DynamicGroupAssignment { subject: i as usize, slot: j as usize, group: k as usize, student: st },
                    assignment_bound(in_slot, i as usize, j as usize, k as usize, st),
                ),
        )
    }
}

/// The constraints on the assignments for slot `j` of subject `s` and its
/// first `n` groups.
pub open spec fn assignment_slot_descriptions(s: Subject, i: int, j: int, n: int, in_slot: bool) -> Seq<
    (Map<Seq<char>, i32>, int, Sign),
>
    decreases n,
{
    if n <= 0 {
        Seq::empty()
    } else {
        assignment_slot_descriptions(s, i, j, n - 1, in_slot) + assignment_case_descriptions(s, i, j, n - 1, in_slot)
    }
}

/// The constraints on the assignments for the first `n` slots of subject `s`.
pub open spec fn assignment_subject_descriptions(s: Subject, i: int, n: int, in_slot: bool) -> Seq<
    (Map<Seq<char>, i32>, int, Sign),
>
    decreases n,
{
    if n <= 0 {
        Seq::empty()
    } else {
        assignment_subject_descriptions(s, i, n - 1, in_slot) + assignment_slot_descriptions(
            s,
            i,
            n - 1,
            s.groups.prefilled_groups@.len() as int,
            in_slot,
        )
    }
}

/// The constraints on the assignments for the first `n` subjects.
pub open spec fn assignment_descriptions(ss: Seq<Subject>, n: int, in_slot: bool) -> Seq<(Map<Seq<char>, i32>, int, Sign)>
    decreases n,
{
    if n <= 0 {
        Seq::empty()
    } else {
        assignment_descriptions(ss, n - 1, in_slot) + assignment_subject_descriptions(
            ss[n - 1],
            n - 1,
            ss[n - 1].slots@.len() as int,
            in_slot,
        )
    }
}

impl<'a> IlpTranslator<'a> {
    /// At most `max_groups_per_slot` groups in each slot of each subject,
    /// subject after subject, slot after slot.
    pub fn build_at_most_max_groups_per_slot_constraints(&self) -> (r: Vec<Constraint>)
        requires
            forall|i: int|
                0 <= i < self.validated().subject_list().len() ==> (#[trigger] self.validated().subject_list()[i]).max_groups_per_slot.val()
                    <= i32::MAX,
        ensures
            r@.map_values(|c: Constraint| describe(c)) == max_groups_descriptions(
                self.validated().subject_list(),
                self.validated().subject_list().len() as int,
            ),
    {
        let subjects = self.data().subjects();
        let ghost ss = subjects@;
        let mut constraints: Vec<Constraint> = Vec::new();
        let mut i: usize = 0;
        while i < subjects.len()
            invariant
                ss == subjects@,
                forall|u: int| 0 <= u < ss.len() ==> (#[trigger] ss[u]).max_groups_per_slot.val() <= i32::MAX,
                0 <= i <= ss.len(),
                constraints@.map_values(|c: Constraint| describe(c)) == max_groups_descriptions(ss, i as int),
            decreases ss.len() - i,
        {
            let subject = &subjects[i];
            let ghost base = constraints@.map_values(|c: Constraint| describe(c));
            let ghost part = Seq::new(
                subject.slots@.len(),
                |j: int| count_description(slot_groups_names(*subject, i as int, j), 1, -subject.max_groups_per_slot.val(), Sign::LessThan),
            );
            assert(subject.max_groups_per_slot.val() <= i32::MAX);
            let mut j: usize = 0;
            while j < subject.slots.len()
                invariant
                    *subject == ss[i as int],
                    subject.max_groups_per_slot.val() <= i32::MAX,
                    part == Seq::new(
                        subject.slots@.len(),
                        |u: int| count_description(slot_groups_names(*subject, i as int, u), 1, -subject.max_groups_per_slot.val(), Sign::LessThan),
                    ),
                    0 <= j <= subject.slots@.len(),
                    constraints@.map_values(|c: Constraint| describe(c)) == base + part.take(j as int),
                decreases subject.slots@.len() - j,
            {
                let c = self.build_at_most_max_groups_per_slot_constraint_for_slot(i, subject, j);
                let ghost before = constraints@;
                constraints.push(c);
                proof {
                    assert(part.take(j + 1) =~= part.take(j as int).push(describe(c)));
                    assert(constraints@.map_values(|c: Constraint| describe(c)) =~= before.map_values(|c: Constraint| describe(c)).push(describe(c)));
                }
                j = j + 1;
            }
            proof {
                assert(part.take(j as int) =~= part);
            }
            i = i + 1;
        }
        constraints
    }

    /// The size constraints of the groups that can grow, subject after
    /// subject, group after group: the lower bound when a group misses
    /// students, then the upper bound.
    pub fn build_students_per_group_count_constraints(&self) -> (r: Vec<Constraint>)
        requires
            forall|i: int| 0 <= i < self.validated().subject_list().len() ==> group_bounds_fit(#[trigger] self.validated().subject_list()[i]),
        ensures
            r@.map_values(|c: Constraint| describe(c)) == all_size_descriptions(
                self.validated().subject_list(),
                self.validated().subject_list().len() as int,
            ),
    {
        let data = self.data();
        data.check_valid();
        let subjects = data.subjects();
        let ghost ss = subjects@;
        let n_subjects: usize = subjects.len();
        let mut constraints: Vec<Constraint> = Vec::new();
        let mut i: usize = 0;
        while i < subjects.len()
            invariant
                ss == subjects@,
                n_subjects == ss.len(),
                ss == data.subject_list(),
                *data == self.validated(),
                data.check_valid_spec(),
                forall|u: int| 0 <= u < ss.len() ==> group_bounds_fit(#[trigger] ss[u]),
                0 <= i <= ss.len(),
                constraints@.map_values(|c: Constraint| describe(c)) == all_size_descriptions(ss, i as int),
            decreases ss.len() - i,
        {
            let subject = &subjects[i];
            let ghost base = constraints@.map_values(|c: Constraint| describe(c));
            assert(group_bounds_fit(ss[i as int]));
            let mut k: usize = 0;
            while k < subject.groups.prefilled_groups.len()
                invariant
                    ss == subjects@,
                    n_subjects == ss.len(),
                    ss == data.subject_list(),
                    data.check_valid_spec(),
                    0 <= i < ss.len(),
                    *subject == ss[i as int],
                    group_bounds_fit(*subject),
                    0 <= k <= subject.groups.prefilled_groups@.len(),
                    constraints@.map_values(|c: Constraint| describe(c)) == base + groups_size_descriptions(*subject, i as int, k as int),
                decreases subject.groups.prefilled_groups@.len() - k,
            {
                let group = &subject.groups.prefilled_groups[k];
                let ghost before = constraints@.map_values(|c: Constraint| describe(c));
                if !is_group_fixed(group, subject) {
                    proof {
                        data.lemma_valid_group_size(i as int, k as int);
                        assert(!group_is_fixed(subject.groups.prefilled_groups@[k as int], *subject));
                    }
                    let lower = self.build_students_per_group_lower_bound_constraint_for_group(i, subject, k, group);
                    match lower {
                        Some(c) => {
                            let ghost b = constraints@;
                            constraints.push(c);
                            proof {
                                assert(constraints@.map_values(|c: Constraint| describe(c)) =~= b.map_values(|c: Constraint| describe(c)).push(describe(c)));
                            }
                        },
                        None => {},
                    }
                    let upper = self.build_students_per_group_upper_bound_constraint_for_group(i, subject, k, group);
                    let ghost b = constraints@;
                    constraints.push(upper);
                    proof {
                        assert(constraints@.map_values(|c: Constraint| describe(c)) =~= b.map_values(|c: Constraint| describe(c)).push(describe(upper)));
                        assert(constraints@.map_values(|c: Constraint| describe(c)) =~= before + group_size_descriptions(*subject, i as int, k as int));
                    }
                } else {
                    proof {
                        assert(group_size_descriptions(*subject, i as int, k as int) =~= Seq::empty());
                    }
                }
                k = k + 1;
            }
            i = i + 1;
        }
        constraints
    }

    /// Exactly one group for each student to be placed, subject after
    /// subject, students in increasing order.
    pub fn build_student_in_single_group_constraints(&self) -> (r: Vec<Constraint>)
        ensures
            r@.map_values(|c: Constraint| describe(c)) == single_group_descriptions(
                self.validated().subject_list(),
                self.validated().subject_list().len() as int,
            ),
    {
        let subjects = self.data().subjects();
        let ghost ss = subjects@;
        let mut constraints: Vec<Constraint> = Vec::new();
        let mut i: usize = 0;
        while i < subjects.len()
            invariant
                ss == subjects@,
                0 <= i <= ss.len(),
                constraints@.map_values(|c: Constraint| describe(c)) == single_group_descriptions(ss, i as int),
            decreases ss.len() - i,
        {
            let subject = &subjects[i];
            let students = usize_elems(&subject.groups.not_assigned);
            let ghost base = constraints@.map_values(|c: Constraint| describe(c));
            let ghost part = students@.map_values(
                |st: usize| count_description(student_groups_names(*subject, i as int, st), 1, -1, Sign::Equals),
            );
            let mut t: usize = 0;
            while t < students.len()
                invariant
                    part == students@.map_values(
                        |st: usize| count_description(student_groups_names(*subject, i as int, st), 1, -1, Sign::Equals),
                    ),
                    0 <= t <= students@.len(),
                    constraints@.map_values(|c: Constraint| describe(c)) == base + part.take(t as int),
                decreases students@.len() - t,
            {
                let c = self.build_student_in_single_group_constraint_for_student(i, subject, students[t]);
                let ghost before = constraints@;
                constraints.push(c);
                proof {
                    assert(part.take(t + 1) =~= part.take(t as int).push(describe(c)));
                    assert(constraints@.map_values(|c: Constraint| describe(c)) =~= before.map_values(|c: Constraint| describe(c)).push(describe(c)));
                }
                t = t + 1;
            }
            proof {
                assert(part.take(t as int) =~= part);
            }
            i = i + 1;
        }
        constraints
    }

    /// The constraints on the assignments to groups that can grow, subject
    /// after subject, slot after slot, group after group, students in
    /// increasing order.
    fn assignment_constraints(&self, in_slot: bool) -> (r: Vec<Constraint>)
        ensures
            r@.map_values(|c: Constraint| describe(c)) == assignment_descriptions(
                self.validated().subject_list(),
                self.validated().subject_list().len() as int,
                in_slot,
            ),
    {
        let subjects = self.data().subjects();
        let ghost ss = subjects@;
        let mut constraints: Vec<Constraint> = Vec::new();
        let mut i: usize = 0;
        while i < subjects.len()
            invariant
                ss == subjects@,
                0 <= i <= ss.len(),
                constraints@.map_values(|c: Constraint| describe(c)) == assignment_descriptions(ss, i as int, in_slot),
            decreases ss.len() - i,
        {
            let subject = &subjects[i];
            let students = usize_elems(&subject.groups.not_assigned);
            let n_groups: usize = subject.groups.prefilled_groups.len();
            let ghost subject_base = constraints@.map_values(|c: Constraint| describe(c));
            let mut j: usize = 0;
            while j < subject.slots.len()
                invariant
                    *subject == ss[i as int],
                    n_groups == subject.groups.prefilled_groups@.len(),
                    students@ == sorted_usize(subject.groups.not_assigned@),
                    0 <= j <= subject.slots@.len(),
                    constraints@.map_values(|c: Constraint| describe(c)) == subject_base + assignment_subject_descriptions(
                        *subject,
                        i as int,
                        j as int,
                        in_slot,
                    ),
                decreases subject.slots@.len() - j,
            {
                let ghost slot_base = constraints@.map_values(|c: Constraint| describe(c));
                let mut k: usize = 0;
                while k < n_groups
                    invariant
                        n_groups == subject.groups.prefilled_groups@.len(),
                        students@ == sorted_usize(subject.groups.not_assigned@),
                        0 <= k <= n_groups,
                        constraints@.map_values(|c: Constraint| describe(c)) == slot_base + assignment_slot_descriptions(
                            *subject,
                            i as int,
                            j as int,
                            k as int,
                            in_slot,
                        ),
                    decreases n_groups - k,
                {
                    let ghost case_base = constraints@.map_values(|c: Constraint| describe(c));
                    if !is_group_fixed(&subject.groups.prefilled_groups[k], subject) {
                        let ghost part = students@.map_values(
                            |st: usize|
                                leq_description(
                                    Variable::DynamicGroupAssignment { subject: i, slot: j, group: k, student: st },
                                    assignment_bound(in_slot, i, j, k, st),
                                ),
                        );
                        let mut t: usize = 0;
                        while t < students.len()
                            invariant
                                part == students@.map_values(
                                    |st: usize|
                                        leq_description(
                                            Variable::DynamicGroupAssignment { subject: i, slot: j, group: k, student: st },
                                            assignment_bound(in_slot, i, j, k, st),
                                        ),
                                ),
                                0 <= t <= students@.len(),
                                constraints@.map_values(|c: Constraint| describe(c)) == case_base + part.take(t as int),
                            decreases students@.len() - t,
                        {
                            let st: usize = students[t];
                            let c = if in_slot {
                                self.build_dynamic_groups_group_in_slot_constraint_for_case(i, j, k, st)
                            } else {
                                self.build_dynamic_group_student_in_group_constraint_for_case(i, j, k, st)
                            };
                            let ghost before = constraints@;
                            constraints.push(c);
                            proof {
                                assert(part.take(t + 1) =~= part.take(t as int).push(describe(c)));
                                assert(constraints@.map_values(|c: Constraint| describe(c)) =~= before.map_values(
                                    |c: Constraint| describe(c),
                                ).push(describe(c)));
                            }
                            t = t + 1;
                        }
                        proof {
                            assert(part.take(t as int) =~= part);
                            assert(assignment_case_descriptions(*subject, i as int, j as int, k as int, in_slot) =~= part);
                        }
                    } else {
                        proof {
                            assert(assignment_case_descriptions(*subject, i as int, j as int, k as int, in_slot) =~= Seq::empty());
                        }
                    }
                    k = k + 1;
                }
                j = j + 1;
            }
            i = i + 1;
        }
        constraints
    }

    /// A student to be placed is assigned to a group for a slot only when in
    /// that group, subject after subject, slot after slot, group after group,
    /// students in increasing order.
    pub fn build_dynamic_groups_student_in_group_constraints(&self) -> (r: Vec<Constraint>)
        ensures
            r@.map_values(|c: Constraint| describe(c)) == assignment_descriptions(
                self.validated().subject_list(),
                self.validated().subject_list().len() as int,
                false,
            ),
    {
        self.assignment_constraints(false)
    }

    /// A student to be placed is assigned to a group for a slot only when the
    /// group is in that slot, subject after subject, slot after slot, group
    /// after group, students in increasing order.
    pub fn build_dynamic_groups_group_in_slot_constraints(&self) -> (r: Vec<Constraint>)
        ensures
            r@.map_values(|c: Constraint| describe(c)) == assignment_descriptions(
                self.validated().subject_list(),
                self.validated().subject_list().len() as int,
                true,
            ),
    {
        self.assignment_constraints(true)
    }
}

} // verus!
