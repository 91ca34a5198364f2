//! Constraints on the number of interrogations of each student in a week or
//! in a day, and the expressions that count them.

use std::ops::Range;

use vstd::prelude::*;

use crate::colloscope::{variable_name, Subject, Variable};
use crate::nonzero::NonZeroU32;
use crate::linexpr::{assign_all, scale_map, sum_map, Constraint, Expr, Sign};
use std::collections::BTreeSet;

use crate::colloscope::SlotWithTeacher;
use crate::sets::usize_elems;
use crate::time::{weekday_at, Time, Weekday, MINUTES_PER_DAY};
use crate::translator::{group_is_fixed, is_group_fixed, IlpTranslator};

verus! {

broadcast use {vstd::std_specs::btree::group_btree_axioms, vstd::laws_cmp::group_laws_cmp};

/// The subject of a variable that names one.
pub open spec fn var_subject(v: Variable) -> int {
    match v {
        Variable::GroupInSlot { subject, .. } => subject as int,
        Variable::GroupOnWeekSelection { subject, .. } => subject as int,
        Variable::DynamicGroupAssignment { subject, .. } => subject as int,
        Variable::StudentInGroup { subject, .. } => subject as int,
        _ => -1,
    }
}

/// Slot `j` of subject `i` counts for week `week` and, when given, day `day`:
/// the subject is not a tutorial and the slot starts that week (that day).
pub open spec fn slot_counts(subjects: Seq<Subject>, i: int, j: int, week: u32, day: Option<Weekday>) -> bool {
    &&& 0 <= i < subjects.len()
    &&& !subjects[i].is_tutorial
    &&& 0 <= j < subjects[i].slots@.len()
    &&& subjects[i].slots@[j].start.week == week
    &&& (day matches Some(d) ==> subjects[i].slots@[j].start.weekday == d)
}

/// `v` says that `student` is interrogated in slot `j` of subject `s` (number
/// `i`): when the student is still to be placed, its assignment to a group
/// that can grow; otherwise a group the student is in being interrogated.
pub open spec fn interrogation_in_slot(s: Subject, i: int, j: int, student: usize, v: Variable) -> bool {
    if s.groups.not_assigned@.contains(student) {
        &&& v matches Variable::DynamicGroupAssignment { subject, slot, group, student: st }
        &&& subject == i && slot == j && st == student
        &&& group < s.groups.prefilled_groups@.len()
        &&& !group_is_fixed(s.groups.prefilled_groups@[group as int], s)
    } else {
        &&& v matches Variable::GroupInSlot { subject, slot, group }
        &&& subject == i && slot == j
        &&& group < s.groups.prefilled_groups@.len()
        &&& s.groups.prefilled_groups@[group as int].students@.contains(student)
    }
}

/// The slot of a variable that names one.
pub open spec fn var_slot(v: Variable) -> int {
    match v {
        Variable::GroupInSlot { slot, .. } => slot as int,
        Variable::DynamicGroupAssignment { slot, .. } => slot as int,
        _ => -1,
    }
}

/// `v` counts an interrogation of `student` in week `week` (and day `day`,
/// when given).
pub open spec fn counts_interrogation(
    subjects: Seq<Subject>,
    student: usize,
    week: u32,
    day: Option<Weekday>,
    v: Variable,
) -> bool {
    &&& slot_counts(subjects, var_subject(v), var_slot(v), week, day)
    &&& interrogation_in_slot(subjects[var_subject(v)], var_subject(v), var_slot(v), student, v)
}

/// The names of the variables counting the interrogations of `student` in
/// week `week` (and day `day`, when given).
pub open spec fn interrogation_names(subjects: Seq<Subject>, student: usize, week: u32, day: Option<Weekday>) -> Set<Seq<char>> {
    Set::new(|k: Seq<char>| exists|v: Variable| #[trigger] counts_interrogation(subjects, student, week, day, v) && variable_name(v) == k)
}

/// Coefficient 1 for each name of the set.
pub open spec fn ones(names: Set<Seq<char>>) -> Map<Seq<char>, i32> {
    Map::new(|k: Seq<char>| names.contains(k), |_k: Seq<char>| 1i32)
}

/// Setting coefficient 1 for each name of a list, in order, gives coefficient
/// 1 to the names of the list.
proof fn lemma_assign_ones(s: Seq<(Seq<char>, i32)>)
    requires
        forall|u: int| 0 <= u < s.len() ==> (#[trigger] s[u]).1 == 1,
    ensures
        assign_all(Map::empty(), s) == ones(Set::new(|k: Seq<char>| exists|u: int| 0 <= u < s.len() && (#[trigger] s[u]).0 == k)),
    decreases s.len(),
{
    let names = Set::new(|k: Seq<char>| exists|u: int| 0 <= u < s.len() && (#[trigger] s[u]).0 == k);
    if s.len() == 0 {
        assert(assign_all(Map::<Seq<char>, i32>::empty(), s) =~= ones(names));
    } else {
        let p = s.drop_last();
        assert forall|u: int| 0 <= u < p.len() implies (#[trigger] p[u]).1 == 1 by {
            assert(p[u] == s[u]);
        }
        lemma_assign_ones(p);
        let pnames = Set::new(|k: Seq<char>| exists|u: int| 0 <= u < p.len() && (#[trigger] p[u]).0 == k);
        assert(s.last().1 == 1) by {
            assert(s[s.len() - 1].1 == 1);
        }
        assert forall|k: Seq<char>| names.contains(k) <==> pnames.contains(k) || k == s.last().0 by {
            if names.contains(k) {
                let u = choose|u: int| 0 <= u < s.len() && (#[trigger] s[u]).0 == k;
                if u < p.len() {
                    assert(p[u] == s[u]);
                }
            }
            if pnames.contains(k) {
                let u = choose|u: int| 0 <= u < p.len() && (#[trigger] p[u]).0 == k;
                assert(p[u] == s[u]);
            }
            if k == s.last().0 {
                assert(s[s.len() - 1].0 == k);
            }
        }
        assert(assign_all(Map::<Seq<char>, i32>::empty(), s) =~= ones(names));
    }
}

/// Adds, after the others, the variables saying that `student` is
/// interrogated in slot `j` of subject `subject` (number `i`).
fn push_slot_interrogations(subject: &Subject, i: usize, j: usize, student: usize, out: &mut Vec<Variable>)
    ensures
        forall|v: Variable|
            #[trigger] final(out)@.contains(v) <==> old(out)@.contains(v) || interrogation_in_slot(
                *subject,
                i as int,
                j as int,
                student,
                v,
            ),
{
    let n_groups: usize = subject.groups.prefilled_groups.len();
    let to_place = subject.groups.not_assigned.contains(&student);
    let ghost start = old(out)@;
    let mut k: usize = 0;
    while k < n_groups
        invariant
            n_groups == subject.groups.prefilled_groups@.len(),
            to_place == subject.groups.not_assigned@.contains(student),
            0 <= k <= n_groups,
            forall|v: Variable|
                #[trigger] out@.contains(v) <==> start.contains(v) || (interrogation_in_slot(
                    *subject,
                    i as int,
                    j as int,
                    student,
                    v,
                ) && (v matches Variable::DynamicGroupAssignment { group, .. } ==> group < k) && (
                v matches Variable::GroupInSlot { group, .. } ==> group < k)),
        decreases n_groups - k,
    {
        let group = &subject.groups.prefilled_groups[k];
        let ghost before = out@;
        if to_place {
            if !is_group_fixed(group, subject) {
                out.push(Variable::DynamicGroupAssignment { subject: i, slot: j, group: k, student });
            }
        } else {
            if group.students.contains(&student) {
                out.push(Variable::GroupInSlot { subject: i, slot: j, group: k });
            }
        }
        proof {
            assert forall|v: Variable|
                #[trigger] out@.contains(v) <==> start.contains(v) || (interrogation_in_slot(
                    *subject,
                    i as int,
                    j as int,
                    student,
                    v,
                ) && (v matches Variable::DynamicGroupAssignment { group, .. } ==> group < k + 1) && (
                v matches Variable::GroupInSlot { group, .. } ==> group < k + 1)) by {
                if out@ != before {
                    assert(out@ == before.push(out@.last()));
                    if out@.contains(v) && !before.contains(v) {
                        let u = choose|u: int| 0 <= u < out@.len() && out@[u] == v;
                        if u < before.len() {
                            assert(before[u] == v);
                        }
                    }
                    if before.contains(v) {
                        let u = choose|u: int| 0 <= u < before.len() && before[u] == v;
                        assert(out@[u] == v);
                    }
                    if interrogation_in_slot(*subject, i as int, j as int, student, v) && !before.contains(v)
                        && (v matches Variable::DynamicGroupAssignment { group, .. } ==> group < k + 1)
                        && (v matches Variable::GroupInSlot { group, .. } ==> group < k + 1) && !start.contains(v) {
                        assert(out@[out@.len() - 1] == v);
                    }
                }
            }
        }
        k = k + 1;
    }
    proof {
        assert forall|v: Variable| #[trigger] interrogation_in_slot(*subject, i as int, j as int, student, v) implies out@.contains(v) by {
            assert(start.contains(v) || (interrogation_in_slot(*subject, i as int, j as int, student, v) && (
            v matches Variable::DynamicGroupAssignment { group, .. } ==> group < k) && (
            v matches Variable::GroupInSlot { group, .. } ==> group < k)));
        }
    }
}

/// The variables counting the interrogations of `student` in week `week`
/// (and day `day`, when given), each once.
fn interrogation_vars(subjects: &Vec<Subject>, student: usize, week: u32, day: Option<Weekday>) -> (r: Vec<Variable>)
    ensures
        forall|v: Variable| #[trigger] r@.contains(v) <==> counts_interrogation(subjects@, student, week, day, v),
{
    let ghost ss = subjects@;
    let mut out: Vec<Variable> = Vec::new();
    let mut i: usize = 0;
    while i < subjects.len()
        invariant
            ss == subjects@,
            0 <= i <= ss.len(),
            forall|v: Variable|
                #[trigger] out@.contains(v) <==> counts_interrogation(ss, student, week, day, v) && var_subject(v) < i,
        decreases ss.len() - i,
    {
        let subject = &subjects[i];
        if !subject.is_tutorial {
            let mut j: usize = 0;
            while j < subject.slots.len()
                invariant
                    ss == subjects@,
                    0 <= i < ss.len(),
                    *subject == ss[i as int],
                    !subject.is_tutorial,
                    0 <= j <= subject.slots@.len(),
                    forall|v: Variable|
                        #[trigger] out@.contains(v) <==> counts_interrogation(ss, student, week, day, v) && (var_subject(v) < i
                            || (var_subject(v) == i && var_slot(v) < j)),
                decreases subject.slots@.len() - j,
            {
                let start = &subject.slots[j].start;
                let day_ok = match day {
                    Some(d) => start.weekday == d,
                    None => true,
                };
                let ghost before = out@;
                if start.week == week && day_ok {
                    push_slot_interrogations(subject, i, j, student, &mut out);
                }
                proof {
                    assert forall|v: Variable|
                        #[trigger] out@.contains(v) <==> counts_interrogation(ss, student, week, day, v) && (var_subject(v) < i
                            || (var_subject(v) == i && var_slot(v) < j + 1)) by {
                        if interrogation_in_slot(*subject, i as int, j as int, student, v) {
                            assert(var_subject(v) == i && var_slot(v) == j);
                        }
                        if var_subject(v) == i && var_slot(v) == j && counts_interrogation(ss, student, week, day, v) {
                            assert(slot_counts(ss, i as int, j as int, week, day));
                        }
                    }
                }
                j = j + 1;
            }
        }
        proof {
            assert forall|v: Variable|
                #[trigger] out@.contains(v) <==> counts_interrogation(ss, student, week, day, v) && var_subject(v) < i + 1 by {
                if counts_interrogation(ss, student, week, day, v) && var_subject(v) == i {
                    assert(var_slot(v) < ss[i as int].slots@.len());
                }
            }
        }
        i = i + 1;
    }
    out
}

/// Coefficient 1 for each variable of the list.
fn unit_terms(vars: &Vec<Variable>) -> (r: Vec<(String, i32)>)
    ensures
        r@.len() == vars@.len(),
        forall|u: int| 0 <= u < r@.len() ==> (#[trigger] r@[u]).0@ == variable_name(vars@[u]) && r@[u].1 == 1,
{
    let mut out: Vec<(String, i32)> = Vec::new();
    let mut u: usize = 0;
    while u < vars.len()
        invariant
            0 <= u <= vars@.len(),
            out@.len() == u,
            forall|w: int| 0 <= w < u ==> (#[trigger] out@[w]).0@ == variable_name(vars@[w]) && out@[w].1 == 1,
        decreases vars@.len() - u,
    {
        out.push((vars[u].to_string(), 1));
        u = u + 1;
    }
    out
}

/// The names of the variables of a list.
pub open spec fn names_of_vars(vs: Seq<Variable>) -> Set<Seq<char>> {
    Set::new(|k: Seq<char>| exists|u: int| 0 <= u < vs.len() && variable_name(#[trigger] vs[u]) == k)
}

/// The sum of the variables of a list (each once), with whether the list is
/// empty.
pub(crate) fn sum_of_vars(vars: &Vec<Variable>) -> (r: (Expr, bool))
    ensures
        r.0.coefs() == ones(names_of_vars(vars@)),
        r.0.constant_value() == 0,
        r.1 <==> vars@.len() == 0,
{
    let terms = unit_terms(vars);
    let empty = vars.len() == 0;
    let ghost t = crate::terms::entries_view(terms@);
    proof {
        assert forall|u: int| 0 <= u < t.len() implies (#[trigger] t[u]).1 == 1 by {
            assert(terms@[u].1 == 1);
        }
        lemma_assign_ones(t);
        let listed = Set::new(|k: Seq<char>| exists|u: int| 0 <= u < t.len() && (#[trigger] t[u]).0 == k);
        assert forall|k: Seq<char>| listed.contains(k) <==> names_of_vars(vars@).contains(k) by {
            if listed.contains(k) {
                let u = choose|u: int| 0 <= u < t.len() && (#[trigger] t[u]).0 == k;
                assert(terms@[u].0@ == variable_name(vars@[u]));
            }
            if names_of_vars(vars@).contains(k) {
                let u = choose|u: int| 0 <= u < vars@.len() && variable_name(#[trigger] vars@[u]) == k;
                assert(terms@[u].0@ == variable_name(vars@[u]));
                assert(t[u].0 == k);
            }
        }
        assert(listed =~= names_of_vars(vars@));
    }
    (Expr::from_terms(terms, 0), empty)
}

/// The names of the variables of a list are those of the variables that a
/// predicate selects, when the list holds exactly those; and there are none
/// exactly when the list is empty.
pub(crate) proof fn lemma_names_of_selected(vs: Seq<Variable>, pred: spec_fn(Variable) -> bool)
    requires
        forall|v: Variable| #[trigger] vs.contains(v) <==> pred(v),
    ensures
        names_of_vars(vs) == Set::new(|k: Seq<char>| exists|v: Variable| #[trigger] pred(v) && variable_name(v) == k),
        vs.len() == 0 <==> names_of_vars(vs).is_empty(),
{
    let sel = Set::new(|k: Seq<char>| exists|v: Variable| #[trigger] pred(v) && variable_name(v) == k);
    assert forall|k: Seq<char>| names_of_vars(vs).contains(k) <==> sel.contains(k) by {
        if names_of_vars(vs).contains(k) {
            let u = choose|u: int| 0 <= u < vs.len() && variable_name(#[trigger] vs[u]) == k;
            assert(vs.contains(vs[u]));
            assert(pred(vs[u]));
        }
        if sel.contains(k) {
            let v = choose|v: Variable| #[trigger] pred(v) && variable_name(v) == k;
            assert(vs.contains(v));
            let u = choose|u: int| 0 <= u < vs.len() && vs[u] == v;
            assert(variable_name(vs[u]) == k);
        }
    }
    assert(names_of_vars(vs) =~= sel);
    if vs.len() > 0 {
        assert(names_of_vars(vs).contains(variable_name(vs[0])));
    } else {
        assert(names_of_vars(vs) =~= Set::<Seq<char>>::empty());
    }
}

impl<'a> IlpTranslator<'a> {
    /// The number of interrogations of `student` in week `week` (and day
    /// `day`, when given), as an expression, with whether it has no term.
    fn interrogation_count(&self, student: usize, week: u32, day: Option<Weekday>) -> (r: (Expr, bool))
        ensures
            r.0.coefs() == ones(interrogation_names(self.validated().subject_list(), student, week, day)),
            r.0.constant_value() == 0,
            r.1 <==> interrogation_names(self.validated().subject_list(), student, week, day).is_empty(),
    {
        let subjects = self.data().subjects();
        let vars = interrogation_vars(subjects, student, week, day);
        proof {
            let pred = |v: Variable| counts_interrogation(subjects@, student, week, day, v);
            lemma_names_of_selected(vars@, pred);
            assert forall|k: Seq<char>| names_of_vars(vars@).contains(k) <==> interrogation_names(subjects@, student, week, day).contains(k) by {
                if names_of_vars(vars@).contains(k) {
                    let v = choose|v: Variable| #[trigger] pred(v) && variable_name(v) == k;
                    assert(counts_interrogation(subjects@, student, week, day, v));
                }
                if interrogation_names(subjects@, student, week, day).contains(k) {
                    let v = choose|v: Variable| #[trigger] counts_interrogation(subjects@, student, week, day, v) && variable_name(v) == k;
                    assert(pred(v));
                }
            }
            assert(names_of_vars(vars@) =~= interrogation_names(subjects@, student, week, day));
        }
        sum_of_vars(&vars)
    }

    /// The number of interrogations of `student` in week `week`, tutorials
    /// aside, as an expression.
    pub fn build_interrogations_per_week_optimizer_for_student_expr(&self, student: usize, week: u32) -> (r: Expr)
        ensures
            r.coefs() == ones(interrogation_names(self.validated().subject_list(), student, week, None)),
            r.constant_value() == 0,
    {
        self.interrogation_count(student, week, None).0
    }
}

/// The same coefficient for each name of the set.
pub open spec fn uniform(names: Set<Seq<char>>, coef: i32) -> Map<Seq<char>, i32> {
    Map::new(|k: Seq<char>| names.contains(k), |_k: Seq<char>| coef)
}

/// `c` is `coef` times the sum of the named variables, plus `constant`,
/// compared to 0 by `sign`.
pub open spec fn is_count_constraint(c: Constraint, names: Set<Seq<char>>, coef: i32, constant: int, sign: Sign) -> bool {
    &&& c.expr().coefs() == uniform(names, coef)
    &&& c.expr().constant_value() == constant
    &&& c.sign() == sign
}

/// What a constraint says: its coefficients, its constant and its sign.
pub open spec fn describe(c: Constraint) -> (Map<Seq<char>, i32>, int, Sign) {
    (c.expr().coefs(), c.expr().constant_value() as int, c.sign())
}

/// `coef` times the sum of the named variables, plus `constant`, compared to
/// 0 by `sign`.
pub open spec fn count_description(names: Set<Seq<char>>, coef: i32, constant: int, sign: Sign) -> (
    Map<Seq<char>, i32>,
    int,
    Sign,
) {
    (uniform(names, coef), constant, sign)
}

/// `count <= bound`, stored as `count - bound <= 0`.
pub(crate) fn count_at_most(count: &Expr, bound: i32, Ghost(names): Ghost<Set<Seq<char>>>) -> (r: Constraint)
    requires
        count.coefs() == ones(names),
        count.constant_value() == 0,
        bound > i32::MIN,
    ensures
        is_count_constraint(r, names, 1, -bound, Sign::LessThan),
{
    let c = count.leq(&Expr::constant(bound));
    proof {
        assert(c.expr().coefs() =~= uniform(names, 1));
    }
    c
}

/// `count >= bound`, stored as `bound - count <= 0`.
pub(crate) fn count_at_least(count: &Expr, bound: i32, Ghost(names): Ghost<Set<Seq<char>>>) -> (r: Constraint)
    requires
        count.coefs() == ones(names),
        count.constant_value() == 0,
    ensures
        is_count_constraint(r, names, -1i32, bound as int, Sign::LessThan),
{
    let c = count.geq(&Expr::constant(bound));
    proof {
        assert(c.expr().coefs() =~= uniform(names, -1i32));
    }
    c
}

/// `count == bound`, stored as `count - bound == 0`.
pub(crate) fn count_exactly(count: &Expr, bound: i32, Ghost(names): Ghost<Set<Seq<char>>>) -> (r: Constraint)
    requires
        count.coefs() == ones(names),
        count.constant_value() == 0,
        bound > i32::MIN,
    ensures
        is_count_constraint(r, names, 1, -bound, Sign::Equals),
{
    let c = count.eq(&Expr::constant(bound));
    proof {
        assert(c.expr().coefs() =~= uniform(names, 1));
    }
    c
}

impl<'a> IlpTranslator<'a> {
    /// The bounds on the interrogations of `student` in week `week`, for
    /// between `range.start` and `range.end - 1` interrogations (tutorials
    /// aside): `count <= max` and `count >= min`, or `count == max` when the
    /// two bounds meet.
    pub fn build_interrogations_per_week_constraints_for_student(
        &self,
        range: &Range<u32>,
        student: usize,
        week: u32,
    ) -> (r: Vec<Constraint>)
        requires
            range.start <= i32::MAX,
            range.end <= i32::MAX,
        ensures
            ({
                let names = interrogation_names(self.validated().subject_list(), student, week, None);
                let max = range.end - 1;
                if range.start != max {
                    &&& r@.len() == 2
                    &&& is_count_constraint(r@[0], names, 1, -max, Sign::LessThan)
                    &&& is_count_constraint(r@[1], names, -1i32, range.start as int, Sign::LessThan)
                } else {
                    &&& r@.len() == 1
                    &&& is_count_constraint(r@[0], names, 1, -max, Sign::Equals)
                }
            }),
    {
        let ghost names = interrogation_names(self.validated().subject_list(), student, week, None);
        let (expr, _) = self.interrogation_count(student, week, None);
        let min: i32 = range.start as i32;
        let max: i32 = range.end as i32 - 1;
        let mut out: Vec<Constraint> = Vec::new();
        if min != max {
            out.push(count_at_most(&expr, max, Ghost(names)));
            out.push(count_at_least(&expr, min, Ghost(names)));
        } else {
            out.push(count_exactly(&expr, max, Ghost(names)));
        }
        out
    }

    /// No more than `max_count` interrogations for `student` on day `day` of
    /// week `week` (tutorials aside); `None` when no variable counts one.
    pub fn build_max_interrogations_per_day_constraints_for_student(
        &self,
        max_count: NonZeroU32,
        student: usize,
        week: u32,
        day: Weekday,
    ) -> (r: Option<Constraint>)
        requires
            max_count.val() <= i32::MAX,
        ensures
            ({
                let names = interrogation_names(self.validated().subject_list(), student, week, Some(day));
                match r {
                    None => names.is_empty(),
                    Some(c) => !names.is_empty() && is_count_constraint(c, names, 1, -max_count.val(), Sign::LessThan),
                }
            }),
    {
        let ghost names = interrogation_names(self.validated().subject_list(), student, week, Some(day));
        let (expr, empty) = self.interrogation_count(student, week, Some(day));
        if empty {
            return None;
        }
        let max: i32 = max_count.get() as i32;
        Some(count_at_most(&expr, max, Ghost(names)))
    }

    /// No interrogation at all for `student` on day `day` of week `week`
    /// (tutorials aside), as a goal; `None` when no variable counts one.
    pub fn build_max_interrogations_per_day_optimizer_for_student(
        &self,
        student: usize,
        week: u32,
        day: Weekday,
    ) -> (r: Option<Constraint>)
        ensures
            ({
                let names = interrogation_names(self.validated().subject_list(), student, week, Some(day));
                match r {
                    None => names.is_empty(),
                    Some(c) => !names.is_empty() && is_count_constraint(c, names, 1, 0, Sign::Equals),
                }
            }),
    {
        let ghost names = interrogation_names(self.validated().subject_list(), student, week, Some(day));
        let (expr, empty) = self.interrogation_count(student, week, Some(day));
        if empty {
            return None;
        }
        Some(count_exactly(&expr, 0, Ghost(names)))
    }

    /// As many interrogations for `student` in week `week` as in the next
    /// week (tutorials aside), as a goal.
    pub fn build_interrogations_per_week_optimizer_for_student(&self, student: usize, week: u32) -> (r: Constraint)
        requires
            week < u32::MAX,
        ensures
            r.expr().coefs() == sum_map(
                ones(interrogation_names(self.validated().subject_list(), student, week, None)),
                scale_map(ones(interrogation_names(self.validated().subject_list(), student, (week + 1) as u32, None)), -1),
            ),
            r.expr().constant_value() == 0,
            r.sign() == Sign::Equals,
    {
        let expr1 = self.build_interrogations_per_week_optimizer_for_student_expr(student, week);
        let expr2 = self.build_interrogations_per_week_optimizer_for_student_expr(student, week + 1);
        expr1.eq(&expr2)
    }
}

/// Where a student stands in a subject.
pub enum StudentStatus {
    /// In this group, which is the first that holds the student.
    Assigned(usize),
    /// Still to be placed, in one of these groups (those that can grow).
    ToBeAssigned(BTreeSet<usize>),
    /// Neither in a group nor to be placed.
    NotConcerned,
}

/// Group `k` is the first group of the subject that holds `student`.
pub open spec fn is_first_group_of(s: Subject, student: usize, k: int) -> bool {
    &&& 0 <= k < s.groups.prefilled_groups@.len()
    &&& s.groups.prefilled_groups@[k].students@.contains(student)
    &&& forall|u: int| 0 <= u < k ==> !(#[trigger] s.groups.prefilled_groups@[u]).students@.contains(student)
}

/// The groups of a subject that can still grow.
pub open spec fn growable_groups(s: Subject) -> Set<usize> {
    Set::new(|k: usize| k < s.groups.prefilled_groups@.len() && !group_is_fixed(s.groups.prefilled_groups@[k as int], s))
}

/// Where `student` stands in subject `subject`: to be placed (in a group
/// that can grow), in the first group that holds it, or neither.
pub fn get_student_status(student: usize, subject: &Subject) -> (r: StudentStatus)
    ensures
        match r {
            StudentStatus::ToBeAssigned(groups) => subject.groups.not_assigned@.contains(student) && groups@ == growable_groups(
                *subject,
            ),
            StudentStatus::Assigned(k) => !subject.groups.not_assigned@.contains(student) && is_first_group_of(
                *subject,
                student,
                k as int,
            ),
            StudentStatus::NotConcerned => !subject.groups.not_assigned@.contains(student) && forall|k: int|
                0 <= k < subject.groups.prefilled_groups@.len() ==> !(
                #[trigger] subject.groups.prefilled_groups@[k]).students@.contains(student),
        },
{
    let n_groups: usize = subject.groups.prefilled_groups.len();
    if subject.groups.not_assigned.contains(&student) {
        let mut list: BTreeSet<usize> = BTreeSet::new();
        let mut k: usize = 0;
        while k < n_groups
            invariant
                n_groups == subject.groups.prefilled_groups@.len(),
                0 <= k <= n_groups,
                list@ == Set::new(|u: usize| u < k && !group_is_fixed(subject.groups.prefilled_groups@[u as int], *subject)),
            decreases n_groups - k,
        {
            if !is_group_fixed(&subject.groups.prefilled_groups[k], subject) {
                list.insert(k);
            }
            proof {
                assert(list@ =~= Set::new(
                    |u: usize| u < k + 1 && !group_is_fixed(subject.groups.prefilled_groups@[u as int], *subject),
                ));
            }
            k = k + 1;
        }
        proof {
            assert(list@ =~= growable_groups(*subject));
        }
        return StudentStatus::ToBeAssigned(list);
    }
    let mut k: usize = 0;
    while k < n_groups
        invariant
            n_groups == subject.groups.prefilled_groups@.len(),
            !subject.groups.not_assigned@.contains(student),
            0 <= k <= n_groups,
            forall|u: int| 0 <= u < k ==> !(#[trigger] subject.groups.prefilled_groups@[u]).students@.contains(student),
        decreases n_groups - k,
    {
        if subject.groups.prefilled_groups[k].students.contains(&student) {
            return StudentStatus::Assigned(k);
        }
        k = k + 1;
    }
    StudentStatus::NotConcerned
}

/// `time` falls within the interval of `duration` minutes starting at
/// `start` (an interval running past midnight holds every later time).
pub open spec fn time_within(time: Time, start: Time, duration: nat) -> bool {
    &&& start.minutes() <= time.minutes()
    &&& (start.minutes() + duration >= MINUTES_PER_DAY || time.minutes() < start.minutes() + duration)
}

/// The time unit at `time` on day `day` of week `week` falls within the slot.
pub open spec fn unit_in_slot(week: u32, day: Weekday, time: Time, s: Subject, slot: SlotWithTeacher) -> bool {
    &&& slot.start.week == week
    &&& slot.start.weekday == day
    &&& time_within(time, slot.start.start_time, s.duration.val() as nat)
}

/// Whether the time unit at `time` on day `weekday` of week `week` falls
/// within a slot of the subject.
pub fn is_time_unit_in_slot(
    week: u32,
    weekday: Weekday,
    time: &Time,
    _time_resolution: u32,
    subject: &Subject,
    slot: &SlotWithTeacher,
) -> (r: bool)
    ensures
        r == unit_in_slot(week, weekday, *time, *subject, *slot),
{
    if week != slot.start.week {
        return false;
    }
    if weekday != slot.start.weekday {
        return false;
    }
    time.fit_in(&slot.start.start_time, subject.duration.get())
}

/// `v` says that `student` is interrogated in slot `j` of subject `i` and
/// that this slot holds the time unit: its assignment to a group that can
/// grow when the student is to be placed, or else the interrogation of the
/// first group that holds it.
pub open spec fn busy_at_unit(
    subjects: Seq<Subject>,
    student: usize,
    week: u32,
    day: Weekday,
    time: Time,
    v: Variable,
) -> bool {
    let i = var_subject(v);
    let j = var_slot(v);
    &&& 0 <= i < subjects.len()
    &&& 0 <= j < subjects[i].slots@.len()
    &&& unit_in_slot(week, day, time, subjects[i], subjects[i].slots@[j])
    &&& if subjects[i].groups.not_assigned@.contains(student) {
        &&& v matches Variable::DynamicGroupAssignment { group, student: st, .. }
        &&& st == student
        &&& growable_groups(subjects[i]).contains(group)
    } else {
        &&& v matches Variable::GroupInSlot { group, .. }
        &&& is_first_group_of(subjects[i], student, group as int)
    }
}

/// The names of the variables saying that `student` is interrogated at the
/// time unit.
pub open spec fn busy_names(subjects: Seq<Subject>, student: usize, week: u32, day: Weekday, time: Time) -> Set<Seq<char>> {
    Set::new(|k: Seq<char>| exists|v: Variable| #[trigger] busy_at_unit(subjects, student, week, day, time, v) && variable_name(v) == k)
}

/// The variables saying that `student` is interrogated at the time unit.
fn busy_vars(subjects: &Vec<Subject>, student: usize, week: u32, day: Weekday, time: &Time) -> (r: Vec<Variable>)
    ensures
        forall|v: Variable| #[trigger] r@.contains(v) <==> busy_at_unit(subjects@, student, week, day, *time, v),
{
    let ghost ss = subjects@;
    let mut out: Vec<Variable> = Vec::new();
    let mut i: usize = 0;
    while i < subjects.len()
        invariant
            ss == subjects@,
            0 <= i <= ss.len(),
            forall|v: Variable| #[trigger] out@.contains(v) <==> busy_at_unit(ss, student, week, day, *time, v) && var_subject(v) < i,
        decreases ss.len() - i,
    {
        let subject = &subjects[i];
        let mut j: usize = 0;
        while j < subject.slots.len()
            invariant
                ss == subjects@,
                0 <= i < ss.len(),
                *subject == ss[i as int],
                0 <= j <= subject.slots@.len(),
                forall|v: Variable|
                    #[trigger] out@.contains(v) <==> busy_at_unit(ss, student, week, day, *time, v) && (var_subject(v) < i || (
                    var_subject(v) == i && var_slot(v) < j)),
            decreases subject.slots@.len() - j,
        {
            let ghost before = out@;
            if is_time_unit_in_slot(week, day, time, 0, subject, &subject.slots[j]) {
                match get_student_status(student, subject) {
                    StudentStatus::Assigned(k) => {
                        out.push(Variable::GroupInSlot { subject: i, slot: j, group: k });
                        proof {
                            assert forall|v: Variable|
                                #[trigger] out@.contains(v) <==> busy_at_unit(ss, student, week, day, *time, v) && (var_subject(v) < i
                                    || (var_subject(v) == i && var_slot(v) < j + 1)) by {
                                if out@.contains(v) && !before.contains(v) {
                                    let u = choose|u: int| 0 <= u < out@.len() && out@[u] == v;
                                    if u < before.len() {
                                        assert(before[u] == v);
                                    }
                                }
                                if before.contains(v) {
                                    let u = choose|u: int| 0 <= u < before.len() && before[u] == v;
                                    assert(out@[u] == v);
                                }
                                if busy_at_unit(ss, student, week, day, *time, v) && var_subject(v) == i && var_slot(v) == j {
                                    if let Variable::GroupInSlot { group, .. } = v {
                                        if group != k {
                                            let g = group as int;
                                            if g < k {
                                                assert(!ss[i as int].groups.prefilled_groups@[g].students@.contains(student));
                                            } else {
                                                assert(!ss[i as int].groups.prefilled_groups@[k as int].students@.contains(student));
                                            }
                                        }
                                    }
                                    assert(out@[out@.len() - 1] == v);
                                }
                            }
                        }
                    },
                    StudentStatus::ToBeAssigned(groups) => {
                        let list = usize_elems(&groups);
                        let mut t: usize = 0;
                        while t < list.len()
                            invariant
                                ss == subjects@,
                                0 <= i < ss.len(),
                                *subject == ss[i as int],
                                0 <= j < subject.slots@.len(),
                                unit_in_slot(week, day, *time, *subject, subject.slots@[j as int]),
                                subject.groups.not_assigned@.contains(student),
                                list@.to_set() == growable_groups(*subject),
                                crate::sets::increasing_usize(list@),
                                0 <= t <= list@.len(),
                                forall|v: Variable|
                                    #[trigger] out@.contains(v) <==> before.contains(v) || (busy_at_unit(
                                        ss,
                                        student,
                                        week,
                                        day,
                                        *time,
                                        v,
                                    ) && var_subject(v) == i && var_slot(v) == j && list@.take(t as int).contains(
                                        v->DynamicGroupAssignment_group,
                                    )),
                            decreases list@.len() - t,
                        {
                            let k: usize = list[t];
                            let ghost prev = out@;
                            out.push(Variable::DynamicGroupAssignment { subject: i, slot: j, group: k, student });
                            proof {
                                assert(list@.to_set().contains(k));
                                assert(list@.take(t + 1) =~= list@.take(t as int).push(k));
                                assert forall|v: Variable|
                                    #[trigger] out@.contains(v) <==> before.contains(v) || (busy_at_unit(
                                        ss,
                                        student,
                                        week,
                                        day,
                                        *time,
                                        v,
                                    ) && var_subject(v) == i && var_slot(v) == j && list@.take(t + 1).contains(
                                        v->DynamicGroupAssignment_group,
                                    )) by {
                                    if out@.contains(v) && !prev.contains(v) {
                                        let u = choose|u: int| 0 <= u < out@.len() && out@[u] == v;
                                        if u < prev.len() {
                                            assert(prev[u] == v);
                                        }
                                        assert(list@.take(t + 1)[t as int] == k);
                                    }
                                    if prev.contains(v) {
                                        let u = choose|u: int| 0 <= u < prev.len() && prev[u] == v;
                                        assert(out@[u] == v);
                                    }
                                    if busy_at_unit(ss, student, week, day, *time, v) && var_subject(v) == i && var_slot(v) == j
                                        && list@.take(t + 1).contains(v->DynamicGroupAssignment_group) && !list@.take(
                                        t as int,
                                    ).contains(v->DynamicGroupAssignment_group) {
                                        let u = choose|u: int| 0 <= u < t + 1 && #[trigger] list@.take(t + 1)[u] == v->DynamicGroupAssignment_group;
                                        if u < t {
                                            assert(list@.take(t as int)[u] == v->DynamicGroupAssignment_group);
                                        }
                                        assert(out@[out@.len() - 1] == v);
                                    }
                                }
                            }
                            t = t + 1;
                        }
                        proof {
                            assert(list@.take(t as int) =~= list@);
                            assert forall|v: Variable|
                                #[trigger] out@.contains(v) <==> busy_at_unit(ss, student, week, day, *time, v) && (var_subject(v) < i
                                    || (var_subject(v) == i && var_slot(v) < j + 1)) by {
                                if busy_at_unit(ss, student, week, day, *time, v) && var_subject(v) == i && var_slot(v) == j {
                                    assert(growable_groups(*subject).contains(v->DynamicGroupAssignment_group));
                                    assert(list@.to_set().contains(v->DynamicGroupAssignment_group));
                                }
                            }
                        }
                    },
                    StudentStatus::NotConcerned => {
                        proof {
                            assert forall|v: Variable|
                                #[trigger] out@.contains(v) <==> busy_at_unit(ss, student, week, day, *time, v) && (var_subject(v) < i
                                    || (var_subject(v) == i && var_slot(v) < j + 1)) by {
                                if busy_at_unit(ss, student, week, day, *time, v) && var_subject(v) == i && var_slot(v) == j {
                                    if let Variable::GroupInSlot { group, .. } = v {
                                        assert(!ss[i as int].groups.prefilled_groups@[group as int].students@.contains(student));
                                    }
                                }
                            }
                        }
                    },
                }
            } else {
                proof {
                    assert forall|v: Variable|
                        #[trigger] out@.contains(v) <==> busy_at_unit(ss, student, week, day, *time, v) && (var_subject(v) < i || (
                        var_subject(v) == i && var_slot(v) < j + 1)) by {
                        if busy_at_unit(ss, student, week, day, *time, v) && var_subject(v) == i && var_slot(v) == j {
                            assert(unit_in_slot(week, day, *time, *subject, subject.slots@[j as int]));
                        }
                    }
                }
            }
            j = j + 1;
        }
        i = i + 1;
    }
    out
}

impl<'a> IlpTranslator<'a> {
    /// At most one interrogation for `student` at the time unit at `time` on
    /// day `weekday` of week `week`; `None` when no variable says that the
    /// student is interrogated then.
    pub fn build_at_most_one_interrogation_constraint_for_one_time_unit_and_one_student(
        &self,
        week: u32,
        weekday: Weekday,
        time: Time,
        time_resolution: u32,
        student: usize,
    ) -> (r: Option<Constraint>)
        ensures
            ({
                let names = busy_names(self.validated().subject_list(), student, week, weekday, time);
                match r {
                    None => names.is_empty(),
                    Some(c) => !names.is_empty() && is_count_constraint(c, names, 1, -1, Sign::LessThan),
                }
            }),
    {
        let subjects = self.data().subjects();
        let vars = busy_vars(subjects, student, week, weekday, &time);
        let ghost names = busy_names(subjects@, student, week, weekday, time);
        proof {
            let pred = |v: Variable| busy_at_unit(subjects@, student, week, weekday, time, v);
            lemma_names_of_selected(vars@, pred);
            assert forall|k: Seq<char>| names_of_vars(vars@).contains(k) <==> names.contains(k) by {
                if names_of_vars(vars@).contains(k) {
                    let v = choose|v: Variable| #[trigger] pred(v) && variable_name(v) == k;
                    assert(busy_at_unit(subjects@, student, week, weekday, time, v));
                }
                if names.contains(k) {
                    let v = choose|v: Variable| #[trigger] busy_at_unit(subjects@, student, week, weekday, time, v) && variable_name(v) == k;
                    assert(pred(v));
                }
            }
            assert(names_of_vars(vars@) =~= names);
        }
        let (expr, empty) = sum_of_vars(&vars);
        if empty {
            return None;
        }
        Some(count_at_most(&expr, 1, Ghost(names)))
    }
}

/// The bounds on the interrogations of `student` in week `week`, for
/// between `range.start` and `range.end - 1` interrogations.
pub open spec fn week_bounds_descriptions(ss: Seq<Subject>, range: Range<u32>, student: usize, week: u32) -> Seq<
    (Map<Seq<char>, i32>, int, Sign),
> {
    let names = interrogation_names(ss, student, week, None);
    let max = range.end - 1;
    if range.start != max {
        seq![count_description(names, 1, -max, Sign::LessThan), count_description(names, -1i32, range.start as int, Sign::LessThan)]
    } else {
        seq![count_description(names, 1, -max, Sign::Equals)]
    }
}

/// The bounds of week `week` for the first `n` students.
pub open spec fn week_students_descriptions(ss: Seq<Subject>, range: Range<u32>, week: u32, n: int) -> Seq<
    (Map<Seq<char>, i32>, int, Sign),
>
    decreases n,
{
    if n <= 0 {
        Seq::empty()
    } else {
        week_students_descriptions(ss, range, week, n - 1) + week_bounds_descriptions(ss, range, (n - 1) as usize, week)
    }
}

/// The bounds of the first `w` weeks, week after week, each for the first
/// `n_students` students.
pub open spec fn weeks_descriptions(ss: Seq<Subject>, range: Range<u32>, n_students: int, w: int) -> Seq<
    (Map<Seq<char>, i32>, int, Sign),
>
    decreases w,
{
    if w <= 0 {
        Seq::empty()
    } else {
        weeks_descriptions(ss, range, n_students, w - 1) + week_students_descriptions(ss, range, (w - 1) as u32, n_students)
    }
}

/// The constraint of a day for a student, if any variable counts an
/// interrogation then: at most `max` interrogations, or, with no bound, none
/// at all as a goal.
pub open spec fn day_descriptions(ss: Seq<Subject>, max: Option<u32>, student: usize, week: u32, day: Weekday) -> Seq<
    (Map<Seq<char>, i32>, int, Sign),
> {
    let names = interrogation_names(ss, student, week, Some(day));
    if names.is_empty() {
        Seq::empty()
    } else {
        match max {
            Some(m) => seq![count_description(names, 1, -m, Sign::LessThan)],
            None => seq![count_description(names, 1, 0, Sign::Equals)],
        }
    }
}

/// The constraints of a day for the first `n` students.
pub open spec fn day_students_descriptions(ss: Seq<Subject>, max: Option<u32>, week: u32, day: Weekday, n: int) -> Seq<
    (Map<Seq<char>, i32>, int, Sign),
>
    decreases n,
{
    if n <= 0 {
        Seq::empty()
    } else {
        day_students_descriptions(ss, max, week, day, n - 1) + day_descriptions(ss, max, (n - 1) as usize, week, day)
    }
}

/// The constraints of the first `d` days of week `week`.
pub open spec fn week_days_descriptions(ss: Seq<Subject>, max: Option<u32>, week: u32, n_students: int, d: int) -> Seq<
    (Map<Seq<char>, i32>, int, Sign),
>
    decreases d,
{
    if d <= 0 {
        Seq::empty()
    } else {
        week_days_descriptions(ss, max, week, n_students, d - 1) + day_students_descriptions(
            ss,
            max,
            week,
            weekday_at((d - 1) as nat),
            n_students,
        )
    }
}

/// The constraints of the days of the first `w` weeks.
pub open spec fn days_descriptions(ss: Seq<Subject>, max: Option<u32>, n_students: int, w: int) -> Seq<
    (Map<Seq<char>, i32>, int, Sign),
>
    decreases w,
{
    if w <= 0 {
        Seq::empty()
    } else {
        days_descriptions(ss, max, n_students, w - 1) + week_days_descriptions(ss, max, (w - 1) as u32, n_students, 7)
    }
}

/// As many interrogations in a week as in the next, for `student`, over the
/// first `w` weeks.
pub open spec fn even_weeks_descriptions(ss: Seq<Subject>, student: usize, w: int) -> Seq<(Map<Seq<char>, i32>, int, Sign)>
    decreases w,
{
    if w <= 0 {
        Seq::empty()
    } else {
        even_weeks_descriptions(ss, student, w - 1) + seq![
            (
                sum_map(
                    ones(interrogation_names(ss, student, (w - 1) as u32, None)),
                    scale_map(ones(interrogation_names(ss, student, w as u32, None)), -1),
                ),
                0int,
                Sign::Equals,
            ),
        ]
    }
}

/// The goals of even weeks for the first `n` students, student after student.
pub open spec fn students_even_weeks_descriptions(ss: Seq<Subject>, weeks: int, n: int) -> Seq<
    (Map<Seq<char>, i32>, int, Sign),
>
    decreases n,
{
    if n <= 0 {
        Seq::empty()
    } else {
        students_even_weeks_descriptions(ss, weeks, n - 1) + even_weeks_descriptions(ss, (n - 1) as usize, weeks)
    }
}

impl<'a> IlpTranslator<'a> {
    /// The bounds on the number of interrogations of each student in each
    /// week, week after week, when the colloscope sets them; none otherwise.
    pub fn build_interrogations_per_week_constraints(&self) -> (r: Vec<Constraint>)
        requires
            self.validated().general_data().interrogations_per_week matches Some(range) ==> range.start <= i32::MAX
                && range.end <= i32::MAX,
        ensures
            r@.map_values(|c: Constraint| describe(c)) == match self.validated().general_data().interrogations_per_week {
                None => Seq::empty(),
                Some(range) => weeks_descriptions(
                    self.validated().subject_list(),
                    range,
                    self.validated().student_list().len() as int,
                    self.validated().general_data().week_count.val() as int,
                ),
            },
    {
        let general = self.data().general();
        let range = match &general.interrogations_per_week {
            Some(r) => r,
            None => {
                let empty: Vec<Constraint> = Vec::new();
                proof {
                    assert(empty@.map_values(|c: Constraint| describe(c)) =~= Seq::empty());
                }
                return empty;
            },
        };
        let ghost ss = self.validated().subject_list();
        let n_students: usize = self.data().students().len();
        let week_count: u32 = general.week_count.get();
        let mut constraints: Vec<Constraint> = Vec::new();
        let mut week: u32 = 0;
        while week < week_count
            invariant
                ss == self.validated().subject_list(),
                range.start <= i32::MAX && range.end <= i32::MAX,
                0 <= week <= week_count,
                constraints@.map_values(|c: Constraint| describe(c)) == weeks_descriptions(ss, *range, n_students as int, week as int),
            decreases week_count - week,
        {
            let mut student: usize = 0;
            let ghost base = constraints@.map_values(|c: Constraint| describe(c));
            while student < n_students
                invariant
                    ss == self.validated().subject_list(),
                    range.start <= i32::MAX && range.end <= i32::MAX,
                    0 <= student <= n_students,
                    constraints@.map_values(|c: Constraint| describe(c)) == base + week_students_descriptions(ss, *range, week, student as int),
                decreases n_students - student,
            {
                let more = self.build_interrogations_per_week_constraints_for_student(range, student, week);
                let ghost before = constraints@;
                proof {
                    assert(more@.map_values(|c: Constraint| describe(c)) =~= week_bounds_descriptions(ss, *range, student, week));
                }
                crate::rhythm::append_constraints(&mut constraints, more);
                proof {
                    assert(constraints@.map_values(|c: Constraint| describe(c)) =~= before.map_values(|c: Constraint| describe(c))
                        + more@.map_values(|c: Constraint| describe(c)));
                }
                student = student + 1;
            }
            week = week + 1;
        }
        constraints
    }

    /// The constraints of every day of every week for each student, when an
    /// interrogation could fall then: at most `max` interrogations, or, with
    /// no bound, none at all as a goal.
    fn days_constraints(&self, max: Option<u32>) -> (r: Vec<Constraint>)
        requires
            max matches Some(m) ==> 0 < m <= i32::MAX,
        ensures
            r@.map_values(|c: Constraint| describe(c)) == days_descriptions(
                self.validated().subject_list(),
                max,
                self.validated().student_list().len() as int,
                self.validated().general_data().week_count.val() as int,
            ),
    {
        let ghost ss = self.validated().subject_list();
        let n_students: usize = self.data().students().len();
        let week_count: u32 = self.data().general().week_count.get();
        let days = Weekday::iter();
        let mut constraints: Vec<Constraint> = Vec::new();
        let mut week: u32 = 0;
        while week < week_count
            invariant
                ss == self.validated().subject_list(),
                max matches Some(m) ==> 0 < m <= i32::MAX,
                days@.len() == 7,
                forall|i: int| 0 <= i < 7 ==> days@[i] == weekday_at(i as nat),
                0 <= week <= week_count,
                constraints@.map_values(|c: Constraint| describe(c)) == days_descriptions(ss, max, n_students as int, week as int),
            decreases week_count - week,
        {
            let ghost week_base = constraints@.map_values(|c: Constraint| describe(c));
            let mut d: usize = 0;
            while d < 7
                invariant
                    ss == self.validated().subject_list(),
                    max matches Some(m) ==> 0 < m <= i32::MAX,
                    days@.len() == 7,
                    forall|i: int| 0 <= i < 7 ==> days@[i] == weekday_at(i as nat),
                    0 <= d <= 7,
                    constraints@.map_values(|c: Constraint| describe(c)) == week_base + week_days_descriptions(
                        ss,
                        max,
                        week,
                        n_students as int,
                        d as int,
                    ),
                decreases 7 - d,
            {
                let day = days[d];
                let ghost day_base = constraints@.map_values(|c: Constraint| describe(c));
                let mut student: usize = 0;
                while student < n_students
                    invariant
                        ss == self.validated().subject_list(),
                        max matches Some(m) ==> 0 < m <= i32::MAX,
                        day == weekday_at(d as nat),
                        0 <= student <= n_students,
                        constraints@.map_values(|c: Constraint| describe(c)) == day_base + day_students_descriptions(
                            ss,
                            max,
                            week,
                            day,
                            student as int,
                        ),
                    decreases n_students - student,
                {
                    let c = match max {
                        Some(m) => self.build_max_interrogations_per_day_constraints_for_student(
                            NonZeroU32::new(m).unwrap(),
                            student,
                            week,
                            day,
                        ),
                        None => self.build_max_interrogations_per_day_optimizer_for_student(student, week, day),
                    };
                    let ghost before = constraints@;
                    match c {
                        Some(c) => {
                            constraints.push(c);
                            proof {
                                assert(constraints@.map_values(|c: Constraint| describe(c)) =~= before.map_values(
                                    |c: Constraint| describe(c),
                                ).push(describe(c)));
                                assert(day_descriptions(ss, max, student, week, day) =~= seq![describe(c)]);
                            }
                        },
                        None => {
                            proof {
                                assert(day_descriptions(ss, max, student, week, day) =~= Seq::empty());
                            }
                        },
                    }
                    student = student + 1;
                }
                d = d + 1;
            }
            week = week + 1;
        }
        constraints
    }

    /// The bound on the number of interrogations of each student on each
    /// day, when the colloscope sets one (none otherwise): week after week,
    /// day after day, student after student, for the days on which an
    /// interrogation could fall.
    pub fn build_max_interrogations_per_day_constraints(&self) -> (r: Vec<Constraint>)
        requires
            self.validated().general_data().max_interrogations_per_day matches Some(m) ==> m.val() <= i32::MAX,
        ensures
            r@.map_values(|c: Constraint| describe(c)) == match self.validated().general_data().max_interrogations_per_day {
                None => Seq::empty(),
                Some(m) => days_descriptions(
                    self.validated().subject_list(),
                    Some(m.val()),
                    self.validated().student_list().len() as int,
                    self.validated().general_data().week_count.val() as int,
                ),
            },
    {
        match &self.data().general().max_interrogations_per_day {
            Some(m) => self.days_constraints(Some(m.get())),
            None => {
                let empty: Vec<Constraint> = Vec::new();
                proof {
                    assert(empty@.map_values(|c: Constraint| describe(c)) =~= Seq::empty());
                }
                empty
            },
        }
    }

    /// The goal of no interrogation on each day for each student, week after
    /// week, day after day, student after student, for the days on which an
    /// interrogation could fall.
    pub fn build_max_interrogations_per_day_optimizer(&self) -> (r: Vec<Constraint>)
        ensures
            r@.map_values(|c: Constraint| describe(c)) == days_descriptions(
                self.validated().subject_list(),
                None,
                self.validated().student_list().len() as int,
                self.validated().general_data().week_count.val() as int,
            ),
    {
        self.days_constraints(None)
    }

    /// The goal of as many interrogations in each week as in the next, for
    /// each student, student after student.
    pub fn build_interrogations_per_week_optimizer(&self) -> (r: Vec<Constraint>)
        ensures
            r@.map_values(|c: Constraint| describe(c)) == students_even_weeks_descriptions(
                self.validated().subject_list(),
                self.validated().general_data().week_count.val() - 1,
                self.validated().student_list().len() as int,
            ),
    {
        let ghost ss = self.validated().subject_list();
        let n_students: usize = self.data().students().len();
        let week_count: u32 = self.data().general().week_count.get();
        let mut constraints: Vec<Constraint> = Vec::new();
        let mut student: usize = 0;
        while student < n_students
            invariant
                ss == self.validated().subject_list(),
                week_count > 0,
                0 <= student <= n_students,
                constraints@.map_values(|c: Constraint| describe(c)) == students_even_weeks_descriptions(
                    ss,
                    week_count - 1,
                    student as int,
                ),
            decreases n_students - student,
        {
            let ghost base = constraints@.map_values(|c: Constraint| describe(c));
            let mut week: u32 = 0;
            while week < week_count - 1
                invariant
                    ss == self.validated().subject_list(),
                    week_count > 0,
                    0 <= week <= week_count - 1,
                    constraints@.map_values(|c: Constraint| describe(c)) == base + even_weeks_descriptions(ss, student, week as int),
                decreases week_count - 1 - week,
            {
                let c = self.build_interrogations_per_week_optimizer_for_student(student, week);
                let ghost before = constraints@;
                constraints.push(c);
                proof {
                    assert(constraints@.map_values(|c: Constraint| describe(c)) =~= before.map_values(|c: Constraint| describe(c)).push(
                        describe(c),
                    ));
                }
                week = week + 1;
            }
            student = student + 1;
        }
        constraints
    }
}

/// The time of day `m` minutes after midnight.
pub open spec fn time_at(m: int) -> Time {
    choose|t: Time| t.minutes() == m
}

/// The number of time units of `step` minutes from midnight to the end of
/// the day.
pub open spec fn units_per_day(step: int) -> int {
    (MINUTES_PER_DAY - 1) / step + 1
}

/// The constraints of a time unit for the first `n` students: for each
/// student that could be interrogated then, at most one interrogation.
pub open spec fn unit_descriptions(ss: Seq<Subject>, week: u32, day: Weekday, time: Time, n: int) -> Seq<
    (Map<Seq<char>, i32>, int, Sign),
>
    decreases n,
{
    if n <= 0 {
        Seq::empty()
    } else {
        let names = busy_names(ss, (n - 1) as usize, week, day, time);
        unit_descriptions(ss, week, day, time, n - 1) + if names.is_empty() {
            Seq::empty()
        } else {
            seq![count_description(names, 1, -1, Sign::LessThan)]
        }
    }
}

/// The constraints of the first `count` time units of `step` minutes of a
/// day.
pub open spec fn day_units_descriptions(ss: Seq<Subject>, n_students: int, week: u32, day: Weekday, step: int, count: int) -> Seq<
    (Map<Seq<char>, i32>, int, Sign),
>
    decreases count,
{
    if count <= 0 {
        Seq::empty()
    } else {
        day_units_descriptions(ss, n_students, week, day, step, count - 1) + unit_descriptions(
            ss,
            week,
            day,
            time_at((count - 1) * step),
            n_students,
        )
    }
}

/// The constraints of the time units of the first `d` days of week `week`.
pub open spec fn week_units_descriptions(ss: Seq<Subject>, n_students: int, week: u32, step: int, d: int) -> Seq<
    (Map<Seq<char>, i32>, int, Sign),
>
    decreases d,
{
    if d <= 0 {
        Seq::empty()
    } else {
        week_units_descriptions(ss, n_students, week, step, d - 1) + day_units_descriptions(
            ss,
            n_students,
            week,
            weekday_at((d - 1) as nat),
            step,
            units_per_day(step),
        )
    }
}

/// The constraints of the time units of the first `w` weeks.
pub open spec fn units_descriptions(ss: Seq<Subject>, n_students: int, step: int, w: int) -> Seq<(Map<Seq<char>, i32>, int, Sign)>
    decreases w,
{
    if w <= 0 {
        Seq::empty()
    } else {
        units_descriptions(ss, n_students, step, w - 1) + week_units_descriptions(ss, n_students, (w - 1) as u32, step, 7)
    }
}

impl<'a> IlpTranslator<'a> {
    /// At most one interrogation at the time unit for each student that
    /// could be interrogated then, students in order.
    pub fn build_at_most_one_interrogation_for_this_time_unit_constraints(
        &self,
        week: u32,
        weekday: Weekday,
        time: Time,
        time_resolution: u32,
    ) -> (r: Vec<Constraint>)
        ensures
            r@.map_values(|c: Constraint| describe(c)) == unit_descriptions(
                self.validated().subject_list(),
                week,
                weekday,
                time,
                self.validated().student_list().len() as int,
            ),
    {
        let ghost ss = self.validated().subject_list();
        let n_students: usize = self.data().students().len();
        let mut constraints: Vec<Constraint> = Vec::new();
        let mut student: usize = 0;
        while student < n_students
            invariant
                ss == self.validated().subject_list(),
                0 <= student <= n_students,
                constraints@.map_values(|c: Constraint| describe(c)) == unit_descriptions(ss, week, weekday, time, student as int),
            decreases n_students - student,
        {
            let c = self.build_at_most_one_interrogation_constraint_for_one_time_unit_and_one_student(
                week,
                weekday,
                time,
                time_resolution,
                student,
            );
            let ghost before = constraints@;
            match c {
                Some(c) => {
                    constraints.push(c);
                    proof {
                        assert(constraints@.map_values(|c: Constraint| describe(c)) =~= before.map_values(|c: Constraint| describe(c)).push(
                            describe(c),
                        ));
                    }
                },
                None => {},
            }
            student = student + 1;
        }
        constraints
    }

    /// The constraints of the time units of `step` minutes of one day.
    fn day_units_constraints(&self, week: u32, weekday: Weekday, step: u32) -> (r: Vec<Constraint>)
        requires
            step > 0,
        ensures
            r@.map_values(|c: Constraint| describe(c)) == day_units_descriptions(
                self.validated().subject_list(),
                self.validated().student_list().len() as int,
                week,
                weekday,
                step as int,
                units_per_day(step as int),
            ),
    {
        let ghost ss = self.validated().subject_list();
        let ghost n = self.validated().student_list().len() as int;
        let init_time = Time::from_hm(0, 0).unwrap();
        let mut times = init_time.iterate_until_end_of_day(step);
        let mut constraints: Vec<Constraint> = Vec::new();
        let ghost mut count: int = 0;
        loop
            invariant
                ss == self.validated().subject_list(),
                n == self.validated().student_list().len() as int,
                step > 0,
                times.step() == step,
                0 <= count,
                match times.current() {
                    Some(t) => t.minutes() == count * step && t.minutes() < MINUTES_PER_DAY,
                    None => count == units_per_day(step as int),
                },
                constraints@.map_values(|c: Constraint| describe(c)) == day_units_descriptions(ss, n, week, weekday, step as int, count),
            ensures
                constraints@.map_values(|c: Constraint| describe(c)) == day_units_descriptions(
                    ss,
                    n,
                    week,
                    weekday,
                    step as int,
                    units_per_day(step as int),
                ),
            decreases
                match times.current() {
                    Some(t) => MINUTES_PER_DAY - t.minutes() + 1,
                    None => 0,
                },
        {
            let next = times.next();
            match next {
                None => {
                    break;
                },
                Some(time) => {
                    proof {
                        assert(time.minutes() == time_at(count * step).minutes()) by {
                            assert(exists|t: Time| t.minutes() == count * step);
                        }
                        Time::lemma_minutes_injective(time, time_at(count * step));
                    }
                    let more = self.build_at_most_one_interrogation_for_this_time_unit_constraints(week, weekday, time, step);
                    let ghost before = constraints@;
                    crate::rhythm::append_constraints(&mut constraints, more);
                    proof {
                        assert(constraints@.map_values(|c: Constraint| describe(c)) =~= before.map_values(|c: Constraint| describe(c))
                            + more@.map_values(|c: Constraint| describe(c)));
                        assert((count + 1) * step == count * step + step) by (nonlinear_arith);
                        if time.minutes() + step >= MINUTES_PER_DAY {
                            assert(count + 1 == units_per_day(step as int)) by (nonlinear_arith)
                                requires
                                    count * step < MINUTES_PER_DAY,
                                    count * step + step >= MINUTES_PER_DAY,
                                    step > 0,
                                    count >= 0,
                            ;
                        }
                        count = count + 1;
                    }
                },
            }
        }
        constraints
    }

    /// At most one interrogation at each time unit for each student, week
    /// after week, day after day, time unit after time unit, the time unit
    /// being the largest that divides every time of the colloscope.
    pub fn build_at_most_one_interrogation_per_time_unit_constraints(&self) -> (r: Vec<Constraint>)
        ensures
            r@.map_values(|c: Constraint| describe(c)) == units_descriptions(
                self.validated().subject_list(),
                self.validated().student_list().len() as int,
                crate::resolution::gcd_all(
                    24 * 60,
                    crate::resolution::resolution_times(
                        self.validated().subject_list(),
                        self.validated().incompatibility_group_list(),
                    ),
                ) as int,
                self.validated().general_data().week_count.val() as int,
            ),
    {
        let ghost ss = self.validated().subject_list();
        let ghost n = self.validated().student_list().len() as int;
        let step: u32 = self.compute_needed_time_resolution();
        let week_count: u32 = self.data().general().week_count.get();
        let days = Weekday::iter();
        let mut constraints: Vec<Constraint> = Vec::new();
        let mut week: u32 = 0;
        while week < week_count
            invariant
                ss == self.validated().subject_list(),
                n == self.validated().student_list().len() as int,
                step > 0,
                days@.len() == 7,
                forall|i: int| 0 <= i < 7 ==> days@[i] == weekday_at(i as nat),
                0 <= week <= week_count,
                constraints@.map_values(|c: Constraint| describe(c)) == units_descriptions(ss, n, step as int, week as int),
            decreases week_count - week,
        {
            let ghost week_base = constraints@.map_values(|c: Constraint| describe(c));
            let mut d: usize = 0;
            while d < 7
                invariant
                    ss == self.validated().subject_list(),
                    n == self.validated().student_list().len() as int,
                    step > 0,
                    days@.len() == 7,
                    forall|i: int| 0 <= i < 7 ==> days@[i] == weekday_at(i as nat),
                    0 <= d <= 7,
                    constraints@.map_values(|c: Constraint| describe(c)) == week_base + week_units_descriptions(
                        ss,
                        n,
                        week,
                        step as int,
                        d as int,
                    ),
                decreases 7 - d,
            {
                let more = self.day_units_constraints(week, days[d], step);
                let ghost before = constraints@;
                crate::rhythm::append_constraints(&mut constraints, more);
                proof {
                    assert(constraints@.map_values(|c: Constraint| describe(c)) =~= before.map_values(|c: Constraint| describe(c))
                        + more@.map_values(|c: Constraint| describe(c)));
                }
                d = d + 1;
            }
            week = week + 1;
        }
        constraints
    }
}

} // verus!
