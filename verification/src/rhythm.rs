//! Constraints on the rhythm of the subjects: one interrogation per period
//! for each student and each group.

use std::ops::Range;

use vstd::prelude::*;

use crate::colloscope::{variable_name, GeneralData, Subject, Variable};
use crate::colloscope::GroupDesc;
use crate::interrogations::{
    count_at_most, count_description, count_exactly, describe, is_count_constraint, lemma_names_of_selected,
    names_of_vars, sum_of_vars,
};
use crate::periods::{period_list_for_range, periods_between, range_bounds, stretch_bounds};
use crate::sets::{sorted_u32, sorted_usize, usize_elems};
use crate::linexpr::{Constraint, Sign};
use crate::translator::{group_is_fixed, is_group_fixed, IlpTranslator};

verus! {

/// `week` falls in the period `start..end`.
pub open spec fn in_period(week: u32, period: (int, int)) -> bool {
    period.0 <= week < period.1
}

/// `v` assigns `student` to a group that can grow, for a slot of subject `s`
/// (number `i`) in the period.
pub open spec fn period_assignment_var(s: Subject, i: int, period: (int, int), student: usize, v: Variable) -> bool {
    &&& v matches Variable::DynamicGroupAssignment { subject, slot, group, student: st }
    &&& subject == i && st == student
    &&& slot < s.slots@.len() && in_period(s.slots@[slot as int].start.week, period)
    &&& group < s.groups.prefilled_groups@.len() && !group_is_fixed(s.groups.prefilled_groups@[group as int], s)
}

/// `v` puts group `k` of subject `s` (number `i`) in a slot of the period.
pub open spec fn period_slot_var(s: Subject, i: int, period: (int, int), k: usize, v: Variable) -> bool {
    &&& v matches Variable::GroupInSlot { subject, slot, group }
    &&& subject == i && group == k
    &&& slot < s.slots@.len() && in_period(s.slots@[slot as int].start.week, period)
}

/// The names of the variables assigning `student` in the period.
pub open spec fn period_assignment_names(s: Subject, i: int, period: (int, int), student: usize) -> Set<Seq<char>> {
    Set::new(|n: Seq<char>| exists|v: Variable| #[trigger] period_assignment_var(s, i, period, student, v) && variable_name(v) == n)
}

/// The names of the variables putting group `k` in a slot of the period.
pub open spec fn period_slot_names(s: Subject, i: int, period: (int, int), k: usize) -> Set<Seq<char>> {
    Set::new(|n: Seq<char>| exists|v: Variable| #[trigger] period_slot_var(s, i, period, k, v) && variable_name(v) == n)
}

/// The sign for one interrogation in a period: at most one in a period
/// shorter than the subject's, exactly one in a full period.
pub open spec fn period_sign(s: Subject, period: (int, int)) -> Sign {
    if period.1 - period.0 < s.period.val() {
        Sign::LessThan
    } else {
        Sign::Equals
    }
}

/// The variables assigning `student` in the period.
fn period_assignment_vars(s: &Subject, i: usize, period: &Range<u32>, student: usize) -> (r: Vec<Variable>)
    ensures
        forall|v: Variable|
            #[trigger] r@.contains(v) <==> period_assignment_var(*s, i as int, (period.start as int, period.end as int), student, v),
{
    let ghost per = (period.start as int, period.end as int);
    let n_groups: usize = s.groups.prefilled_groups.len();
    let mut out: Vec<Variable> = Vec::new();
    let mut j: usize = 0;
    while j < s.slots.len()
        invariant
            per == (period.start as int, period.end as int),
            n_groups == s.groups.prefilled_groups@.len(),
            0 <= j <= s.slots@.len(),
            forall|v: Variable|
                #[trigger] out@.contains(v) <==> period_assignment_var(*s, i as int, per, student, v)
                    && v->DynamicGroupAssignment_slot < j,
        decreases s.slots@.len() - j,
    {
        let week: u32 = s.slots[j].start.week;
        if period.start <= week && week < period.end {
            let mut k: usize = 0;
            while k < n_groups
                invariant
                    per == (period.start as int, period.end as int),
                    n_groups == s.groups.prefilled_groups@.len(),
                    0 <= j < s.slots@.len(),
                    in_period(s.slots@[j as int].start.week, per),
                    0 <= k <= n_groups,
                    forall|v: Variable|
                        #[trigger] out@.contains(v) <==> period_assignment_var(*s, i as int, per, student, v) && (
                        v->DynamicGroupAssignment_slot < j || (v->DynamicGroupAssignment_slot == j
                            && v->DynamicGroupAssignment_group < k)),
                decreases n_groups - k,
            {
                let ghost before = out@;
                if !is_group_fixed(&s.groups.prefilled_groups[k], s) {
                    out.push(Variable::DynamicGroupAssignment { subject: i, slot: j, group: k, student });
                    proof {
                        assert forall|v: Variable|
                            #[trigger] out@.contains(v) <==> period_assignment_var(*s, i as int, per, student, v) && (
                            v->DynamicGroupAssignment_slot < j || (v->DynamicGroupAssignment_slot == j
                                && v->DynamicGroupAssignment_group < k + 1)) by {
                            if out@.contains(v) && !before.contains(v) {
                                let u = choose|u: int| 0 <= u < out@.len() && out@[u] == v;
                                if u < before.len() {
                                    assert(before[u] == v);
                                }
                            }
                            if before.contains(v) {
                                let u = choose|u: int| 0 <= u < before.len() && before[u] == v;
                                assert(out@[u] == v);
                            }
                            if period_assignment_var(*s, i as int, per, student, v) && v->DynamicGroupAssignment_slot == j
                                && v->DynamicGroupAssignment_group == k {
                                assert(out@[out@.len() - 1] == v);
                            }
                        }
                    }
                }
                k = k + 1;
            }
        }
        j = j + 1;
    }
    out
}

/// The variables putting group `k` in a slot of the period.
fn period_slot_vars(s: &Subject, i: usize, period: &Range<u32>, k: usize) -> (r: Vec<Variable>)
    ensures
        forall|v: Variable|
            #[trigger] r@.contains(v) <==> period_slot_var(*s, i as int, (period.start as int, period.end as int), k, v),
{
    let ghost per = (period.start as int, period.end as int);
    let mut out: Vec<Variable> = Vec::new();
    let mut j: usize = 0;
    while j < s.slots.len()
        invariant
            per == (period.start as int, period.end as int),
            0 <= j <= s.slots@.len(),
            forall|v: Variable|
                #[trigger] out@.contains(v) <==> period_slot_var(*s, i as int, per, k, v) && v->GroupInSlot_slot < j,
        decreases s.slots@.len() - j,
    {
        let week: u32 = s.slots[j].start.week;
        let ghost before = out@;
        if period.start <= week && week < period.end {
            out.push(Variable::GroupInSlot { subject: i, slot: j, group: k });
        }
        proof {
            assert forall|v: Variable|
                #[trigger] out@.contains(v) <==> period_slot_var(*s, i as int, per, k, v) && v->GroupInSlot_slot < j + 1 by {
                if out@.contains(v) && !before.contains(v) {
                    let u = choose|u: int| 0 <= u < out@.len() && out@[u] == v;
                    if u < before.len() {
                        assert(before[u] == v);
                    }
                }
                if before.contains(v) {
                    let u = choose|u: int| 0 <= u < before.len() && before[u] == v;
                    assert(out@[u] == v);
                }
                if period_slot_var(*s, i as int, per, k, v) && v->GroupInSlot_slot == j {
                    assert(out@[out@.len() - 1] == v);
                }
            }
        }
        j = j + 1;
    }
    out
}

impl<'a> IlpTranslator<'a> {
    /// One interrogation in the period for `student`, still to be placed in
    /// subject `subject` (number `i`): at most one in a short period, exactly
    /// one in a full period.
    pub fn build_one_interrogation_per_period_contraint_for_not_assigned_student(
        &self,
        i: usize,
        subject: &Subject,
        period: Range<u32>,
        student: usize,
    ) -> (r: Constraint)
        requires
            period.start <= period.end,
            period.end - period.start <= subject.period.val(),
        ensures
            is_count_constraint(
                r,
                period_assignment_names(*subject, i as int, (period.start as int, period.end as int), student),
                1,
                -1,
                period_sign(*subject, (period.start as int, period.end as int)),
            ),
    {
        let ghost per = (period.start as int, period.end as int);
        let ghost names = period_assignment_names(*subject, i as int, per, student);
        let vars = period_assignment_vars(subject, i, &period, student);
        proof {
            let pred = |v: Variable| period_assignment_var(*subject, i as int, per, student, v);
            lemma_names_of_selected(vars@, pred);
            assert forall|n: Seq<char>| names_of_vars(vars@).contains(n) <==> names.contains(n) by {
                if names_of_vars(vars@).contains(n) {
                    let v = choose|v: Variable| #[trigger] pred(v) && variable_name(v) == n;
                    assert(period_assignment_var(*subject, i as int, per, student, v));
                }
                if names.contains(n) {
                    let v = choose|v: Variable| #[trigger] period_assignment_var(*subject, i as int, per, student, v) && variable_name(v) == n;
                    assert(pred(v));
                }
            }
            assert(names_of_vars(vars@) =~= names);
        }
        let (expr, _) = sum_of_vars(&vars);
        let current_period_length: u32 = period.end - period.start;
        if current_period_length < subject.period.get() {
            count_at_most(&expr, 1, Ghost(names))
        } else {
            count_exactly(&expr, 1, Ghost(names))
        }
    }

    /// The sum of the variables putting group `k` in a slot of the period.
    fn period_slot_count(&self, i: usize, subject: &Subject, period: &Range<u32>, k: usize) -> (r: crate::linexpr::Expr)
        ensures
            r.coefs() == crate::interrogations::ones(
                period_slot_names(*subject, i as int, (period.start as int, period.end as int), k),
            ),
            r.constant_value() == 0,
    {
        let ghost per = (period.start as int, period.end as int);
        let ghost names = period_slot_names(*subject, i as int, per, k);
        let vars = period_slot_vars(subject, i, period, k);
        proof {
            let pred = |v: Variable| period_slot_var(*subject, i as int, per, k, v);
            lemma_names_of_selected(vars@, pred);
            assert forall|n: Seq<char>| names_of_vars(vars@).contains(n) <==> names.contains(n) by {
                if names_of_vars(vars@).contains(n) {
                    let v = choose|v: Variable| #[trigger] pred(v) && variable_name(v) == n;
                    assert(period_slot_var(*subject, i as int, per, k, v));
                }
                if names.contains(n) {
                    let v = choose|v: Variable| #[trigger] period_slot_var(*subject, i as int, per, k, v) && variable_name(v) == n;
                    assert(pred(v));
                }
            }
            assert(names_of_vars(vars@) =~= names);
        }
        sum_of_vars(&vars).0
    }

    /// One interrogation in the period for group `k` of subject `subject`
    /// (number `i`): at most one in a short period, exactly one in a full
    /// period.
    pub fn build_one_interrogation_per_period_contraint_for_assigned_student(
        &self,
        i: usize,
        subject: &Subject,
        period: Range<u32>,
        k: usize,
    ) -> (r: Constraint)
        requires
            period.start <= period.end,
            period.end - period.start <= subject.period.val(),
        ensures
            is_count_constraint(
                r,
                period_slot_names(*subject, i as int, (period.start as int, period.end as int), k),
                1,
                -1,
                period_sign(*subject, (period.start as int, period.end as int)),
            ),
    {
        let ghost names = period_slot_names(*subject, i as int, (period.start as int, period.end as int), k);
        let expr = self.period_slot_count(i, subject, &period, k);
        let current_period_length: u32 = period.end - period.start;
        if current_period_length < subject.period.get() {
            count_at_most(&expr, 1, Ghost(names))
        } else {
            count_exactly(&expr, 1, Ghost(names))
        }
    }

    /// At most one interrogation in the period for group `k` of subject
    /// `subject` (number `i`).
    pub fn build_at_most_one_interrogation_per_period_for_empty_groups_contraint_for_group(
        &self,
        i: usize,
        subject: &Subject,
        period: Range<u32>,
        k: usize,
        _group: &GroupDesc,
    ) -> (r: Constraint)
        ensures
            is_count_constraint(
                r,
                period_slot_names(*subject, i as int, (period.start as int, period.end as int), k),
                1,
                -1,
                Sign::LessThan,
            ),
    {
        let ghost names = period_slot_names(*subject, i as int, (period.start as int, period.end as int), k);
        let expr = self.period_slot_count(i, subject, &period, k);
        count_at_most(&expr, 1, Ghost(names))
    }
}

/// The groups of a subject that already hold students, in order.
pub open spec fn nonempty_groups(s: Subject) -> Seq<int> {
    Seq::new(s.groups.prefilled_groups@.len(), |k: int| k).filter(|k: int| !s.groups.prefilled_groups@[k].students@.is_empty())
}

/// The constraints for one period of subject `s` (number `i`): one for each
/// student still to be placed, in increasing order, then one for each group
/// that already holds students.
pub open spec fn subject_period_descriptions(s: Subject, i: int, per: (int, int)) -> Seq<(Map<Seq<char>, i32>, int, Sign)> {
    sorted_usize(s.groups.not_assigned@).map_values(
        |st: usize| count_description(period_assignment_names(s, i, per, st), 1, -1, period_sign(s, per)),
    ) + nonempty_groups(s).map_values(
        |k: int| count_description(period_slot_names(s, i, per, k as usize), 1, -1, period_sign(s, per)),
    )
}

/// The constraints for the periods of a list, one period after the other.
pub open spec fn periods_descriptions(s: Subject, i: int, pers: Seq<(int, int)>) -> Seq<(Map<Seq<char>, i32>, int, Sign)>
    decreases pers.len(),
{
    if pers.len() == 0 {
        Seq::empty()
    } else {
        periods_descriptions(s, i, pers.drop_last()) + subject_period_descriptions(s, i, pers.last())
    }
}

/// Each period of the list for a range is within the range and no longer
/// than the subject's period.
proof fn lemma_period_list_bounds(start: int, end: int, p: int, strict: bool)
    requires
        0 <= start <= end,
        p > 0,
    ensures
        forall|t: int|
            0 <= t < period_list_for_range(start, end, p, strict).len() ==> {
                let per = #[trigger] period_list_for_range(start, end, p, strict)[t];
                start <= per.0 <= per.1 <= end && per.1 - per.0 <= p
            },
{
    let week_count = end - start;
    if week_count >= p && !strict {
        let whole = week_count / p;
        let rem = week_count % p;
        assert(whole * p + rem == week_count) by (nonlinear_arith)
            requires
                whole == week_count / p,
                rem == week_count % p,
                p > 0,
        ;
        assert(whole >= 1) by (nonlinear_arith)
            requires
                whole == week_count / p,
                week_count >= p,
                p > 0,
        ;
        let firsts = Seq::new(whole as nat, |q: int| (start + q * p, start + q * p + p));
        assert forall|q: int| 0 <= q < whole implies start <= (#[trigger] firsts[q]).0 && firsts[q].1 <= end by {
            assert(0 <= q * p) by (nonlinear_arith)
                requires
                    0 <= q,
                    p > 0,
            ;
            assert(q * p + p <= whole * p) by (nonlinear_arith)
                requires
                    q + 1 <= whole,
                    p > 0,
            ;
        }
        let lasts = Seq::new(rem as nat, |t: int| (end - rem - p + 1 + t, end - rem + 1 + t));
        assert(whole * p >= p) by (nonlinear_arith)
            requires
                whole >= 1,
                p > 0,
        ;
        assert(0 <= rem < p) by (nonlinear_arith)
            requires
                rem == week_count % p,
                p > 0,
        ;
        assert forall|t: int| 0 <= t < (firsts + lasts).len() implies {
            let per = #[trigger] (firsts + lasts)[t];
            start <= per.0 <= per.1 <= end && per.1 - per.0 <= p
        } by {
            if t >= firsts.len() {
                let u = t - firsts.len();
                assert((firsts + lasts)[t] == lasts[u]);
                assert(0 <= u < rem);
                assert(lasts[u] == (end - rem - p + 1 + u, end - rem + 1 + u));
                assert(whole * p + rem == end - start);
                assert(whole * p >= p);
                assert(start <= end - rem - p + 1 + u);
                assert(end - rem + 1 + u <= end);
            } else {
                assert((firsts + lasts)[t] == firsts[t]);
                assert(start <= firsts[t].0);
                assert(firsts[t].1 <= end);
            }
        }
    }
}

/// Each period checked for a subject lies within the weeks of the colloscope
/// and is no longer than the subject's period.
pub(crate) proof fn lemma_periods_between_bounds(bounds: Seq<int>, n: int, p: int, strict: bool)
    requires
        0 <= n < bounds.len(),
        p > 0,
        bounds[0] == 0,
        forall|a: int, b: int| 0 <= a < b < bounds.len() ==> #[trigger] bounds[a] <= #[trigger] bounds[b],
    ensures
        forall|t: int|
            0 <= t < periods_between(bounds, n, p, strict).len() ==> {
                let per = #[trigger] periods_between(bounds, n, p, strict)[t];
                0 <= per.0 <= per.1 && per.1 - per.0 <= p
            },
    decreases n,
{
    if n > 0 {
        lemma_periods_between_bounds(bounds, n - 1, p, strict);
        assert(bounds[0] <= bounds[n - 1]);
        lemma_period_list_bounds(bounds[n - 1], bounds[n], p, strict);
        let prev = periods_between(bounds, n - 1, p, strict);
        let more = period_list_for_range(bounds[n - 1], bounds[n], p, strict);
        assert forall|t: int| 0 <= t < (prev + more).len() implies {
            let per = #[trigger] (prev + more)[t];
            0 <= per.0 <= per.1 && per.1 - per.0 <= p
        } by {
            if t >= prev.len() {
                assert((prev + more)[t] == more[t - prev.len()]);
            } else {
                assert((prev + more)[t] == prev[t]);
            }
        }
    }
}

impl<'a> IlpTranslator<'a> {
    /// The constraints of one interrogation per period for one period of
    /// subject `subject` (number `i`): one for each student still to be
    /// placed, in increasing order, then one for each group that already
    /// holds students.
    pub fn build_one_interrogation_per_period_contraints_for_one_subject_period(
        &self,
        i: usize,
        subject: &Subject,
        period: Range<u32>,
    ) -> (r: Vec<Constraint>)
        requires
            period.start <= period.end,
            period.end - period.start <= subject.period.val(),
        ensures
            r@.map_values(|c: Constraint| describe(c)) == subject_period_descriptions(
                *subject,
                i as int,
                (period.start as int, period.end as int),
            ),
    {
        let ghost per = (period.start as int, period.end as int);
        let ghost s = *subject;
        let ghost expected = subject_period_descriptions(s, i as int, per);
        let students = usize_elems(&subject.groups.not_assigned);
        let ghost first_part = sorted_usize(s.groups.not_assigned@).map_values(
            |st: usize| count_description(period_assignment_names(s, i as int, per, st), 1, -1, period_sign(s, per)),
        );
        let mut constraints: Vec<Constraint> = Vec::new();
        let mut t: usize = 0;
        while t < students.len()
            invariant
                s == *subject,
                per == (period.start as int, period.end as int),
                period.start <= period.end,
                period.end - period.start <= subject.period.val(),
                students@ == sorted_usize(s.groups.not_assigned@),
                first_part == sorted_usize(s.groups.not_assigned@).map_values(
                    |st: usize| count_description(period_assignment_names(s, i as int, per, st), 1, -1, period_sign(s, per)),
                ),
                0 <= t <= students@.len(),
                constraints@.map_values(|c: Constraint| describe(c)) == first_part.take(t as int),
            decreases students@.len() - t,
        {
            let c = self.build_one_interrogation_per_period_contraint_for_not_assigned_student(
                i,
                subject,
                period.start..period.end,
                students[t],
            );
            let ghost before = constraints@;
            constraints.push(c);
            proof {
                assert(constraints@.map_values(|c: Constraint| describe(c)) =~= before.map_values(|c: Constraint| describe(c)).push(describe(c)));
                assert(first_part.take(t + 1) =~= first_part.take(t as int).push(first_part[t as int]));
            }
            t = t + 1;
        }
        proof {
            assert(first_part.take(t as int) =~= first_part);
        }
        let ghost ks = nonempty_groups(s);
        let ghost second_part = ks.map_values(
            |k: int| count_description(period_slot_names(s, i as int, per, k as usize), 1, -1, period_sign(s, per)),
        );
        let n_groups: usize = subject.groups.prefilled_groups.len();
        let ghost all_k = Seq::new(n_groups as nat, |k: int| k);
        let ghost keep = |k: int| !s.groups.prefilled_groups@[k].students@.is_empty();
        let mut k: usize = 0;
        while k < n_groups
            invariant
                s == *subject,
                per == (period.start as int, period.end as int),
                n_groups == s.groups.prefilled_groups@.len(),
                all_k == Seq::new(n_groups as nat, |u: int| u),
                ks == all_k.filter(keep),
                keep == (|u: int| !s.groups.prefilled_groups@[u].students@.is_empty()),
                second_part == ks.map_values(
                    |u: int| count_description(period_slot_names(s, i as int, per, u as usize), 1, -1, period_sign(s, per)),
                ),
                period.start <= period.end,
                period.end - period.start <= subject.period.val(),
                0 <= k <= n_groups,
                constraints@.map_values(|c: Constraint| describe(c)) == first_part + all_k.take(k as int).filter(keep).map_values(
                    |u: int| count_description(period_slot_names(s, i as int, per, u as usize), 1, -1, period_sign(s, per)),
                ),
            decreases n_groups - k,
        {
            let ghost before = constraints@;
            let nonempty = !subject.groups.prefilled_groups[k].students.is_empty();
            proof {
                assert(all_k.take(k + 1) =~= all_k.take(k as int).push(k as int));
                reveal(Seq::filter);
                assert(all_k.take(k + 1).drop_last() =~= all_k.take(k as int));
            }
            if nonempty {
                let c = self.build_one_interrogation_per_period_contraint_for_assigned_student(
                    i,
                    subject,
                    period.start..period.end,
                    k,
                );
                constraints.push(c);
                proof {
                    assert(all_k.take(k + 1).filter(keep) == all_k.take(k as int).filter(keep).push(k as int));
                    assert(constraints@.map_values(|c: Constraint| describe(c)) =~= before.map_values(|c: Constraint| describe(c)).push(describe(c)));
                    assert(constraints@.map_values(|c: Constraint| describe(c)) =~= first_part + all_k.take(k + 1).filter(keep).map_values(
                        |u: int| count_description(period_slot_names(s, i as int, per, u as usize), 1, -1, period_sign(s, per)),
                    ));
                }
            } else {
                proof {
                    assert(all_k.take(k + 1).filter(keep) == all_k.take(k as int).filter(keep));
                }
            }
            k = k + 1;
        }
        proof {
            assert(all_k.take(k as int) =~= all_k);
            assert(constraints@.map_values(|c: Constraint| describe(c)) =~= expected);
        }
        constraints
    }
}

/// The periods checked for the rhythm of a subject in a colloscope.
pub open spec fn subject_periods(g: GeneralData, s: Subject, strict: bool) -> Seq<(int, int)> {
    let bounds = stretch_bounds(sorted_u32(g.periodicity_cuts@), g.week_count.val());
    periods_between(bounds, bounds.len() - 1, s.period.val() as int, strict)
}

/// The constraints of one interrogation per period for the first `n`
/// subjects, one subject after the other: with each subject's own rhythm, or,
/// for `optimizer`, with a strict rhythm for the subjects whose rhythm is not
/// strict (and nothing for the others).
pub open spec fn all_periods_descriptions(g: GeneralData, ss: Seq<Subject>, n: int, optimizer: bool) -> Seq<
    (Map<Seq<char>, i32>, int, Sign),
>
    decreases n,
{
    if n <= 0 {
        Seq::empty()
    } else {
        let s = ss[n - 1];
        all_periods_descriptions(g, ss, n - 1, optimizer) + if optimizer {
            if s.period_is_strict {
                Seq::empty()
            } else {
                periods_descriptions(s, n - 1, subject_periods(g, s, true))
            }
        } else {
            periods_descriptions(s, n - 1, subject_periods(g, s, s.period_is_strict))
        }
    }
}

/// Appends the second list to the first.
pub(crate) fn append_constraints(out: &mut Vec<Constraint>, more: Vec<Constraint>)
    ensures
        final(out)@ == old(out)@ + more@,
{
    let ghost start = old(out)@;
    let mut rest = more;
    let ghost all = rest@;
    let mut t: usize = 0;
    let n: usize = rest.len();
    while t < n
        invariant
            n == all.len(),
            0 <= t <= n,
            out@ == start + all.take(t as int),
            rest@ == all.skip(t as int),
        decreases n - t,
    {
        let c = rest.remove(0);
        proof {
            assert(c == all[t as int]);
            assert(rest@ =~= all.skip(t + 1));
            assert(all.take(t + 1) =~= all.take(t as int).push(c));
        }
        out.push(c);
        t = t + 1;
    }
    proof {
        assert(all.take(t as int) =~= all);
    }
}

impl<'a> IlpTranslator<'a> {
    /// The constraints of one interrogation per period for subject `subject`
    /// (number `i`), period after period.
    pub fn build_one_interrogation_per_period_constraints_for_subject(
        &self,
        i: usize,
        subject: &Subject,
        strict: bool,
    ) -> (r: Vec<Constraint>)
        ensures
            r@.map_values(|c: Constraint| describe(c)) == periods_descriptions(
                *subject,
                i as int,
                subject_periods(self.validated().general_data(), *subject, strict),
            ),
    {
        let period_list = self.generate_period_list(subject, strict);
        let ghost pers = range_bounds(period_list@);
        let mut constraints: Vec<Constraint> = Vec::new();
        let mut t: usize = 0;
        while t < period_list.len()
            invariant
                pers == range_bounds(period_list@),
                pers == subject_periods(self.validated().general_data(), *subject, strict),
                forall|u: int|
                    0 <= u < period_list@.len() ==> (#[trigger] period_list@[u]).start <= period_list@[u].end
                        && period_list@[u].end - period_list@[u].start <= subject.period.val(),
                0 <= t <= period_list@.len(),
                constraints@.map_values(|c: Constraint| describe(c)) == periods_descriptions(*subject, i as int, pers.take(t as int)),
            decreases period_list@.len() - t,
        {
            let period = &period_list[t];
            assert(period.start <= period.end);
            let more = self.build_one_interrogation_per_period_contraints_for_one_subject_period(
                i,
                subject,
                period.start..period.end,
            );
            let ghost before = constraints@;
            append_constraints(&mut constraints, more);
            proof {
                assert(pers.take(t + 1).drop_last() =~= pers.take(t as int));
                assert(pers.take(t + 1).last() == (period.start as int, period.end as int));
                assert(constraints@.map_values(|c: Constraint| describe(c)) =~= before.map_values(|c: Constraint| describe(c))
                    + more@.map_values(|c: Constraint| describe(c)));
            }
            t = t + 1;
        }
        proof {
            assert(pers.take(t as int) =~= pers);
        }
        constraints
    }

    /// The constraints of one interrogation per period for every subject,
    /// each with its own rhythm.
    pub fn build_one_interrogation_per_period_constraints(&self) -> (r: Vec<Constraint>)
        ensures
            r@.map_values(|c: Constraint| describe(c)) == all_periods_descriptions(
                self.validated().general_data(),
                self.validated().subject_list(),
                self.validated().subject_list().len() as int,
                false,
            ),
    {
        self.periods_constraints(false)
    }

    /// The goal of a strict rhythm for the subjects whose rhythm is not
    /// strict: one interrogation in every window of a period.
    pub fn build_one_interrogation_per_period_optimizer(&self) -> (r: Vec<Constraint>)
        ensures
            r@.map_values(|c: Constraint| describe(c)) == all_periods_descriptions(
                self.validated().general_data(),
                self.validated().subject_list(),
                self.validated().subject_list().len() as int,
                true,
            ),
    {
        self.periods_constraints(true)
    }

    fn periods_constraints(&self, optimizer: bool) -> (r: Vec<Constraint>)
        ensures
            r@.map_values(|c: Constraint| describe(c)) == all_periods_descriptions(
                self.validated().general_data(),
                self.validated().subject_list(),
                self.validated().subject_list().len() as int,
                optimizer,
            ),
    {
        let subjects = self.data().subjects();
        let ghost ss = subjects@;
        let ghost g = self.validated().general_data();
        let mut constraints: Vec<Constraint> = Vec::new();
        let mut i: usize = 0;
        while i < subjects.len()
            invariant
                ss == subjects@,
                ss == self.validated().subject_list(),
                g == self.validated().general_data(),
                0 <= i <= ss.len(),
                constraints@.map_values(|c: Constraint| describe(c)) == all_periods_descriptions(g, ss, i as int, optimizer),
            decreases ss.len() - i,
        {
            let subject = &subjects[i];
            let ghost before = constraints@;
            if optimizer {
                if !subject.period_is_strict {
                    let more = self.build_one_interrogation_per_period_constraints_for_subject(i, subject, true);
                    append_constraints(&mut constraints, more);
                    proof {
                        assert(constraints@.map_values(|c: Constraint| describe(c)) =~= before.map_values(|c: Constraint| describe(c))
                            + more@.map_values(|c: Constraint| describe(c)));
                    }
                } else {
                    proof {
                        assert(all_periods_descriptions(g, ss, i + 1, optimizer) =~= all_periods_descriptions(g, ss, i as int, optimizer));
                    }
                }
            } else {
                let more = self.build_one_interrogation_per_period_constraints_for_subject(i, subject, subject.period_is_strict);
                append_constraints(&mut constraints, more);
                proof {
                    assert(constraints@.map_values(|c: Constraint| describe(c)) =~= before.map_values(|c: Constraint| describe(c))
                        + more@.map_values(|c: Constraint| describe(c)));
                }
            }
            i = i + 1;
        }
        constraints
    }
}

/// The groups of a subject that hold no student yet, in order.
pub open spec fn empty_groups(s: Subject) -> Seq<int> {
    Seq::new(s.groups.prefilled_groups@.len(), |k: int| k).filter(|k: int| s.groups.prefilled_groups@[k].students@.is_empty())
}

/// Period `q` of a subject: `period` weeks from week `q * period`, cut at
/// the last week.
pub open spec fn aligned_period(q: int, period: int, week_count: int) -> (int, int) {
    (q * period, if q * period + period <= week_count { q * period + period } else { week_count })
}

/// The constraints of at most one interrogation per period for the empty
/// groups of subject `s` (number `i`), for its first `q` periods.
pub open spec fn empty_groups_descriptions(s: Subject, i: int, week_count: int, q: int) -> Seq<(Map<Seq<char>, i32>, int, Sign)>
    decreases q,
{
    if q <= 0 {
        Seq::empty()
    } else {
        let per = aligned_period(q - 1, s.period.val() as int, week_count);
        empty_groups_descriptions(s, i, week_count, q - 1) + empty_groups(s).map_values(
            |k: int| count_description(period_slot_names(s, i, per, k as usize), 1, -1, Sign::LessThan),
        )
    }
}

/// The number of periods of a subject needed to cover the weeks.
pub open spec fn aligned_period_count(week_count: int, period: int) -> int {
    (week_count + period - 1) / period
}

/// The constraints of at most one interrogation per period for the empty
/// groups of the first `n` subjects.
pub open spec fn all_empty_groups_descriptions(week_count: int, ss: Seq<Subject>, n: int) -> Seq<(Map<Seq<char>, i32>, int, Sign)>
    decreases n,
{
    if n <= 0 {
        Seq::empty()
    } else {
        let s = ss[n - 1];
        all_empty_groups_descriptions(week_count, ss, n - 1) + empty_groups_descriptions(
            s,
            n - 1,
            week_count,
            aligned_period_count(week_count, s.period.val() as int),
        )
    }
}

impl<'a> IlpTranslator<'a> {
    /// The constraints of at most one interrogation per period for the
    /// empty groups of subject `subject` (number `i`), period `q` being the
    /// `period` weeks from week `q * period`, cut at the last week.
    fn empty_groups_constraints_for_subject(&self, i: usize, subject: &Subject, week_count: u32) -> (r: Vec<Constraint>)
        requires
            week_count > 0,
        ensures
            r@.map_values(|c: Constraint| describe(c)) == empty_groups_descriptions(
                *subject,
                i as int,
                week_count as int,
                aligned_period_count(week_count as int, subject.period.val() as int),
            ),
    {
        let period: u32 = subject.period.get();
        let period_count: u32 = (week_count - 1) / period + 1;
        proof {
            assert(period_count == aligned_period_count(week_count as int, period as int)) by (nonlinear_arith)
                requires
                    period_count == (week_count - 1) as int / (period as int) + 1,
                    period > 0,
                    week_count > 0,
            ;
        }
        let n_groups: usize = subject.groups.prefilled_groups.len();
        let ghost s = *subject;
        let ghost all_k = Seq::new(n_groups as nat, |k: int| k);
        let ghost keep = |k: int| s.groups.prefilled_groups@[k].students@.is_empty();
        let mut constraints: Vec<Constraint> = Vec::new();
        let mut q: u32 = 0;
        while q < period_count
            invariant
                s == *subject,
                period == s.period.val(),
                period > 0,
                week_count > 0,
                period_count == (week_count - 1) as int / (period as int) + 1,
                n_groups == s.groups.prefilled_groups@.len(),
                all_k == Seq::new(n_groups as nat, |u: int| u),
                keep == (|u: int| s.groups.prefilled_groups@[u].students@.is_empty()),
                0 <= q <= period_count,
                constraints@.map_values(|c: Constraint| describe(c)) == empty_groups_descriptions(s, i as int, week_count as int, q as int),
            decreases period_count - q,
        {
            proof {
                assert(q * period < week_count) by (nonlinear_arith)
                    requires
                        q < period_count,
                        period_count == (week_count - 1) as int / (period as int) + 1,
                        period > 0,
                        week_count > 0,
                ;
            }
            let start: u32 = q * period;
            let end: u32 = if week_count - start < period {
                week_count
            } else {
                start + period
            };
            let ghost per = aligned_period(q as int, period as int, week_count as int);
            assert(per == (start as int, end as int));
            let ghost base = constraints@;
            let mut k: usize = 0;
            while k < n_groups
                invariant
                    s == *subject,
                    n_groups == s.groups.prefilled_groups@.len(),
                    all_k == Seq::new(n_groups as nat, |u: int| u),
                    keep == (|u: int| s.groups.prefilled_groups@[u].students@.is_empty()),
                    per == (start as int, end as int),
                    0 <= k <= n_groups,
                    constraints@.map_values(|c: Constraint| describe(c)) == base.map_values(|c: Constraint| describe(c))
                        + all_k.take(k as int).filter(keep).map_values(
                        |u: int| count_description(period_slot_names(s, i as int, per, u as usize), 1, -1, Sign::LessThan),
                    ),
                decreases n_groups - k,
            {
                let ghost before = constraints@;
                let group = &subject.groups.prefilled_groups[k];
                let empty = group.students.is_empty();
                proof {
                    assert(all_k.take(k + 1) =~= all_k.take(k as int).push(k as int));
                    reveal(Seq::filter);
                    assert(all_k.take(k + 1).drop_last() =~= all_k.take(k as int));
                }
                if empty {
                    let c = self.build_at_most_one_interrogation_per_period_for_empty_groups_contraint_for_group(
                        i,
                        subject,
                        start..end,
                        k,
                        group,
                    );
                    constraints.push(c);
                    proof {
                        assert(all_k.take(k + 1).filter(keep) == all_k.take(k as int).filter(keep).push(k as int));
                        assert(constraints@.map_values(|c: Constraint| describe(c)) =~= before.map_values(|c: Constraint| describe(c)).push(
                            describe(c),
                        ));
                        assert(constraints@.map_values(|c: Constraint| describe(c)) =~= base.map_values(|c: Constraint| describe(c))
                            + all_k.take(k + 1).filter(keep).map_values(
                            |u: int| count_description(period_slot_names(s, i as int, per, u as usize), 1, -1, Sign::LessThan),
                        ));
                    }
                } else {
                    proof {
                        assert(all_k.take(k + 1).filter(keep) == all_k.take(k as int).filter(keep));
                    }
                }
                k = k + 1;
            }
            proof {
                assert(all_k.take(k as int) =~= all_k);
                assert(all_k.filter(keep) == empty_groups(s));
            }
            q = q + 1;
        }
        constraints
    }
}

impl<'a> IlpTranslator<'a> {
    /// The constraints of at most one interrogation per period for the
    /// groups that hold no student yet, subject after subject.
    pub fn build_at_most_one_interrogation_per_period_for_empty_groups_contraints(&self) -> (r: Vec<Constraint>)
        ensures
            r@.map_values(|c: Constraint| describe(c)) == all_empty_groups_descriptions(
                self.validated().general_data().week_count.val() as int,
                self.validated().subject_list(),
                self.validated().subject_list().len() as int,
            ),
    {
        let subjects = self.data().subjects();
        let week_count: u32 = self.data().general().week_count.get();
        let ghost ss = subjects@;
        let mut constraints: Vec<Constraint> = Vec::new();
        let mut i: usize = 0;
        while i < subjects.len()
            invariant
                ss == subjects@,
                ss == self.validated().subject_list(),
                week_count == self.validated().general_data().week_count.val(),
                week_count > 0,
                0 <= i <= ss.len(),
                constraints@.map_values(|c: Constraint| describe(c)) == all_empty_groups_descriptions(week_count as int, ss, i as int),
            decreases ss.len() - i,
        {
            let more = self.empty_groups_constraints_for_subject(i, &subjects[i], week_count);
            let ghost before = constraints@;
            append_constraints(&mut constraints, more);
            proof {
                assert(constraints@.map_values(|c: Constraint| describe(c)) =~= before.map_values(|c: Constraint| describe(c))
                    + more@.map_values(|c: Constraint| describe(c)));
            }
            i = i + 1;
        }
        constraints
    }
}

} // verus!
