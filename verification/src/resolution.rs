//! The period that repeats every subject's rhythm, and the time step that
//! every slot of a colloscope falls on.

use vstd::prelude::*;

use crate::assembly::is_problem_var;
use crate::colloscope::{IncompatibilityGroup, Subject, Variable};
use crate::solving::{GenericInitializer, GenericSolver};
use crate::incremental::{
    grouping_weeks, period_count_for, span_weeks, subject_selections, subject_weeks, IncrementalInitializer,
};
use crate::math::{divides, gcd, lcm, lemma_divides_transitive, lemma_gcd_divides, lemma_lcm_multiple, spec_gcd, spec_lcm};
use crate::nonzero::NonZeroU32;
use crate::translator::IlpTranslator;

verus! {

/// The least common multiple of the periods of the first `n` subjects (1 for none).
pub open spec fn periods_lcm(subjects: Seq<Subject>, n: int) -> nat
    decreases n,
{
    if n <= 0 {
        1
    } else {
        spec_lcm(periods_lcm(subjects, n - 1), subjects[n - 1].period.val() as nat)
    }
}

/// Every partial least common multiple of the periods fits in a `u32`.
pub open spec fn periods_lcm_fits(subjects: Seq<Subject>) -> bool {
    forall|n: int| 0 <= n <= subjects.len() ==> #[trigger] periods_lcm(subjects, n) <= u32::MAX
}

/// The period length is a positive multiple of the period of every subject.
pub proof fn lemma_period_length_multiple(subjects: Seq<Subject>, n: int)
    requires
        0 <= n <= subjects.len(),
        forall|i: int| 0 <= i < subjects.len() ==> (#[trigger] subjects[i]).period.val() > 0,
    ensures
        periods_lcm(subjects, n) > 0,
        forall|i: int| 0 <= i < n ==> divides((#[trigger] subjects[i]).period.val() as nat, periods_lcm(subjects, n)),
    decreases n,
{
    if n > 0 {
        lemma_period_length_multiple(subjects, n - 1);
        let prev = periods_lcm(subjects, n - 1);
        let p = subjects[n - 1].period.val() as nat;
        lemma_lcm_multiple(prev, p);
        assert forall|i: int| 0 <= i < n implies divides((#[trigger] subjects[i]).period.val() as nat, periods_lcm(subjects, n)) by {
            if i < n - 1 {
                lemma_divides_transitive(subjects[i].period.val() as nat, prev, periods_lcm(subjects, n));
            }
        }
    }
}

/// Greatest common divisor of `start` and every value of `xs`.
pub open spec fn gcd_all(start: nat, xs: Seq<nat>) -> nat
    decreases xs.len(),
{
    if xs.len() == 0 {
        start
    } else {
        spec_gcd(gcd_all(start, xs.drop_last()), xs.last())
    }
}

/// The times that a subject's slots must fall on: its duration, then the
/// start of each slot, in minutes.
pub open spec fn subject_times(s: Subject) -> Seq<nat> {
    seq![s.duration.val() as nat] + s.slots@.map_values(|x: crate::colloscope::SlotWithTeacher| x.start.start_time.minutes())
}

/// The times of the subjects, one after the other.
pub open spec fn subjects_times(ss: Seq<Subject>) -> Seq<nat>
    decreases ss.len(),
{
    if ss.len() == 0 {
        Seq::empty()
    } else {
        subjects_times(ss.drop_last()) + subject_times(ss.last())
    }
}

/// The times of an incompatibility group: for each time span, its duration
/// and its start, in minutes.
pub open spec fn group_times(g: IncompatibilityGroup) -> Seq<nat> {
    let s = g.slots.items();
    span_times(s, s.len() as int)
}

/// The durations and starts of the first `n` time spans.
pub open spec fn span_times(s: Seq<crate::colloscope::SlotWithDuration>, n: int) -> Seq<nat>
    decreases n,
{
    if n <= 0 {
        Seq::empty()
    } else {
        span_times(s, n - 1) + seq![s[n - 1].duration.val() as nat, s[n - 1].start.start_time.minutes()]
    }
}

/// The times of the incompatibility groups, one after the other.
pub open spec fn groups_times(gs: Seq<IncompatibilityGroup>) -> Seq<nat>
    decreases gs.len(),
{
    if gs.len() == 0 {
        Seq::empty()
    } else {
        groups_times(gs.drop_last()) + group_times(gs.last())
    }
}

/// Every value that the time step must divide: the minutes of a day, then
/// the times of the subjects and of the incompatibility groups.
pub open spec fn resolution_times(subjects: Seq<Subject>, groups: Seq<IncompatibilityGroup>) -> Seq<nat> {
    subjects_times(subjects) + groups_times(groups)
}

/// The greatest common divisor of all values divides each of them and the
/// start value, and is positive when the start value is.
pub proof fn lemma_gcd_all_divides(start: nat, xs: Seq<nat>)
    ensures
        divides(gcd_all(start, xs), start),
        forall|i: int| 0 <= i < xs.len() ==> divides(gcd_all(start, xs), #[trigger] xs[i]),
        start > 0 ==> gcd_all(start, xs) > 0,
    decreases xs.len(),
{
    if xs.len() == 0 {
        assert(1 * start == start);
    } else {
        let p = xs.drop_last();
        lemma_gcd_all_divides(start, p);
        let g0 = gcd_all(start, p);
        let g = gcd_all(start, xs);
        lemma_gcd_divides(g0, xs.last());
        lemma_divides_transitive(g, g0, start);
        assert forall|i: int| 0 <= i < xs.len() implies divides(g, #[trigger] xs[i]) by {
            if i < p.len() {
                assert(xs[i] == p[i]);
                lemma_divides_transitive(g, g0, p[i]);
            }
        }
    }
}

/// Pushing a value continues the greatest common divisor.
proof fn lemma_gcd_all_push(start: nat, xs: Seq<nat>, x: nat)
    ensures
        gcd_all(start, xs.push(x)) == spec_gcd(gcd_all(start, xs), x),
{
    assert(xs.push(x).drop_last() =~= xs);
}

impl<'a> IlpTranslator<'a> {
    /// The least common multiple of the periods of the subjects, in weeks.
    pub fn compute_period_length(&self) -> (r: NonZeroU32)
        requires
            periods_lcm_fits(self.validated().subject_list()),
        ensures
            r.val() == periods_lcm(self.validated().subject_list(), self.validated().subject_list().len() as int),
    {
        let subjects = self.data().subjects();
        let ghost ss = subjects@;
        let mut result: u32 = 1;
        let mut i: usize = 0;
        while i < subjects.len()
            invariant
                ss == subjects@,
                periods_lcm_fits(ss),
                0 <= i <= ss.len(),
                result == periods_lcm(ss, i as int),
                result > 0,
            decreases ss.len() - i,
        {
            let p: u32 = subjects[i].period.get();
            proof {
                assert(periods_lcm(ss, i + 1) <= u32::MAX);
            }
            result = lcm(result, p);
            i = i + 1;
        }
        NonZeroU32::new(result).unwrap()
    }

    /// The largest number of minutes that divides a day, the duration and
    /// the start of every slot, and the duration and start of every time span
    /// of the incompatibility groups.
    pub fn compute_needed_time_resolution(&self) -> (r: u32)
        ensures
            r == gcd_all(
                24 * 60,
                resolution_times(self.validated().subject_list(), self.validated().incompatibility_group_list()),
            ),
            r > 0,
    {
        let subjects = self.data().subjects();
        let ghost ss = subjects@;
        let mut result: u32 = 24 * 60;
        let ghost mut seen: Seq<nat> = Seq::empty();
        let mut i: usize = 0;
        while i < subjects.len()
            invariant
                ss == subjects@,
                0 <= i <= ss.len(),
                seen == subjects_times(ss.take(i as int)),
                result == gcd_all(24 * 60, seen),
            decreases ss.len() - i,
        {
            let subject = &subjects[i];
            let ghost start = seen;
            proof {
                lemma_gcd_all_push(24 * 60, seen, subject.duration.val() as nat);
            }
            result = gcd(result, subject.duration.get());
            proof {
                seen = seen.push(subject.duration.val() as nat);
            }
            let mut j: usize = 0;
            while j < subject.slots.len()
                invariant
                    0 <= j <= subject.slots@.len(),
                    seen == start + seq![subject.duration.val() as nat] + subject.slots@.take(j as int).map_values(
                        |x: crate::colloscope::SlotWithTeacher| x.start.start_time.minutes(),
                    ),
                    result == gcd_all(24 * 60, seen),
                decreases subject.slots@.len() - j,
            {
                let m: u32 = subject.slots[j].start.start_time.get();
                proof {
                    lemma_gcd_all_push(24 * 60, seen, m as nat);
                }
                result = gcd(result, m);
                proof {
                    seen = seen.push(m as nat);
                    assert(subject.slots@.take(j + 1).map_values(|x: crate::colloscope::SlotWithTeacher| x.start.start_time.minutes())
                        =~= subject.slots@.take(j as int).map_values(
                        |x: crate::colloscope::SlotWithTeacher| x.start.start_time.minutes(),
                    ).push(m as nat));
                }
                j = j + 1;
            }
            proof {
                assert(subject.slots@.take(j as int) =~= subject.slots@);
                assert(ss.take(i + 1).drop_last() =~= ss.take(i as int));
                assert(ss.take(i + 1).last() == *subject);
                assert(seen =~= subjects_times(ss.take(i + 1)));
            }
            i = i + 1;
        }
        proof {
            assert(ss.take(i as int) =~= ss);
        }
        let groups = self.data().incompatibility_groups();
        let ghost gs = groups@;
        let ghost subject_part = seen;
        let mut t: usize = 0;
        while t < groups.len()
            invariant
                gs == groups@,
                0 <= t <= gs.len(),
                seen == subject_part + groups_times(gs.take(t as int)),
                result == gcd_all(24 * 60, seen),
            decreases gs.len() - t,
        {
            let group = &groups[t];
            let ghost start = seen;
            let mut u: usize = 0;
            while u < group.slots.len()
                invariant
                    0 <= u <= group.slots.items().len(),
                    seen == start + span_times(group.slots.items(), u as int),
                    result == gcd_all(24 * 60, seen),
                decreases group.slots.items().len() - u,
            {
                let span = group.slots.get(u);
                let d: u32 = span.duration.get();
                let m: u32 = span.start.start_time.get();
                proof {
                    lemma_gcd_all_push(24 * 60, seen, d as nat);
                }
                result = gcd(result, d);
                proof {
                    seen = seen.push(d as nat);
                    lemma_gcd_all_push(24 * 60, seen, m as nat);
                }
                result = gcd(result, m);
                proof {
                    seen = seen.push(m as nat);
                    assert(seen =~= start + span_times(group.slots.items(), u + 1));
                }
                u = u + 1;
            }
            proof {
                assert(gs.take(t + 1).drop_last() =~= gs.take(t as int));
                assert(gs.take(t + 1).last() == *group);
                assert(seen =~= subject_part + groups_times(gs.take(t + 1)));
            }
            t = t + 1;
        }
        proof {
            assert(gs.take(t as int) =~= gs);
            assert(seen =~= resolution_times(ss, gs));
            lemma_gcd_all_divides(24 * 60, seen);
        }
        result
    }

    /// The weeks touched by each part of the data, for periods of the least
    /// common multiple of the subjects' periods, with the settings of the
    /// search run period by period.
    pub fn incremental_initializer<T: GenericInitializer, S: GenericSolver>(
        &self,
        initializer: T,
        solver: S,
        max_steps: Option<usize>,
        retries: usize,
        quick_init: bool,
    ) -> (r: IncrementalInitializer<T, S>)
        requires
            periods_lcm_fits(self.validated().subject_list()),
        ensures
            r.period_len() == periods_lcm(self.validated().subject_list(), self.validated().subject_list().len() as int),
            r.periods() == period_count_for(self.validated().general_data().week_count.val(), r.period_len()),
            r.periods() * r.period_len() >= self.validated().general_data().week_count.val(),
            (r.periods() - 1) * r.period_len() < self.validated().general_data().week_count.val(),
            forall|w: u32| w < self.validated().general_data().week_count.val() ==> #[trigger] (w / r.period_len()) < r.periods(),
            r.subject_week_list() == self.validated().subject_list().map_values(|s: Subject| subject_weeks(s)),
            r.subject_selection_list() == self.validated().subject_list().map_values(|s: Subject| subject_selections(s)),
            r.grouping_week_list() == self.validated().slot_grouping_list().map_values(
                |g: crate::colloscope::SlotGrouping| grouping_weeks(self.validated().subject_list(), g),
            ),
            r.incompat_week_list() == self.validated().incompatibility_group_list().map_values(
                |g: IncompatibilityGroup| span_weeks(g),
            ),
            r.settings() == (max_steps, retries, quick_init),
            r.initializer() == initializer,
            r.solver() == solver,
            forall|v: Variable| r.variable_list().contains(v) <==> is_problem_var(self.validated(), v),
    {
        let period_length = self.compute_period_length();
        let r = IncrementalInitializer::new(self.data(), period_length, initializer, solver, max_steps, retries, quick_init);
        proof {
            assert(r.subject_week_list() =~= self.validated().subject_list().map_values(|s: Subject| subject_weeks(s)));
            assert(r.subject_selection_list() =~= self.validated().subject_list().map_values(
                |s: Subject| subject_selections(s),
            ));
            assert(r.grouping_week_list() =~= self.validated().slot_grouping_list().map_values(
                |g: crate::colloscope::SlotGrouping| grouping_weeks(self.validated().subject_list(), g),
            ));
            assert(r.incompat_week_list() =~= self.validated().incompatibility_group_list().map_values(
                |g: IncompatibilityGroup| span_weeks(g),
            ));
        }
        r
    }
}

} // verus!
