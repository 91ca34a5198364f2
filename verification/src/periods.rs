//! The periods of weeks over which a subject's rhythm is checked: every
//! window of one period (strict rhythm) or consecutive whole periods, cut
//! at the periodicity cuts of the colloscope.

use std::ops::Range;

use vstd::prelude::*;

use crate::colloscope::Subject;
use crate::sets::{increasing_u32, sorted_u32, u32_elems};
use crate::translator::IlpTranslator;

verus! {

/// The periods of length `p` checked within the weeks `start..end`: the whole
/// range when it is shorter than a period; every window of `p` weeks for a
/// strict rhythm; otherwise consecutive periods from the start, and, when weeks
/// remain, one window ending on each remaining week.
pub open spec fn period_list_for_range(start: int, end: int, p: int, strict: bool) -> Seq<(int, int)> {
    let week_count = end - start;
    if week_count < p {
        seq![(start, end)]
    } else if strict {
        Seq::new((week_count - p + 1) as nat, |s: int| (start + s, start + s + p))
    } else {
        let whole = week_count / p;
        let rem = week_count % p;
        Seq::new(whole as nat, |q: int| (start + q * p, start + q * p + p)) + Seq::new(
            rem as nat,
            |i: int| (end - rem - p + 1 + i, end - rem + 1 + i),
        )
    }
}

/// The bounds of a list of ranges.
pub open spec fn range_bounds(r: Seq<Range<u32>>) -> Seq<(int, int)> {
    r.map_values(|x: Range<u32>| (x.start as int, x.end as int))
}

/// The periods checked between consecutive bounds, the first `n` stretches.
pub open spec fn periods_between(bounds: Seq<int>, n: int, p: int, strict: bool) -> Seq<(int, int)>
    decreases n,
{
    if n <= 0 {
        Seq::empty()
    } else {
        periods_between(bounds, n - 1, p, strict) + period_list_for_range(bounds[n - 1], bounds[n], p, strict)
    }
}

/// The stretches of weeks of a colloscope: from week 0 to each periodicity
/// cut in turn, then to the last week.
pub open spec fn stretch_bounds(cuts: Seq<u32>, week_count: u32) -> Seq<int> {
    seq![0int] + cuts.map_values(|c: u32| c as int) + seq![week_count as int]
}

/// The periods of weeks `range` for the rhythm of a subject.
fn periods_for_range(period: u32, strict: bool, range: Range<u32>) -> (r: Vec<Range<u32>>)
    requires
        range.start <= range.end,
        period > 0,
    ensures
        range_bounds(r@) == period_list_for_range(range.start as int, range.end as int, period as int, strict),
{
    let ghost spec_list = period_list_for_range(range.start as int, range.end as int, period as int, strict);
    let week_count: u32 = range.end - range.start;
    let mut out: Vec<Range<u32>> = Vec::new();
    if week_count < period {
        out.push(range);
        proof {
            assert(range_bounds(out@) =~= spec_list);
        }
        return out;
    }
    if strict {
        let last_start: u32 = range.end - period + 1;
        let mut s: u32 = range.start;
        while s < last_start
            invariant
                range.start <= s <= last_start,
                last_start == range.end - period + 1,
                week_count == range.end - range.start,
                week_count >= period,
                period > 0,
                range_bounds(out@) == spec_list.take(s - range.start),
                spec_list == Seq::new((week_count - period + 1) as nat, |t: int| (range.start + t, range.start + t + period)),
            decreases last_start - s,
        {
            out.push(s..(s + period));
            proof {
                assert(spec_list.take(s + 1 - range.start) =~= spec_list.take(s - range.start).push(
                    (s as int, s + period),
                ));
                assert(range_bounds(out@) =~= spec_list.take(s + 1 - range.start));
            }
            s = s + 1;
        }
        proof {
            assert(spec_list.take(s - range.start) =~= spec_list);
        }
        return out;
    }
    let whole: u32 = week_count / period;
    let rem: u32 = week_count % period;
    let ghost firsts = Seq::new(whole as nat, |q: int| (range.start + q * period, range.start + q * period + period));
    let ghost lasts = Seq::new(rem as nat, |i: int| (range.end - rem - period + 1 + i, range.end - rem + 1 + i));
    proof {
        assert(spec_list == firsts + lasts);
        assert(whole * period + rem == week_count) by (nonlinear_arith)
            requires
                whole == week_count / period,
                rem == week_count % period,
                period > 0,
        ;
        assert(whole >= 1) by (nonlinear_arith)
            requires
                whole == week_count / period,
                week_count >= period,
                period > 0,
        ;
    }
    let mut q: u32 = 0;
    let mut begin: u32 = range.start;
    while q < whole
        invariant
            0 <= q <= whole,
            whole * period + rem == week_count,
            week_count == range.end - range.start,
            period > 0,
            begin == range.start + q * period,
            range_bounds(out@) == firsts.take(q as int),
            firsts == Seq::new(whole as nat, |t: int| (range.start + t * period, range.start + t * period + period)),
        decreases whole - q,
    {
        proof {
            assert((q + 1) * period <= whole * period) by (nonlinear_arith)
                requires
                    q + 1 <= whole,
                    period > 0,
            ;
            assert((q + 1) * period == q * period + period) by (nonlinear_arith);
        }
        out.push(begin..(begin + period));
        proof {
            assert(firsts.take(q + 1) =~= firsts.take(q as int).push((begin as int, begin + period)));
            assert(range_bounds(out@) =~= firsts.take(q + 1));
        }
        begin = begin + period;
        q = q + 1;
    }
    proof {
        assert(firsts.take(q as int) =~= firsts);
    }
    if rem != 0 {
        proof {
            assert(whole * period >= period) by (nonlinear_arith)
                requires
                    whole >= 1,
                    period > 0,
            ;
        }
        let first_week: u32 = range.end - rem - period + 1;
        let mut i: u32 = 0;
        while i < rem
            invariant
                0 <= i <= rem,
                rem < period,
                whole >= 1,
                whole * period + rem == week_count,
                week_count == range.end - range.start,
                first_week == range.end - rem - period + 1,
                range_bounds(out@) == firsts + lasts.take(i as int),
                lasts == Seq::new(rem as nat, |t: int| (range.end - rem - period + 1 + t, range.end - rem + 1 + t)),
            decreases rem - i,
        {
            let ghost prev = out@;
            out.push((first_week + i)..(first_week + i + period));
            proof {
                let x = ((first_week + i) as int, first_week + i + period);
                assert(lasts[i as int] == x);
                assert(lasts.take(i + 1) =~= lasts.take(i as int).push(x));
                assert(range_bounds(out@) =~= range_bounds(prev).push(x));
                assert(firsts + lasts.take(i + 1) =~= (firsts + lasts.take(i as int)).push(x));
            }
            i = i + 1;
        }
        proof {
            assert(lasts.take(i as int) =~= lasts);
        }
    } else {
        proof {
            assert(lasts =~= Seq::<(int, int)>::empty());
            assert(firsts + lasts =~= firsts);
        }
    }
    out
}

impl<'a> IlpTranslator<'a> {
    /// The periods of weeks `range` checked for the rhythm of `subject`.
    pub fn generate_period_list_for_range(&self, subject: &Subject, strict: bool, range: Range<u32>) -> (r: Vec<
        Range<u32>,
    >)
        requires
            range.start <= range.end,
        ensures
            range_bounds(r@) == period_list_for_range(
                range.start as int,
                range.end as int,
                subject.period.val() as int,
                strict,
            ),
    {
        periods_for_range(subject.period.get(), strict, range)
    }

    /// The periods of weeks checked for the rhythm of `subject`: those of each
    /// stretch between periodicity cuts, in order.
    pub fn generate_period_list(&self, subject: &Subject, strict: bool) -> (r: Vec<Range<u32>>)
        ensures
            ({
                let bounds = stretch_bounds(
                    sorted_u32(self.validated().general_data().periodicity_cuts@),
                    self.validated().general_data().week_count.val(),
                );
                range_bounds(r@) == periods_between(bounds, bounds.len() - 1, subject.period.val() as int, strict)
            }),
            forall|t: int|
                0 <= t < r@.len() ==> (#[trigger] r@[t]).start <= r@[t].end && r@[t].end - r@[t].start <= subject.period.val(),
    {
        let data = self.data();
        data.check_valid();
        proof {
            data.lemma_valid_cuts();
        }
        let general = data.general();
        let cuts = u32_elems(&general.periodicity_cuts);
        let week_count: u32 = general.week_count.get();
        let period: u32 = subject.period.get();
        let ghost bounds = stretch_bounds(cuts@, week_count);
        let ghost p = period as int;
        let mut output: Vec<Range<u32>> = Vec::new();
        let mut start: u32 = 0;
        let mut c: usize = 0;
        while c < cuts.len()
            invariant
                cuts@ == sorted_u32(general.periodicity_cuts@),
                increasing_u32(cuts@),
                forall|i: int| 0 <= i < cuts@.len() ==> #[trigger] cuts@[i] < week_count,
                bounds == stretch_bounds(cuts@, week_count),
                p == period as int,
                period > 0,
                0 <= c <= cuts@.len(),
                start as int == bounds[c as int],
                start < week_count || (c == 0 && start == 0),
                c > 0 ==> start == cuts@[c - 1],
                range_bounds(output@) == periods_between(bounds, c as int, p, strict),
            decreases cuts@.len() - c,
        {
            let cut: u32 = cuts[c];
            proof {
                if c > 0 {
                    assert(cuts@[c - 1] < cuts@[c as int]);
                }
                assert(bounds[c + 1] == cut);
            }
            let list = periods_for_range(period, strict, start..cut);
            let ghost before = output@;
            let mut t: usize = 0;
            while t < list.len()
                invariant
                    output@ == before + list@.take(t as int),
                    0 <= t <= list@.len(),
                decreases list@.len() - t,
            {
                output.push(list[t].start..list[t].end);
                proof {
                    assert(list@.take(t + 1) =~= list@.take(t as int).push(list@[t as int]));
                }
                t = t + 1;
            }
            proof {
                assert(list@.take(t as int) =~= list@);
                assert(range_bounds(output@) =~= range_bounds(before) + range_bounds(list@));
            }
            start = cut;
            c = c + 1;
        }
        let list = periods_for_range(period, strict, start..week_count);
        let ghost before = output@;
        let mut t: usize = 0;
        while t < list.len()
            invariant
                output@ == before + list@.take(t as int),
                0 <= t <= list@.len(),
            decreases list@.len() - t,
        {
            output.push(list[t].start..list[t].end);
            proof {
                assert(list@.take(t + 1) =~= list@.take(t as int).push(list@[t as int]));
            }
            t = t + 1;
        }
        proof {
            assert(list@.take(t as int) =~= list@);
            assert(bounds[c + 1] == week_count);
            assert(range_bounds(output@) =~= range_bounds(before) + range_bounds(list@));
            assert(bounds.len() - 1 == c + 1);
            assert(range_bounds(output@) == periods_between(bounds, bounds.len() - 1, p, strict));
            lemma_stretch_bounds_sorted(cuts@, week_count);
            crate::rhythm::lemma_periods_between_bounds(bounds, bounds.len() - 1, p, strict);
            assert forall|t: int| 0 <= t < output@.len() implies (#[trigger] output@[t]).start <= output@[t].end
                && output@[t].end - output@[t].start <= subject.period.val() by {
                assert(range_bounds(output@)[t] == (output@[t].start as int, output@[t].end as int));
                assert(periods_between(bounds, bounds.len() - 1, p, strict)[t] == range_bounds(output@)[t]);
            }
        }
        output
    }
}

/// The bounds of the stretches start at week 0 and never decrease.
pub proof fn lemma_stretch_bounds_sorted(cuts: Seq<u32>, week_count: u32)
    requires
        increasing_u32(cuts),
        forall|i: int| 0 <= i < cuts.len() ==> #[trigger] cuts[i] < week_count,
    ensures
        stretch_bounds(cuts, week_count)[0] == 0,
        forall|a: int, b: int|
            0 <= a < b < stretch_bounds(cuts, week_count).len() ==> #[trigger] stretch_bounds(cuts, week_count)[a]
                <= #[trigger] stretch_bounds(cuts, week_count)[b],
{
    let bounds = stretch_bounds(cuts, week_count);
    assert forall|a: int, b: int| 0 <= a < b < bounds.len() implies #[trigger] bounds[a] <= #[trigger] bounds[b] by {
        if a > 0 && b <= cuts.len() {
            assert(bounds[a] == cuts[a - 1]);
            assert(bounds[b] == cuts[b - 1]);
        } else if a > 0 {
            assert(bounds[a] == cuts[a - 1]);
        } else if b <= cuts.len() {
            assert(bounds[b] == cuts[b - 1]);
        }
    }
}

} // verus!
