//! Laws of linear expressions: how sums, multiples, differences, cleaning and
//! partial evaluation relate to each other.

use vstd::prelude::*;

use crate::linexpr::{
    coef_or_zero, expr_equiv, fits_i32, nonzero_part, reduced_constant, scale_map, sum_fits,
    sum_map, unassigned_part, Constraint, Expr, Sign,
};
use crate::order::{lemma_text_order, text_lt};
use crate::terms::{entries_map, has_name, lemma_entries_map_all, sorted_names};

verus! {

/// Equality of expressions (same constant, same non-zero coefficients) is an
/// equivalence.
pub proof fn lemma_equiv_is_equivalence(a: Expr, b: Expr, c: Expr)
    ensures
        expr_equiv(a, a),
        expr_equiv(a, b) ==> expr_equiv(b, a),
        expr_equiv(a, b) && expr_equiv(b, c) ==> expr_equiv(a, c),
{
}

/// Cleaning twice is cleaning once, and a cleaned expression equals the original.
pub proof fn lemma_clean_idempotent(a: Expr)
    ensures
        nonzero_part(nonzero_part(a.coefs())) == nonzero_part(a.coefs()),
{
    assert(nonzero_part(nonzero_part(a.coefs())) =~= nonzero_part(a.coefs()));
}

/// `a + b` and `b + a` are the same expression.
pub proof fn lemma_add_commutative(a: Expr, b: Expr)
    requires
        a.can_add(b),
    ensures
        b.can_add(a),
        sum_map(a.coefs(), b.coefs()) == sum_map(b.coefs(), a.coefs()),
        a.constant_value() + b.constant_value() == b.constant_value() + a.constant_value(),
{
    assert(sum_map(a.coefs(), b.coefs()) =~= sum_map(b.coefs(), a.coefs()));
}

/// `(a + b) + c` and `a + (b + c)` are the same expression, when every sum
/// of coefficients stays within `i32`.
pub proof fn lemma_add_associative(a: Expr, b: Expr, c: Expr)
    requires
        a.can_add(b),
        b.can_add(c),
        forall|k: Seq<char>|
            fits_i32(
                #[trigger] coef_or_zero(a.coefs(), k) + coef_or_zero(b.coefs(), k) + coef_or_zero(c.coefs(), k),
            ),
        fits_i32(a.constant_value() + b.constant_value() + c.constant_value()),
    ensures
        sum_fits(sum_map(a.coefs(), b.coefs()), c.coefs()),
        sum_fits(a.coefs(), sum_map(b.coefs(), c.coefs())),
        sum_map(sum_map(a.coefs(), b.coefs()), c.coefs()) == sum_map(a.coefs(), sum_map(b.coefs(), c.coefs())),
{
    let (ma, mb, mc) = (a.coefs(), b.coefs(), c.coefs());
    assert forall|k: Seq<char>| #[trigger] coef_or_zero(ma, k) + coef_or_zero(mb, k) == coef_or_zero(sum_map(ma, mb), k) by {
        assert(fits_i32(coef_or_zero(ma, k) + coef_or_zero(mb, k)));
    }
    assert forall|k: Seq<char>| #[trigger] coef_or_zero(mb, k) + coef_or_zero(mc, k) == coef_or_zero(sum_map(mb, mc), k) by {
        assert(fits_i32(coef_or_zero(mb, k) + coef_or_zero(mc, k)));
    }
    assert forall|k: Seq<char>|
        sum_map(ma, mb).contains_key(k) && mc.contains_key(k) implies fits_i32(
        #[trigger] sum_map(ma, mb)[k] + #[trigger] mc[k],
    ) by {
        assert(coef_or_zero(ma, k) + coef_or_zero(mb, k) == coef_or_zero(sum_map(ma, mb), k));
        assert(fits_i32(coef_or_zero(ma, k) + coef_or_zero(mb, k) + coef_or_zero(mc, k)));
    }
    assert forall|k: Seq<char>|
        ma.contains_key(k) && sum_map(mb, mc).contains_key(k) implies fits_i32(
        #[trigger] ma[k] + #[trigger] sum_map(mb, mc)[k],
    ) by {
        assert(coef_or_zero(mb, k) + coef_or_zero(mc, k) == coef_or_zero(sum_map(mb, mc), k));
        assert(fits_i32(coef_or_zero(ma, k) + coef_or_zero(mb, k) + coef_or_zero(mc, k)));
    }
    assert forall|k: Seq<char>|
        #[trigger] sum_map(sum_map(ma, mb), mc).contains_key(k) implies sum_map(sum_map(ma, mb), mc)[k] == sum_map(
        ma,
        sum_map(mb, mc),
    )[k] by {
        assert(coef_or_zero(ma, k) + coef_or_zero(mb, k) == coef_or_zero(sum_map(ma, mb), k));
        assert(coef_or_zero(mb, k) + coef_or_zero(mc, k) == coef_or_zero(sum_map(mb, mc), k));
    }
    assert(sum_map(sum_map(ma, mb), mc) =~= sum_map(ma, sum_map(mb, mc)));
}

/// `f * (a + b)` and `f * a + f * b` are the same expression, when every
/// product stays within `i32`.
pub proof fn lemma_scale_distributes(a: Expr, b: Expr, f: int)
    requires
        a.can_add(b),
        forall|k: Seq<char>|
            fits_i32(f * #[trigger] coef_or_zero(a.coefs(), k)) && fits_i32(f * coef_or_zero(b.coefs(), k))
                && fits_i32(f * (coef_or_zero(a.coefs(), k) + coef_or_zero(b.coefs(), k))),
    ensures
        sum_fits(scale_map(a.coefs(), f), scale_map(b.coefs(), f)),
        scale_map(sum_map(a.coefs(), b.coefs()), f) == sum_map(scale_map(a.coefs(), f), scale_map(b.coefs(), f)),
{
    let (ma, mb) = (a.coefs(), b.coefs());
    assert forall|k: Seq<char>| #[trigger] coef_or_zero(scale_map(ma, f), k) == f * coef_or_zero(ma, k) by {
        assert(fits_i32(f * coef_or_zero(ma, k)));
        assert(f * 0 == 0) by (nonlinear_arith);
    }
    assert forall|k: Seq<char>| #[trigger] coef_or_zero(scale_map(mb, f), k) == f * coef_or_zero(mb, k) by {
        assert(fits_i32(f * coef_or_zero(ma, k)));
        assert(fits_i32(f * coef_or_zero(mb, k)));
        assert(f * 0 == 0) by (nonlinear_arith);
    }
    assert forall|k: Seq<char>|
        scale_map(ma, f).contains_key(k) && scale_map(mb, f).contains_key(k) implies fits_i32(
        #[trigger] scale_map(ma, f)[k] + #[trigger] scale_map(mb, f)[k],
    ) by {
        let (x, y) = (coef_or_zero(ma, k), coef_or_zero(mb, k));
        assert(f * (x + y) == f * x + f * y) by (nonlinear_arith);
        assert(coef_or_zero(scale_map(ma, f), k) == f * x);
        assert(coef_or_zero(scale_map(mb, f), k) == f * y);
    }
    assert forall|k: Seq<char>|
        #[trigger] scale_map(sum_map(ma, mb), f).contains_key(k) implies scale_map(sum_map(ma, mb), f)[k]
        == sum_map(scale_map(ma, f), scale_map(mb, f))[k] by {
        let (x, y) = (coef_or_zero(ma, k), coef_or_zero(mb, k));
        assert(f * (x + y) == f * x + f * y) by (nonlinear_arith);
        assert(fits_i32(x + y));
        assert(coef_or_zero(scale_map(ma, f), k) == f * x);
        assert(coef_or_zero(scale_map(mb, f), k) == f * y);
    }
    assert(scale_map(sum_map(ma, mb), f) =~= sum_map(scale_map(ma, f), scale_map(mb, f)));
}

/// `0 * a` is the constant expression 0.
pub proof fn lemma_scale_zero(a: Expr)
    ensures
        nonzero_part(scale_map(a.coefs(), 0)) == Map::<Seq<char>, i32>::empty(),
        0 * a.constant_value() == 0,
{
    assert(nonzero_part(scale_map(a.coefs(), 0)) =~= Map::<Seq<char>, i32>::empty());
}

/// `-(-a)` is `a`.
pub proof fn lemma_neg_neg(a: Expr)
    requires
        a.can_scale(-1),
    ensures
        scale_map(scale_map(a.coefs(), -1), -1) == a.coefs(),
{
    assert(scale_map(scale_map(a.coefs(), -1), -1) =~= a.coefs());
}

/// `a - a` is the constant expression 0.
pub proof fn lemma_sub_self(a: Expr)
    requires
        a.can_sub(a),
    ensures
        nonzero_part(sum_map(a.coefs(), scale_map(a.coefs(), -1))) == Map::<Seq<char>, i32>::empty(),
        a.constant_value() - a.constant_value() == 0,
{
    assert(nonzero_part(sum_map(a.coefs(), scale_map(a.coefs(), -1))) =~= Map::<Seq<char>, i32>::empty());
}

/// Reducing under an assignment a second time changes nothing: the
/// unassigned part is kept, and a constant with no assigned variable stays.
pub proof fn lemma_reduce_idempotent(e: Expr, vals: Map<Seq<char>, bool>)
    requires
        forall|k: Seq<char>| #[trigger] e.coefs().contains_key(k) ==> !vals.contains_key(k),
    ensures
        unassigned_part(e.coefs(), vals) == e.coefs(),
        reduced_constant(e.terms(), vals, e.constant_value() as int) == e.constant_value(),
{
    assert(unassigned_part(e.coefs(), vals) =~= e.coefs());
    lemma_expr_terms_named(e);
    lemma_reduced_constant_unassigned(e.terms(), vals, e.constant_value() as int);
}

/// The names of the terms of an expression are its variables.
proof fn lemma_expr_terms_named(e: Expr)
    ensures
        forall|i: int| 0 <= i < e.terms().len() ==> e.coefs().contains_key(#[trigger] e.terms()[i].0),
{
    assert forall|i: int| 0 <= i < e.terms().len() implies e.coefs().contains_key(#[trigger] e.terms()[i].0) by {
        assert(has_name(e.terms(), e.terms()[i].0));
    }
}

/// With no assigned variable among the terms, the constant is left as it is.
proof fn lemma_reduced_constant_unassigned(s: Seq<(Seq<char>, i32)>, vals: Map<Seq<char>, bool>, c: int)
    requires
        forall|i: int| 0 <= i < s.len() ==> !vals.contains_key(#[trigger] s[i].0),
    ensures
        reduced_constant(s, vals, c) == c,
    decreases s.len(),
{
    if s.len() > 0 {
        assert(!vals.contains_key(s[s.len() - 1].0));
        lemma_reduced_constant_unassigned(s.drop_last(), vals, c);
    }
}

/// Reducing twice under the same assignment keeps the same unassigned part.
pub proof fn lemma_unassigned_idempotent(m: Map<Seq<char>, i32>, vals: Map<Seq<char>, bool>)
    ensures
        unassigned_part(unassigned_part(m, vals), vals) == unassigned_part(m, vals),
{
    assert(unassigned_part(unassigned_part(m, vals), vals) =~= unassigned_part(m, vals));
}

/// What a term adds to the value under an assignment: its coefficient when
/// its variable is set to true, nothing otherwise.
pub open spec fn contribution(t: (Seq<char>, i32), vals: Map<Seq<char>, bool>) -> int {
    if vals.contains_key(t.0) && vals[t.0] {
        t.1 as int
    } else {
        0
    }
}

/// What the terms add to the value under an assignment.
pub open spec fn assigned_weight(s: Seq<(Seq<char>, i32)>, vals: Map<Seq<char>, bool>) -> int
    decreases s.len(),
{
    if s.len() == 0 {
        0
    } else {
        assigned_weight(s.drop_last(), vals) + contribution(s.last(), vals)
    }
}

/// The reduced constant is the constant plus what the terms add.
proof fn lemma_reduced_constant_weight(s: Seq<(Seq<char>, i32)>, vals: Map<Seq<char>, bool>, c: int)
    ensures
        reduced_constant(s, vals, c) == c + assigned_weight(s, vals),
    decreases s.len(),
{
    if s.len() > 0 {
        lemma_reduced_constant_weight(s.drop_last(), vals, c);
    }
}

/// In a sorted sequence, every name but the last comes before the last, and
/// dropping the last entry drops its name from the map.
proof fn lemma_drop_last_sorted(s: Seq<(Seq<char>, i32)>)
    requires
        sorted_names(s),
        s.len() > 0,
    ensures
        sorted_names(s.drop_last()),
        forall|k: Seq<char>| has_name(s, k) && k != s.last().0 ==> text_lt(k, s.last().0),
        forall|k: Seq<char>| #[trigger] has_name(s.drop_last(), k) <==> has_name(s, k) && k != s.last().0,
        forall|k: Seq<char>| has_name(s.drop_last(), k) ==> #[trigger] entries_map(s.drop_last())[k] == entries_map(s)[k],
        entries_map(s).contains_key(s.last().0),
        entries_map(s)[s.last().0] == s.last().1,
{
    let d = s.drop_last();
    lemma_entries_map_all(s);
    lemma_entries_map_all(d);
    assert forall|k: Seq<char>| has_name(s, k) && k != s.last().0 implies text_lt(k, s.last().0) by {
        let i = choose|i: int| 0 <= i < s.len() && #[trigger] s[i].0 == k;
        assert(i < s.len() - 1);
    }
    assert forall|k: Seq<char>| #[trigger] has_name(d, k) <==> has_name(s, k) && k != s.last().0 by {
        if has_name(d, k) {
            let i = choose|i: int| 0 <= i < d.len() && #[trigger] d[i].0 == k;
            assert(s[i].0 == k);
            assert(text_lt(s[i].0, s[s.len() - 1].0));
            lemma_text_order(k, k, k);
        }
        if has_name(s, k) && k != s.last().0 {
            let i = choose|i: int| 0 <= i < s.len() && #[trigger] s[i].0 == k;
            assert(d[i].0 == k);
        }
    }
    assert forall|k: Seq<char>| has_name(d, k) implies #[trigger] entries_map(d)[k] == entries_map(s)[k] by {
        let i = choose|i: int| 0 <= i < d.len() && #[trigger] d[i].0 == k;
        assert(d[i] == s[i]);
    }
}

/// A sorted sequence whose map is empty is empty.
proof fn lemma_no_name_empty(s: Seq<(Seq<char>, i32)>)
    requires
        forall|k: Seq<char>| !has_name(s, k),
    ensures
        s.len() == 0,
{
    if s.len() > 0 {
        assert(has_name(s, s[0].0));
    }
}

/// When the coefficients of `r` are those of `a` minus those of `b`, what
/// the terms of `r` add is what those of `a` add minus what those of `b` add.
proof fn lemma_weight_diff(
    sa: Seq<(Seq<char>, i32)>,
    sb: Seq<(Seq<char>, i32)>,
    sr: Seq<(Seq<char>, i32)>,
    vals: Map<Seq<char>, bool>,
)
    requires
        sorted_names(sa),
        sorted_names(sb),
        sorted_names(sr),
        forall|k: Seq<char>| #[trigger] has_name(sr, k) <==> has_name(sa, k) || has_name(sb, k),
        forall|k: Seq<char>|
            has_name(sr, k) ==> #[trigger] entries_map(sr)[k] == coef_or_zero(entries_map(sa), k) - coef_or_zero(
                entries_map(sb),
                k,
            ),
    ensures
        assigned_weight(sr, vals) == assigned_weight(sa, vals) - assigned_weight(sb, vals),
    decreases sa.len() + sb.len(),
{
    lemma_entries_map_all(sa);
    lemma_entries_map_all(sb);
    lemma_entries_map_all(sr);
    if sa.len() == 0 && sb.len() == 0 {
        lemma_no_name_empty(sr);
        return;
    }
    // `k` is the greatest name of `a` and `b`; `in_a`/`in_b` say whose last entry holds it.
    let in_a = sa.len() > 0 && (sb.len() == 0 || !text_lt(sa.last().0, sb.last().0));
    let in_b = sb.len() > 0 && (sa.len() == 0 || !text_lt(sb.last().0, sa.last().0));
    let k = if in_a { sa.last().0 } else { sb.last().0 };
    if sa.len() > 0 {
        lemma_drop_last_sorted(sa);
        lemma_text_order(sa.last().0, sa.last().0, sa.last().0);
    }
    if sb.len() > 0 {
        lemma_drop_last_sorted(sb);
    }
    if sa.len() > 0 && sb.len() > 0 {
        lemma_text_order(sa.last().0, sb.last().0, sa.last().0);
    }
    assert(in_a ==> sa.last().0 == k);
    assert(in_b ==> sb.last().0 == k);
    assert(has_name(sa, k) <==> in_a) by {
        if has_name(sa, k) && !in_a {
            lemma_text_order(k, sa.last().0, k);
            if k != sa.last().0 {
                lemma_text_order(k, sa.last().0, sb.last().0);
            }
        }
        if in_a {
            assert(sa[sa.len() - 1].0 == k);
        }
    }
    assert(has_name(sb, k) <==> in_b) by {
        if has_name(sb, k) && !in_b {
            lemma_text_order(k, sb.last().0, k);
            if k != sb.last().0 {
                lemma_text_order(k, sb.last().0, sa.last().0);
            }
        }
        if in_b {
            assert(sb[sb.len() - 1].0 == k);
        }
    }
    // Every name of `a`, `b` and `r` other than `k` comes before `k`.
    assert forall|x: Seq<char>| (has_name(sa, x) || has_name(sb, x)) && x != k implies text_lt(x, k) by {
        if has_name(sa, x) {
            if x != sa.last().0 {
                assert(text_lt(x, sa.last().0));
                if !in_a {
                    lemma_text_order(x, sa.last().0, k);
                }
            }
        } else {
            if x != sb.last().0 {
                assert(text_lt(x, sb.last().0));
                if !in_b {
                    lemma_text_order(x, sb.last().0, k);
                }
            }
        }
    }
    assert(has_name(sr, k));
    lemma_drop_last_sorted(sr);
    assert(sr.last().0 == k) by {
        let l = sr.last().0;
        if l != k {
            assert(text_lt(l, k));
            assert(text_lt(k, l));
            lemma_text_order(k, l, k);
        }
    }
    let ra = if in_a { sa.drop_last() } else { sa };
    let rb = if in_b { sb.drop_last() } else { sb };
    let rr = sr.drop_last();
    lemma_entries_map_all(ra);
    lemma_entries_map_all(rb);
    lemma_entries_map_all(rr);
    assert forall|x: Seq<char>| #[trigger] has_name(rr, x) <==> has_name(ra, x) || has_name(rb, x) by {
        if has_name(ra, x) || has_name(rb, x) {
            assert(x != k);
        }
    }
    assert forall|x: Seq<char>|
        has_name(rr, x) implies #[trigger] entries_map(rr)[x] == coef_or_zero(entries_map(ra), x) - coef_or_zero(
            entries_map(rb),
            x,
        ) by {
        assert(x != k);
        assert(coef_or_zero(entries_map(ra), x) == coef_or_zero(entries_map(sa), x));
        assert(coef_or_zero(entries_map(rb), x) == coef_or_zero(entries_map(sb), x));
    }
    lemma_weight_diff(ra, rb, rr, vals);
    assert(sr.last().1 == coef_or_zero(entries_map(sa), k) - coef_or_zero(entries_map(sb), k));
    if in_a {
        assert(coef_or_zero(entries_map(sa), k) == sa.last().1);
    }
    if in_b {
        assert(coef_or_zero(entries_map(sb), k) == sb.last().1);
    }
}

/// For sorted terms, the difference of two expressions (the left-hand side
/// of `a.leq(b)` and `a.eq(b)`) takes, under any assignment, the value of
/// `a` minus the value of `b`; and when the assignment sets every variable
/// of `a` and `b`, it sets every variable of the difference.
pub proof fn lemma_difference_value(a: Expr, b: Expr, d: Expr, vals: Map<Seq<char>, bool>)
    requires
        sorted_names(a.terms()),
        sorted_names(b.terms()),
        sorted_names(d.terms()),
        a.can_sub(b),
        d.coefs() == sum_map(a.coefs(), scale_map(b.coefs(), -1)),
        d.constant_value() == a.constant_value() - b.constant_value(),
    ensures
        reduced_constant(d.terms(), vals, d.constant_value() as int) == reduced_constant(
            a.terms(),
            vals,
            a.constant_value() as int,
        ) - reduced_constant(b.terms(), vals, b.constant_value() as int),
        unassigned_part(a.coefs(), vals).dom().is_empty() && unassigned_part(b.coefs(), vals).dom().is_empty()
            ==> unassigned_part(d.coefs(), vals).dom().is_empty(),
{
    lemma_entries_map_all(a.terms());
    lemma_entries_map_all(b.terms());
    lemma_entries_map_all(d.terms());
    assert forall|k: Seq<char>| #[trigger] has_name(d.terms(), k) <==> has_name(a.terms(), k) || has_name(b.terms(), k) by {
        assert(d.coefs().contains_key(k) <==> a.coefs().contains_key(k) || scale_map(b.coefs(), -1).contains_key(k));
    }
    assert forall|k: Seq<char>|
        has_name(d.terms(), k) implies #[trigger] entries_map(d.terms())[k] == coef_or_zero(entries_map(a.terms()), k)
            - coef_or_zero(entries_map(b.terms()), k) by {
        if b.coefs().contains_key(k) {
            assert(fits_i32(-1 * b.coefs()[k]));
            assert(scale_map(b.coefs(), -1)[k] == -b.coefs()[k]);
        }
        assert(fits_i32(coef_or_zero(a.coefs(), k) + coef_or_zero(scale_map(b.coefs(), -1), k)));
    }
    lemma_weight_diff(a.terms(), b.terms(), d.terms(), vals);
    lemma_reduced_constant_weight(a.terms(), vals, a.constant_value() as int);
    lemma_reduced_constant_weight(b.terms(), vals, b.constant_value() as int);
    lemma_reduced_constant_weight(d.terms(), vals, d.constant_value() as int);
    if unassigned_part(a.coefs(), vals).dom().is_empty() && unassigned_part(b.coefs(), vals).dom().is_empty() {
        assert forall|k: Seq<char>| !unassigned_part(d.coefs(), vals).dom().contains(k) by {
            if d.coefs().contains_key(k) && !vals.contains_key(k) {
                if a.coefs().contains_key(k) {
                    assert(unassigned_part(a.coefs(), vals).dom().contains(k));
                } else {
                    assert(unassigned_part(b.coefs(), vals).dom().contains(k));
                }
            }
        }
    }
}

/// `a.leq(b)` holds under an assignment exactly when the value of `a` is at
/// most that of `b` there.
pub proof fn lemma_leq_holds(a: Expr, b: Expr, r: Constraint, vals: Map<Seq<char>, bool>)
    requires
        sorted_names(a.terms()),
        sorted_names(b.terms()),
        sorted_names(r.expr().terms()),
        a.can_sub(b),
        r.expr().coefs() == sum_map(a.coefs(), scale_map(b.coefs(), -1)),
        r.expr().constant_value() == a.constant_value() - b.constant_value(),
        r.sign() == Sign::LessThan,
    ensures
        (reduced_constant(r.expr().terms(), vals, r.expr().constant_value() as int) <= 0) == (reduced_constant(
            a.terms(),
            vals,
            a.constant_value() as int,
        ) <= reduced_constant(b.terms(), vals, b.constant_value() as int)),
{
    lemma_difference_value(a, b, r.expr(), vals);
}

/// `a.geq(b)` holds under an assignment exactly when the value of `a` is at
/// least that of `b` there.
pub proof fn lemma_geq_holds(a: Expr, b: Expr, r: Constraint, vals: Map<Seq<char>, bool>)
    requires
        sorted_names(a.terms()),
        sorted_names(b.terms()),
        sorted_names(r.expr().terms()),
        b.can_sub(a),
        r.expr().coefs() == sum_map(b.coefs(), scale_map(a.coefs(), -1)),
        r.expr().constant_value() == b.constant_value() - a.constant_value(),
        r.sign() == Sign::LessThan,
    ensures
        (reduced_constant(r.expr().terms(), vals, r.expr().constant_value() as int) <= 0) == (reduced_constant(
            a.terms(),
            vals,
            a.constant_value() as int,
        ) >= reduced_constant(b.terms(), vals, b.constant_value() as int)),
{
    lemma_difference_value(b, a, r.expr(), vals);
}

/// `a.eq(b)` holds under an assignment exactly when `a` and `b` take the
/// same value there.
pub proof fn lemma_eq_holds(a: Expr, b: Expr, r: Constraint, vals: Map<Seq<char>, bool>)
    requires
        sorted_names(a.terms()),
        sorted_names(b.terms()),
        sorted_names(r.expr().terms()),
        a.can_sub(b),
        r.expr().coefs() == sum_map(a.coefs(), scale_map(b.coefs(), -1)),
        r.expr().constant_value() == a.constant_value() - b.constant_value(),
        r.sign() == Sign::Equals,
    ensures
        (reduced_constant(r.expr().terms(), vals, r.expr().constant_value() as int) == 0) == (reduced_constant(
            a.terms(),
            vals,
            a.constant_value() as int,
        ) == reduced_constant(b.terms(), vals, b.constant_value() as int)),
{
    lemma_difference_value(a, b, r.expr(), vals);
}

} // verus!
