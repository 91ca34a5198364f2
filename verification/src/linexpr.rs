//! Linear expressions with integer coefficients over named variables, and
//! linear constraints built from them.

use vstd::prelude::*;

use crate::terms::{
    copy_entries, entries_map, entries_view, get_entry, lemma_entries_map_all,
    lemma_entries_map_at, lemma_insert_at_position, lemma_push_after, lemma_sorted_unique,
    lemma_take_push, set_entry, sorted_names,
};
use vstd::std_specs::cmp::PartialEqSpecImpl;
use crate::text::{int_digits, push_int, push_str};

verus! {

/// Whether an integer fits in an `i32`.
pub open spec fn fits_i32(x: int) -> bool {
    i32::MIN <= x <= i32::MAX
}

/// The coefficient of `k` in `m`, zero when `k` is absent.
pub open spec fn coef_or_zero(m: Map<Seq<char>, i32>, k: Seq<char>) -> int {
    if m.contains_key(k) {
        m[k] as int
    } else {
        0
    }
}

/// Coefficients of the sum of two expressions: every variable of either side,
/// with the sum of its two coefficients.
pub open spec fn sum_map(a: Map<Seq<char>, i32>, b: Map<Seq<char>, i32>) -> Map<Seq<char>, i32> {
    Map::new(
        |k: Seq<char>| a.contains_key(k) || b.contains_key(k),
        |k: Seq<char>| (coef_or_zero(a, k) + coef_or_zero(b, k)) as i32,
    )
}

/// The coefficient sums of the variables present on both sides fit in an `i32`.
pub open spec fn sum_fits(a: Map<Seq<char>, i32>, b: Map<Seq<char>, i32>) -> bool {
    forall|k: Seq<char>|
        a.contains_key(k) && b.contains_key(k) ==> fits_i32(#[trigger] a[k] + #[trigger] b[k])
}

/// Coefficients multiplied by `f`.
pub open spec fn scale_map(a: Map<Seq<char>, i32>, f: int) -> Map<Seq<char>, i32> {
    a.map_values(|c: i32| (f * c) as i32)
}

/// Every product of a coefficient by `f` fits in an `i32`.
pub open spec fn scale_fits(a: Map<Seq<char>, i32>, f: int) -> bool {
    forall|k: Seq<char>| a.contains_key(k) ==> fits_i32(f * #[trigger] a[k])
}

/// The entries whose coefficient is not zero.
pub open spec fn nonzero_part(a: Map<Seq<char>, i32>) -> Map<Seq<char>, i32> {
    Map::new(|k: Seq<char>| a.contains_key(k) && a[k] != 0, |k: Seq<char>| a[k])
}

/// A linear expression: a constant plus a sum of coefficients times variables.
/// Variables are kept sorted by name; a variable may carry a zero coefficient
/// until the expression is cleaned.
#[derive(Debug)]
pub struct Expr {
    coefs: Vec<(String, i32)>,
    constant: i32,
}

impl Expr {
    #[verifier::type_invariant]
    spec fn inv(self) -> bool {
        sorted_names(entries_view(self.coefs@))
    }

    /// The variables with their coefficients, sorted by name.
    pub closed spec fn terms(self) -> Seq<(Seq<char>, i32)> {
        entries_view(self.coefs@)
    }

    /// The coefficient of each variable of the expression.
    pub open spec fn coefs(self) -> Map<Seq<char>, i32> {
        entries_map(self.terms())
    }

    /// The constant term.
    pub closed spec fn constant_value(self) -> i32 {
        self.constant
    }

    /// Whether `self + rhs` can be computed without leaving the `i32` range.
    pub open spec fn can_add(self, rhs: Expr) -> bool {
        &&& sum_fits(self.coefs(), rhs.coefs())
        &&& fits_i32(self.constant_value() + rhs.constant_value())
    }

    /// Whether `f * self` can be computed without leaving the `i32` range.
    pub open spec fn can_scale(self, f: int) -> bool {
        &&& scale_fits(self.coefs(), f)
        &&& fits_i32(f * self.constant_value())
    }

    /// Whether `self - rhs` (computed as `self + (-1) * rhs`) stays in the `i32` range.
    pub open spec fn can_sub(self, rhs: Expr) -> bool {
        &&& rhs.can_scale(-1)
        &&& sum_fits(self.coefs(), scale_map(rhs.coefs(), -1))
        &&& fits_i32(self.constant_value() - rhs.constant_value())
    }

    /// The expression made of one variable with coefficient 1.
    pub fn var(name: &str) -> (r: Expr)
        ensures
            r.coefs() == map![name@ => 1i32],
            r.constant_value() == 0,
            r.terms() == seq![(name@, 1i32)],
    {
        let mut coefs: Vec<(String, i32)> = Vec::new();
        coefs.push((name.to_owned(), 1));
        let ghost s = entries_view(coefs@);
        proof {
            assert(s =~= seq![(name@, 1i32)]);
            lemma_entries_map_all(s);
            assert forall|k: Seq<char>| entries_map(s).contains_key(k) <==> k == name@ by {
                if k == name@ {
                    assert(s[0].0 == k);
                }
            }
            assert(entries_map(s) =~= map![name@ => 1i32]);
        }
        Expr { coefs, constant: 0 }
    }

    /// The constant expression `number`.
    pub fn constant(number: i32) -> (r: Expr)
        ensures
            r.coefs() == Map::<Seq<char>, i32>::empty(),
            r.constant_value() == number,
            r.terms().len() == 0,
    {
        let coefs: Vec<(String, i32)> = Vec::new();
        proof {
            assert(entries_map(entries_view(coefs@)) =~= Map::<Seq<char>, i32>::empty());
        }
        Expr { coefs, constant: number }
    }

    /// The expression with the given coefficients and constant; when a name
    /// occurs more than once, its last coefficient is kept.
    pub fn from_terms(terms: Vec<(String, i32)>, constant: i32) -> (r: Expr)
        ensures
            r.coefs() == assign_all(Map::empty(), entries_view(terms@)),
            r.constant_value() == constant,
    {
        let mut coefs: Vec<(String, i32)> = Vec::new();
        let mut i: usize = 0;
        proof {
            assert(entries_map(entries_view(coefs@)) =~= Map::<Seq<char>, i32>::empty());
            assert(entries_view(terms@).take(0) =~= Seq::<(Seq<char>, i32)>::empty());
        }
        while i < terms.len()
            invariant
                0 <= i <= terms@.len(),
                sorted_names(entries_view(coefs@)),
                entries_map(entries_view(coefs@)) == assign_all(
                    Map::empty(),
                    entries_view(terms@).take(i as int),
                ),
            decreases terms@.len() - i,
        {
            set_entry(&mut coefs, &terms[i].0, terms[i].1);
            proof {
                let t = entries_view(terms@);
                assert(t.take(i + 1).drop_last() =~= t.take(i as int));
            }
            i = i + 1;
        }
        proof {
            assert(entries_view(terms@).take(terms@.len() as int) =~= entries_view(terms@));
        }
        Expr { coefs, constant }
    }

    /// The names of the variables, in increasing order.
    pub fn variables(&self) -> (r: Vec<String>)
        ensures
            r@.len() == self.terms().len(),
            forall|i: int, j: int| 0 <= i < j < r@.len() ==> crate::order::text_lt(#[trigger] r@[i]@, #[trigger] r@[j]@),
            forall|i: int| 0 <= i < r@.len() ==> #[trigger] r@[i]@ == self.terms()[i].0,
            forall|k: Seq<char>|
                self.coefs().contains_key(k) <==> exists|i: int|
                    0 <= i < r@.len() && #[trigger] r@[i]@ == k,
    {
        proof {
            use_type_invariant(self);
            lemma_entries_map_all(self.terms());
        }
        let mut out: Vec<String> = Vec::new();
        let mut i: usize = 0;
        while i < self.coefs.len()
            invariant
                0 <= i <= self.coefs@.len(),
                out@.len() == i,
                forall|j: int| 0 <= j < i ==> #[trigger] out@[j]@ == self.terms()[j].0,
            decreases self.coefs@.len() - i,
        {
            out.push(self.coefs[i].0.clone());
            i = i + 1;
        }
        proof {
            assert forall|k: Seq<char>| self.coefs().contains_key(k) implies exists|i: int|
                0 <= i < out@.len() && #[trigger] out@[i]@ == k by {
                let i = choose|i: int| 0 <= i < self.terms().len() && #[trigger] self.terms()[i].0 == k;
                assert(out@[i]@ == k);
            }
            assert forall|i: int| 0 <= i < out@.len() implies self.coefs().contains_key(
                #[trigger] out@[i]@,
            ) by {
                assert(out@[i]@ == self.terms()[i].0);
            }
            assert forall|i: int, j: int| 0 <= i < j < out@.len() implies crate::order::text_lt(#[trigger] out@[i]@, #[trigger] out@[j]@) by {
                assert(out@[i]@ == self.terms()[i].0);
                assert(out@[j]@ == self.terms()[j].0);
            }
        }
        out
    }

    /// The coefficient of `var`, if it appears in the expression.
    pub fn get(&self, var: &str) -> (r: Option<i32>)
        ensures
            match r {
                Some(c) => self.coefs().contains_key(var@) && self.coefs()[var@] == c,
                None => !self.coefs().contains_key(var@),
            },
    {
        proof {
            use_type_invariant(self);
        }
        get_entry(&self.coefs, var)
    }

    /// The constant term.
    pub fn get_constant(&self) -> (r: i32)
        ensures
            r == self.constant_value(),
    {
        self.constant
    }

    /// The sum of two expressions.
    pub fn add(&self, rhs: &Expr) -> (r: Expr)
        requires
            self.can_add(*rhs),
        ensures
            r.coefs() == sum_map(self.coefs(), rhs.coefs()),
            r.constant_value() == self.constant_value() + rhs.constant_value(),
    {
        proof {
            use_type_invariant(self);
            use_type_invariant(rhs);
            lemma_entries_map_all(rhs.terms());
        }
        let ghost a = self.coefs();
        let ghost t = rhs.terms();
        let mut out = copy_entries(&self.coefs);
        let mut j: usize = 0;
        proof {
            assert(entries_map(t.take(0)) =~= Map::<Seq<char>, i32>::empty());
            assert(sum_map(a, Map::empty()) =~= a);
        }
        while j < rhs.coefs.len()
            invariant
                0 <= j <= rhs.coefs@.len(),
                a == self.coefs(),
                t == rhs.terms(),
                sorted_names(t),
                self.can_add(*rhs),
                forall|i: int|
                    0 <= i < t.len() ==> rhs.coefs().contains_key(#[trigger] t[i].0)
                        && rhs.coefs()[t[i].0] == t[i].1,
                sorted_names(entries_view(out@)),
                entries_map(entries_view(out@)) == sum_map(a, entries_map(t.take(j as int))),
            decreases rhs.coefs@.len() - j,
        {
            let name = &rhs.coefs[j].0;
            let c = rhs.coefs[j].1;
            let ghost k = name@;
            let ghost prefix = t.take(j as int);
            proof {
                assert(t[j as int] == (k, c));
                assert(sorted_names(prefix));
                assert forall|jj: int| 0 <= jj < j implies crate::order::text_lt(
                    #[trigger] prefix[jj].0,
                    k,
                ) by {
                    assert(prefix[jj] == t[jj]);
                    assert(crate::order::text_lt(t[jj].0, t[j as int].0));
                }
                assert(crate::terms::is_position(prefix, k, j as int, false));
                assert(rhs.coefs().contains_key(t[j as int].0));
                lemma_insert_at_position(prefix, k, c, j as int);
                assert(prefix.insert(j as int, (k, c)) =~= t.take(j + 1));
                crate::terms::lemma_position_absent(prefix, k, j as int);
            }
            let cur = get_entry(&out, name.as_str());
            let newv: i32 = match cur {
                Some(x) => {
                    proof {
                        assert(a.contains_key(k));
                        assert(x == a[k]);
                        assert(fits_i32(a[k] + rhs.coefs()[k]));
                    }
                    x + c
                },
                None => c,
            };
            set_entry(&mut out, name, newv);
            proof {
                assert(entries_map(entries_view(out@)) =~= sum_map(a, entries_map(t.take(j + 1))));
            }
            j = j + 1;
        }
        proof {
            assert(t.take(t.len() as int) =~= t);
        }
        Expr { coefs: out, constant: self.constant + rhs.constant }
    }

    /// The expression multiplied by the integer `f`.
    pub fn scale(&self, f: i32) -> (r: Expr)
        requires
            self.can_scale(f as int),
        ensures
            r.coefs() == scale_map(self.coefs(), f as int),
            r.constant_value() == f * self.constant_value(),
            r.terms().len() == self.terms().len(),
            forall|i: int|
                0 <= i < r.terms().len() ==> #[trigger] r.terms()[i] == (
                    self.terms()[i].0,
                    (f * self.terms()[i].1) as i32,
                ),
    {
        proof {
            use_type_invariant(self);
            lemma_entries_map_all(self.terms());
        }
        let ghost s = self.terms();
        let mut out: Vec<(String, i32)> = Vec::new();
        let mut i: usize = 0;
        while i < self.coefs.len()
            invariant
                0 <= i <= self.coefs@.len(),
                s == self.terms(),
                self.can_scale(f as int),
                forall|j: int|
                    0 <= j < s.len() ==> self.coefs().contains_key(#[trigger] s[j].0)
                        && self.coefs()[s[j].0] == s[j].1,
                entries_view(out@).len() == i,
                forall|j: int|
                    0 <= j < i ==> #[trigger] entries_view(out@)[j] == (
                        s[j].0,
                        (f * s[j].1) as i32,
                    ),
            decreases self.coefs@.len() - i,
        {
            let c = self.coefs[i].1;
            proof {
                assert(s[i as int].1 == c);
                assert(fits_i32(f * self.coefs()[s[i as int].0]));
            }
            let name = self.coefs[i].0.clone();
            let ghost before = out@;
            out.push((name, f * c));
            proof {
                assert(entries_view(out@) =~= entries_view(before).push((name@, (f * c) as i32)));
            }
            i = i + 1;
        }
        let ghost o = entries_view(out@);
        proof {
            assert forall|p: int, q: int| 0 <= p < q < o.len() implies crate::order::text_lt(
                #[trigger] o[p].0,
                #[trigger] o[q].0,
            ) by {
                assert(o[p].0 == s[p].0);
                assert(o[q].0 == s[q].0);
            }
            lemma_entries_map_all(o);
            assert forall|k: Seq<char>| #[trigger]
                entries_map(o).contains_key(k) <==> self.coefs().contains_key(k) by {
                if crate::terms::has_name(o, k) {
                    let p = choose|p: int| 0 <= p < o.len() && #[trigger] o[p].0 == k;
                    assert(s[p].0 == k);
                }
                if crate::terms::has_name(s, k) {
                    let p = choose|p: int| 0 <= p < s.len() && #[trigger] s[p].0 == k;
                    assert(o[p].0 == k);
                }
            }
            assert forall|k: Seq<char>| entries_map(o).contains_key(k) implies entries_map(o)[k]
                == scale_map(self.coefs(), f as int)[k] by {
                let p = choose|p: int| 0 <= p < o.len() && #[trigger] o[p].0 == k;
                assert(s[p].0 == k);
            }
            assert(entries_map(o) =~= scale_map(self.coefs(), f as int));
        }
        Expr { coefs: out, constant: f * self.constant }
    }

    /// The opposite expression, `(-1) * self`.
    pub fn neg(&self) -> (r: Expr)
        requires
            self.can_scale(-1),
        ensures
            r.coefs() == scale_map(self.coefs(), -1),
            r.constant_value() == -self.constant_value(),
    {
        self.scale(-1)
    }

    /// The difference of two expressions, computed as `self + (-1) * rhs`.
    pub fn sub(&self, rhs: &Expr) -> (r: Expr)
        requires
            self.can_sub(*rhs),
        ensures
            r.coefs() == sum_map(self.coefs(), scale_map(rhs.coefs(), -1)),
            r.constant_value() == self.constant_value() - rhs.constant_value(),
    {
        let minus = rhs.neg();
        self.add(&minus)
    }
}

impl Expr {
    /// Removes the variables whose coefficient is zero.
    pub fn clean(&mut self)
        ensures
            final(self).coefs() == nonzero_part(old(self).coefs()),
            final(self).constant_value() == old(self).constant_value(),
    {
        proof {
            use_type_invariant(&*self);
        }
        let out = keep_nonzero(&self.coefs);
        self.coefs = out;
    }

    /// A copy without the variables whose coefficient is zero.
    pub fn cleaned(&self) -> (r: Expr)
        ensures
            r.coefs() == nonzero_part(self.coefs()),
            r.constant_value() == self.constant_value(),
    {
        proof {
            use_type_invariant(self);
        }
        let out = keep_nonzero(&self.coefs);
        Expr { coefs: out, constant: self.constant }
    }

    /// A copy of the expression.
    pub fn clone(&self) -> (r: Expr)
        ensures
            r.terms() == self.terms(),
            r.coefs() == self.coefs(),
            r.constant_value() == self.constant_value(),
    {
        proof {
            use_type_invariant(self);
        }
        let out = copy_entries(&self.coefs);
        Expr { coefs: out, constant: self.constant }
    }

    /// The value of the expression when no variable has a non-zero coefficient.
    pub fn to_value(&self) -> (r: Option<i32>)
        ensures
            r == (if nonzero_part(self.coefs()).dom().is_empty() {
                Some(self.constant_value())
            } else {
                None::<i32>
            }),
    {
        proof {
            use_type_invariant(self);
            lemma_entries_map_all(self.terms());
        }
        let ghost s = self.terms();
        let mut i: usize = 0;
        while i < self.coefs.len()
            invariant
                0 <= i <= self.coefs@.len(),
                s == self.terms(),
                sorted_names(s),
                forall|j: int| 0 <= j < i ==> (#[trigger] s[j]).1 == 0,
            decreases self.coefs@.len() - i,
        {
            if self.coefs[i].1 != 0 {
                proof {
                    lemma_entries_map_at(s, i as int);
                    assert(nonzero_part(self.coefs()).contains_key(s[i as int].0));
                }
                return None;
            }
            i = i + 1;
        }
        proof {
            assert forall|k: Seq<char>| !nonzero_part(self.coefs()).contains_key(k) by {
                if self.coefs().contains_key(k) {
                    let j = choose|j: int| 0 <= j < s.len() && #[trigger] s[j].0 == k;
                    assert(s[j].1 == 0);
                }
            }
            assert(nonzero_part(self.coefs()).dom() =~= Set::<Seq<char>>::empty());
        }
        Some(self.constant)
    }

    /// The terms are sorted by name, each name once (see the laws of
    /// `algebra`, which ask for it).
    pub fn terms_sorted(&self)
        ensures
            sorted_names(self.terms()),
    {
        proof {
            use_type_invariant(self);
        }
    }

    /// The constraint `self <= rhs`, stored as `self - rhs <= 0`.
    pub fn leq(&self, rhs: &Expr) -> (r: Constraint)
        requires
            self.can_sub(*rhs),
        ensures
            r.expr().coefs() == sum_map(self.coefs(), scale_map(rhs.coefs(), -1)),
            r.expr().constant_value() == self.constant_value() - rhs.constant_value(),
            r.sign() == Sign::LessThan,
    {
        Constraint { expr: self.sub(rhs), sign: Sign::LessThan }
    }

    /// The constraint `self >= rhs`, stored as `rhs - self <= 0`.
    pub fn geq(&self, rhs: &Expr) -> (r: Constraint)
        requires
            rhs.can_sub(*self),
        ensures
            r.expr().coefs() == sum_map(rhs.coefs(), scale_map(self.coefs(), -1)),
            r.expr().constant_value() == rhs.constant_value() - self.constant_value(),
            r.sign() == Sign::LessThan,
    {
        Constraint { expr: rhs.sub(self), sign: Sign::LessThan }
    }

    /// The constraint `self == rhs`, stored as `self - rhs == 0`.
    pub fn eq(&self, rhs: &Expr) -> (r: Constraint)
        requires
            self.can_sub(*rhs),
        ensures
            r.expr().coefs() == sum_map(self.coefs(), scale_map(rhs.coefs(), -1)),
            r.expr().constant_value() == self.constant_value() - rhs.constant_value(),
            r.sign() == Sign::Equals,
    {
        Constraint { expr: self.sub(rhs), sign: Sign::Equals }
    }

    /// The text of the expression, such as `2*a + (-3)*b + 1`.
    pub fn to_string(&self) -> (r: String)
        ensures
            r@ == expr_text(self.terms(), self.constant_value() as int),
    {
        let mut out = String::new();
        push_expr_text(&mut out, &self.coefs, self.constant);
        proof {
            assert(out@ =~= expr_text(self.terms(), self.constant_value() as int));
        }
        out
    }
}

/// The entries of `v` whose value is not zero, in the same order.
fn keep_nonzero(v: &Vec<(String, i32)>) -> (r: Vec<(String, i32)>)
    requires
        sorted_names(entries_view(v@)),
    ensures
        sorted_names(entries_view(r@)),
        entries_map(entries_view(r@)) == nonzero_part(entries_map(entries_view(v@))),
{
    let ghost s = entries_view(v@);
    let mut out: Vec<(String, i32)> = Vec::new();
    let mut i: usize = 0;
    proof {
        assert(entries_map(s.take(0)) =~= Map::<Seq<char>, i32>::empty());
        assert(entries_map(entries_view(out@)) =~= nonzero_part(entries_map(s.take(0))));
    }
    while i < v.len()
        invariant
            s == entries_view(v@),
            sorted_names(s),
            0 <= i <= v@.len(),
            sorted_names(entries_view(out@)),
            forall|p: int, m: int|
                0 <= p < entries_view(out@).len() && i <= m < s.len() ==> crate::order::text_lt(
                    #[trigger] entries_view(out@)[p].0,
                    #[trigger] s[m].0,
                ),
            entries_map(entries_view(out@)) == nonzero_part(entries_map(s.take(i as int))),
        decreases v@.len() - i,
    {
        proof {
            lemma_take_push(s, i as int);
        }
        if v[i].1 != 0 {
            let ghost before = entries_view(out@);
            proof {
                assert forall|p: int| 0 <= p < before.len() implies crate::order::text_lt(
                    #[trigger] before[p].0,
                    s[i as int].0,
                ) by {
                    assert(entries_view(out@)[p].0 == before[p].0);
                }
                lemma_push_after(before, s, i as int);
            }
            let name = v[i].0.clone();
            out.push((name, v[i].1));
            proof {
                assert(entries_view(out@) =~= before.push(s[i as int]));
                assert forall|p: int, m: int|
                    0 <= p < entries_view(out@).len() && i + 1 <= m < s.len() implies crate::order::text_lt(
                    #[trigger] entries_view(out@)[p].0,
                    #[trigger] s[m].0,
                ) by {
                    if p < before.len() {
                        assert(entries_view(out@)[p].0 == before[p].0);
                    } else {
                        assert(entries_view(out@)[p].0 == s[i as int].0);
                    }
                }
                assert(entries_map(entries_view(out@)) =~= nonzero_part(
                    entries_map(s.take(i + 1)),
                ));
            }
        } else {
            proof {
                assert(entries_map(entries_view(out@)) =~= nonzero_part(
                    entries_map(s.take(i + 1)),
                ));
            }
        }
        i = i + 1;
    }
    proof {
        assert(s.take(s.len() as int) =~= s);
    }
    out
}

/// Whether two vectors of named coefficients hold the same entries in the same order.
fn same_entries(a: &Vec<(String, i32)>, b: &Vec<(String, i32)>) -> (r: bool)
    ensures
        r == (entries_view(a@) == entries_view(b@)),
{
    if a.len() != b.len() {
        proof {
            assert(entries_view(a@).len() != entries_view(b@).len());
        }
        return false;
    }
    let mut i: usize = 0;
    while i < a.len()
        invariant
            a@.len() == b@.len(),
            0 <= i <= a@.len(),
            forall|j: int| 0 <= j < i ==> #[trigger] entries_view(a@)[j] == entries_view(b@)[j],
        decreases a@.len() - i,
    {
        if a[i].1 != b[i].1 || !crate::text::str_equal(a[i].0.as_str(), b[i].0.as_str()) {
            proof {
                assert(entries_view(a@)[i as int] != entries_view(b@)[i as int]);
            }
            return false;
        }
        i = i + 1;
    }
    proof {
        assert(entries_view(a@) =~= entries_view(b@));
    }
    true
}

impl PartialEq for Expr {
    fn eq(&self, other: &Self) -> (r: bool) {
        proof {
            use_type_invariant(self);
            use_type_invariant(other);
        }
        if self.constant != other.constant {
            return false;
        }
        let a = self.cleaned();
        let b = other.cleaned();
        proof {
            use_type_invariant(&a);
            use_type_invariant(&b);
            if a.coefs() == b.coefs() {
                lemma_sorted_unique(a.terms(), b.terms());
            }
        }
        same_entries(&a.coefs, &b.coefs)
    }
}

impl PartialEqSpecImpl for Expr {
    open spec fn obeys_eq_spec() -> bool {
        true
    }

    open spec fn eq_spec(&self, other: &Expr) -> bool {
        expr_equiv(*self, *other)
    }
}

impl Eq for Expr {

}

impl Default for Expr {
    fn default() -> (r: Expr)
        ensures
            r.coefs() == Map::<Seq<char>, i32>::empty(),
            r.constant_value() == 0,
    {
        Expr::constant(0)
    }
}

/// Two expressions are equal when their constants and their non-zero
/// coefficients are the same.
pub open spec fn expr_equiv(a: Expr, b: Expr) -> bool {
    a.constant_value() == b.constant_value() && nonzero_part(a.coefs()) == nonzero_part(b.coefs())
}

/// An integer as written in expressions: negative values are put in brackets.
pub open spec fn signed_text(v: int) -> Seq<char> {
    if v < 0 {
        seq!['('] + int_digits(v) + seq![')']
    } else {
        int_digits(v)
    }
}

/// The text of one term: the coefficient, `*`, then the variable's name.
pub open spec fn term_text(t: (Seq<char>, i32)) -> Seq<char> {
    signed_text(t.1 as int) + seq!['*'] + t.0
}

/// The text of a sequence of terms joined by ` + `, with a trailing ` + ` when
/// `more` is set.
pub open spec fn terms_text(s: Seq<(Seq<char>, i32)>, more: bool) -> Seq<char>
    decreases s.len(),
{
    if s.len() == 0 {
        Seq::empty()
    } else {
        terms_text(s.drop_last(), true) + term_text(s.last()) + (if more {
            seq![' ', '+', ' ']
        } else {
            Seq::empty()
        })
    }
}

/// The text of an expression: its terms in order, then its constant when it
/// is not zero; the zero expression is written `0`.
pub open spec fn expr_text(terms: Seq<(Seq<char>, i32)>, constant: int) -> Seq<char> {
    if terms.len() == 0 && constant == 0 {
        seq!['0']
    } else {
        terms_text(terms, constant != 0) + (if constant != 0 || terms.len() == 0 {
            signed_text(constant)
        } else {
            Seq::empty()
        })
    }
}

/// Appends the text of an integer as written in expressions.
fn push_signed(s: &mut String, v: i32)
    ensures
        final(s)@ == old(s)@ + signed_text(v as int),
{
    if v < 0 {
        proof {
            reveal_strlit("(");
            reveal_strlit(")");
        }
        push_str(s, "(");
        push_int(s, v as i64);
        push_str(s, ")");
        proof {
            assert(final(s)@ =~= old(s)@ + signed_text(v as int));
        }
    } else {
        push_int(s, v as i64);
    }
}

/// Appends the text of an expression with the given terms and constant.
fn push_expr_text(s: &mut String, coefs: &Vec<(String, i32)>, constant: i32)
    ensures
        final(s)@ == old(s)@ + expr_text(entries_view(coefs@), constant as int),
{
    let ghost t = entries_view(coefs@);
    let n = coefs.len();
    if n == 0 && constant == 0 {
        proof {
            reveal_strlit("0");
        }
        push_str(s, "0");
        return;
    }
    let ghost start = s@;
    let mut i: usize = 0;
    proof {
        assert(t.take(0) =~= Seq::<(Seq<char>, i32)>::empty());
        assert(s@ =~= start + terms_text(t.take(0), true));
    }
    while i < n
        invariant
            n == coefs@.len(),
            t == entries_view(coefs@),
            0 <= i <= n,
            s@ == start + terms_text(t.take(i as int), i < n || constant != 0),
        decreases n - i,
    {
        push_signed(s, coefs[i].1);
        proof {
            reveal_strlit("*");
        }
        push_str(s, "*");
        push_str(s, coefs[i].0.as_str());
        let more = i + 1 < n || constant != 0;
        if more {
            proof {
                reveal_strlit(" + ");
            }
            push_str(s, " + ");
        }
        proof {
            assert(t.take(i + 1).drop_last() =~= t.take(i as int));
            assert(t.take(i + 1).last() == t[i as int]);
            assert(s@ =~= start + terms_text(t.take(i + 1), more));
        }
        i = i + 1;
    }
    proof {
        assert(t.take(n as int) =~= t);
    }
    if constant != 0 || n == 0 {
        push_signed(s, constant);
    }
    proof {
        assert(s@ =~= start + expr_text(t, constant as int));
    }
}

/// The kind of a constraint: `expr == 0` or `expr <= 0`.
#[derive(Clone, Copy, PartialEq, Eq, Debug, Structural, Hash)]
pub enum Sign {
    Equals,
    LessThan,
}

impl Default for Sign {
    fn default() -> (r: Sign)
        ensures
            r == Sign::LessThan,
    {
        Sign::LessThan
    }
}

/// The symbol of a sign: `=` or `<=`.
pub open spec fn sign_text(s: Sign) -> Seq<char> {
    match s {
        Sign::Equals => seq!['='],
        Sign::LessThan => seq!['<', '='],
    }
}

impl Sign {
    /// The symbol of the sign.
    pub fn to_string(&self) -> (r: String)
        ensures
            r@ == sign_text(*self),
    {
        let mut out = String::new();
        match self {
            Sign::Equals => {
                proof {
                    reveal_strlit("=");
                }
                push_str(&mut out, "=");
            },
            Sign::LessThan => {
                proof {
                    reveal_strlit("<=");
                }
                push_str(&mut out, "<=");
            },
        }
        proof {
            assert(out@ =~= sign_text(*self));
        }
        out
    }
}

/// A linear constraint `expr == 0` or `expr <= 0`.
#[derive(Debug)]
pub struct Constraint {
    expr: Expr,
    sign: Sign,
}

impl Constraint {
    /// The left-hand side, compared with zero.
    pub closed spec fn expr(self) -> Expr {
        self.expr
    }

    /// Whether the constraint is an equality or an inequality.
    pub closed spec fn sign(self) -> Sign {
        self.sign
    }

    /// The terms of the left-hand side are sorted by name, each name once.
    pub fn terms_sorted(&self)
        ensures
            sorted_names(self.expr().terms()),
    {
        self.expr.terms_sorted();
    }

    /// The names of the variables, in increasing order.
    pub fn variables(&self) -> (r: Vec<String>)
        ensures
            r@.len() == self.expr().terms().len(),
            forall|i: int, j: int| 0 <= i < j < r@.len() ==> crate::order::text_lt(#[trigger] r@[i]@, #[trigger] r@[j]@),
            forall|i: int| 0 <= i < r@.len() ==> #[trigger] r@[i]@ == self.expr().terms()[i].0,
            forall|k: Seq<char>|
                self.expr().coefs().contains_key(k) <==> exists|i: int|
                    0 <= i < r@.len() && #[trigger] r@[i]@ == k,
    {
        self.expr.variables()
    }

    /// The coefficient of `var` on the left-hand side, if it appears there.
    pub fn get_var(&self, var: &str) -> (r: Option<i32>)
        ensures
            match r {
                Some(c) => self.expr().coefs().contains_key(var@) && self.expr().coefs()[var@] == c,
                None => !self.expr().coefs().contains_key(var@),
            },
    {
        self.expr.get(var)
    }

    /// The sign of the constraint.
    pub fn get_sign(&self) -> (r: Sign)
        ensures
            r == self.sign(),
    {
        self.sign
    }

    /// The constant term of the left-hand side.
    pub fn get_constant(&self) -> (r: i32)
        ensures
            r == self.expr().constant_value(),
    {
        self.expr.constant
    }

    /// Removes the variables whose coefficient is zero.
    pub fn clean(&mut self)
        ensures
            final(self).expr().coefs() == nonzero_part(old(self).expr().coefs()),
            final(self).expr().constant_value() == old(self).expr().constant_value(),
            final(self).sign() == old(self).sign(),
    {
        self.expr.clean();
    }

    /// A copy without the variables whose coefficient is zero.
    pub fn cleaned(&self) -> (r: Constraint)
        ensures
            r.expr().coefs() == nonzero_part(self.expr().coefs()),
            r.expr().constant_value() == self.expr().constant_value(),
            r.sign() == self.sign(),
    {
        Constraint { expr: self.expr.cleaned(), sign: self.sign }
    }

    /// A copy of the constraint.
    pub fn clone(&self) -> (r: Constraint)
        ensures
            r.expr().terms() == self.expr().terms(),
            r.expr().coefs() == self.expr().coefs(),
            r.expr().constant_value() == self.expr().constant_value(),
            r.sign() == self.sign(),
    {
        Constraint { expr: self.expr.clone(), sign: self.sign }
    }

    /// Whether the constraint holds, when its left-hand side has no variable
    /// left with a non-zero coefficient.
    pub fn to_bool(&self) -> (r: Option<bool>)
        ensures
            r == (if nonzero_part(self.expr().coefs()).dom().is_empty() {
                Some(
                    match self.sign() {
                        Sign::Equals => self.expr().constant_value() == 0,
                        Sign::LessThan => self.expr().constant_value() <= 0,
                    },
                )
            } else {
                None::<bool>
            }),
    {
        let val = match self.expr.to_value() {
            Some(v) => v,
            None => {
                return None;
            },
        };
        Some(
            match self.sign {
                Sign::Equals => val == 0,
                Sign::LessThan => val <= 0,
            },
        )
    }

    /// The text of the constraint, such as `2*a + (-1) <= 0`.
    pub fn to_string(&self) -> (r: String)
        ensures
            r@ == expr_text(self.expr().terms(), self.expr().constant_value() as int) + seq![' ']
                + sign_text(self.sign()) + seq![' ', '0'],
    {
        let mut out = self.expr.to_string();
        proof {
            reveal_strlit(" ");
            reveal_strlit(" 0");
        }
        push_str(&mut out, " ");
        let st = self.sign.to_string();
        push_str(&mut out, st.as_str());
        push_str(&mut out, " 0");
        proof {
            assert(out@ =~= expr_text(self.expr().terms(), self.expr().constant_value() as int)
                + seq![' '] + sign_text(self.sign()) + seq![' ', '0']);
        }
        out
    }
}

impl PartialEq for Constraint {
    fn eq(&self, other: &Self) -> (r: bool) {
        self.sign == other.sign && self.expr == other.expr
    }
}

impl PartialEqSpecImpl for Constraint {
    open spec fn obeys_eq_spec() -> bool {
        true
    }

    open spec fn eq_spec(&self, other: &Constraint) -> bool {
        self.sign() == other.sign() && expr_equiv(self.expr(), other.expr())
    }
}

impl Eq for Constraint {

}

impl Default for Constraint {
    fn default() -> (r: Constraint)
        ensures
            r.expr().coefs() == Map::<Seq<char>, i32>::empty(),
            r.expr().constant_value() == 0,
            r.sign() == Sign::LessThan,
    {
        Constraint { expr: Expr::constant(0), sign: Sign::LessThan }
    }
}

/// An assignment of truth values to some of the variables.
#[derive(Debug)]
pub struct Config {
    values: Vec<(String, bool)>,
}

impl Config {
    #[verifier::type_invariant]
    spec fn inv(self) -> bool {
        sorted_names(entries_view(self.values@))
    }

    /// The value given to each assigned variable.
    pub closed spec fn values(self) -> Map<Seq<char>, bool> {
        entries_map(entries_view(self.values@))
    }

    /// The assignment of the given values; when a name occurs more than once,
    /// its last value is kept.
    pub fn new(values: Vec<(String, bool)>) -> (r: Config)
        ensures
            r.values() == assign_all(Map::empty(), entries_view(values@)),
    {
        let mut out: Vec<(String, bool)> = Vec::new();
        let mut i: usize = 0;
        proof {
            assert(entries_map(entries_view(out@)) =~= Map::<Seq<char>, bool>::empty());
            assert(entries_view(values@).take(0) =~= Seq::<(Seq<char>, bool)>::empty());
        }
        while i < values.len()
            invariant
                0 <= i <= values@.len(),
                sorted_names(entries_view(out@)),
                entries_map(entries_view(out@)) == assign_all(
                    Map::empty(),
                    entries_view(values@).take(i as int),
                ),
            decreases values@.len() - i,
        {
            set_entry(&mut out, &values[i].0, values[i].1);
            proof {
                let t = entries_view(values@);
                assert(t.take(i + 1).drop_last() =~= t.take(i as int));
            }
            i = i + 1;
        }
        proof {
            assert(entries_view(values@).take(values@.len() as int) =~= entries_view(values@));
        }
        Config { values: out }
    }

    /// The value given to `name`, if it is assigned.
    pub fn get(&self, name: &str) -> (r: Option<bool>)
        ensures
            match r {
                Some(b) => self.values().contains_key(name@) && self.values()[name@] == b,
                None => !self.values().contains_key(name@),
            },
    {
        proof {
            use_type_invariant(self);
        }
        get_entry(&self.values, name)
    }
}

/// The constant left once the assigned variables of the terms are replaced by
/// their values (1 for true, 0 for false), adding terms in order to `c`.
pub open spec fn reduced_constant(s: Seq<(Seq<char>, i32)>, vals: Map<Seq<char>, bool>, c: int) -> int
    decreases s.len(),
{
    if s.len() == 0 {
        c
    } else {
        reduced_constant(s.drop_last(), vals, c) + (if vals.contains_key(s.last().0) && vals[s.last().0] {
            s.last().1 as int
        } else {
            0
        })
    }
}

/// The coefficients of the variables that are not assigned.
pub open spec fn unassigned_part(m: Map<Seq<char>, i32>, vals: Map<Seq<char>, bool>) -> Map<Seq<char>, i32> {
    Map::new(|k: Seq<char>| m.contains_key(k) && !vals.contains_key(k), |k: Seq<char>| m[k])
}

impl Expr {
    /// Whether replacing the assigned variables by their values keeps every
    /// partial sum of the constant within the `i32` range.
    pub open spec fn can_reduce(self, config: Config) -> bool {
        forall|n: int|
            0 <= n <= self.terms().len() ==> fits_i32(
                #[trigger] reduced_constant(self.terms().take(n), config.values(), self.constant_value() as int),
            )
    }

    /// The expression with the assigned variables replaced by their values.
    pub fn reduce(&self, config: &Config) -> (r: Expr)
        requires
            self.can_reduce(*config),
        ensures
            r.coefs() == unassigned_part(self.coefs(), config.values()),
            r.constant_value() == reduced_constant(
                self.terms(),
                config.values(),
                self.constant_value() as int,
            ),
    {
        proof {
            use_type_invariant(self);
        }
        let ghost s = self.terms();
        let ghost vals = config.values();
        let ghost c0 = self.constant_value() as int;
        let mut constant = self.constant;
        let mut out: Vec<(String, i32)> = Vec::new();
        let mut i: usize = 0;
        proof {
            assert(entries_map(s.take(0)) =~= Map::<Seq<char>, i32>::empty());
            assert(entries_map(entries_view(out@)) =~= unassigned_part(entries_map(s.take(0)), vals));
            assert(s.take(0) =~= Seq::<(Seq<char>, i32)>::empty());
        }
        while i < self.coefs.len()
            invariant
                s == self.terms(),
                vals == config.values(),
                c0 == self.constant_value() as int,
                self.can_reduce(*config),
                sorted_names(s),
                0 <= i <= s.len(),
                constant as int == reduced_constant(s.take(i as int), vals, c0),
                sorted_names(entries_view(out@)),
                forall|p: int, m: int|
                    0 <= p < entries_view(out@).len() && i <= m < s.len() ==> crate::order::text_lt(
                        #[trigger] entries_view(out@)[p].0,
                        #[trigger] s[m].0,
                    ),
                entries_map(entries_view(out@)) == unassigned_part(entries_map(s.take(i as int)), vals),
            decreases s.len() - i,
        {
            proof {
                lemma_take_push(s, i as int);
                assert(s.take(i + 1).drop_last() =~= s.take(i as int));
                assert(fits_i32(reduced_constant(s.take(i + 1), vals, c0)));
            }
            match config.get(self.coefs[i].0.as_str()) {
                Some(val) => {
                    if val {
                        constant = constant + self.coefs[i].1;
                    }
                    proof {
                        assert(entries_map(entries_view(out@)) =~= unassigned_part(
                            entries_map(s.take(i + 1)),
                            vals,
                        ));
                    }
                },
                None => {
                    let ghost before = entries_view(out@);
                    proof {
                        assert forall|p: int| 0 <= p < before.len() implies crate::order::text_lt(
                            #[trigger] before[p].0,
                            s[i as int].0,
                        ) by {
                            assert(entries_view(out@)[p].0 == before[p].0);
                        }
                        lemma_push_after(before, s, i as int);
                    }
                    let name = self.coefs[i].0.clone();
                    out.push((name, self.coefs[i].1));
                    proof {
                        assert(entries_view(out@) =~= before.push(s[i as int]));
                        assert forall|p: int, m: int|
                            0 <= p < entries_view(out@).len() && i + 1 <= m < s.len() implies crate::order::text_lt(
                            #[trigger] entries_view(out@)[p].0,
                            #[trigger] s[m].0,
                        ) by {
                            if p < before.len() {
                                assert(entries_view(out@)[p].0 == before[p].0);
                            } else {
                                assert(entries_view(out@)[p].0 == s[i as int].0);
                            }
                        }
                        assert(entries_map(entries_view(out@)) =~= unassigned_part(
                            entries_map(s.take(i + 1)),
                            vals,
                        ));
                    }
                },
            }
            i = i + 1;
        }
        proof {
            assert(s.take(s.len() as int) =~= s);
        }
        Expr { coefs: out, constant }
    }

    /// The value of the expression under the assignment, when every variable
    /// with a non-zero coefficient is assigned.
    pub fn eval(&self, config: &Config) -> (r: Option<i32>)
        requires
            self.can_reduce(*config),
        ensures
            r == (if nonzero_part(unassigned_part(self.coefs(), config.values())).dom().is_empty() {
                Some(reduced_constant(self.terms(), config.values(), self.constant_value() as int) as i32)
            } else {
                None::<i32>
            }),
    {
        self.reduce(config).to_value()
    }
}

impl Constraint {
    /// Whether the left-hand side can be reduced under the assignment.
    pub open spec fn can_reduce(self, config: Config) -> bool {
        self.expr().can_reduce(config)
    }

    /// The constraint with the assigned variables replaced by their values.
    pub fn reduce(&self, config: &Config) -> (r: Constraint)
        requires
            self.can_reduce(*config),
        ensures
            r.expr().coefs() == unassigned_part(self.expr().coefs(), config.values()),
            r.expr().constant_value() == reduced_constant(
                self.expr().terms(),
                config.values(),
                self.expr().constant_value() as int,
            ),
            r.sign() == self.sign(),
    {
        Constraint { expr: self.expr.reduce(config), sign: self.sign }
    }

    /// Whether the constraint holds under the assignment, when every variable
    /// with a non-zero coefficient is assigned.
    pub fn eval(&self, config: &Config) -> (r: Option<bool>)
        requires
            self.can_reduce(*config),
        ensures
            r == (if nonzero_part(unassigned_part(self.expr().coefs(), config.values())).dom().is_empty() {
                Some(
                    match self.sign() {
                        Sign::Equals => reduced_constant(
                            self.expr().terms(),
                            config.values(),
                            self.expr().constant_value() as int,
                        ) == 0,
                        Sign::LessThan => reduced_constant(
                            self.expr().terms(),
                            config.values(),
                            self.expr().constant_value() as int,
                        ) <= 0,
                    },
                )
            } else {
                None::<bool>
            }),
    {
        self.reduce(config).to_bool()
    }
}

/// The map obtained by setting, in order, each named value of `s` in `m`.
pub open spec fn assign_all<V>(m: Map<Seq<char>, V>, s: Seq<(Seq<char>, V)>) -> Map<Seq<char>, V>
    decreases s.len(),
{
    if s.len() == 0 {
        m
    } else {
        assign_all(m, s.drop_last()).insert(s.last().0, s.last().1)
    }
}

} // verus!
