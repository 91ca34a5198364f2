//! Constraints held as integer matrices, and assignments held as integer
//! vectors, using the arrays of `ndarray`.

use ndarray::{Array1, Array2, ArrayView};
use vstd::prelude::*;

use crate::text::string_views;

use crate::linexpr::{Constraint, Sign};

use crate::solving::RandomGen;

verus! {

/// An `ndarray` matrix of `i32`, grown row by row.
#[verifier::external_body]
pub struct Matrix {
    inner: Array2<i32>,
}

/// An `ndarray` vector of `i32`.
#[verifier::external_body]
pub struct Column {
    inner: Array1<i32>,
}

/// The rows of a matrix.
pub uninterp spec fn matrix_rows(m: Matrix) -> Seq<Seq<i32>>;

/// The number of columns a matrix was made with.
pub uninterp spec fn matrix_width(m: Matrix) -> nat;

/// The values of a vector.
pub uninterp spec fn column_values(a: Column) -> Seq<i32>;

/// Sum of the products of the values of two sequences, position by position.
pub open spec fn dot(a: Seq<i32>, b: Seq<i32>, n: int) -> int
    decreases n,
{
    if n <= 0 {
        0
    } else {
        dot(a, b, n - 1) + a[n - 1] * b[n - 1]
    }
}

/// Sum of the absolute values of the products of two sequences.
pub open spec fn abs_dot(a: Seq<i32>, b: Seq<i32>, n: int) -> int
    decreases n,
{
    if n <= 0 {
        0
    } else {
        abs_dot(a, b, n - 1) + (if a[n - 1] * b[n - 1] >= 0 {
            a[n - 1] * b[n - 1]
        } else {
            -(a[n - 1] * b[n - 1])
        })
    }
}

impl Matrix {
    /// `Array2::zeros((0, width))`: a matrix with no row and `width` columns
    /// (a width within `isize`, which `ndarray` requires of a shape).
    #[verifier::external_body]
    pub(crate) fn empty(width: usize) -> (m: Matrix)
        requires
            width <= isize::MAX,
        ensures
            matrix_rows(m) == Seq::<Seq<i32>>::empty(),
            matrix_width(m) == width,
    {
        Matrix { inner: Array2::zeros((0, width)) }
    }

    /// `push_row`: appends a row of the width of the matrix (the size of the
    /// matrix staying within `isize`, which `ndarray` requires).
    #[verifier::external_body]
    pub(crate) fn push_row(&mut self, row: &Vec<i32>)
        requires
            row@.len() == matrix_width(*old(self)),
            (matrix_rows(*old(self)).len() + 1) * row@.len() <= isize::MAX,
        ensures
            matrix_rows(*final(self)) == matrix_rows(*old(self)).push(row@),
            matrix_width(*final(self)) == matrix_width(*old(self)),
    {
        self.inner.push_row(ArrayView::from(row.as_slice())).expect("row of the width of the matrix")
    }

    /// `nrows`: the number of rows.
    #[verifier::external_body]
    pub(crate) fn nrows(&self) -> (r: usize)
        ensures
            r == matrix_rows(*self).len(),
    {
        self.inner.nrows()
    }

    /// `ncols`: the number of columns.
    #[verifier::external_body]
    pub(crate) fn ncols(&self) -> (r: usize)
        ensures
            r == matrix_width(*self),
    {
        self.inner.ncols()
    }

    /// Indexing by `[[i, j]]`: the value at row `i` and column `j`.
    #[verifier::external_body]
    pub(crate) fn get(&self, i: usize, j: usize) -> (r: i32)
        requires
            i < matrix_rows(*self).len(),
            j < matrix_width(*self),
            matrix_rows(*self)[i as int].len() == matrix_width(*self),
        ensures
            r == matrix_rows(*self)[i as int][j as int],
    {
        self.inner[[i, j]]
    }

    /// `dot` with a vector: the vector of the sums of products of each row
    /// with it, when no partial sum can leave the `i32` range.
    #[verifier::external_body]
    pub(crate) fn times(&self, v: &Column) -> (r: Column)
        requires
            column_values(*v).len() == matrix_width(*self),
            forall|i: int|
                0 <= i < matrix_rows(*self).len() ==> #[trigger] abs_dot(
                    matrix_rows(*self)[i],
                    column_values(*v),
                    matrix_width(*self) as int,
                ) <= i32::MAX,
        ensures
            column_values(r).len() == matrix_rows(*self).len(),
            forall|i: int|
                0 <= i < matrix_rows(*self).len() ==> #[trigger] column_values(r)[i] == dot(
                    matrix_rows(*self)[i],
                    column_values(*v),
                    matrix_width(*self) as int,
                ),
    {
        Column { inner: self.inner.dot(&v.inner) }
    }
}

impl Column {
    /// `Array1::from_vec(v)`: the vector with the values of `v`.
    #[verifier::external_body]
    pub(crate) fn from_vec(v: Vec<i32>) -> (a: Column)
        ensures
            column_values(a) == v@,
    {
        Column { inner: Array1::from_vec(v) }
    }

    /// `Array1::zeros(n)`: `n` zeros (`n` staying within `isize`, which `ndarray` requires).
    #[verifier::external_body]
    pub(crate) fn zeros(n: usize) -> (a: Column)
        requires
            n <= isize::MAX,
        ensures
            column_values(a) == Seq::new(n as nat, |_i: int| 0i32),
    {
        Column { inner: Array1::zeros(n) }
    }

    /// `len`: the number of values.
    #[verifier::external_body]
    pub(crate) fn len(&self) -> (r: usize)
        ensures
            r == column_values(*self).len(),
    {
        self.inner.len()
    }

    /// Indexing: the value at position `i`.
    #[verifier::external_body]
    pub(crate) fn get(&self, i: usize) -> (r: i32)
        requires
            i < column_values(*self).len(),
        ensures
            r == column_values(*self)[i as int],
    {
        self.inner[i]
    }

    /// Indexing: sets the value at position `i`.
    #[verifier::external_body]
    pub(crate) fn set(&mut self, i: usize, x: i32)
        requires
            i < column_values(*old(self)).len(),
        ensures
            column_values(*final(self)) == column_values(*old(self)).update(i as int, x),
        no_unwind
    {
        self.inner[i] = x;
    }

    /// `clone`: a vector with the same values.
    #[verifier::external_body]
    pub(crate) fn copy(&self) -> (r: Column)
        ensures
            column_values(r) == column_values(*self),
    {
        Column { inner: self.inner.clone() }
    }

    /// `+`: the sums of the values, position by position, when they stay in `i32`.
    #[verifier::external_body]
    pub(crate) fn plus(self, rhs: &Column) -> (r: Column)
        requires
            column_values(self).len() == column_values(*rhs).len(),
            forall|i: int|
                0 <= i < column_values(self).len() ==> i32::MIN <= #[trigger] column_values(self)[i]
                    + column_values(*rhs)[i] <= i32::MAX,
        ensures
            column_values(r).len() == column_values(self).len(),
            forall|i: int|
                0 <= i < column_values(self).len() ==> #[trigger] column_values(r)[i] == column_values(self)[i]
                    + column_values(*rhs)[i],
    {
        Column { inner: self.inner + &rhs.inner }
    }
}

/// The coefficients of a constraint on the given variables, in order, 0 for
/// the variables it does not have.
pub open spec fn constraint_row(vars: Seq<Seq<char>>, c: Constraint) -> Seq<i32> {
    Seq::new(
        vars.len(),
        |j: int|
            if c.expr().coefs().contains_key(vars[j]) {
                c.expr().coefs()[vars[j]]
            } else {
                0i32
            },
    )
}

/// The rows of the constraints of sign `sign`, in order.
pub open spec fn sign_rows(vars: Seq<Seq<char>>, cs: Seq<Constraint>, sign: Sign) -> Seq<Seq<i32>>
    decreases cs.len(),
{
    if cs.len() == 0 {
        Seq::empty()
    } else if cs.last().sign() == sign {
        sign_rows(vars, cs.drop_last(), sign).push(constraint_row(vars, cs.last()))
    } else {
        sign_rows(vars, cs.drop_last(), sign)
    }
}

/// The constants of the constraints of sign `sign`, in order.
pub open spec fn sign_constants(cs: Seq<Constraint>, sign: Sign) -> Seq<i32>
    decreases cs.len(),
{
    if cs.len() == 0 {
        Seq::empty()
    } else if cs.last().sign() == sign {
        sign_constants(cs.drop_last(), sign).push(cs.last().expr().constant_value())
    } else {
        sign_constants(cs.drop_last(), sign)
    }
}

/// Constraints as matrices: `leq_mat * x + leq_constants <= 0` and
/// `eq_mat * x + eq_constants == 0`, one column per variable.
pub struct MatRepr {
    leq_mat: Matrix,
    leq_constants: Column,
    eq_mat: Matrix,
    eq_constants: Column,
}

impl MatRepr {
    /// Rows of the inequalities.
    pub closed spec fn leq_rows(self) -> Seq<Seq<i32>> {
        matrix_rows(self.leq_mat)
    }

    /// Constants of the inequalities.
    pub closed spec fn leq_consts(self) -> Seq<i32> {
        column_values(self.leq_constants)
    }

    /// Rows of the equalities.
    pub closed spec fn eq_rows(self) -> Seq<Seq<i32>> {
        matrix_rows(self.eq_mat)
    }

    /// Constants of the equalities.
    pub closed spec fn eq_consts(self) -> Seq<i32> {
        column_values(self.eq_constants)
    }

    /// Number of columns, one per variable.
    pub closed spec fn width(self) -> nat {
        matrix_width(self.leq_mat)
    }

    /// The widths of both matrices are the number of variables.
    pub closed spec fn wf(self) -> bool {
        &&& matrix_width(self.leq_mat) == matrix_width(self.eq_mat)
        &&& self.leq_rows().len() == self.leq_consts().len()
        &&& self.eq_rows().len() == self.eq_consts().len()
        &&& forall|i: int| 0 <= i < self.leq_rows().len() ==> (#[trigger] self.leq_rows()[i]).len() == self.width()
        &&& forall|i: int| 0 <= i < self.eq_rows().len() ==> (#[trigger] self.eq_rows()[i]).len() == self.width()
    }

    /// The matrices of the constraints over the variables, in the order of
    /// `variables_vec`: inequalities and equalities each keep the order of
    /// the constraints.
    pub fn new(variables_vec: &Vec<String>, constraints: &Vec<Constraint>) -> (r: MatRepr)
        requires
            constraints@.len() * variables_vec@.len() <= isize::MAX,
            variables_vec@.len() <= isize::MAX,
        ensures
            r.wf(),
            r.width() == variables_vec@.len(),
            r.leq_rows() == sign_rows(string_views(variables_vec@), constraints@, Sign::LessThan),
            r.leq_consts() == sign_constants(constraints@, Sign::LessThan),
            r.eq_rows() == sign_rows(string_views(variables_vec@), constraints@, Sign::Equals),
            r.eq_consts() == sign_constants(constraints@, Sign::Equals),
    {
        let p: usize = variables_vec.len();
        let ghost vars = string_views(variables_vec@);
        let ghost cs = constraints@;
        let mut leq_mat = Matrix::empty(p);
        let mut eq_mat = Matrix::empty(p);
        let mut leq_constants_vec: Vec<i32> = Vec::new();
        let mut eq_constants_vec: Vec<i32> = Vec::new();
        let mut i: usize = 0;
        while i < constraints.len()
            invariant
                p == variables_vec@.len(),
                vars == string_views(variables_vec@),
                cs == constraints@,
                cs.len() * p <= isize::MAX,
                0 <= i <= cs.len(),
                matrix_width(leq_mat) == p,
                matrix_width(eq_mat) == p,
                matrix_rows(leq_mat) == sign_rows(vars, cs.take(i as int), Sign::LessThan),
                matrix_rows(eq_mat) == sign_rows(vars, cs.take(i as int), Sign::Equals),
                leq_constants_vec@ == sign_constants(cs.take(i as int), Sign::LessThan),
                eq_constants_vec@ == sign_constants(cs.take(i as int), Sign::Equals),
                matrix_rows(leq_mat).len() + matrix_rows(eq_mat).len() == i,
                leq_constants_vec@.len() == matrix_rows(leq_mat).len(),
                eq_constants_vec@.len() == matrix_rows(eq_mat).len(),
            decreases cs.len() - i,
        {
            let c = &constraints[i];
            let mut current_row: Vec<i32> = Vec::new();
            let mut j: usize = 0;
            while j < p
                invariant
                    p == variables_vec@.len(),
                    vars == string_views(variables_vec@),
                    0 <= j <= p,
                    current_row@ == constraint_row(vars, *c).take(j as int),
                decreases p - j,
            {
                let val: i32 = match c.get_var(variables_vec[j].as_str()) {
                    Some(v) => v,
                    None => 0,
                };
                current_row.push(val);
                proof {
                    assert(constraint_row(vars, *c).take(j + 1) =~= constraint_row(vars, *c).take(j as int).push(val));
                }
                j = j + 1;
            }
            proof {
                assert(constraint_row(vars, *c).take(p as int) =~= constraint_row(vars, *c));
                assert(cs.take(i + 1).drop_last() =~= cs.take(i as int));
                assert(cs.take(i + 1).last() == *c);
                assert((i + 1) * p <= cs.len() * p) by (nonlinear_arith)
                    requires
                        i + 1 <= cs.len(),
                ;
                assert((matrix_rows(leq_mat).len() + 1) * p <= (i + 1) * p) by (nonlinear_arith)
                    requires
                        matrix_rows(leq_mat).len() + 1 <= i + 1,
                ;
                assert((matrix_rows(eq_mat).len() + 1) * p <= (i + 1) * p) by (nonlinear_arith)
                    requires
                        matrix_rows(eq_mat).len() + 1 <= i + 1,
                ;
            }
            let cst: i32 = c.get_constant();
            match c.get_sign() {
                Sign::Equals => {
                    eq_mat.push_row(&current_row);
                    eq_constants_vec.push(cst);
                },
                Sign::LessThan => {
                    leq_mat.push_row(&current_row);
                    leq_constants_vec.push(cst);
                },
            }
            i = i + 1;
        }
        proof {
            assert(cs.take(i as int) =~= cs);
            lemma_sign_rows_width(vars, cs, Sign::LessThan);
            lemma_sign_rows_width(vars, cs, Sign::Equals);
        }
        let leq_constants = Column::from_vec(leq_constants_vec);
        let eq_constants = Column::from_vec(eq_constants_vec);
        MatRepr { leq_mat, leq_constants, eq_mat, eq_constants }
    }
}

/// Each row is as wide as the list of variables.
proof fn lemma_sign_rows_width(vars: Seq<Seq<char>>, cs: Seq<Constraint>, sign: Sign)
    ensures
        forall|i: int| 0 <= i < sign_rows(vars, cs, sign).len() ==> (#[trigger] sign_rows(vars, cs, sign)[i]).len() == vars.len(),
    decreases cs.len(),
{
    if cs.len() > 0 {
        lemma_sign_rows_width(vars, cs.drop_last(), sign);
        let prev = sign_rows(vars, cs.drop_last(), sign);
        assert(constraint_row(vars, cs.last()).len() == vars.len());
        if cs.last().sign() == sign {
            assert forall|i: int| 0 <= i < prev.len() + 1 implies (#[trigger] prev.push(constraint_row(vars, cs.last()))[i]).len() == vars.len() by {
                if i < prev.len() {
                    assert(prev.push(constraint_row(vars, cs.last()))[i] == prev[i]);
                }
            }
        }
    }
}

/// Sum of the absolute values of the first `n` values.
pub open spec fn abs_sum(a: Seq<i32>, n: int) -> int
    decreases n,
{
    if n <= 0 {
        0
    } else {
        abs_sum(a, n - 1) + (if a[n - 1] >= 0 {
            a[n - 1] as int
        } else {
            -a[n - 1]
        })
    }
}

/// With values 0 or 1, the absolute products add up to at most the absolute
/// coefficients, and the sum of products is within them.
pub proof fn lemma_dot_bounds(a: Seq<i32>, b: Seq<i32>, n: int)
    requires
        forall|j: int| 0 <= j < n ==> b[j] == 0 || b[j] == 1,
    ensures
        abs_dot(a, b, n) <= abs_sum(a, n),
        -abs_dot(a, b, n) <= dot(a, b, n) <= abs_dot(a, b, n),
    decreases n,
{
    if n > 0 {
        lemma_dot_bounds(a, b, n - 1);
        if b[n - 1] == 0 {
            assert(a[n - 1] * b[n - 1] == 0);
        } else {
            assert(a[n - 1] * b[n - 1] == a[n - 1]);
        }
    }
}

impl MatRepr {
    /// The values satisfy every constraint: each row of the inequalities
    /// times the values, plus its constant, is at most 0, and each row of the
    /// equalities gives exactly 0.
    pub open spec fn holds_for(self, values: Seq<i32>) -> bool {
        &&& forall|i: int|
            0 <= i < self.leq_rows().len() ==> #[trigger] dot(self.leq_rows()[i], values, self.width() as int)
                + self.leq_consts()[i] <= 0
        &&& forall|i: int|
            0 <= i < self.eq_rows().len() ==> #[trigger] dot(self.eq_rows()[i], values, self.width() as int)
                + self.eq_consts()[i] == 0
    }

    /// On the given values, every row's absolute products, with its
    /// constant, add up to at most `i32::MAX`: no evaluation of a row on
    /// these values leaves the `i32` range.
    pub open spec fn bounded_at(self, values: Seq<i32>) -> bool {
        &&& forall|i: int|
            0 <= i < self.leq_rows().len() ==> #[trigger] abs_dot(self.leq_rows()[i], values, self.width() as int)
                + (if self.leq_consts()[i] >= 0 { self.leq_consts()[i] as int } else { -self.leq_consts()[i] })
                <= i32::MAX
        &&& forall|i: int|
            0 <= i < self.eq_rows().len() ==> #[trigger] abs_dot(self.eq_rows()[i], values, self.width() as int)
                + (if self.eq_consts()[i] >= 0 { self.eq_consts()[i] as int } else { -self.eq_consts()[i] })
                <= i32::MAX
    }

    /// Bounded matrices are bounded on every assignment of 0/1 values.
    pub proof fn lemma_bounded_at(self, values: Seq<i32>)
        requires
            self.bounded(),
            forall|j: int| 0 <= j < values.len() ==> values[j] == 0 || values[j] == 1,
            values.len() == self.width(),
        ensures
            self.bounded_at(values),
    {
        assert forall|i: int| 0 <= i < self.leq_rows().len() implies #[trigger] abs_dot(self.leq_rows()[i], values, self.width() as int)
            + (if self.leq_consts()[i] >= 0 { self.leq_consts()[i] as int } else { -self.leq_consts()[i] }) <= i32::MAX by {
            lemma_dot_bounds(self.leq_rows()[i], values, self.width() as int);
            assert(abs_sum(self.leq_rows()[i], self.width() as int)
                + (if self.leq_consts()[i] >= 0 { self.leq_consts()[i] as int } else { -self.leq_consts()[i] }) <= i32::MAX);
        }
        assert forall|i: int| 0 <= i < self.eq_rows().len() implies #[trigger] abs_dot(self.eq_rows()[i], values, self.width() as int)
            + (if self.eq_consts()[i] >= 0 { self.eq_consts()[i] as int } else { -self.eq_consts()[i] }) <= i32::MAX by {
            lemma_dot_bounds(self.eq_rows()[i], values, self.width() as int);
            assert(abs_sum(self.eq_rows()[i], self.width() as int)
                + (if self.eq_consts()[i] >= 0 { self.eq_consts()[i] as int } else { -self.eq_consts()[i] }) <= i32::MAX);
        }
    }

    /// Every row, with its constant, has absolute values adding up to at most
    /// `i32::MAX`, so that no evaluation on 0/1 values leaves the `i32` range.
    pub open spec fn bounded(self) -> bool {
        &&& forall|i: int|
            0 <= i < self.leq_rows().len() ==> #[trigger] abs_sum(self.leq_rows()[i], self.width() as int)
                + (if self.leq_consts()[i] >= 0 { self.leq_consts()[i] as int } else { -self.leq_consts()[i] })
                <= i32::MAX
        &&& forall|i: int|
            0 <= i < self.eq_rows().len() ==> #[trigger] abs_sum(self.eq_rows()[i], self.width() as int)
                + (if self.eq_consts()[i] >= 0 { self.eq_consts()[i] as int } else { -self.eq_consts()[i] })
                <= i32::MAX
    }
}

/// The values of the variables of a problem, each 0 or 1, in the order of
/// the columns of its matrices.
pub struct ConfigRepr {
    values: Column,
}

impl ConfigRepr {
    /// The values.
    pub closed spec fn values(self) -> Seq<i32> {
        column_values(self.values)
    }

    /// `n` zeros.
    pub fn zeros(n: usize) -> (r: ConfigRepr)
        requires
            n <= isize::MAX,
        ensures
            r.values() == Seq::new(n as nat, |_i: int| 0i32),
    {
        ConfigRepr { values: Column::zeros(n) }
    }

    /// The number of values.
    pub fn len(&self) -> (r: usize)
        ensures
            r == self.values().len(),
    {
        self.values.len()
    }

    /// The value at position `i`.
    pub fn get_unchecked(&self, i: usize) -> (r: i32)
        requires
            i < self.values().len(),
        ensures
            r == self.values()[i as int],
    {
        self.values.get(i)
    }

    /// Sets the value at position `i`.
    pub fn set_unchecked(&mut self, i: usize, x: i32)
        requires
            i < old(self).values().len(),
        ensures
            final(self).values() == old(self).values().update(i as int, x),
        no_unwind
    {
        self.values.set(i, x);
    }

    /// Whether the values satisfy every constraint of the matrices.
    pub fn is_feasable(&self, mat: &MatRepr) -> (r: bool)
        requires
            mat.wf(),
            self.values().len() == mat.width(),
            mat.bounded_at(self.values()),
            forall|j: int| 0 <= j < self.values().len() ==> self.values()[j] == 0 || self.values()[j] == 1,
        ensures
            r == mat.holds_for(self.values()),
    {
        let ghost v = self.values();
        let ghost w = mat.width() as int;
        let leq_products = mat.leq_mat.times(&self.values);
        proof {
            assert forall|i: int| 0 <= i < column_values(leq_products).len() implies i32::MIN <= #[trigger] column_values(leq_products)[i]
                + column_values(mat.leq_constants)[i] <= i32::MAX by {
                lemma_dot_bounds(mat.leq_rows()[i], v, w);
            }
        }
        let leq_column = leq_products.plus(&mat.leq_constants);
        let eq_products = mat.eq_mat.times(&self.values);
        proof {
            assert forall|i: int| 0 <= i < column_values(eq_products).len() implies i32::MIN <= #[trigger] column_values(eq_products)[i]
                + column_values(mat.eq_constants)[i] <= i32::MAX by {
                lemma_dot_bounds(mat.eq_rows()[i], v, w);
            }
        }
        let eq_column = eq_products.plus(&mat.eq_constants);
        let mut i: usize = 0;
        while i < leq_column.len()
            invariant
                v == self.values(),
                w == mat.width() as int,
                mat.wf(),
                0 <= i <= column_values(leq_column).len(),
                column_values(leq_column).len() == mat.leq_rows().len(),
                forall|t: int| 0 <= t < column_values(leq_column).len() ==> #[trigger] column_values(leq_column)[t] == dot(mat.leq_rows()[t], v, w) + mat.leq_consts()[t],
                forall|t: int| 0 <= t < i ==> #[trigger] column_values(leq_column)[t] <= 0,
            decreases column_values(leq_column).len() - i,
        {
            if leq_column.get(i) > 0 {
                proof {
                    assert(dot(mat.leq_rows()[i as int], v, w) + mat.leq_consts()[i as int] > 0);
                }
                return false;
            }
            i = i + 1;
        }
        proof {
            assert forall|t: int| 0 <= t < mat.leq_rows().len() implies #[trigger] dot(mat.leq_rows()[t], v, w) + mat.leq_consts()[t] <= 0 by {
                assert(column_values(leq_column)[t] <= 0);
            }
        }
        let mut i: usize = 0;
        while i < eq_column.len()
            invariant
                v == self.values(),
                w == mat.width() as int,
                mat.wf(),
                0 <= i <= column_values(eq_column).len(),
                column_values(eq_column).len() == mat.eq_rows().len(),
                forall|t: int| 0 <= t < column_values(eq_column).len() ==> #[trigger] column_values(eq_column)[t] == dot(mat.eq_rows()[t], v, w) + mat.eq_consts()[t],
                forall|t: int| 0 <= t < i ==> #[trigger] column_values(eq_column)[t] == 0,
                forall|t: int| 0 <= t < mat.leq_rows().len() ==> #[trigger] dot(mat.leq_rows()[t], v, w) + mat.leq_consts()[t] <= 0,
            decreases column_values(eq_column).len() - i,
        {
            if eq_column.get(i) != 0 {
                proof {
                    assert(dot(mat.eq_rows()[i as int], v, w) + mat.eq_consts()[i as int] != 0);
                }
                return false;
            }
            i = i + 1;
        }
        proof {
            assert forall|t: int| 0 <= t < mat.eq_rows().len() implies #[trigger] dot(mat.eq_rows()[t], v, w) + mat.eq_consts()[t] == 0 by {
                assert(column_values(eq_column)[t] == 0);
            }
        }
        true
    }

    /// The values with the one at position `i` switched between 0 and 1.
    pub fn flipped(&self, i: usize) -> (r: ConfigRepr)
        requires
            i < self.values().len(),
            1 - self.values()[i as int] <= i32::MAX,
        ensures
            r.values() == self.values().update(i as int, (1 - self.values()[i as int]) as i32),
    {
        let mut values = self.values.copy();
        let x: i32 = values.get(i);
        values.set(i, 1 - x);
        ConfigRepr { values }
    }

    /// Each configuration with exactly one value switched between 0 and 1,
    /// in the order of the positions.
    pub fn neighbours(&self) -> (r: Vec<ConfigRepr>)
        requires
            forall|j: int| 0 <= j < self.values().len() ==> 1 - self.values()[j] <= i32::MAX,
        ensures
            r@.len() == self.values().len(),
            forall|i: int|
                0 <= i < r@.len() ==> (#[trigger] r@[i]).values() == self.values().update(i, (1 - self.values()[i]) as i32),
    {
        let mut output: Vec<ConfigRepr> = Vec::new();
        let n: usize = self.values.len();
        let mut i: usize = 0;
        while i < n
            invariant
                n == self.values().len(),
                forall|j: int| 0 <= j < self.values().len() ==> 1 - self.values()[j] <= i32::MAX,
                0 <= i <= n,
                output@.len() == i,
                forall|t: int| 0 <= t < i ==> (#[trigger] output@[t]).values() == self.values().update(t, (1 - self.values()[t]) as i32),
            decreases n - i,
        {
            output.push(self.flipped(i));
            i = i + 1;
        }
        output
    }
}

impl ConfigRepr {
    /// The values, known to satisfy every constraint of `mat`, when they do.
    pub fn into_feasable(self, mat: &MatRepr) -> (r: Option<FeasableConfigRepr>)
        requires
            mat.wf(),
            self.values().len() == mat.width(),
            mat.bounded_at(self.values()),
            forall|j: int| 0 <= j < self.values().len() ==> self.values()[j] == 0 || self.values()[j] == 1,
        ensures
            match r {
                Some(f) => mat.holds_for(self.values()) && f.inner_repr() == self,
                None => !mat.holds_for(self.values()),
            },
    {
        if !self.is_feasable(mat) {
            return None;
        }
        Some(self.into_feasable_unchecked())
    }

    /// The values, taken as satisfying the constraints without a check.
    pub fn into_feasable_unchecked(self) -> (r: FeasableConfigRepr)
        ensures
            r.inner_repr() == self,
    {
        FeasableConfigRepr(self)
    }
}

impl ConfigRepr {
    /// The values with one switched between 0 and 1, the one drawn by
    /// `random_gen` among the positions (taken modulo their number).
    pub fn random_neighbour<T: RandomGen>(&self, random_gen: &mut T) -> (r: ConfigRepr)
        requires
            self.values().len() > 0,
            forall|j: int| 0 <= j < self.values().len() ==> 1 - self.values()[j] <= i32::MAX,
        ensures
            exists|i: int|
                0 <= i < self.values().len() && r.values() == self.values().update(i, (1 - self.values()[i]) as i32),
    {
        let n: usize = self.len();
        let i: usize = random_gen.rand_in_range(0..n) % n;
        self.flipped(i)
    }
}

/// Values of the variables that were found to satisfy the constraints.
pub struct FeasableConfigRepr(ConfigRepr);

impl FeasableConfigRepr {
    /// The values.
    pub closed spec fn inner_repr(self) -> ConfigRepr {
        self.0
    }

    /// The values.
    pub fn into_inner(self) -> (r: ConfigRepr)
        ensures
            r == self.inner_repr(),
    {
        self.0
    }

    /// The values.
    pub fn inner(&self) -> (r: &ConfigRepr)
        ensures
            *r == self.inner_repr(),
    {
        &self.0
    }
}

/// The rows of a matrix whose rows all have its width, as vectors.
fn matrix_to_vecs(m: &Matrix) -> (r: Vec<Vec<i32>>)
    requires
        forall|i: int| 0 <= i < matrix_rows(*m).len() ==> (#[trigger] matrix_rows(*m)[i]).len() == matrix_width(*m),
    ensures
        r@.len() == matrix_rows(*m).len(),
        forall|i: int| 0 <= i < r@.len() ==> (#[trigger] r@[i])@ == matrix_rows(*m)[i],
{
    let n: usize = m.nrows();
    let mut out: Vec<Vec<i32>> = Vec::new();
    let mut i: usize = 0;
    while i < n
        invariant
            n == matrix_rows(*m).len(),
            forall|t: int| 0 <= t < matrix_rows(*m).len() ==> (#[trigger] matrix_rows(*m)[t]).len() == matrix_width(*m),
            0 <= i <= n,
            out@.len() == i,
            forall|t: int| 0 <= t < i ==> (#[trigger] out@[t])@ == matrix_rows(*m)[t],
        decreases n - i,
    {
        let mut row: Vec<i32> = Vec::new();
        let mut j: usize = 0;
        let width: usize = m.ncols();
        while j < width
            invariant
                i < matrix_rows(*m).len(),
                matrix_rows(*m)[i as int].len() == matrix_width(*m),
                width == matrix_width(*m),
                0 <= j <= width,
                row@ == matrix_rows(*m)[i as int].take(j as int),
            decreases width - j,
        {
            row.push(m.get(i, j));
            proof {
                assert(matrix_rows(*m)[i as int].take(j + 1) =~= matrix_rows(*m)[i as int].take(j as int).push(
                    matrix_rows(*m)[i as int][j as int],
                ));
            }
            j = j + 1;
        }
        proof {
            assert(matrix_rows(*m)[i as int].take(width as int) =~= matrix_rows(*m)[i as int]);
        }
        out.push(row);
        i = i + 1;
    }
    out
}

/// The values of a vector, as a `Vec`.
fn column_to_vec(c: &Column) -> (r: Vec<i32>)
    ensures
        r@ == column_values(*c),
{
    let n: usize = c.len();
    let mut out: Vec<i32> = Vec::new();
    let mut i: usize = 0;
    while i < n
        invariant
            n == column_values(*c).len(),
            0 <= i <= n,
            out@ == column_values(*c).take(i as int),
        decreases n - i,
    {
        out.push(c.get(i));
        proof {
            assert(column_values(*c).take(i + 1) =~= column_values(*c).take(i as int).push(column_values(*c)[i as int]));
        }
        i = i + 1;
    }
    proof {
        assert(column_values(*c).take(n as int) =~= column_values(*c));
    }
    out
}

impl MatRepr {
    /// The rows of the inequalities.
    pub fn leq_matrix(&self) -> (r: Vec<Vec<i32>>)
        requires
            self.wf(),
        ensures
            r@.len() == self.leq_rows().len(),
            forall|i: int| 0 <= i < r@.len() ==> (#[trigger] r@[i])@ == self.leq_rows()[i],
    {
        matrix_to_vecs(&self.leq_mat)
    }

    /// The rows of the equalities.
    pub fn eq_matrix(&self) -> (r: Vec<Vec<i32>>)
        requires
            self.wf(),
        ensures
            r@.len() == self.eq_rows().len(),
            forall|i: int| 0 <= i < r@.len() ==> (#[trigger] r@[i])@ == self.eq_rows()[i],
    {
        matrix_to_vecs(&self.eq_mat)
    }

    /// The constants of the inequalities.
    pub fn leq_constant_values(&self) -> (r: Vec<i32>)
        ensures
            r@ == self.leq_consts(),
    {
        column_to_vec(&self.leq_constants)
    }

    /// The constants of the equalities.
    pub fn eq_constant_values(&self) -> (r: Vec<i32>)
        ensures
            r@ == self.eq_consts(),
    {
        column_to_vec(&self.eq_constants)
    }
}

} // verus!
