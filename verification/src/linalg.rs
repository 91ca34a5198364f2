//! Small dense square matrices and vectors of `i32`.

use vstd::prelude::*;

use crate::linexpr::fits_i32;
use crate::text::{digit_count, int_digits, lemma_int_digits_len, push_right_aligned, push_str, right_aligned};

verus! {

/// A square matrix of size `n`, stored row by row.
#[derive(Debug)]
pub struct SqMat {
    n: usize,
    coefs: Vec<i32>,
}

/// A column vector.
#[derive(Debug)]
pub struct Vect {
    coefs: Vec<i32>,
}

/// Sum of the first `m` products of row `i` of `a` by column `j` of `b`.
pub open spec fn row_col_sum(a: SqMat, b: SqMat, i: int, j: int, m: int) -> int
    decreases m,
{
    if m <= 0 {
        0
    } else {
        row_col_sum(a, b, i, j, m - 1) + a.at(i, m - 1) * b.at(m - 1, j)
    }
}

/// Sum of the first `m` products of row `i` of `a` by the vector `v`.
pub open spec fn row_vect_sum(a: SqMat, v: Vect, i: int, m: int) -> int
    decreases m,
{
    if m <= 0 {
        0
    } else {
        row_vect_sum(a, v, i, m - 1) + a.at(i, m - 1) * v.at(m - 1)
    }
}

/// Position of row `i`, column `j` in a row-by-row storage of width `n`.
pub open spec fn cell_index(n: int, i: int, j: int) -> int {
    i * n + j
}

/// The position of row `i`, column `j` lies within a row-by-row storage.
proof fn lemma_index_in_bounds(n: int, i: int, j: int)
    requires
        0 <= i < n,
        0 <= j < n,
    ensures
        0 <= i * n + j < n * n,
{
    assert(0 <= i * n + j < n * n) by (nonlinear_arith)
        requires
            0 <= i < n,
            0 <= j < n,
    ;
}

/// Distinct cells have distinct positions in a row-by-row storage.
proof fn lemma_index_distinct(n: int, p: int, q: int, i: int, j: int)
    requires
        0 <= p < n,
        0 <= q < n,
        0 <= i < n,
        0 <= j < n,
        p != i || q != j,
    ensures
        p * n + q != i * n + j,
{
    if p == i {
    } else if p < i {
        assert(p * n + q < i * n + j) by (nonlinear_arith)
            requires
                0 <= p < i,
                0 <= q < n,
                0 <= j,
        ;
    } else {
        assert(i * n + j < p * n + q) by (nonlinear_arith)
            requires
                0 <= i < p,
                0 <= j < n,
                0 <= q,
        ;
    }
}

impl SqMat {
    /// The storage holds exactly `n * n` coefficients.
    pub closed spec fn wf(self) -> bool {
        &&& self.coefs@.len() == self.n * self.n
        &&& self.n * self.n <= usize::MAX
    }

    /// The size of the matrix.
    pub closed spec fn size(self) -> nat {
        self.n as nat
    }

    /// The coefficient at row `i`, column `j`.
    pub closed spec fn at(self, i: int, j: int) -> i32 {
        self.coefs@[cell_index(self.n as int, i, j)]
    }

    /// Whether `a + b` can be computed in `i32`.
    pub open spec fn can_add(a: SqMat, b: SqMat) -> bool {
        forall|i: int, j: int|
            0 <= i < a.size() && 0 <= j < a.size() ==> fits_i32(a.at(i, j) + b.at(i, j))
    }

    /// Whether `a * b` can be computed in `i32`: every product and every
    /// partial sum of products fits.
    pub open spec fn can_mul(a: SqMat, b: SqMat) -> bool {
        &&& forall|i: int, j: int, k: int|
            0 <= i < a.size() && 0 <= j < a.size() && 0 <= k < a.size() ==> fits_i32(
                a.at(i, k) * b.at(k, j),
            )
        &&& forall|i: int, j: int, m: int|
            0 <= i < a.size() && 0 <= j < a.size() && 0 <= m <= a.size() ==> fits_i32(
                #[trigger] row_col_sum(a, b, i, j, m),
            )
    }

    /// Whether `a * v` can be computed in `i32`.
    pub open spec fn can_mul_vect(a: SqMat, v: Vect) -> bool {
        &&& forall|i: int, k: int|
            0 <= i < a.size() && 0 <= k < a.size() ==> fits_i32(a.at(i, k) * v.at(k))
        &&& forall|i: int, m: int|
            0 <= i < a.size() && 0 <= m <= a.size() ==> fits_i32(#[trigger] row_vect_sum(a, v, i, m))
    }

    /// The zero matrix of size `n`.
    pub fn new(n: usize) -> (r: SqMat)
        requires
            n * n <= usize::MAX,
        ensures
            r.wf(),
            r.size() == n,
            forall|i: int, j: int| 0 <= i < n && 0 <= j < n ==> r.at(i, j) == 0,
    {
        let total = n * n;
        let mut coefs: Vec<i32> = Vec::new();
        let mut k: usize = 0;
        while k < total
            invariant
                0 <= k <= total,
                coefs@.len() == k,
                forall|p: int| 0 <= p < k ==> coefs@[p] == 0,
            decreases total - k,
        {
            coefs.push(0);
            k = k + 1;
        }
        let r = SqMat { n, coefs };
        proof {
            assert forall|i: int, j: int| 0 <= i < n && 0 <= j < n implies r.at(i, j) == 0 by {
                lemma_index_in_bounds(n as int, i, j);
            }
        }
        r
    }

    /// The size of the matrix.
    pub fn get_size(&self) -> (r: usize)
        ensures
            r == self.size(),
    {
        self.n
    }

    /// The coefficient at row `i`, column `j`.
    pub fn get(&self, i: usize, j: usize) -> (r: &i32)
        requires
            self.wf(),
            i < self.size(),
            j < self.size(),
        ensures
            *r == self.at(i as int, j as int),
    {
        proof {
            lemma_index_in_bounds(self.n as int, i as int, j as int);
        }
        &self.coefs[i * self.n + j]
    }

    /// Sets the coefficient at row `i`, column `j`.
    pub fn set(&mut self, i: usize, j: usize, value: i32)
        requires
            old(self).wf(),
            i < old(self).size(),
            j < old(self).size(),
        ensures
            final(self).wf(),
            final(self).size() == old(self).size(),
            final(self).at(i as int, j as int) == value,
            forall|p: int, q: int|
                0 <= p < old(self).size() && 0 <= q < old(self).size() && (p != i || q != j)
                    ==> final(self).at(p, q) == old(self).at(p, q),
    {
        proof {
            lemma_index_in_bounds(self.n as int, i as int, j as int);
        }
        let n = self.n;
        let idx = i * n + j;
        self.coefs.set(idx, value);
        proof {
            assert forall|p: int, q: int|
                0 <= p < n && 0 <= q < n && (p != i || q != j) implies #[trigger] self.at(p, q)
                == old(self).at(p, q) by {
                lemma_index_distinct(n as int, p, q, i as int, j as int);
                lemma_index_in_bounds(n as int, p, q);
            }
        }
    }
}

impl SqMat {
    /// A mutable reference to the coefficient at row `i`, column `j`.
    pub fn get_mut(&mut self, i: usize, j: usize) -> (r: &mut i32)
        requires
            old(self).wf(),
            i < old(self).size(),
            j < old(self).size(),
        ensures
            *r == old(self).at(i as int, j as int),
            final(self).wf(),
            final(self).size() == old(self).size(),
            final(self).at(i as int, j as int) == *final(r),
            forall|p: int, q: int|
                0 <= p < old(self).size() && 0 <= q < old(self).size() && (p != i || q != j)
                    ==> final(self).at(p, q) == old(self).at(p, q),
    {
        proof {
            lemma_index_in_bounds(self.n as int, i as int, j as int);
        }
        let n = self.n;
        proof {
            assert forall|p: int, q: int|
                0 <= p < n && 0 <= q < n && (p != i || q != j) implies #[trigger] cell_index(
                n as int,
                p,
                q,
            ) != cell_index(n as int, i as int, j as int) && 0 <= cell_index(n as int, p, q) < n
                * n by {
                lemma_index_distinct(n as int, p, q, i as int, j as int);
                lemma_index_in_bounds(n as int, p, q);
            }
        }
        &mut self.coefs[i * n + j]
    }

    /// The sum of two matrices of the same size.
    pub fn add(&self, rhs: &SqMat) -> (r: SqMat)
        requires
            self.wf(),
            rhs.wf(),
            self.size() == rhs.size(),
            SqMat::can_add(*self, *rhs),
        ensures
            r.wf(),
            r.size() == self.size(),
            forall|i: int, j: int|
                0 <= i < r.size() && 0 <= j < r.size() ==> r.at(i, j) == self.at(i, j) + rhs.at(
                    i,
                    j,
                ),
    {
        proof {
        }
        let n = self.n;
        let mut output = SqMat::new(n);
        let mut i: usize = 0;
        while i < n
            invariant
                n == self.size(),
                n == rhs.size(),
                SqMat::can_add(*self, *rhs),
                rhs.wf(),
                output.size() == n,
                output.wf(),
                self.wf(),
                0 <= i <= n,
                forall|p: int, q: int|
                    0 <= p < n && 0 <= q < n ==> output.at(p, q) == (if p < i {
                        self.at(p, q) + rhs.at(p, q)
                    } else {
                        0
                    }),
            decreases n - i,
        {
            let mut j: usize = 0;
            while j < n
                invariant
                    n == self.size(),
                    n == rhs.size(),
                    SqMat::can_add(*self, *rhs),
                    rhs.wf(),
                    output.size() == n,
                    output.wf(),
                    self.wf(),
                    0 <= i < n,
                    0 <= j <= n,
                    forall|p: int, q: int|
                        0 <= p < n && 0 <= q < n ==> output.at(p, q) == (if p < i || (p == i && q
                            < j) {
                            self.at(p, q) + rhs.at(p, q)
                        } else {
                            0
                        }),
                decreases n - j,
            {
                let v = *self.get(i, j) + *rhs.get(i, j);
                output.set(i, j, v);
                j = j + 1;
            }
            i = i + 1;
        }
        output
    }

    /// The product of two matrices of the same size.
    pub fn mul(&self, rhs: &SqMat) -> (r: SqMat)
        requires
            self.wf(),
            rhs.wf(),
            self.size() == rhs.size(),
            SqMat::can_mul(*self, *rhs),
        ensures
            r.wf(),
            r.size() == self.size(),
            forall|i: int, j: int|
                0 <= i < r.size() && 0 <= j < r.size() ==> r.at(i, j) == row_col_sum(
                    *self,
                    *rhs,
                    i,
                    j,
                    self.size() as int,
                ),
    {
        proof {
        }
        let n = self.n;
        let mut output = SqMat::new(n);
        let mut i: usize = 0;
        while i < n
            invariant
                n == self.size(),
                n == rhs.size(),
                SqMat::can_mul(*self, *rhs),
                rhs.wf(),
                output.size() == n,
                output.wf(),
                self.wf(),
                0 <= i <= n,
                forall|p: int, q: int|
                    0 <= p < n && 0 <= q < n ==> output.at(p, q) == (if p < i {
                        row_col_sum(*self, *rhs, p, q, n as int)
                    } else {
                        0
                    }),
            decreases n - i,
        {
            let mut j: usize = 0;
            while j < n
                invariant
                    n == self.size(),
                    n == rhs.size(),
                    SqMat::can_mul(*self, *rhs),
                    rhs.wf(),
                    output.size() == n,
                    output.wf(),
                    self.wf(),
                    0 <= i < n,
                    0 <= j <= n,
                    forall|p: int, q: int|
                        0 <= p < n && 0 <= q < n ==> output.at(p, q) == (if p < i || (p == i && q
                            < j) {
                            row_col_sum(*self, *rhs, p, q, n as int)
                        } else {
                            0
                        }),
                decreases n - j,
            {
                let mut acc: i32 = 0;
                let mut k: usize = 0;
                while k < n
                    invariant
                        n == self.size(),
                        n == rhs.size(),
                        SqMat::can_mul(*self, *rhs),
                        self.wf(),
                        rhs.wf(),
                        0 <= i < n,
                        0 <= j < n,
                        0 <= k <= n,
                        acc == row_col_sum(*self, *rhs, i as int, j as int, k as int),
                    decreases n - k,
                {
                    proof {
                        assert(fits_i32(row_col_sum(*self, *rhs, i as int, j as int, k + 1)));
                        assert(fits_i32(self.at(i as int, k as int) * rhs.at(k as int, j as int)));
                    }
                    let prod = *self.get(i, k) * *rhs.get(k, j);
                    acc = acc + prod;
                    k = k + 1;
                }
                output.set(i, j, acc);
                j = j + 1;
            }
            i = i + 1;
        }
        output
    }

    /// The product of the matrix by a vector of the same size.
    pub fn mul_vect(&self, rhs: &Vect) -> (r: Vect)
        requires
            self.wf(),
            self.size() == rhs.len(),
            SqMat::can_mul_vect(*self, *rhs),
        ensures
            r.len() == self.size(),
            forall|i: int| 0 <= i < r.len() ==> r.at(i) == row_vect_sum(*self, *rhs, i, self.size() as int),
    {
        let n = self.n;
        let mut output = Vect::new(n);
        let mut i: usize = 0;
        while i < n
            invariant
                n == self.size(),
                n == rhs.len(),
                SqMat::can_mul_vect(*self, *rhs),
                self.wf(),
                output.len() == n,
                0 <= i <= n,
                forall|p: int|
                    0 <= p < n ==> output.at(p) == (if p < i {
                        row_vect_sum(*self, *rhs, p, n as int)
                    } else {
                        0
                    }),
            decreases n - i,
        {
            let mut acc: i32 = 0;
            let mut k: usize = 0;
            while k < n
                invariant
                    n == self.size(),
                    n == rhs.len(),
                    SqMat::can_mul_vect(*self, *rhs),
                    self.wf(),
                    0 <= i < n,
                    0 <= k <= n,
                    acc == row_vect_sum(*self, *rhs, i as int, k as int),
                decreases n - k,
            {
                proof {
                    assert(fits_i32(row_vect_sum(*self, *rhs, i as int, k + 1)));
                    assert(fits_i32(self.at(i as int, k as int) * rhs.at(k as int)));
                }
                let prod = *self.get(i, k) * *rhs.get(k);
                acc = acc + prod;
                k = k + 1;
            }
            output.set(i, acc);
            i = i + 1;
        }
        output
    }
}

impl Vect {
    /// The number of coefficients.
    pub closed spec fn len(self) -> nat {
        self.coefs@.len()
    }

    /// The coefficient at position `i`.
    pub closed spec fn at(self, i: int) -> i32 {
        self.coefs@[i]
    }

    /// Whether `a + b` can be computed in `i32`.
    pub open spec fn can_add(a: Vect, b: Vect) -> bool {
        forall|i: int| 0 <= i < a.len() ==> fits_i32(a.at(i) + b.at(i))
    }

    /// The zero vector of size `n`.
    pub fn new(n: usize) -> (r: Vect)
        ensures
            r.len() == n,
            forall|i: int| 0 <= i < n ==> r.at(i) == 0,
    {
        let mut coefs: Vec<i32> = Vec::new();
        let mut k: usize = 0;
        while k < n
            invariant
                0 <= k <= n,
                coefs@.len() == k,
                forall|p: int| 0 <= p < k ==> coefs@[p] == 0,
            decreases n - k,
        {
            coefs.push(0);
            k = k + 1;
        }
        Vect { coefs }
    }

    /// The vector with the given coefficients.
    pub fn from_vec(coefs: Vec<i32>) -> (r: Vect)
        ensures
            r.len() == coefs@.len(),
            forall|i: int| 0 <= i < coefs@.len() ==> r.at(i) == coefs@[i],
    {
        Vect { coefs }
    }

    /// The number of coefficients.
    pub fn get_len(&self) -> (r: usize)
        ensures
            r == self.len(),
    {
        self.coefs.len()
    }

    /// The coefficient at position `i`.
    pub fn get(&self, i: usize) -> (r: &i32)
        requires
            i < self.len(),
        ensures
            *r == self.at(i as int),
    {
        &self.coefs[i]
    }

    /// Sets the coefficient at position `i`.
    pub fn set(&mut self, i: usize, value: i32)
        requires
            i < old(self).len(),
        ensures
            final(self).len() == old(self).len(),
            final(self).at(i as int) == value,
            forall|p: int| 0 <= p < old(self).len() && p != i ==> final(self).at(p) == old(self).at(p),
    {
        self.coefs.set(i, value);
    }

    /// A mutable reference to the coefficient at position `i`.
    pub fn get_mut(&mut self, i: usize) -> (r: &mut i32)
        requires
            i < old(self).len(),
        ensures
            *r == old(self).at(i as int),
            final(self).len() == old(self).len(),
            final(self).at(i as int) == *final(r),
            forall|p: int| 0 <= p < old(self).len() && p != i ==> final(self).at(p) == old(self).at(p),
    {
        &mut self.coefs[i]
    }

    /// Whether every coefficient is zero.
    pub fn is_zero(&self) -> (r: bool)
        ensures
            r == (forall|i: int| 0 <= i < self.len() ==> self.at(i) == 0),
    {
        let mut i: usize = 0;
        while i < self.coefs.len()
            invariant
                0 <= i <= self.len(),
                forall|p: int| 0 <= p < i ==> self.at(p) == 0,
            decreases self.len() - i,
        {
            if self.coefs[i] != 0 {
                proof {
                    assert(self.at(i as int) != 0);
                }
                return false;
            }
            i = i + 1;
        }
        true
    }

    /// Whether no coefficient is positive.
    pub fn is_negative(&self) -> (r: bool)
        ensures
            r == (forall|i: int| 0 <= i < self.len() ==> self.at(i) <= 0),
    {
        let mut i: usize = 0;
        while i < self.coefs.len()
            invariant
                0 <= i <= self.len(),
                forall|p: int| 0 <= p < i ==> self.at(p) <= 0,
            decreases self.len() - i,
        {
            if self.coefs[i] > 0 {
                proof {
                    assert(self.at(i as int) > 0);
                }
                return false;
            }
            i = i + 1;
        }
        true
    }

    /// The sum of two vectors of the same size.
    pub fn add(&self, rhs: &Vect) -> (r: Vect)
        requires
            self.len() == rhs.len(),
            Vect::can_add(*self, *rhs),
        ensures
            r.len() == self.len(),
            forall|i: int| 0 <= i < r.len() ==> r.at(i) == self.at(i) + rhs.at(i),
    {
        let n = self.coefs.len();
        let mut output = Vect::new(n);
        let mut i: usize = 0;
        while i < n
            invariant
                n == self.len(),
                n == rhs.len(),
                Vect::can_add(*self, *rhs),
                output.len() == n,
                0 <= i <= n,
                forall|p: int|
                    0 <= p < n ==> output.at(p) == (if p < i {
                        self.at(p) + rhs.at(p)
                    } else {
                        0
                    }),
            decreases n - i,
        {
            proof {
                assert(fits_i32(self.at(i as int) + rhs.at(i as int)));
            }
            let v = self.coefs[i] + rhs.coefs[i];
            output.set(i, v);
            i = i + 1;
        }
        output
    }
}

/// Width of the widest decimal writing among the first `k` numbers of `c`.
pub open spec fn widest(c: Seq<i32>, k: int) -> int
    decreases k,
{
    if k <= 0 {
        0
    } else {
        let w = widest(c, k - 1);
        let d = int_digits(c[k - 1] as int).len() as int;
        if d > w {
            d
        } else {
            w
        }
    }
}

/// A line break after each of `n` lines but the last.
pub open spec fn line_break(i: int, n: int) -> Seq<char> {
    if i != n - 1 {
        seq!['\n']
    } else {
        Seq::empty()
    }
}

/// The first `k` lines of a vector printed with numbers right-aligned to width `w`.
pub open spec fn vect_lines(c: Seq<i32>, w: int, k: int) -> Seq<char>
    decreases k,
{
    if k <= 0 {
        Seq::empty()
    } else {
        vect_lines(c, w, k - 1) + seq!['[', ' '] + right_aligned(int_digits(c[k - 1] as int), w) + seq![
            ' ',
            ']',
        ] + line_break(k - 1, c.len() as int)
    }
}

/// A vector printed one number per line, between brackets, numbers right-aligned.
pub open spec fn vect_text(v: Vect) -> Seq<char> {
    vect_lines(v.values(), widest(v.values(), v.len() as int), v.len() as int)
}

/// Column `j` of a matrix.
pub open spec fn column(m: SqMat, j: int) -> Seq<i32> {
    Seq::new(m.size(), |i: int| m.at(i, j))
}

/// Width of column `j` when printed: one more than its widest number.
pub open spec fn column_width(m: SqMat, j: int) -> int {
    widest(column(m, j), m.size() as int) + 1
}

/// The first `k` numbers of row `i`, each right-aligned to the width of its column.
pub open spec fn row_cells(m: SqMat, i: int, k: int) -> Seq<char>
    decreases k,
{
    if k <= 0 {
        Seq::empty()
    } else {
        row_cells(m, i, k - 1) + right_aligned(int_digits(m.at(i, k - 1) as int), column_width(m, k - 1))
    }
}

/// The first `k` rows of a matrix, each between brackets.
pub open spec fn mat_lines(m: SqMat, k: int) -> Seq<char>
    decreases k,
{
    if k <= 0 {
        Seq::empty()
    } else {
        mat_lines(m, k - 1) + seq!['['] + row_cells(m, k - 1, m.size() as int) + seq![' ', ']'] + line_break(
            k - 1,
            m.size() as int,
        )
    }
}

impl Vect {
    /// The coefficients.
    pub closed spec fn values(self) -> Seq<i32> {
        self.coefs@
    }

    /// The vector printed one number per line, e.g. `[  3 ]` and `[ -12 ]`,
    /// numbers right-aligned to the widest.
    pub fn to_string(&self) -> (r: String)
        ensures
            r@ == vect_text(*self),
    {
        let n: usize = self.coefs.len();
        let mut width: usize = 0;
        let mut i: usize = 0;
        while i < n
            invariant
                n == self.coefs@.len(),
                0 <= i <= n,
                width == widest(self.coefs@, i as int),
            decreases n - i,
        {
            let d: usize = digit_count(self.coefs[i]);
            if d > width {
                width = d;
            }
            i = i + 1;
        }
        let mut s = String::new();
        let mut i: usize = 0;
        while i < n
            invariant
                n == self.coefs@.len(),
                0 <= i <= n,
                width == widest(self.coefs@, n as int),
                s@ == vect_lines(self.coefs@, width as int, i as int),
            decreases n - i,
        {
            proof {
                reveal_strlit("[ ");
                reveal_strlit(" ]");
                reveal_strlit("\n");
            }
            push_str(&mut s, "[ ");
            push_right_aligned(&mut s, self.coefs[i], width);
            push_str(&mut s, " ]");
            if i != n - 1 {
                push_str(&mut s, "\n");
            }
            proof {
                assert(s@ =~= vect_lines(self.coefs@, width as int, i + 1));
            }
            i = i + 1;
        }
        s
    }
}

impl SqMat {
    /// The matrix printed one row per line between brackets, each number
    /// right-aligned to one more than the widest of its column.
    pub fn to_string(&self) -> (r: String)
        requires
            self.wf(),
        ensures
            r@ == mat_lines(*self, self.size() as int),
    {
        let n: usize = self.n;
        let mut widths: Vec<usize> = Vec::new();
        let mut j: usize = 0;
        while j < n
            invariant
                n == self.size(),
                self.wf(),
                0 <= j <= n,
                widths@.len() == j,
                forall|q: int| 0 <= q < j ==> #[trigger] widths@[q] == column_width(*self, q),

            decreases n - j,
        {
            let mut max: usize = 0;
            let mut i: usize = 0;
            while i < n
                invariant
                    n == self.size(),
                    self.wf(),
                    0 <= j < n,
                    0 <= i <= n,
                    max == widest(column(*self, j as int), i as int),
                    max <= 2147483650,
                decreases n - i,
            {
                let d: usize = digit_count(*self.get(i, j));
                proof {
                    lemma_int_digits_len(self.at(i as int, j as int) as int);
                }
                if d > max {
                    max = d;
                }
                i = i + 1;
            }
            widths.push(max + 1);
            j = j + 1;
        }
        let mut s = String::new();
        let mut i: usize = 0;
        while i < n
            invariant
                n == self.size(),
                self.wf(),
                widths@.len() == n,
                forall|q: int| 0 <= q < n ==> #[trigger] widths@[q] == column_width(*self, q),
                0 <= i <= n,
                s@ == mat_lines(*self, i as int),
            decreases n - i,
        {
            let ghost before = s@;
            proof {
                reveal_strlit("[");
                reveal_strlit(" ]");
                reveal_strlit("\n");
            }
            push_str(&mut s, "[");
            let mut j: usize = 0;
            while j < n
                invariant
                    n == self.size(),
                    self.wf(),
                    widths@.len() == n,
                    forall|q: int| 0 <= q < n ==> #[trigger] widths@[q] == column_width(*self, q),
                    0 <= i < n,
                    0 <= j <= n,
                    s@ == before + seq!['['] + row_cells(*self, i as int, j as int),
                decreases n - j,
            {
                push_right_aligned(&mut s, *self.get(i, j), widths[j]);
                proof {
                    assert(s@ =~= before + seq!['['] + row_cells(*self, i as int, j + 1));
                }
                j = j + 1;
            }
            push_str(&mut s, " ]");
            if i != n - 1 {
                push_str(&mut s, "\n");
            }
            proof {
                assert(s@ =~= mat_lines(*self, i + 1));
            }
            i = i + 1;
        }
        s
    }
}

} // verus!
