//! Planning problems over named 0/1 variables: a set of declared variables,
//! linear constraints over them, and assignments of values to the variables.

use vstd::prelude::*;

use crate::solving::RandomGen;
use crate::text::{push_str, string_views};

use crate::linexpr::{nonzero_part, Constraint, Sign};
use crate::ndtools::{abs_dot, abs_sum, constraint_row, dot, lemma_dot_bounds, sign_constants, sign_rows, ConfigRepr, MatRepr};
use crate::order::text_lt;
use crate::terms::{
    entries_map, entries_view, find_position, has_name, lemma_entries_map_all, lemma_position_absent,
    set_entry, sorted_names,
};

verus! {

/// Why a problem or a configuration refuses a variable.
#[derive(Debug, Clone, PartialEq, Eq)]
pub enum Error {
    /// A variable used in the constraint with this index was never declared.
    UndeclaredVariable(usize, String),
    /// A variable that the problem does not know.
    InvalidVariable(String),
}

/// Some variable with a non-zero coefficient is not declared.
pub open spec fn has_undeclared(vars: Set<Seq<char>>, m: Map<Seq<char>, i32>) -> bool {
    exists|k: Seq<char>| #[trigger] m.contains_key(k) && m[k] != 0 && !vars.contains(k)
}

/// `k` is the first undeclared variable, in text order, among those with a
/// non-zero coefficient.
pub open spec fn is_least_undeclared(vars: Set<Seq<char>>, m: Map<Seq<char>, i32>, k: Seq<char>) -> bool {
    &&& m.contains_key(k) && m[k] != 0 && !vars.contains(k)
    &&& forall|l: Seq<char>| #[trigger] m.contains_key(l) && m[l] != 0 && !vars.contains(l) ==> l == k || text_lt(k, l)
}

/// The names of a sorted list of named entries.
pub open spec fn names_of<V>(s: Seq<(Seq<char>, V)>) -> Seq<Seq<char>> {
    s.map_values(|e: (Seq<char>, V)| e.0)
}

/// Collects the constraints and the variables of a problem.
pub struct ProblemBuilder {
    constraints: Vec<Constraint>,
    variables: Vec<(String, ())>,
}

impl ProblemBuilder {
    #[verifier::type_invariant]
    spec fn inv(self) -> bool {
        sorted_names(entries_view(self.variables@))
    }

    /// The constraints, in the order they were added.
    pub closed spec fn constraint_list(self) -> Seq<Constraint> {
        self.constraints@
    }

    /// The declared variables.
    pub closed spec fn variable_set(self) -> Set<Seq<char>> {
        entries_map(entries_view(self.variables@)).dom()
    }

    /// No constraint and no variable.
    pub fn new() -> (r: ProblemBuilder)
        ensures
            r.constraint_list().len() == 0,
            r.variable_set() == Set::<Seq<char>>::empty(),
    {
        let r = ProblemBuilder { constraints: Vec::new(), variables: Vec::new() };
        proof {
            assert(entries_map(entries_view(r.variables@)).dom() =~= Set::<Seq<char>>::empty());
        }
        r
    }

    /// Adds a constraint after the others.
    pub fn add(self, constraint: Constraint) -> (r: ProblemBuilder)
        ensures
            r.constraint_list() == self.constraint_list().push(constraint),
            r.variable_set() == self.variable_set(),
    {
        proof {
            use_type_invariant(&self);
        }
        let ProblemBuilder { mut constraints, variables } = self;
        constraints.push(constraint);
        ProblemBuilder { constraints, variables }
    }

    /// The number of constraints.
    pub fn constraint_count(&self) -> (r: usize)
        ensures
            r == self.constraint_list().len(),
    {
        self.constraints.len()
    }

    /// Declares a variable.
    pub fn add_variable(self, var: &str) -> (r: ProblemBuilder)
        ensures
            r.constraint_list() == self.constraint_list(),
            r.variable_set() == self.variable_set().insert(var@),
    {
        proof {
            use_type_invariant(&self);
        }
        let ProblemBuilder { constraints, mut variables } = self;
        set_entry(&mut variables, &var.to_string(), ());
        proof {
            assert(entries_map(entries_view(variables@)).dom() =~= self.variable_set().insert(var@));
        }
        ProblemBuilder { constraints, variables }
    }

    /// Declares each variable of the list.
    pub fn add_variables(self, vars: Vec<String>) -> (r: ProblemBuilder)
        ensures
            r.constraint_list() == self.constraint_list(),
            r.variable_set() == self.variable_set() + string_views(vars@).to_set(),
    {
        proof {
            use_type_invariant(&self);
        }
        let ghost names = string_views(vars@);
        let ProblemBuilder { constraints, mut variables } = self;
        let mut i: usize = 0;
        while i < vars.len()
            invariant
                names == string_views(vars@),
                0 <= i <= vars@.len(),
                sorted_names(entries_view(variables@)),
                entries_map(entries_view(variables@)).dom() == self.variable_set() + names.take(i as int).to_set(),
            decreases vars@.len() - i,
        {
            set_entry(&mut variables, &vars[i], ());
            proof {
                assert(names.take(i + 1) =~= names.take(i as int).push(names[i as int]));
                names.take(i as int).lemma_push_to_set_commute(names[i as int]);
                assert(entries_map(entries_view(variables@)).dom() =~= self.variable_set() + names.take(i + 1).to_set());
            }
            i = i + 1;
        }
        proof {
            assert(names.take(i as int) =~= names);
        }
        ProblemBuilder { constraints, variables }
    }
}

/// The first constraint, among the first `n`, with an undeclared variable.
pub open spec fn first_undeclared(vars: Set<Seq<char>>, cs: Seq<Constraint>, n: int) -> Option<int>
    decreases n,
{
    if n <= 0 {
        None
    } else {
        match first_undeclared(vars, cs, n - 1) {
            Some(i) => Some(i),
            None => if has_undeclared(vars, cs[n - 1].expr().coefs()) {
                Some(n - 1)
            } else {
                None
            },
        }
    }
}

/// `b` is `a` without its zero coefficients.
pub open spec fn is_cleaned(a: Constraint, b: Constraint) -> bool {
    &&& b.expr().coefs() == nonzero_part(a.expr().coefs())
    &&& b.expr().constant_value() == a.expr().constant_value()
    &&& b.sign() == a.sign()
}

/// A problem: declared variables, constraints over them, and the matrices of
/// the constraints.
pub struct Problem {
    variables: Vec<(String, ())>,
    variables_vec: Vec<String>,
    constraints: Vec<Constraint>,
    mat_repr: MatRepr,
}

impl Problem {
    #[verifier::type_invariant]
    spec fn inv(self) -> bool {
        &&& sorted_names(entries_view(self.variables@))
        &&& string_views(self.variables_vec@) == names_of(entries_view(self.variables@))
        &&& self.mat_repr.wf()
        &&& self.mat_repr.width() == self.variables_vec@.len()
        &&& self.variables_vec@.len() <= isize::MAX
        &&& self.mat_repr.leq_rows() == sign_rows(self.variable_names(), self.constraints@, Sign::LessThan)
        &&& self.mat_repr.leq_consts() == sign_constants(self.constraints@, Sign::LessThan)
        &&& self.mat_repr.eq_rows() == sign_rows(self.variable_names(), self.constraints@, Sign::Equals)
        &&& self.mat_repr.eq_consts() == sign_constants(self.constraints@, Sign::Equals)
    }

    /// The declared variables, in increasing order.
    pub closed spec fn variable_names(self) -> Seq<Seq<char>> {
        names_of(entries_view(self.variables@))
    }

    /// The constraints, in order.
    pub closed spec fn constraint_list(self) -> Seq<Constraint> {
        self.constraints@
    }

    /// The matrices of the constraints.
    pub closed spec fn mat(self) -> MatRepr {
        self.mat_repr
    }

    /// The declared variables, in increasing order.
    pub fn variables(&self) -> (r: &Vec<String>)
        ensures
            string_views(r@) == self.variable_names(),
    {
        proof {
            use_type_invariant(self);
        }
        &self.variables_vec
    }

    /// The constraints, in order.
    pub fn constraints(&self) -> (r: &Vec<Constraint>)
        ensures
            r@ == self.constraint_list(),
    {
        &self.constraints
    }
}

impl ProblemBuilder {
    /// The problem: constraints lose their zero coefficients, and every
    /// variable with a non-zero coefficient must be declared; otherwise the
    /// first such constraint is refused, with its first undeclared variable in
    /// increasing order.
    pub fn build(self) -> (r: Result<Problem, Error>)
        requires
            self.constraint_list().len() * self.variable_set().len() <= isize::MAX,
            self.variable_set().len() <= isize::MAX,
        ensures
            match r {
                Ok(p) => {
                    &&& first_undeclared(self.variable_set(), self.constraint_list(), self.constraint_list().len() as int).is_none()
                    &&& p.variable_names().to_set() == self.variable_set()
                    &&& forall|i: int, j: int| 0 <= i < j < p.variable_names().len() ==> text_lt(#[trigger] p.variable_names()[i], #[trigger] p.variable_names()[j])
                    &&& p.constraint_list().len() == self.constraint_list().len()
                    &&& forall|i: int| 0 <= i < p.constraint_list().len() ==> is_cleaned(self.constraint_list()[i], #[trigger] p.constraint_list()[i])
                },
                Err(e) => {
                    &&& first_undeclared(self.variable_set(), self.constraint_list(), self.constraint_list().len() as int) is Some
                    &&& e matches Error::UndeclaredVariable(i, var)
                    &&& i == first_undeclared(self.variable_set(), self.constraint_list(), self.constraint_list().len() as int)->0
                    &&& is_least_undeclared(self.variable_set(), self.constraint_list()[i as int].expr().coefs(), var@)
                },
            },
    {
        proof {
            use_type_invariant(&self);
        }
        let ghost vars = self.variable_set();
        let ghost cs = self.constraint_list();
        let ProblemBuilder { constraints, variables } = self;
        let mut cleaned: Vec<Constraint> = Vec::new();
        let mut i: usize = 0;
        while i < constraints.len()
            invariant
                cs == constraints@,
                vars == self.variable_set(),
                cs == self.constraint_list(),
                vars == entries_map(entries_view(variables@)).dom(),
                sorted_names(entries_view(variables@)),
                0 <= i <= cs.len(),
                cleaned@.len() == i,
                forall|j: int| 0 <= j < i ==> is_cleaned(cs[j], #[trigger] cleaned@[j]),
                first_undeclared(vars, cs, i as int).is_none(),
            decreases cs.len() - i,
        {
            let c = constraints[i].cleaned();
            let names = c.variables();
            let mut t: usize = 0;
            while t < names.len()
                invariant
                    cs == constraints@,
                    vars == self.variable_set(),
                    cs == self.constraint_list(),
                    vars == entries_map(entries_view(variables@)).dom(),
                    sorted_names(entries_view(variables@)),
                    0 <= i < cs.len(),
                    first_undeclared(vars, cs, i as int).is_none(),
                    is_cleaned(cs[i as int], c),
                    names@.len() == c.expr().terms().len(),
                    forall|a: int, b: int| 0 <= a < b < names@.len() ==> text_lt(#[trigger] names@[a]@, #[trigger] names@[b]@),
                    forall|k: Seq<char>| c.expr().coefs().contains_key(k) <==> exists|u: int| 0 <= u < names@.len() && #[trigger] names@[u]@ == k,
                    0 <= t <= names@.len(),
                    forall|u: int| 0 <= u < t ==> vars.contains(#[trigger] names@[u]@),
                decreases names@.len() - t,
            {
                proof {
                    lemma_entries_map_all(entries_view(variables@));
                }
                if crate::terms::get_entry(&variables, names[t].as_str()).is_none() {
                    let ghost k = names@[t as int]@;
                    let name = names[t].clone();
                    proof {
                        assert(name@ == k);
                        assert(c.expr().coefs().contains_key(k));
                        assert(has_undeclared(vars, cs[i as int].expr().coefs()));
                        assert forall|l: Seq<char>| #[trigger] cs[i as int].expr().coefs().contains_key(l) && cs[i as int].expr().coefs()[l] != 0 && !vars.contains(l) implies l == k || text_lt(k, l) by {
                            assert(c.expr().coefs().contains_key(l));
                            let u = choose|u: int| 0 <= u < names@.len() && #[trigger] names@[u]@ == l;
                            if u < t {
                                assert(vars.contains(names@[u]@));
                            } else if u > t {
                                assert(text_lt(names@[t as int]@, names@[u]@));
                            }
                        }
                        assert(first_undeclared(vars, cs, i + 1) == Some(i as int));
                        lemma_first_undeclared_stays(vars, cs, i + 1, cs.len() as int);
                        assert(is_least_undeclared(vars, cs[i as int].expr().coefs(), k));
                    }
                    return Err(Error::UndeclaredVariable(i, name));
                }
                t = t + 1;
            }
            proof {
                assert(!has_undeclared(vars, cs[i as int].expr().coefs())) by {
                    if has_undeclared(vars, cs[i as int].expr().coefs()) {
                        let k = choose|k: Seq<char>| #[trigger] cs[i as int].expr().coefs().contains_key(k) && cs[i as int].expr().coefs()[k] != 0 && !vars.contains(k);
                        assert(c.expr().coefs().contains_key(k));
                        let u = choose|u: int| 0 <= u < names@.len() && #[trigger] names@[u]@ == k;
                        assert(vars.contains(names@[u]@));
                    }
                }
            }
            cleaned.push(c);
            i = i + 1;
        }
        let mut variables_vec: Vec<String> = Vec::new();
        let mut j: usize = 0;
        while j < variables.len()
            invariant
                0 <= j <= variables@.len(),
                variables_vec@.len() == j,
                string_views(variables_vec@) == names_of(entries_view(variables@)).take(j as int),
            decreases variables@.len() - j,
        {
            let ghost before = variables_vec@;
            let name = variables[j].0.clone();
            variables_vec.push(name);
            proof {
                assert(name@ == names_of(entries_view(variables@))[j as int]);
                assert(variables_vec@ == before.push(name));
                assert forall|u: int| 0 <= u < j + 1 implies #[trigger] string_views(variables_vec@)[u] == names_of(entries_view(variables@)).take(j + 1)[u] by {
                    if u < j {
                        assert(variables_vec@[u] == before[u]);
                        assert(string_views(before)[u] == names_of(entries_view(variables@)).take(j as int)[u]);
                    }
                }
                assert(string_views(variables_vec@) =~= names_of(entries_view(variables@)).take(j + 1));
            }
            j = j + 1;
        }
        proof {
            assert(names_of(entries_view(variables@)).take(j as int) =~= names_of(entries_view(variables@)));
            lemma_names_set(entries_view(variables@));
            assert(cleaned@.len() * variables_vec@.len() <= isize::MAX);
        }
        let mat_repr = MatRepr::new(&variables_vec, &cleaned);
        Ok(Problem { variables, variables_vec, constraints: cleaned, mat_repr })
    }
}

/// Once a constraint with an undeclared variable is found, it stays the first.
proof fn lemma_first_undeclared_stays(vars: Set<Seq<char>>, cs: Seq<Constraint>, n: int, m: int)
    requires
        n <= m,
        first_undeclared(vars, cs, n).is_some(),
    ensures
        first_undeclared(vars, cs, m) == first_undeclared(vars, cs, n),
    decreases m - n,
{
    if n < m {
        lemma_first_undeclared_stays(vars, cs, n, m - 1);
    }
}

/// The names of sorted entries are the keys of their map, and there are as
/// many as entries.
proof fn lemma_names_set<V>(s: Seq<(Seq<char>, V)>)
    requires
        sorted_names(s),
    ensures
        names_of(s).to_set() == entries_map(s).dom(),
        entries_map(s).dom().len() == s.len(),
{
    lemma_entries_map_all(s);
    assert forall|k: Seq<char>| names_of(s).to_set().contains(k) <==> entries_map(s).dom().contains(k) by {
        if names_of(s).to_set().contains(k) {
            let i = choose|i: int| 0 <= i < names_of(s).len() && names_of(s)[i] == k;
            assert(s[i].0 == k);
        }
        if entries_map(s).dom().contains(k) {
            assert(has_name(s, k));
            let i = choose|i: int| 0 <= i < s.len() && #[trigger] s[i].0 == k;
            assert(names_of(s)[i] == k);
        }
    }
    assert(names_of(s).to_set() =~= entries_map(s).dom());
    assert forall|i: int, j: int| 0 <= i < j < names_of(s).len() implies names_of(s)[i] != names_of(s)[j] by {
        crate::order::lemma_text_order(s[i].0, s[j].0, s[j].0);
    }
    names_of(s).unique_seq_to_set();
}

/// When every constraint is bounded, so is every row of the constraints of a
/// sign, with its constant; and there are as many rows as constants.
proof fn lemma_sign_rows_bounded(vars: Seq<Seq<char>>, cs: Seq<Constraint>, sign: Sign)
    requires
        forall|k: int| 0 <= k < cs.len() ==> constraint_bounded(vars, #[trigger] cs[k]),
    ensures
        sign_rows(vars, cs, sign).len() == sign_constants(cs, sign).len(),
        forall|i: int|
            0 <= i < sign_rows(vars, cs, sign).len() ==> #[trigger] abs_sum(sign_rows(vars, cs, sign)[i], vars.len() as int)
                + abs_i32(sign_constants(cs, sign)[i]) <= i32::MAX,
    decreases cs.len(),
{
    if cs.len() > 0 {
        let prev = cs.drop_last();
        assert forall|k: int| 0 <= k < prev.len() implies constraint_bounded(vars, #[trigger] prev[k]) by {
            assert(prev[k] == cs[k]);
        }
        lemma_sign_rows_bounded(vars, prev, sign);
        assert(constraint_bounded(vars, cs[cs.len() - 1]));
        let prows = sign_rows(vars, prev, sign);
        let pconsts = sign_constants(prev, sign);
        if cs.last().sign() == sign {
            assert forall|i: int| 0 <= i < prows.len() + 1 implies #[trigger] abs_sum(prows.push(constraint_row(vars, cs.last()))[i], vars.len() as int)
                + abs_i32(pconsts.push(cs.last().expr().constant_value())[i]) <= i32::MAX by {
                if i < prows.len() {
                    assert(prows.push(constraint_row(vars, cs.last()))[i] == prows[i]);
                    assert(pconsts.push(cs.last().expr().constant_value())[i] == pconsts[i]);
                }
            }
        }
    }
}

/// On the values, the row of each constraint of a sign has absolute
/// products adding up, with its constant, to at most `i32::MAX`.
proof fn lemma_sign_rows_bounded_at(vars: Seq<Seq<char>>, cs: Seq<Constraint>, sign: Sign, v: Seq<i32>)
    requires
        forall|k: int| 0 <= k < cs.len() ==> constraint_bounded_at(vars, #[trigger] cs[k], v),
    ensures
        sign_rows(vars, cs, sign).len() == sign_constants(cs, sign).len(),
        forall|i: int|
            0 <= i < sign_rows(vars, cs, sign).len() ==> #[trigger] abs_dot(sign_rows(vars, cs, sign)[i], v, vars.len() as int)
                + abs_i32(sign_constants(cs, sign)[i]) <= i32::MAX,
    decreases cs.len(),
{
    if cs.len() > 0 {
        let prev = cs.drop_last();
        assert forall|k: int| 0 <= k < prev.len() implies constraint_bounded_at(vars, #[trigger] prev[k], v) by {
            assert(prev[k] == cs[k]);
        }
        lemma_sign_rows_bounded_at(vars, prev, sign, v);
        assert(constraint_bounded_at(vars, cs[cs.len() - 1], v));
        let prows = sign_rows(vars, prev, sign);
        let pconsts = sign_constants(prev, sign);
        if cs.last().sign() == sign {
            assert forall|i: int| 0 <= i < prows.len() + 1 implies #[trigger] abs_dot(prows.push(constraint_row(vars, cs.last()))[i], v, vars.len() as int)
                + abs_i32(pconsts.push(cs.last().expr().constant_value())[i]) <= i32::MAX by {
                if i < prows.len() {
                    assert(prows.push(constraint_row(vars, cs.last()))[i] == prows[i]);
                    assert(pconsts.push(cs.last().expr().constant_value())[i] == pconsts[i]);
                }
            }
        }
    }
}

/// On the values, the row of a constraint has absolute products adding up,
/// with its constant, to at most `i32::MAX`.
pub open spec fn constraint_bounded_at(vars: Seq<Seq<char>>, c: Constraint, values: Seq<i32>) -> bool {
    abs_dot(constraint_row(vars, c), values, vars.len() as int) + abs_i32(c.expr().constant_value()) <= i32::MAX
}

/// Absolute value.
pub open spec fn abs_i32(x: i32) -> int {
    if x >= 0 {
        x as int
    } else {
        -x
    }
}

/// The row of a constraint, with its constant, has absolute values adding up
/// to at most `i32::MAX`.
pub open spec fn constraint_bounded(vars: Seq<Seq<char>>, c: Constraint) -> bool {
    abs_sum(constraint_row(vars, c), vars.len() as int) + abs_i32(c.expr().constant_value()) <= i32::MAX
}

/// Whether the coefficients of a constraint on the given variables, with its
/// constant, have absolute values adding up to at most `i32::MAX`.
fn constraint_fits(vars: &Vec<String>, c: &Constraint) -> (r: bool)
    ensures
        r == constraint_bounded(string_views(vars@), *c),
{
    let ghost vs = string_views(vars@);
    let ghost row = constraint_row(vs, *c);
    let cst: i32 = c.get_constant();
    let mut acc: u64 = if cst >= 0 {
        cst as u64
    } else {
        (-(cst as i64)) as u64
    };
    proof {
        lemma_abs_sum_monotone(row, 0, vs.len() as int);
    }
    if acc > 2147483647 {
        return false;
    }
    let mut j: usize = 0;
    while j < vars.len()
        invariant
            vs == string_views(vars@),
            row == constraint_row(vs, *c),
            0 <= j <= vars@.len(),
            acc == abs_sum(row, j as int) + abs_i32(c.expr().constant_value()),
            acc <= i32::MAX,
        decreases vars@.len() - j,
    {
        let v: i32 = match c.get_var(vars[j].as_str()) {
            Some(x) => x,
            None => 0,
        };
        proof {
            assert(row[j as int] == v);
        }
        let a: u64 = if v >= 0 {
            v as u64
        } else {
            (-(v as i64)) as u64
        };
        acc = acc + a;
        if acc > 2147483647 {
            proof {
                lemma_abs_sum_monotone(row, j + 1, vs.len() as int);
            }
            return false;
        }
        j = j + 1;
    }
    true
}

/// Adding values never decreases a sum of absolute values.
proof fn lemma_abs_sum_monotone(a: Seq<i32>, n: int, m: int)
    requires
        n <= m,
    ensures
        abs_sum(a, n) <= abs_sum(a, m),
    decreases m - n,
{
    if n < m {
        lemma_abs_sum_monotone(a, n, m - 1);
    }
}

impl Problem {
    /// Every constraint, with its constant, has absolute values adding up to
    /// at most `i32::MAX`.
    pub closed spec fn coefficients_bounded(self) -> bool {
        forall|k: int| 0 <= k < self.constraints@.len() ==> constraint_bounded(self.variable_names(), #[trigger] self.constraints@[k])
    }

    /// On the values, every constraint has absolute products adding up,
    /// with its constant, to at most `i32::MAX`: evaluating the constraints
    /// on them stays within `i32`.
    pub closed spec fn bounded_for(self, values: Seq<bool>) -> bool {
        forall|k: int|
            0 <= k < self.constraints@.len() ==> constraint_bounded_at(
                self.variable_names(),
                #[trigger] self.constraints@[k],
                as_ints(values),
            )
    }

    /// A problem with bounded coefficients is bounded on every assignment.
    pub proof fn lemma_bounded_for(self, values: Seq<bool>)
        requires
            self.coefficients_bounded(),
            values.len() == self.variable_names().len(),
        ensures
            self.bounded_for(values),
    {
        let vs = self.variable_names();
        let v = as_ints(values);
        assert forall|k: int| 0 <= k < self.constraints@.len() implies constraint_bounded_at(vs, #[trigger] self.constraints@[k], v) by {
            let c = self.constraints@[k];
            assert(constraint_bounded(vs, c));
            lemma_dot_bounds(constraint_row(vs, c), v, vs.len() as int);
        }
    }

    /// Whether every constraint, with its constant, has absolute values
    /// adding up to at most `i32::MAX`, so that evaluating it on 0/1 values
    /// stays within `i32`.
    pub fn coefficients_fit(&self) -> (r: bool)
        ensures
            r == self.coefficients_bounded(),
    {
        proof {
            use_type_invariant(self);
        }
        let ghost vs = self.variable_names();
        let ghost cs = self.constraints@;
        let mut i: usize = 0;
        while i < self.constraints.len()
            invariant
                vs == self.variable_names(),
                cs == self.constraints@,
                string_views(self.variables_vec@) == vs,
                0 <= i <= cs.len(),
                forall|k: int| 0 <= k < i ==> constraint_bounded(vs, #[trigger] cs[k]),
            decreases cs.len() - i,
        {
            if !constraint_fits(&self.variables_vec, &self.constraints[i]) {
                return false;
            }
            i = i + 1;
        }
        true
    }
}

/// A row and its constant satisfy a sign on the given values: the sum of the
/// products over the first `n` positions, plus the constant, is at most 0 for
/// an inequality and exactly 0 for an equality.
pub open spec fn row_satisfied(sign: Sign, row: Seq<i32>, constant: i32, values: Seq<i32>, n: int) -> bool {
    match sign {
        Sign::LessThan => dot(row, values, n) + constant <= 0,
        Sign::Equals => dot(row, values, n) + constant == 0,
    }
}

/// A constraint holds on values given in the order of the variables.
pub open spec fn constraint_satisfied(vars: Seq<Seq<char>>, c: Constraint, values: Seq<i32>) -> bool {
    row_satisfied(c.sign(), constraint_row(vars, c), c.expr().constant_value(), values, vars.len() as int)
}

/// 1 for true, 0 for false.
pub open spec fn as_ints(values: Seq<bool>) -> Seq<i32> {
    values.map_values(|b: bool| if b { 1i32 } else { 0i32 })
}

/// The rows of a sign all hold exactly when every constraint of that sign
/// holds.
proof fn lemma_sign_rows_hold(vars: Seq<Seq<char>>, cs: Seq<Constraint>, sign: Sign, values: Seq<i32>)
    ensures
        sign_rows(vars, cs, sign).len() == sign_constants(cs, sign).len(),
        (forall|i: int|
            0 <= i < sign_rows(vars, cs, sign).len() ==> row_satisfied(
                sign,
                #[trigger] sign_rows(vars, cs, sign)[i],
                sign_constants(cs, sign)[i],
                values,
                vars.len() as int,
            )) <==> (forall|k: int| 0 <= k < cs.len() && #[trigger] cs[k].sign() == sign ==> constraint_satisfied(vars, cs[k], values)),
    decreases cs.len(),
{
    if cs.len() > 0 {
        let prev = cs.drop_last();
        lemma_sign_rows_hold(vars, prev, sign, values);
        let prows = sign_rows(vars, prev, sign);
        let pconsts = sign_constants(prev, sign);
        let rows = sign_rows(vars, cs, sign);
        let consts = sign_constants(cs, sign);
        let n = vars.len() as int;
        let last = cs[cs.len() - 1];
        assert(last == cs.last());
        let rows_ok = forall|i: int| 0 <= i < rows.len() ==> row_satisfied(sign, #[trigger] rows[i], consts[i], values, n);
        let prows_ok = forall|i: int| 0 <= i < prows.len() ==> row_satisfied(sign, #[trigger] prows[i], pconsts[i], values, n);
        let cs_ok = forall|k: int| 0 <= k < cs.len() && #[trigger] cs[k].sign() == sign ==> constraint_satisfied(vars, cs[k], values);
        let prev_ok = forall|k: int| 0 <= k < prev.len() && #[trigger] prev[k].sign() == sign ==> constraint_satisfied(vars, prev[k], values);
        assert(cs_ok <==> prev_ok && (last.sign() == sign ==> constraint_satisfied(vars, last, values))) by {
            if cs_ok {
                assert forall|k: int| 0 <= k < prev.len() && #[trigger] prev[k].sign() == sign implies constraint_satisfied(vars, prev[k], values) by {
                    assert(prev[k] == cs[k]);
                }
            }
            if prev_ok && (last.sign() == sign ==> constraint_satisfied(vars, last, values)) {
                assert forall|k: int| 0 <= k < cs.len() && #[trigger] cs[k].sign() == sign implies constraint_satisfied(vars, cs[k], values) by {
                    if k < prev.len() {
                        assert(prev[k] == cs[k]);
                    }
                }
            }
        }
        if last.sign() == sign {
            assert(rows == prows.push(constraint_row(vars, last)));
            assert(consts == pconsts.push(last.expr().constant_value()));
            assert(rows_ok <==> prows_ok && row_satisfied(sign, constraint_row(vars, last), last.expr().constant_value(), values, n)) by {
                if rows_ok {
                    assert forall|i: int| 0 <= i < prows.len() implies row_satisfied(sign, #[trigger] prows[i], pconsts[i], values, n) by {
                        assert(rows[i] == prows[i]);
                        assert(consts[i] == pconsts[i]);
                    }
                    assert(rows[prows.len() as int] == constraint_row(vars, last));
                }
                if prows_ok && row_satisfied(sign, constraint_row(vars, last), last.expr().constant_value(), values, n) {
                    assert forall|i: int| 0 <= i < rows.len() implies row_satisfied(sign, #[trigger] rows[i], consts[i], values, n) by {
                        if i < prows.len() {
                            assert(rows[i] == prows[i]);
                            assert(consts[i] == pconsts[i]);
                        }
                    }
                }
            }
        }
    }
}

impl Problem {
    /// Every constraint holds on the given values of the variables, in their
    /// increasing order.
    pub open spec fn is_satisfied_by(self, values: Seq<bool>) -> bool {
        forall|k: int|
            0 <= k < self.constraint_list().len() ==> constraint_satisfied(
                self.variable_names(),
                #[trigger] self.constraint_list()[k],
                as_ints(values),
            )
    }

    /// All variables false.
    pub fn default_config<'a>(&'a self) -> (r: Config<'a>)
        ensures
            r.problem() == *self,
            r.values() == Seq::new(self.variable_names().len(), |_i: int| false),
    {
        proof {
            use_type_invariant(self);
        }
        let repr = ConfigRepr::zeros(self.variables_vec.len());
        let r = Config { problem: self, repr };
        proof {
            assert(r.values() =~= Seq::new(self.variable_names().len(), |_i: int| false));
        }
        r
    }

    /// The configuration where exactly the listed variables are true; the
    /// first listed variable that the problem does not declare is refused.
    pub fn config_from<'a>(&'a self, vars: Vec<String>) -> (r: Result<Config<'a>, Error>)
        ensures
            match r {
                Ok(c) => {
                    &&& forall|k: int| 0 <= k < vars@.len() ==> self.variable_names().contains(#[trigger] vars@[k]@)
                    &&& c.problem() == *self
                    &&& c.values().len() == self.variable_names().len()
                    &&& forall|i: int|
                        0 <= i < self.variable_names().len() ==> #[trigger] c.values()[i] == string_views(vars@).contains(
                            self.variable_names()[i],
                        )
                },
                Err(e) => exists|k: int|
                    {
                        &&& 0 <= k < vars@.len()
                        &&& !self.variable_names().contains(#[trigger] vars@[k]@)
                        &&& forall|j: int| 0 <= j < k ==> self.variable_names().contains(#[trigger] vars@[j]@)
                        &&& e matches Error::InvalidVariable(name) && name@ == vars@[k]@
                    },
            },
    {
        let ghost names = self.variable_names();
        let mut config = self.default_config();
        let mut t: usize = 0;
        while t < vars.len()
            invariant
                names == self.variable_names(),
                config.problem() == *self,
                config.values().len() == names.len(),
                0 <= t <= vars@.len(),
                forall|k: int| 0 <= k < t ==> names.contains(#[trigger] vars@[k]@),
                forall|i: int| 0 <= i < names.len() ==> #[trigger] config.values()[i] == string_views(vars@).take(t as int).contains(names[i]),
            decreases vars@.len() - t,
        {
            let ghost before = config.values();
            match config.set(vars[t].as_str(), true) {
                Ok(()) => {},
                Err(e) => {
                    return Err(e);
                },
            }
            proof {
                assert(string_views(vars@).take(t + 1) =~= string_views(vars@).take(t as int).push(vars@[t as int]@));
                assert forall|i: int| 0 <= i < names.len() implies #[trigger] config.values()[i] == string_views(vars@).take(t + 1).contains(names[i]) by {
                    assert(before[i] == string_views(vars@).take(t as int).contains(names[i]));
                    if names[i] == vars@[t as int]@ {
                        assert(string_views(vars@).take(t + 1)[t as int] == names[i]);
                    } else {
                        if string_views(vars@).take(t + 1).contains(names[i]) {
                            let u = choose|u: int| 0 <= u < t + 1 && #[trigger] string_views(vars@).take(t + 1)[u] == names[i];
                            assert(string_views(vars@).take(t as int)[u] == names[i]);
                        }
                    }
                }
            }
            t = t + 1;
        }
        proof {
            assert(string_views(vars@).take(t as int) =~= string_views(vars@));
        }
        Ok(config)
    }
}

/// The names of sorted entries are all different.
proof fn lemma_names_distinct<V>(s: Seq<(Seq<char>, V)>)
    requires
        sorted_names(s),
    ensures
        forall|i: int, j: int| 0 <= i < names_of(s).len() && 0 <= j < names_of(s).len() && i != j ==> #[trigger] names_of(s)[i] != #[trigger] names_of(s)[j],
{
    assert forall|i: int, j: int| 0 <= i < names_of(s).len() && 0 <= j < names_of(s).len() && i != j implies #[trigger] names_of(s)[i] != #[trigger] names_of(s)[j] by {
        crate::order::lemma_text_order(s[i].0, s[j].0, s[j].0);
    }
}

/// A value for each variable of a problem.
pub struct Config<'a> {
    problem: &'a Problem,
    repr: ConfigRepr,
}

impl<'a> Config<'a> {
    #[verifier::type_invariant]
    spec fn inv(self) -> bool {
        &&& self.repr.values().len() == self.problem.variable_names().len()
        &&& forall|j: int| 0 <= j < self.repr.values().len() ==> #[trigger] self.repr.values()[j] == 0 || self.repr.values()[j] == 1
    }

    /// The problem the configuration belongs to.
    pub closed spec fn problem(self) -> Problem {
        *self.problem
    }

    /// The values of the variables, in their increasing order.
    pub closed spec fn values(self) -> Seq<bool> {
        Seq::new(self.repr.values().len(), |i: int| self.repr.values()[i] == 1)
    }

    /// The problem the configuration belongs to; its variables are
    /// distinct, one value each.
    pub fn get_problem(&self) -> (r: &'a Problem)
        ensures
            *r == self.problem(),
            self.values().len() == r.variable_names().len(),
            forall|i: int, j: int|
                0 <= i < r.variable_names().len() && 0 <= j < r.variable_names().len() && i != j
                    ==> #[trigger] r.variable_names()[i] != #[trigger] r.variable_names()[j],
    {
        proof {
            use_type_invariant(self);
            use_type_invariant(self.problem);
            lemma_names_distinct(entries_view(self.problem.variables@));
        }
        self.problem
    }

    /// Where a variable stands among the variables of the problem.
    fn lookup(&self, var: &str) -> (r: Option<usize>)
        ensures
            match r {
                Some(i) => i < self.problem().variable_names().len() && self.problem().variable_names()[i as int] == var@,
                None => !self.problem().variable_names().contains(var@),
            },
            forall|i: int, j: int|
                0 <= i < self.problem().variable_names().len() && 0 <= j < self.problem().variable_names().len() && i != j
                    ==> #[trigger] self.problem().variable_names()[i] != #[trigger] self.problem().variable_names()[j],
    {
        proof {
            use_type_invariant(self.problem);
            lemma_names_distinct(entries_view(self.problem.variables@));
        }
        let (pos, found) = find_position(&self.problem.variables, var);
        if found {
            Some(pos)
        } else {
            proof {
                lemma_position_absent(entries_view(self.problem.variables@), var@, pos as int);
                if self.problem().variable_names().contains(var@) {
                    let i = choose|i: int| 0 <= i < self.problem().variable_names().len() && self.problem().variable_names()[i] == var@;
                    assert(entries_view(self.problem.variables@)[i].0 == var@);
                    assert(has_name(entries_view(self.problem.variables@), var@));
                }
            }
            None
        }
    }

    /// The value of a variable, or an error for a variable that the problem
    /// does not declare.
    pub fn get(&self, var: &str) -> (r: Result<bool, Error>)
        ensures
            match r {
                Ok(b) => {
                    &&& self.problem().variable_names().contains(var@)
                    &&& forall|i: int| 0 <= i < self.problem().variable_names().len() && self.problem().variable_names()[i] == var@ ==> b == #[trigger] self.values()[i]
                },
                Err(e) => {
                    &&& !self.problem().variable_names().contains(var@)
                    &&& e matches Error::InvalidVariable(name) && name@ == var@
                },
            },
    {
        proof {
            use_type_invariant(self);
        }
        match self.lookup(var) {
            Some(i) => Ok(self.repr.get_unchecked(i) == 1),
            None => Err(Error::InvalidVariable(var.to_string())),
        }
    }

    /// Sets the value of a variable; a variable that the problem does not
    /// declare is refused and nothing changes.
    pub fn set(&mut self, var: &str, val: bool) -> (r: Result<(), Error>)
        ensures
            final(self).problem() == old(self).problem(),
            final(self).values().len() == old(self).values().len(),
            match r {
                Ok(()) => {
                    &&& old(self).problem().variable_names().contains(var@)
                    &&& forall|i: int|
                        0 <= i < old(self).values().len() ==> #[trigger] final(self).values()[i] == if old(self).problem().variable_names()[i] == var@ {
                            val
                        } else {
                            old(self).values()[i]
                        }
                },
                Err(e) => {
                    &&& !old(self).problem().variable_names().contains(var@)
                    &&& e matches Error::InvalidVariable(name) && name@ == var@
                    &&& final(self).values() == old(self).values()
                },
            },
    {
        proof {
            use_type_invariant(&*self);
        }
        match self.lookup(var) {
            Some(i) => {
                let ghost before = self.repr.values();
                self.repr.set_unchecked(i, if val { 1 } else { 0 });
                proof {
                    assert forall|j: int| 0 <= j < self.repr.values().len() implies #[trigger] self.repr.values()[j] == 0 || self.repr.values()[j] == 1 by {
                        if j != i {
                            assert(self.repr.values()[j] == before[j]);
                        }
                    }
                }
                Ok(())
            },
            None => Err(Error::InvalidVariable(var.to_string())),
        }
    }

    /// Each configuration with exactly one variable switched, in the order
    /// of the variables.
    pub fn neighbours(&self) -> (r: Vec<Config<'a>>)
        ensures
            r@.len() == self.values().len(),
            forall|i: int|
                0 <= i < r@.len() ==> (#[trigger] r@[i]).problem() == self.problem() && r@[i].values() == self.values().update(
                    i,
                    !self.values()[i],
                ),
    {
        proof {
            use_type_invariant(self);
        }
        let reprs = self.repr.neighbours();
        let mut output: Vec<Config<'a>> = Vec::new();
        let mut t: usize = 0;
        let n: usize = reprs.len();
        let mut rest = reprs;
        let ghost all = rest@;
        let mut firsts: Vec<ConfigRepr> = Vec::new();
        while t < n
            invariant
                n == all.len(),
                all.len() == self.repr.values().len(),
                self.repr.values().len() == self.problem.variable_names().len(),
                forall|j: int| 0 <= j < self.repr.values().len() ==> #[trigger] self.repr.values()[j] == 0 || self.repr.values()[j] == 1,
                forall|u: int|
                    0 <= u < all.len() ==> (#[trigger] all[u]).values() == self.repr.values().update(u, (1 - self.repr.values()[u]) as i32),
                0 <= t <= n,
                rest@ == all.skip(t as int),
                output@.len() == t,
                forall|u: int|
                    0 <= u < t ==> (#[trigger] output@[u]).problem() == self.problem() && output@[u].values() == self.values().update(
                        u,
                        !self.values()[u],
                    ),
            decreases n - t,
        {
            let ghost rest_before = rest@;
            let repr = rest.remove(0);
            proof {
                assert(repr == all[t as int]);
                assert(rest@ =~= all.skip(t + 1));
                assert forall|j: int| 0 <= j < repr.values().len() implies #[trigger] repr.values()[j] == 0 || repr.values()[j] == 1 by {
                    if j != t {
                        assert(repr.values()[j] == self.repr.values()[j]);
                    }
                }
            }
            let c = Config { problem: self.problem, repr };
            proof {
                assert(c.values() =~= self.values().update(t as int, !self.values()[t as int]));
            }
            output.push(c);
            t = t + 1;
        }
        output
    }

    /// Whether every constraint of the problem holds; the constraints must
    /// fit the `i32` range on 0/1 values (see `Problem::coefficients_fit`).
    pub fn is_feasable(&self) -> (r: bool)
        requires
            self.problem().bounded_for(self.values()),
        ensures
            r == self.problem().is_satisfied_by(self.values()),
    {
        proof {
            use_type_invariant(self);
            use_type_invariant(self.problem);
        }
        let ghost vs = self.problem.variable_names();
        let ghost cs = self.problem.constraints@;
        let ghost v = self.repr.values();
        proof {
            assert(as_ints(self.values()) =~= v);
            lemma_sign_rows_bounded_at(vs, cs, Sign::LessThan, v);
            lemma_sign_rows_bounded_at(vs, cs, Sign::Equals, v);
            lemma_sign_rows_hold(vs, cs, Sign::LessThan, v);
            lemma_sign_rows_hold(vs, cs, Sign::Equals, v);
            assert(as_ints(self.values()) =~= v);
            assert(vs.len() == self.problem.mat_repr.width());
        }
        let r = self.repr.is_feasable(&self.problem.mat_repr);
        proof {
            let m = self.problem.mat_repr;
            assert(m.holds_for(v) <==> (forall|k: int| 0 <= k < cs.len() && #[trigger] cs[k].sign() == Sign::LessThan ==> constraint_satisfied(vs, cs[k], v))
                && (forall|k: int| 0 <= k < cs.len() && #[trigger] cs[k].sign() == Sign::Equals ==> constraint_satisfied(vs, cs[k], v))) by {
                assert((forall|i: int| 0 <= i < m.leq_rows().len() ==> #[trigger] dot(m.leq_rows()[i], v, m.width() as int) + m.leq_consts()[i] <= 0)
                    <==> (forall|i: int| 0 <= i < m.leq_rows().len() ==> row_satisfied(Sign::LessThan, #[trigger] m.leq_rows()[i], m.leq_consts()[i], v, vs.len() as int)));
                assert((forall|i: int| 0 <= i < m.eq_rows().len() ==> #[trigger] dot(m.eq_rows()[i], v, m.width() as int) + m.eq_consts()[i] == 0)
                    <==> (forall|i: int| 0 <= i < m.eq_rows().len() ==> row_satisfied(Sign::Equals, #[trigger] m.eq_rows()[i], m.eq_consts()[i], v, vs.len() as int)));
            }
            assert(self.problem().is_satisfied_by(self.values()) <==> (forall|k: int| 0 <= k < cs.len() && #[trigger] cs[k].sign() == Sign::LessThan ==> constraint_satisfied(vs, cs[k], v))
                && (forall|k: int| 0 <= k < cs.len() && #[trigger] cs[k].sign() == Sign::Equals ==> constraint_satisfied(vs, cs[k], v))) by {
                assert(self.problem().constraint_list() == cs);
                assert(self.problem().variable_names() == vs);
                if self.problem().is_satisfied_by(self.values()) {
                    assert forall|k: int| 0 <= k < cs.len() implies constraint_satisfied(vs, #[trigger] cs[k], v) by {
                        assert(constraint_satisfied(vs, self.problem().constraint_list()[k], as_ints(self.values())));
                    }
                }
                if (forall|k: int| 0 <= k < cs.len() && #[trigger] cs[k].sign() == Sign::LessThan ==> constraint_satisfied(vs, cs[k], v))
                    && (forall|k: int| 0 <= k < cs.len() && #[trigger] cs[k].sign() == Sign::Equals ==> constraint_satisfied(vs, cs[k], v)) {
                    assert forall|k: int| 0 <= k < cs.len() implies constraint_satisfied(vs, #[trigger] cs[k], v) by {
                        match cs[k].sign() {
                            Sign::LessThan => {},
                            Sign::Equals => {},
                        }
                    }
                }
            }
        }
        r
    }

    /// The configuration as a feasable one, when every constraint holds.
    pub fn into_feasable(self) -> (r: Option<FeasableConfig<'a>>)
        requires
            self.problem().bounded_for(self.values()),
        ensures
            r is Some <==> self.problem().is_satisfied_by(self.values()),
            r matches Some(f) ==> f.inner_config() == self,
    {
        if !self.is_feasable() {
            return None;
        }
        Some(self.into_feasable_unchecked())
    }

    /// The configuration as a feasable one, which it must be.
    pub fn into_feasable_unchecked(self) -> (r: FeasableConfig<'a>)
        requires
            self.problem().is_satisfied_by(self.values()),
        ensures
            r.inner_config() == self,
    {
        FeasableConfig(self)
    }
}

/// A configuration on which every constraint held when it was made.
pub struct FeasableConfig<'a>(Config<'a>);

impl<'a> FeasableConfig<'a> {
    /// The configuration inside.
    pub closed spec fn inner_config(self) -> Config<'a> {
        self.0
    }

    /// Sets the value of a variable, as `Config::set`.
    pub fn set(&mut self, var: &str, val: bool) -> (r: Result<(), Error>)
        ensures
            final(self).inner_config().problem() == old(self).inner_config().problem(),
            final(self).inner_config().values().len() == old(self).inner_config().values().len(),
            match r {
                Ok(()) => {
                    &&& old(self).inner_config().problem().variable_names().contains(var@)
                    &&& forall|i: int|
                        0 <= i < old(self).inner_config().values().len() ==> #[trigger] final(self).inner_config().values()[i]
                            == if old(self).inner_config().problem().variable_names()[i] == var@ {
                            val
                        } else {
                            old(self).inner_config().values()[i]
                        }
                },
                Err(e) => {
                    &&& !old(self).inner_config().problem().variable_names().contains(var@)
                    &&& e matches Error::InvalidVariable(name) && name@ == var@
                    &&& final(self).inner_config().values() == old(self).inner_config().values()
                },
            },
    {
        self.0.set(var, val)
    }

    /// The value of a variable, as `Config::get`.
    pub fn get(&self, var: &str) -> (r: Result<bool, Error>)
        ensures
            match r {
                Ok(b) => {
                    &&& self.inner_config().problem().variable_names().contains(var@)
                    &&& forall|i: int|
                        0 <= i < self.inner_config().problem().variable_names().len() && self.inner_config().problem().variable_names()[i]
                            == var@ ==> b == #[trigger] self.inner_config().values()[i]
                },
                Err(e) => {
                    &&& !self.inner_config().problem().variable_names().contains(var@)
                    &&& e matches Error::InvalidVariable(name) && name@ == var@
                },
            },
    {
        self.0.get(var)
    }

    /// The configuration inside.
    pub fn into_inner(self) -> (r: Config<'a>)
        ensures
            r == self.inner_config(),
    {
        self.0
    }

    /// The configuration inside.
    pub fn inner(&self) -> (r: &Config<'a>)
        ensures
            *r == self.inner_config(),
    {
        &self.0
    }
}

/// `name: value` for each of the first `n` variables, separated by `, `,
/// the value written `1` for true and `0` for false.
pub open spec fn config_items(names: Seq<Seq<char>>, values: Seq<bool>, n: int) -> Seq<char>
    decreases n,
{
    if n <= 0 {
        Seq::empty()
    } else {
        let item = names[n - 1] + seq![':', ' ', if values[n - 1] { '1' } else { '0' }];
        if n == 1 {
            item
        } else {
            config_items(names, values, n - 1) + seq![',', ' '] + item
        }
    }
}

/// A configuration printed as `[ x: 0, y: 1 ]`, the variables in their
/// increasing order.
pub open spec fn config_text(c: Config) -> Seq<char> {
    seq!['[', ' '] + config_items(c.problem().variable_names(), c.values(), c.values().len() as int) + seq![' ', ']']
}

impl<'a> Config<'a> {
    /// The configuration printed as `[ x: 0, y: 1 ]`.
    pub fn to_string(&self) -> (r: String)
        ensures
            r@ == config_text(*self),
    {
        proof {
            use_type_invariant(self);
            use_type_invariant(self.problem);
        }
        let names = &self.problem.variables_vec;
        let ghost vs = self.problem().variable_names();
        let ghost vals = self.values();
        let n: usize = names.len();
        let mut s = String::new();
        proof {
            reveal_strlit("[ ");
        }
        push_str(&mut s, "[ ");
        let mut i: usize = 0;
        while i < n
            invariant
                n == vs.len(),
                vs == string_views(names@),
                vals == self.values(),
                vals.len() == n,
                self.repr.values().len() == n,
                forall|j: int| 0 <= j < n ==> #[trigger] vals[j] == (self.repr.values()[j] == 1),
                0 <= i <= n,
                s@ == seq!['[', ' '] + config_items(vs, vals, i as int),
            decreases n - i,
        {
            let ghost before = s@;
            if i > 0 {
                push_str(&mut s, ", ");
            }
            push_str(&mut s, names[i].as_str());
            push_str(&mut s, ": ");
            if self.repr.get_unchecked(i) == 1 {
                push_str(&mut s, "1");
            } else {
                push_str(&mut s, "0");
            }
            proof {
                assert(names@[i as int]@ == vs[i as int]);
                let item = vs[i as int] + seq![':', ' ', if vals[i as int] { '1' } else { '0' }];
                reveal_strlit(", ");
                reveal_strlit(": ");
                reveal_strlit("1");
                reveal_strlit("0");
                assert(", "@ =~= seq![',', ' ']);
                assert(": "@ =~= seq![':', ' ']);
                assert("1"@ =~= seq!['1']);
                assert("0"@ =~= seq!['0']);
                if i == 0 {
                    assert(config_items(vs, vals, 1) == item);
                    assert(s@ =~= before + item);
                } else {
                    assert(config_items(vs, vals, i + 1) == config_items(vs, vals, i as int) + seq![',', ' '] + item);
                    assert(s@ =~= before + seq![',', ' '] + item);
                }
                assert(s@ =~= seq!['[', ' '] + config_items(vs, vals, i + 1));
            }
            i = i + 1;
        }
        proof {
            reveal_strlit(" ]");
        }
        push_str(&mut s, " ]");
        s
    }
}

impl<'a> Config<'a> {
    /// The configuration with variable number `i` switched.
    pub fn neighbour(&self, i: usize) -> (r: Config<'a>)
        requires
            i < self.values().len(),
        ensures
            r.problem() == self.problem(),
            r.values() == self.values().update(i as int, !self.values()[i as int]),
    {
        proof {
            use_type_invariant(self);
        }
        let repr = self.repr.flipped(i);
        proof {
            assert forall|j: int| 0 <= j < repr.values().len() implies #[trigger] repr.values()[j] == 0 || repr.values()[j] == 1 by {
                if j != i {
                    assert(repr.values()[j] == self.repr.values()[j]);
                }
            }
        }
        let c = Config { problem: self.problem, repr };
        proof {
            assert(c.values() =~= self.values().update(i as int, !self.values()[i as int]));
        }
        c
    }

    /// The configuration with one variable switched, the one drawn by
    /// `random_gen` among the variables (taken modulo their number).
    pub fn random_neighbour<T: RandomGen>(&self, random_gen: &mut T) -> (r: Config<'a>)
        requires
            self.values().len() > 0,
        ensures
            r.problem() == self.problem(),
            exists|i: int| 0 <= i < self.values().len() && r.values() == self.values().update(i, !self.values()[i]),
    {
        proof {
            use_type_invariant(self);
        }
        let n: usize = self.repr.len();
        let i: usize = random_gen.rand_in_range(0..n) % n;
        let r = self.neighbour(i);
        proof {
            assert(r.values() == self.values().update(i as int, !self.values()[i as int]));
        }
        r
    }
}

impl Problem {
    /// The configuration giving the variables, in their increasing order,
    /// the values of the list.
    pub fn config_from_values<'a>(&'a self, values: &Vec<bool>) -> (r: Config<'a>)
        requires
            values@.len() == self.variable_names().len(),
        ensures
            r.problem() == *self,
            r.values() == values@,
    {
        proof {
            use_type_invariant(self);
        }
        let n: usize = self.variables_vec.len();
        let mut repr = ConfigRepr::zeros(n);
        let mut i: usize = 0;
        while i < n
            invariant
                n == values@.len(),
                repr.values().len() == n,
                0 <= i <= n,
                forall|j: int| 0 <= j < n ==> #[trigger] repr.values()[j] == 0 || repr.values()[j] == 1,
                forall|j: int| 0 <= j < i ==> #[trigger] repr.values()[j] == (if values@[j] { 1i32 } else { 0i32 }),
            decreases n - i,
        {
            let ghost before = repr.values();
            repr.set_unchecked(i, if values[i] { 1 } else { 0 });
            proof {
                assert forall|j: int| 0 <= j < n implies #[trigger] repr.values()[j] == 0 || repr.values()[j] == 1 by {
                    if j != i {
                        assert(repr.values()[j] == before[j]);
                    }
                }
            }
            i = i + 1;
        }
        let c = Config { problem: self, repr };
        proof {
            assert(c.values() =~= values@);
        }
        c
    }

    /// A configuration with a value drawn by `random_gen` for each variable,
    /// in their increasing order.
    pub fn random_config<T: RandomGen>(&self, random_gen: &mut T) -> (r: Config<'_>)
        ensures
            r.problem() == *self,
    {
        proof {
            use_type_invariant(self);
        }
        let n: usize = self.variables_vec.len();
        let mut values: Vec<bool> = Vec::new();
        let mut i: usize = 0;
        while i < n
            invariant
                0 <= i <= n,
                values@.len() == i,
            decreases n - i,
        {
            values.push(random_gen.randbool());
            i = i + 1;
        }
        self.config_from_values(&values)
    }
}

} // verus!
