//! Building a first configuration of a problem: the traits of the
//! initializers and solvers, and the period-by-period construction of the
//! incremental initializer.

use vstd::prelude::*;

use crate::colloscope::{variable_name, Variable};
use crate::ilp::{Config, FeasableConfig, Problem, ProblemBuilder};
use crate::incremental::IncrementalInitializer;
use crate::interrogations::describe;
use crate::linexpr::{Constraint, Expr, Sign};
use crate::text::{str_equal, string_views};

verus! {

/// Something that proposes a first configuration of a problem.
pub trait ConfigInitializer {
    /// A configuration of `problem`.
    fn build_init_config<'b>(&mut self, problem: &'b Problem) -> Config<'b>;
}

/// Something that looks for a configuration satisfying the constraints of
/// its problem, starting from a given one.
pub trait FeasabilitySolver {
    /// A feasable configuration reached from `config`, near `origin` when one
    /// is given, in at most `max_steps` steps when a limit is given (with
    /// `hint_only`, `config` is only a hint), or `None` when none was found.
    fn restore_feasability_with_origin_and_max_steps_and_hint_only<'b>(
        &self,
        config: &Config<'b>,
        origin: Option<&FeasableConfig<'b>>,
        max_steps: Option<usize>,
        hint_only: bool,
    ) -> Option<FeasableConfig<'b>>;
}

/// A source of random draws.
pub trait RandomGen {
    /// A random boolean.
    fn randbool(&mut self) -> bool;

    /// A random number, meant to lie in `range`.
    fn rand_in_range(&mut self, range: std::ops::Range<usize>) -> usize;
}

/// An initializer that draws the value of each variable at random.
pub struct Initializer<T: RandomGen> {
    random_gen: T,
}

impl<T: RandomGen> Initializer<T> {
    /// The initializer drawing from `random_gen`.
    pub fn new(random_gen: T) -> (r: Initializer<T>)
        ensures
            r.generator() == random_gen,
    {
        Initializer { random_gen }
    }

    /// The source of random draws.
    pub closed spec fn generator(self) -> T {
        self.random_gen
    }
}

impl<T: RandomGen> ConfigInitializer for Initializer<T> {
    /// A configuration of `problem` with a value drawn for each variable.
    fn build_init_config<'b>(&mut self, problem: &'b Problem) -> (r: Config<'b>)
        ensures
            r.problem() == *problem,
    {
        problem.random_config(&mut self.random_gen)
    }
}

/// An initializer usable on the planning problem of a colloscope.
pub trait GenericInitializer: ConfigInitializer {

}

impl<T: ConfigInitializer> GenericInitializer for T {

}

/// A solver usable on the planning problem of a colloscope.
pub trait GenericSolver: FeasabilitySolver {

}

impl<S: FeasabilitySolver> GenericSolver for S {

}

/// The value recorded for `name` among the first `n` entries: the first
/// entry with that name wins.
pub open spec fn set_value(set: Seq<(Seq<char>, bool)>, name: Seq<char>, n: int) -> Option<bool>
    decreases n,
{
    if n <= 0 {
        None
    } else {
        match set_value(set, name, n - 1) {
            Some(b) => Some(b),
            None => if set[n - 1].0 == name {
                Some(set[n - 1].1)
            } else {
                None
            },
        }
    }
}

/// The value recorded for `name`.
pub open spec fn recorded(set: Seq<(String, bool)>, name: Seq<char>) -> Option<bool> {
    set_value(set.map_values(|e: (String, bool)| (e.0@, e.1)), name, set.len() as int)
}

/// The value recorded for a name, if any.
fn find_recorded(set: &Vec<(String, bool)>, name: &str) -> (r: Option<bool>)
    ensures
        r == recorded(set@, name@),
{
    let ghost view = set@.map_values(|e: (String, bool)| (e.0@, e.1));
    let mut i: usize = 0;
    while i < set.len()
        invariant
            view == set@.map_values(|e: (String, bool)| (e.0@, e.1)),
            0 <= i <= set@.len(),
            set_value(view, name@, i as int) is None,
        decreases set@.len() - i,
    {
        if str_equal(set[i].0.as_str(), name) {
            proof {
                assert(view[i as int].0 == name@);
                assert(set_value(view, name@, i + 1) == Some(set@[i as int].1));
                lemma_set_value_stays(view, name@, i + 1, set@.len() as int);
            }
            return Some(set[i].1);
        }
        i = i + 1;
    }
    None
}

/// A value found among the first `n` entries stays the one found among more.
proof fn lemma_set_value_stays(set: Seq<(Seq<char>, bool)>, name: Seq<char>, n: int, m: int)
    requires
        0 <= n <= m,
        set_value(set, name, n) is Some,
    ensures
        set_value(set, name, m) == set_value(set, name, n),
    decreases m - n,
{
    if n < m {
        lemma_set_value_stays(set, name, n, m - 1);
    }
}

/// The constraint `name == 1` for true, `name == 0` for false, stored as
/// `name - value == 0`.
pub open spec fn fixing_description(name: Seq<char>, val: bool) -> (Map<Seq<char>, i32>, int, Sign) {
    (map![name => 1i32], if val { -1 } else { 0 }, Sign::Equals)
}

/// The constraint that fixes a variable to a value.
fn fixing(name: &str, val: bool) -> (r: Constraint)
    ensures
        describe(r) == fixing_description(name@, val),
{
    let lhs = Expr::var(name);
    let rhs = Expr::constant(if val { 1 } else { 0 });
    let r = lhs.eq(&rhs);
    proof {
        assert(r.expr().coefs() =~= map![name@ => 1i32]);
    }
    r
}

/// The fixing constraints of the first `n` names that have a recorded value,
/// in order.
pub open spec fn fixings(names: Seq<Seq<char>>, set: Seq<(String, bool)>, n: int) -> Seq<(Map<Seq<char>, i32>, int, Sign)>
    decreases n,
{
    if n <= 0 {
        Seq::empty()
    } else {
        match recorded(set, names[n - 1]) {
            Some(b) => fixings(names, set, n - 1).push(fixing_description(names[n - 1], b)),
            None => fixings(names, set, n - 1),
        }
    }
}

/// For each variable of the list that has a recorded value, in order, the
/// constraint that fixes it to that value.
pub fn set_relevant_variables(variables: &Vec<String>, set_variables: &Vec<(String, bool)>) -> (r: Vec<Constraint>)
    ensures
        r@.map_values(|c: Constraint| describe(c)) == fixings(string_views(variables@), set_variables@, variables@.len() as int),
{
    let ghost names = string_views(variables@);
    let mut out: Vec<Constraint> = Vec::new();
    let mut i: usize = 0;
    while i < variables.len()
        invariant
            names == string_views(variables@),
            0 <= i <= variables@.len(),
            out@.map_values(|c: Constraint| describe(c)) == fixings(names, set_variables@, i as int),
        decreases variables@.len() - i,
    {
        let ghost before = out@;
        match find_recorded(set_variables, variables[i].as_str()) {
            Some(val) => {
                out.push(fixing(variables[i].as_str(), val));
                proof {
                    assert(out@.map_values(|c: Constraint| describe(c)) =~= before.map_values(|c: Constraint| describe(c)).push(
                        fixing_description(names[i as int], val),
                    ));
                }
            },
            None => {},
        }
        i = i + 1;
    }
    out
}

/// No name is recorded twice.
pub open spec fn names_unique(set: Seq<(String, bool)>) -> bool {
    forall|a: int, b: int| 0 <= a < b < set.len() ==> (#[trigger] set[a]).0@ != (#[trigger] set[b]).0@
}

/// A name without a recorded value has no entry.
proof fn lemma_not_recorded(set: Seq<(String, bool)>, name: Seq<char>)
    requires
        recorded(set, name) is None,
    ensures
        forall|a: int| 0 <= a < set.len() ==> (#[trigger] set[a]).0@ != name,
{
    let view = set.map_values(|e: (String, bool)| (e.0@, e.1));
    assert forall|a: int| 0 <= a < set.len() implies (#[trigger] set[a]).0@ != name by {
        if set[a].0@ == name {
            assert(view[a].0 == name);
            lemma_set_value_found(view, name, a, set.len() as int);
        }
    }
}

/// A name with an entry among the first `n` has a value found there.
proof fn lemma_set_value_found(set: Seq<(Seq<char>, bool)>, name: Seq<char>, a: int, n: int)
    requires
        0 <= a < n <= set.len(),
        set[a].0 == name,
    ensures
        set_value(set, name, n) is Some,
    decreases n,
{
    if a < n - 1 {
        lemma_set_value_found(set, name, a, n - 1);
    }
}

/// The configuration of `problem` that sets to true exactly the variables
/// recorded as true.
pub fn config_from_recorded<'b>(problem: &'b Problem, set_variables: &Vec<(String, bool)>) -> (r: Config<'b>)
    ensures
        r.problem() == *problem,
        r.values().len() == problem.variable_names().len(),
        forall|i: int|
            0 <= i < problem.variable_names().len() ==> #[trigger] r.values()[i] == (recorded(
                set_variables@,
                problem.variable_names()[i],
            ) == Some(true)),
{
    let vars = problem.variables();
    let mut values: Vec<bool> = Vec::new();
    let mut i: usize = 0;
    while i < vars.len()
        invariant
            string_views(vars@) == problem.variable_names(),
            0 <= i <= vars@.len(),
            values@.len() == i,
            forall|t: int| 0 <= t < i ==> #[trigger] values@[t] == (recorded(set_variables@, problem.variable_names()[t]) == Some(true)),
        decreases vars@.len() - i,
    {
        let found = find_recorded(set_variables, vars[i].as_str());
        proof {
            assert(string_views(vars@)[i as int] == vars@[i as int]@);
        }
        values.push(match found {
            Some(b) => b,
            None => false,
        });
        i = i + 1;
    }
    problem.config_from_values(&values)
}

/// Adding an entry at the end leaves the values found among the first
/// entries unchanged.
proof fn lemma_set_value_push(set: Seq<(Seq<char>, bool)>, e: (Seq<char>, bool), name: Seq<char>, n: int)
    requires
        0 <= n <= set.len(),
    ensures
        set_value(set.push(e), name, n) == set_value(set, name, n),
    decreases n,
{
    if n > 0 {
        lemma_set_value_push(set, e, name, n - 1);
    }
}

/// The value that a configuration gives a name of its problem.
pub open spec fn value_in(config: Config, name: Seq<char>) -> bool {
    config.values()[config.problem().variable_names().index_of(name)]
}

/// The values that `set` records, and, for the names it does not record
/// yet, the values that `config` gives the variables of its problem.
pub open spec fn updated(set: Seq<(String, bool)>, config: Config, name: Seq<char>) -> Option<bool> {
    match recorded(set, name) {
        Some(b) => Some(b),
        None => if config.problem().variable_names().contains(name) {
            Some(value_in(config, name))
        } else {
            None
        },
    }
}

/// Records the value that `config` gives each variable of its problem that
/// has no recorded value yet; recorded values stay.
pub fn update_set_variables(set_variables: &mut Vec<(String, bool)>, config: &FeasableConfig)
    ensures
        forall|name: Seq<char>|
            #[trigger] recorded(final(set_variables)@, name) == updated(old(set_variables)@, config.inner_config(), name),
        names_unique(old(set_variables)@) ==> names_unique(final(set_variables)@),
{
    let c = config.inner();
    let vars = c.get_problem().variables();
    let ghost names = c.problem().variable_names();
    let ghost start = set_variables@;
    let mut i: usize = 0;
    while i < vars.len()
        invariant
            string_views(vars@) == names,
            names == c.problem().variable_names(),
            c.values().len() == names.len(),
            forall|a: int, b: int| 0 <= a < names.len() && 0 <= b < names.len() && a != b ==> #[trigger] names[a] != #[trigger] names[b],
            0 <= i <= vars@.len(),
            names_unique(start) ==> names_unique(set_variables@),
            forall|name: Seq<char>|
                #[trigger] recorded(set_variables@, name) == match recorded(start, name) {
                    Some(b) => Some(b),
                    None => if names.take(i as int).contains(name) {
                        Some(value_in(*c, name))
                    } else {
                        None
                    },
                },
        decreases vars@.len() - i,
    {
        let name = vars[i].as_str();
        let ghost before = set_variables@;
        let ghost n = names[i as int];
        assert(name@ == n);
        assert(names.take(i + 1) =~= names.take(i as int).push(n));
        assert(!names.take(i as int).contains(n)) by {
            if names.take(i as int).contains(n) {
                let k = choose|k: int| 0 <= k < i && names.take(i as int)[k] == n;
                assert(names[k] == names[i as int]);
            }
        }
        match find_recorded(set_variables, name) {
            Some(_) => {
                proof {
                    assert forall|x: Seq<char>|
                        #[trigger] recorded(set_variables@, x) == match recorded(start, x) {
                            Some(b) => Some(b),
                            None => if names.take(i + 1).contains(x) {
                                Some(value_in(*c, x))
                            } else {
                                None
                            },
                        } by {
                        if x != n {
                            assert(names.take(i + 1).contains(x) == names.take(i as int).contains(x));
                        }
                    }
                }
            },
            None => {
                let val = match c.get(name) {
                    Ok(b) => b,
                    Err(_) => false,
                };
                proof {
                    assert(names.contains(n));
                    assert(names[names.index_of(n)] == n);
                    assert(names.index_of(n) == i);
                    assert(val == value_in(*c, n));
                }
                proof {
                    lemma_not_recorded(before, n);
                }
                set_variables.push((vars[i].clone(), val));
                proof {
                    if names_unique(start) {
                        assert forall|a: int, b: int| 0 <= a < b < set_variables@.len() implies (#[trigger] set_variables@[a]).0@
                            != (#[trigger] set_variables@[b]).0@ by {
                            if b == before.len() {
                                assert(set_variables@[a] == before[a]);
                            } else {
                                assert(set_variables@[a] == before[a]);
                                assert(set_variables@[b] == before[b]);
                            }
                        }
                    }
                    let bv = before.map_values(|e: (String, bool)| (e.0@, e.1));
                    let av = set_variables@.map_values(|e: (String, bool)| (e.0@, e.1));
                    assert(av =~= bv.push((n, val)));
                    assert forall|x: Seq<char>|
                        #[trigger] recorded(set_variables@, x) == match recorded(start, x) {
                            Some(b) => Some(b),
                            None => if names.take(i + 1).contains(x) {
                                Some(value_in(*c, x))
                            } else {
                                None
                            },
                        } by {
                        lemma_set_value_push(bv, (n, val), x, before.len() as int);
                        assert(recorded(before, x) == set_value(bv, x, before.len() as int));
                        if x != n {
                            assert(names.take(i + 1).contains(x) == names.take(i as int).contains(x));
                        } else {
                            assert(names.take(i + 1)[i as int] == x);
                        }
                    }
                }
            },
        }
        i = i + 1;
    }
    proof {
        assert(names.take(i as int) =~= names);
        assert forall|name: Seq<char>|
            #[trigger] recorded(set_variables@, name) == updated(start, config.inner_config(), name) by {
        }
    }
}

} // verus!
