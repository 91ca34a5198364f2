use collomatique::ilp::{Config, Error, Problem, ProblemBuilder};
use collomatique::linexpr::Expr;
use collomatique::ndtools::{ConfigRepr, MatRepr};

fn names(list: &[&str]) -> Vec<String> {
    list.iter().map(|s| s.to_string()).collect()
}

fn sample_problem() -> Problem {
    let a = Expr::var("a");
    let b = Expr::var("b");
    let c = Expr::var("c");
    let d = Expr::var("d");

    ProblemBuilder::new()
        .add_variables(names(&["a", "b", "c", "d"]))
        .add(a.add(&b).leq(&Expr::constant(1)))
        .add(c.add(&d).leq(&Expr::constant(1)))
        .add(a.add(&d).eq(&Expr::constant(1)))
        .build()
        .unwrap()
}

fn values(config: &Config, vars: &[&str]) -> Vec<bool> {
    vars.iter().map(|v| config.get(v).unwrap()).collect()
}

#[test]
fn tests_test_is_feasable() {
    let pb = sample_problem();
    assert!(pb.coefficients_fit());

    let feasable = |list: &[&str]| pb.config_from(names(list)).unwrap().is_feasable();

    assert_eq!(pb.default_config().is_feasable(), false);
    assert_eq!(feasable(&["a"]), true);
    assert_eq!(feasable(&["b"]), false);
    assert_eq!(feasable(&["a", "b"]), false);
    assert_eq!(feasable(&["c"]), false);
    assert_eq!(feasable(&["a", "c"]), true);
    assert_eq!(feasable(&["b", "c"]), false);
    assert_eq!(feasable(&["a", "b", "c"]), false);
    assert_eq!(feasable(&["d"]), true);
    assert_eq!(feasable(&["a", "d"]), false);
    assert_eq!(feasable(&["b", "d"]), true);
    assert_eq!(feasable(&["a", "b", "d"]), false);
    assert_eq!(feasable(&["c", "d"]), false);
    assert_eq!(feasable(&["a", "c", "d"]), false);
    assert_eq!(feasable(&["b", "c", "d"]), false);
    assert_eq!(feasable(&["a", "b", "c", "d"]), false);
}

#[test]
fn tests_test_is_feasable_no_constraint() {
    let pb = ProblemBuilder::new()
        .add_variables(names(&["a", "b"]))
        .build()
        .unwrap();
    assert!(pb.coefficients_fit());

    assert_eq!(pb.default_config().is_feasable(), true);
    assert_eq!(pb.config_from(names(&["a"])).unwrap().is_feasable(), true);
    assert_eq!(pb.config_from(names(&["b"])).unwrap().is_feasable(), true);
    assert_eq!(
        pb.config_from(names(&["a", "b"])).unwrap().is_feasable(),
        true
    );
}

#[test]
fn test_neighbours() {
    let pb = sample_problem();
    let vars = ["a", "b", "c", "d"];

    let config = pb.config_from(names(&["a", "b"])).unwrap();
    let neighbours: Vec<Vec<bool>> = config
        .neighbours()
        .iter()
        .map(|n| values(n, &vars))
        .collect();

    let expected: Vec<Vec<bool>> = [
        pb.config_from(names(&["b"])).unwrap(),
        pb.config_from(names(&["a"])).unwrap(),
        pb.config_from(names(&["a", "b", "c"])).unwrap(),
        pb.config_from(names(&["a", "b", "d"])).unwrap(),
    ]
    .iter()
    .map(|c| values(c, &vars))
    .collect();

    assert_eq!(neighbours, expected);
}

#[test]
fn build_refuses_undeclared_variable() {
    let a = Expr::var("a");
    let z = Expr::var("z");
    let y = Expr::var("y");
    let result = ProblemBuilder::new()
        .add_variable("a")
        .add(a.leq(&Expr::constant(1)))
        .add(z.add(&y).leq(&a))
        .build();
    match result {
        Err(e) => assert_eq!(e, Error::UndeclaredVariable(1, "y".to_string())),
        Ok(_) => panic!("an undeclared variable was accepted"),
    }
}

#[test]
fn build_ignores_zero_coefficients() {
    let a = Expr::var("a");
    let z = Expr::var("z");
    let pb = ProblemBuilder::new()
        .add_variable("a")
        .add(a.add(&z).sub(&z).leq(&Expr::constant(1)))
        .build()
        .unwrap();
    assert_eq!(pb.variables(), &names(&["a"]));
    assert_eq!(pb.constraints().len(), 1);
    assert_eq!(pb.constraints()[0].get_var("z"), None);
    assert_eq!(pb.constraints()[0].get_var("a"), Some(1));
}

#[test]
fn problem_variables_are_sorted() {
    let pb = ProblemBuilder::new()
        .add_variables(names(&["d", "b"]))
        .add_variable("c")
        .add_variables(names(&["a", "b"]))
        .build()
        .unwrap();
    assert_eq!(pb.variables(), &names(&["a", "b", "c", "d"]));
}

#[test]
fn config_refuses_unknown_variables() {
    let pb = sample_problem();
    match pb.config_from(names(&["a", "x", "y"])) {
        Err(e) => assert_eq!(e, Error::InvalidVariable("x".to_string())),
        Ok(_) => panic!("an unknown variable was accepted"),
    }

    let mut config = pb.default_config();
    assert_eq!(config.get("x"), Err(Error::InvalidVariable("x".to_string())));
    assert_eq!(
        config.set("x", true),
        Err(Error::InvalidVariable("x".to_string()))
    );
    assert_eq!(values(&config, &["a", "b", "c", "d"]), vec![false; 4]);

    assert_eq!(config.set("c", true), Ok(()));
    assert_eq!(config.get("c"), Ok(true));
    assert_eq!(config.get("a"), Ok(false));
}

#[test]
fn feasable_config_round_trip() {
    let pb = sample_problem();
    assert!(pb.config_from(names(&["b"])).unwrap().into_feasable().is_none());

    let mut feasable = pb
        .config_from(names(&["a"]))
        .unwrap()
        .into_feasable()
        .unwrap();
    assert_eq!(feasable.get("a"), Ok(true));
    assert_eq!(feasable.inner().get("d"), Ok(false));
    assert_eq!(feasable.set("b", true), Ok(()));
    let config = feasable.into_inner();
    assert_eq!(values(&config, &["a", "b", "c", "d"]), vec![true, true, false, false]);
    assert_eq!(config.is_feasable(), false);
}

#[test]
fn coefficients_that_overflow_are_reported() {
    let a = Expr::var("a").scale(i32::MAX);
    let b = Expr::var("b");
    let pb = ProblemBuilder::new()
        .add_variables(names(&["a", "b"]))
        .add(a.add(&b).leq(&Expr::constant(0)))
        .build()
        .unwrap();
    assert!(!pb.coefficients_fit());
}

#[test]
fn matrix_config_into_feasable() {
    let vars = names(&["x", "y"]);
    let x = Expr::var("x");
    let y = Expr::var("y");
    let constraints = vec![x.add(&y).leq(&Expr::constant(1))];
    let mat = MatRepr::new(&vars, &constraints);

    let mut one = ConfigRepr::zeros(2);
    one.set_unchecked(0, 1);
    let feasable = one.into_feasable(&mat).expect("x alone satisfies x + y <= 1");
    assert_eq!(feasable.inner().get_unchecked(0), 1);
    let back = feasable.into_inner();
    assert_eq!(back.get_unchecked(1), 0);

    let mut both = ConfigRepr::zeros(2);
    both.set_unchecked(0, 1);
    both.set_unchecked(1, 1);
    assert!(both.into_feasable(&mat).is_none());
}

#[test]
fn config_printed_with_its_values() {
    let pb = sample_problem();
    let config = pb.config_from(names(&["d", "a"])).unwrap();
    assert_eq!(config.to_string(), "[ a: 1, b: 0, c: 0, d: 1 ]");

    let empty = ProblemBuilder::new().build().unwrap();
    assert_eq!(empty.default_config().to_string(), "[  ]");
}

fn term(coef: i32, name: &str) -> Expr {
    Expr::var(name).scale(coef)
}

#[test]
fn nd_problem_definition() {
    let vars = names(&["a", "b", "c", "d", "e"]);
    let rhs = term(2, "a").sub(&term(5, "d"));
    let constraints = vec![
        term(-1, "a").add(&term(1, "b")).add(&term(3, "c")).add(&Expr::constant(3)).leq(&rhs),
        term(2, "a").sub(&term(3, "b")).add(&term(4, "c")).sub(&Expr::constant(3)).leq(&rhs),
        term(2, "c").sub(&term(3, "d")).add(&term(4, "e")).add(&Expr::constant(2)).eq(&term(-1, "e").add(&term(1, "c"))),
    ];
    let mat = MatRepr::new(&vars, &constraints);

    assert_eq!(mat.leq_matrix(), vec![vec![-3, 1, 3, 5, 0], vec![0, -3, 4, 5, 0]]);
    assert_eq!(mat.eq_matrix(), vec![vec![0, 0, 1, -3, 5]]);

    assert_eq!(mat.leq_constant_values(), vec![3, -3]);
    assert_eq!(mat.eq_constant_values(), vec![2]);
}
