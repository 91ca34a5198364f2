use std::collections::BTreeSet;

use collomatique::colloscope::{
    GeneralData, GroupDesc, GroupsDesc, IncompatibilityGroupList, SlotGroupingIncompatSet, SlotStart,
    SlotWithTeacher, Student, Subject, TeacherBalancing, TimeslotBalancing, Variable,
};
use collomatique::ilp::{Config, FeasableConfig, ProblemBuilder};
use collomatique::linexpr::{Constraint, Expr};
use collomatique::solving::{
    config_from_recorded, set_relevant_variables, update_set_variables, ConfigInitializer, FeasabilitySolver, Initializer, RandomGen,
};
use collomatique::nonzero::{NonZeroU32, NonZeroUsize, NonZeroUsizeRange};
use collomatique::time;
use collomatique::validation::ValidatedData;

struct Alternating(bool);

impl RandomGen for Alternating {
    fn randbool(&mut self) -> bool {
        self.0 = !self.0;
        self.0
    }

    fn rand_in_range(&mut self, range: std::ops::Range<usize>) -> usize {
        range.end - 1
    }
}

struct BruteForce;

impl FeasabilitySolver for BruteForce {
    fn restore_feasability_with_origin_and_max_steps_and_hint_only<'b>(
        &self,
        config: &Config<'b>,
        _origin: Option<&FeasableConfig<'b>>,
        _max_steps: Option<usize>,
        _hint_only: bool,
    ) -> Option<FeasableConfig<'b>> {
        let problem = config.get_problem();
        let n = problem.variables().len();
        for mask in 0u64..(1u64 << n) {
            let values: Vec<bool> = (0..n).map(|i| (mask >> i) & 1 == 1).collect();
            if let Some(f) = problem.config_from_values(&values).into_feasable() {
                return Some(f);
            }
        }
        None
    }
}

fn slot(teacher: usize, week: u32, weekday: time::Weekday) -> SlotWithTeacher {
    SlotWithTeacher {
        cost: 0,
        teacher,
        start: SlotStart {
            week,
            weekday,
            start_time: time::Time::from_hm(8, 0).unwrap(),
        },
    }
}

fn students(n: usize) -> Vec<Student> {
    (0..n).map(|_| Student { incompatibilities: BTreeSet::new() }).collect()
}

fn gis(slot: usize, group: usize) -> Expr {
    Expr::var(&Variable::GroupInSlot { subject: 0, slot, group }.to_string())
}

fn sum(exprs: &[Expr]) -> Expr {
    let mut total = Expr::constant(0);
    for e in exprs {
        total = total.add(e);
    }
    total
}

fn texts(cs: &[Constraint]) -> BTreeSet<String> {
    cs.iter().map(|c| c.to_string()).collect()
}

fn balanced_data(max_groups_per_slot: usize) -> ValidatedData {
    let general = GeneralData {
        periodicity_cuts: BTreeSet::new(),
        teacher_count: 2,
        week_count: NonZeroU32::new(2).unwrap(),
        interrogations_per_week: None,
        max_interrogations_per_day: None,
    };
    let slots = vec![
        slot(0, 0, time::Weekday::Monday),
        slot(0, 0, time::Weekday::Tuesday),
        slot(0, 1, time::Weekday::Monday),
        slot(0, 1, time::Weekday::Tuesday),
        slot(1, 0, time::Weekday::Wednesday),
        slot(1, 1, time::Weekday::Wednesday),
    ];
    let subjects = vec![Subject {
        students_per_group: NonZeroUsizeRange::new(NonZeroUsize::new(2).unwrap(), NonZeroUsize::new(3).unwrap()),
        max_groups_per_slot: NonZeroUsize::new(max_groups_per_slot).unwrap(),
        period: NonZeroU32::new(1).unwrap(),
        period_is_strict: false,
        duration: NonZeroU32::new(60).unwrap(),
        slots,
        groups: GroupsDesc {
            prefilled_groups: vec![
                GroupDesc { students: BTreeSet::from([0, 1, 2]), can_be_extended: false },
                GroupDesc { students: BTreeSet::from([3, 4]), can_be_extended: true },
                GroupDesc { students: BTreeSet::new(), can_be_extended: true },
            ],
            not_assigned: BTreeSet::from([5, 6, 7, 8]),
        },
        ..Subject::default()
    }];
    ValidatedData::new(
        general,
        subjects,
        IncompatibilityGroupList::new(),
        vec![],
        students(9),
        vec![],
        SlotGroupingIncompatSet::new(),
    )
    .unwrap()
}

#[test]
fn balancing_exprs_by_teacher() {
    let data = balanced_data(1);
    let translator = data.ilp_translator();
    let subject = &data.subjects()[0];
    let exprs = translator.build_balancing_exprs_for_subject::<TeacherBalancing>(0, subject);

    assert_eq!(exprs.len(), 2);
    assert_eq!(exprs[0].0, TeacherBalancing { teacher: 0 });
    assert_eq!(exprs[0].1, 4);
    assert_eq!(exprs[1].0, TeacherBalancing { teacher: 1 });
    assert_eq!(exprs[1].1, 2);
    for k in 0..3 {
        assert_eq!(
            exprs[0].2[k].to_string(),
            sum(&[gis(0, k), gis(1, k), gis(2, k), gis(3, k)]).to_string()
        );
        assert_eq!(exprs[1].2[k].to_string(), sum(&[gis(4, k), gis(5, k)]).to_string());
    }
}

#[test]
fn balancing_exprs_by_timeslot() {
    let data = balanced_data(1);
    let translator = data.ilp_translator();
    let subject = &data.subjects()[0];
    let exprs = translator.build_balancing_exprs_for_subject::<TimeslotBalancing>(0, subject);

    let eight = time::Time::from_hm(8, 0).unwrap();
    assert_eq!(exprs.len(), 3);
    assert_eq!(exprs[0].0, TimeslotBalancing { weekday: time::Weekday::Monday, time: eight });
    assert_eq!(exprs[1].0, TimeslotBalancing { weekday: time::Weekday::Tuesday, time: eight });
    assert_eq!(exprs[2].0, TimeslotBalancing { weekday: time::Weekday::Wednesday, time: eight });
    for e in &exprs {
        assert_eq!(e.1, 2);
        assert_eq!(e.2.len(), 3);
    }
    assert_eq!(exprs[1].2[2].to_string(), sum(&[gis(1, 2), gis(3, 2)]).to_string());
}

#[test]
fn balancing_expr_for_a_kind_without_slot_is_zero() {
    let data = balanced_data(1);
    let translator = data.ilp_translator();
    let subject = &data.subjects()[0];
    let e = translator.build_balancing_expr_for_subject_and_group(0, subject, &TeacherBalancing { teacher: 7 }, 0);
    assert_eq!(e.to_string(), Expr::constant(0).to_string());
}

#[test]
fn hard_problem_holds_every_family_then_balancing() {
    let data = balanced_data(1);
    let translator = data.ilp_translator();
    assert!(translator.constants_fit());

    let families = [
        translator.build_at_most_max_groups_per_slot_constraints(),
        translator.build_at_most_one_interrogation_per_time_unit_constraints(),
        translator.build_one_interrogation_per_period_constraints(),
        translator.build_at_most_one_interrogation_per_period_for_empty_groups_contraints(),
        translator.build_students_per_group_count_constraints(),
        translator.build_student_in_single_group_constraints(),
        translator.build_dynamic_groups_student_in_group_constraints(),
        translator.build_dynamic_groups_group_in_slot_constraints(),
        translator.build_interrogations_per_week_constraints(),
        translator.build_max_interrogations_per_day_constraints(),
        translator.build_grouping_constraints(),
        translator.build_grouping_incompats_constraints(),
        translator.build_incompat_group_for_student_constraints(),
        translator.build_student_incompat_max_count_constraints(),
        translator.build_group_on_week_selection_constraints(),
    ];
    let expected: Vec<Constraint> = families.iter().flat_map(|f| f.iter().map(|c| c.clone())).collect();

    let extra = gis(0, 0).leq(&Expr::constant(1));
    let problem = translator.problem_builder_hard(vec![extra.clone()]).build().unwrap();
    let constraints = problem.constraints();
    assert_eq!(constraints.len(), expected.len() + 1);
    assert_eq!(texts(&constraints[..expected.len()]), texts(&expected));
    assert_eq!(constraints[expected.len()].to_string(), extra.to_string());

    let vars: BTreeSet<String> = problem.variables().iter().cloned().collect();
    for j in 0..6 {
        for k in 0..3 {
            assert!(vars.contains(&Variable::GroupInSlot { subject: 0, slot: j, group: k }.to_string()));
        }
    }
    for st in 5..9 {
        assert!(vars.contains(&Variable::StudentInGroup { subject: 0, student: st, group: 2 }.to_string()));
    }
}

#[test]
fn soft_problem_holds_the_goals() {
    let data = balanced_data(1);
    let translator = data.ilp_translator();
    let mut expected = translator.build_interrogations_per_week_optimizer();
    expected.extend(translator.build_max_interrogations_per_day_optimizer());
    expected.extend(translator.build_one_interrogation_per_period_optimizer());

    let problem = translator.problem_builder_soft().build().unwrap();
    assert_eq!(problem.constraints().len(), expected.len());
    assert_eq!(texts(problem.constraints()), texts(&expected));

    let hard = translator.problem_builder_hard(vec![]).build().unwrap();
    assert_eq!(problem.variables(), hard.variables());
}

#[test]
fn constants_that_do_not_fit_an_i32() {
    let data = balanced_data(3_000_000_000);
    assert!(!data.ilp_translator().constants_fit());
}

#[test]
fn solution_of_the_hard_problem_reads_back() {
    let general = GeneralData {
        periodicity_cuts: BTreeSet::new(),
        teacher_count: 1,
        week_count: NonZeroU32::new(1).unwrap(),
        interrogations_per_week: None,
        max_interrogations_per_day: None,
    };
    let subjects = vec![Subject {
        students_per_group: NonZeroUsizeRange::new(NonZeroUsize::new(2).unwrap(), NonZeroUsize::new(3).unwrap()),
        max_groups_per_slot: NonZeroUsize::new(1).unwrap(),
        period: NonZeroU32::new(1).unwrap(),
        period_is_strict: false,
        duration: NonZeroU32::new(60).unwrap(),
        slots: vec![slot(0, 0, time::Weekday::Monday)],
        groups: GroupsDesc {
            prefilled_groups: vec![GroupDesc { students: BTreeSet::from([0, 1]), can_be_extended: false }],
            not_assigned: BTreeSet::new(),
        },
        ..Subject::default()
    }];
    let data = ValidatedData::new(
        general,
        subjects,
        IncompatibilityGroupList::new(),
        vec![],
        students(2),
        vec![],
        SlotGroupingIncompatSet::new(),
    )
    .unwrap();
    let translator = data.ilp_translator();
    let problem = translator.problem_builder_hard(vec![]).build().unwrap();

    let empty = problem.default_config().into_feasable();
    assert!(empty.is_none());

    let mut config = problem.default_config();
    config.set(&Variable::GroupInSlot { subject: 0, slot: 0, group: 0 }.to_string(), true).unwrap();
    let feasable = config.into_feasable().expect("the group is interrogated once in the period");
    let colloscope = translator.read_solution(&feasable).expect("every variable read is declared");
    assert_eq!(colloscope.subjects.len(), 1);
    assert_eq!(colloscope.subjects[0].groups, vec![BTreeSet::from([0, 1])]);
    assert_eq!(colloscope.subjects[0].slots, vec![BTreeSet::from([0])]);
}

fn one_slot_data() -> ValidatedData {
    let general = GeneralData {
        periodicity_cuts: BTreeSet::new(),
        teacher_count: 1,
        week_count: NonZeroU32::new(1).unwrap(),
        interrogations_per_week: None,
        max_interrogations_per_day: None,
    };
    let subjects = vec![Subject {
        students_per_group: NonZeroUsizeRange::new(NonZeroUsize::new(2).unwrap(), NonZeroUsize::new(3).unwrap()),
        max_groups_per_slot: NonZeroUsize::new(1).unwrap(),
        period: NonZeroU32::new(1).unwrap(),
        period_is_strict: false,
        duration: NonZeroU32::new(60).unwrap(),
        slots: vec![slot(0, 0, time::Weekday::Monday)],
        groups: GroupsDesc {
            prefilled_groups: vec![GroupDesc { students: BTreeSet::from([0, 1]), can_be_extended: false }],
            not_assigned: BTreeSet::new(),
        },
        ..Subject::default()
    }];
    ValidatedData::new(
        general,
        subjects,
        IncompatibilityGroupList::new(),
        vec![],
        students(2),
        vec![],
        SlotGroupingIncompatSet::new(),
    )
    .unwrap()
}

#[test]
fn incremental_initializer_builds_a_feasable_configuration() {
    let data = one_slot_data();
    let translator = data.ilp_translator();
    let problem = translator.problem_builder_hard(vec![]).build().unwrap();
    let mut init = translator.incremental_initializer(Initializer::new(Alternating(true)), BruteForce, None, 2, false);
    assert_eq!(init.period_count(), 1);

    let period = init.construct_period_problem(&problem, &vec![], 0).unwrap();
    assert_eq!(period.variables(), problem.variables());

    let config = init.build_init_config(&problem);
    let gis = Variable::GroupInSlot { subject: 0, slot: 0, group: 0 }.to_string();
    assert_eq!(config.get(&gis), Ok(true));
    assert!(config.into_feasable().is_some());
}

#[test]
fn period_problem_fixes_recorded_variables() {
    let data = one_slot_data();
    let translator = data.ilp_translator();
    let problem = translator.problem_builder_hard(vec![]).build().unwrap();
    let init = translator.incremental_initializer(Initializer::new(Alternating(true)), BruteForce, None, 1, false);
    let gis = Variable::GroupInSlot { subject: 0, slot: 0, group: 0 }.to_string();
    let set = vec![(gis.clone(), false), ("other".to_string(), true)];
    let period = init.construct_period_problem(&problem, &set, 0).unwrap();
    let last = period.constraints().last().unwrap().to_string();
    assert_eq!(last, Expr::var(&gis).eq(&Expr::constant(0)).to_string());
    assert_eq!(period.constraints().len(), problem.constraints().len() + 1);
}

#[test]
fn fixing_and_recording_values() {
    let vars = vec!["a".to_string(), "b".to_string(), "c".to_string()];
    let set = vec![("c".to_string(), true), ("a".to_string(), false), ("c".to_string(), false)];
    let fixed = set_relevant_variables(&vars, &set);
    assert_eq!(fixed.len(), 2);
    assert_eq!(fixed[0].to_string(), Expr::var("a").eq(&Expr::constant(0)).to_string());
    assert_eq!(fixed[1].to_string(), Expr::var("c").eq(&Expr::constant(1)).to_string());

    let problem = ProblemBuilder::new().add_variables(vars.clone()).build().unwrap();
    let config = problem.config_from_values(&vec![true, true, false]).into_feasable().unwrap();
    let mut recorded = vec![("a".to_string(), false)];
    update_set_variables(&mut recorded, &config);
    assert_eq!(recorded, vec![("a".to_string(), false), ("b".to_string(), true), ("c".to_string(), false)]);
}

#[test]
fn random_configurations_and_neighbours() {
    let problem = ProblemBuilder::new().add_variables(vec!["x".to_string(), "y".to_string(), "z".to_string()]).build().unwrap();
    let mut gen = Alternating(false);
    let config = problem.random_config(&mut gen);
    assert_eq!(config.to_string(), "[ x: 1, y: 0, z: 1 ]");
    let next = config.random_neighbour(&mut gen);
    assert_eq!(next.to_string(), "[ x: 1, y: 0, z: 0 ]");
    let mut init = Initializer::new(Alternating(true));
    assert_eq!(init.build_init_config(&problem).to_string(), "[ x: 0, y: 1, z: 0 ]");
}

#[test]
fn balancing_exprs_of_every_subject() {
    let mut subjects = balanced_data(1).subjects().clone();
    let object = collomatique::colloscope::BalancingObject::teachers_from_slots(&subjects[0].slots);
    subjects[0].balancing_requirements = Some(collomatique::colloscope::BalancingRequirements {
        strictness: collomatique::colloscope::BalancingStrictness::Strict,
        object,
    });
    let general = GeneralData {
        periodicity_cuts: BTreeSet::new(),
        teacher_count: 2,
        week_count: NonZeroU32::new(2).unwrap(),
        interrogations_per_week: None,
        max_interrogations_per_day: None,
    };
    let data = ValidatedData::new(
        general,
        subjects,
        IncompatibilityGroupList::new(),
        vec![],
        students(9),
        vec![],
        SlotGroupingIncompatSet::new(),
    )
    .unwrap();
    let entries = data.ilp_translator().build_balancing_exprs();
    assert_eq!(entries.len(), 6);
    let texts: Vec<(usize, usize, String)> = entries.iter().map(|(i, c, e)| (*i, *c, e.to_string())).collect();
    assert_eq!(texts[0], (0, 4, sum(&[gis(0, 0), gis(1, 0), gis(2, 0), gis(3, 0)]).to_string()));
    assert_eq!(texts[5], (0, 2, sum(&[gis(4, 2), gis(5, 2)]).to_string()));

    assert!(balanced_data(1).ilp_translator().build_balancing_exprs().is_empty());
}

#[test]
fn configuration_from_recorded_values() {
    let problem = ProblemBuilder::new().add_variables(vec!["a".to_string(), "b".to_string(), "c".to_string()]).build().unwrap();
    let recorded = vec![("c".to_string(), true), ("a".to_string(), false), ("zz".to_string(), true)];
    let config = config_from_recorded(&problem, &recorded);
    assert_eq!(config.to_string(), "[ a: 0, b: 0, c: 1 ]");
}

#[test]
fn period_problem_too_large_is_refused() {
    let data = one_slot_data();
    let translator = data.ilp_translator();
    let problem = translator.problem_builder_hard(vec![]).build().unwrap();
    let init = translator.incremental_initializer(Initializer::new(Alternating(true)), BruteForce, None, 1, false);
    let period = init.construct_period_problem(&problem, &vec![], 0).unwrap();
    assert_eq!(period.constraints().len(), problem.constraints().len());
    let unknown_period = init.construct_period_problem(&problem, &vec![], 5).unwrap();
    assert!(unknown_period.variables().is_empty());
    assert!(unknown_period.constraints().is_empty());
}
