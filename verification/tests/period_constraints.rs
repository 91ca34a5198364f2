use std::collections::BTreeSet;

use collomatique::colloscope::{
    GeneralData, GroupDesc, GroupsDesc, IncompatibilityGroupList, SlotGroupingIncompatSet,
    SlotStart, SlotWithTeacher, Student, Subject, Variable,
};
use collomatique::linexpr::{Constraint, Expr};
use collomatique::nonzero::{NonZeroU32, NonZeroUsize, NonZeroUsizeRange};
use collomatique::time;
use collomatique::validation::ValidatedData;

fn texts(cs: &[Constraint]) -> BTreeSet<String> {
    cs.iter().map(|c| c.to_string()).collect()
}

#[test]
fn one_interrogation_per_period() {
    let general = GeneralData {
        periodicity_cuts: BTreeSet::new(),
        teacher_count: 2,
        week_count: NonZeroU32::new(4).unwrap(),
        interrogations_per_week: None,
        max_interrogations_per_day: None,
    };

    let subjects = vec![
        Subject {
            students_per_group: NonZeroUsizeRange::new(NonZeroUsize::new(2).unwrap(), NonZeroUsize::new(3).unwrap()),
            max_groups_per_slot: NonZeroUsize::new(1).unwrap(),
            period: NonZeroU32::new(2).unwrap(),
            period_is_strict: true,
            duration: NonZeroU32::new(60).unwrap(),
            slots: vec![
                SlotWithTeacher {
                    cost: 0,
                    teacher: 0,
                    start: SlotStart {
                        week: 0,
                        weekday: time::Weekday::Monday,
                        start_time: time::Time::from_hm(8, 0).unwrap(),
                    },
                },
                SlotWithTeacher {
                    cost: 0,
                    teacher: 0,
                    start: SlotStart {
                        week: 1,
                        weekday: time::Weekday::Tuesday,
                        start_time: time::Time::from_hm(8, 0).unwrap(),
                    },
                },
                SlotWithTeacher {
                    cost: 0,
                    teacher: 0,
                    start: SlotStart {
                        week: 2,
                        weekday: time::Weekday::Monday,
                        start_time: time::Time::from_hm(8, 0).unwrap(),
                    },
                },
                SlotWithTeacher {
                    cost: 0,
                    teacher: 0,
                    start: SlotStart {
                        week: 3,
                        weekday: time::Weekday::Tuesday,
                        start_time: time::Time::from_hm(8, 0).unwrap(),
                    },
                },
            ],
            groups: GroupsDesc {
                prefilled_groups: vec![
                    GroupDesc {
                        students: BTreeSet::from([0, 1, 2]),
                        can_be_extended: false,
                    },
                    GroupDesc {
                        students: BTreeSet::new(),
                        can_be_extended: true,
                    },
                ],
                not_assigned: BTreeSet::from([3, 4, 5]),
            },
            ..Subject::default()
        },
        Subject {
            students_per_group: NonZeroUsizeRange::new(NonZeroUsize::new(2).unwrap(), NonZeroUsize::new(3).unwrap()),
            max_groups_per_slot: NonZeroUsize::new(1).unwrap(),
            period: NonZeroU32::new(2).unwrap(),
            period_is_strict: false,
            duration: NonZeroU32::new(60).unwrap(),
            slots: vec![
                SlotWithTeacher {
                    cost: 0,
                    teacher: 1,
                    start: SlotStart {
                        week: 0,
                        weekday: time::Weekday::Monday,
                        start_time: time::Time::from_hm(8, 0).unwrap(),
                    },
                },
                SlotWithTeacher {
                    cost: 0,
                    teacher: 1,
                    start: SlotStart {
                        week: 1,
                        weekday: time::Weekday::Tuesday,
                        start_time: time::Time::from_hm(8, 0).unwrap(),
                    },
                },
                SlotWithTeacher {
                    cost: 0,
                    teacher: 1,
                    start: SlotStart {
                        week: 2,
                        weekday: time::Weekday::Monday,
                        start_time: time::Time::from_hm(8, 0).unwrap(),
                    },
                },
                SlotWithTeacher {
                    cost: 0,
                    teacher: 1,
                    start: SlotStart {
                        week: 3,
                        weekday: time::Weekday::Tuesday,
                        start_time: time::Time::from_hm(8, 0).unwrap(),
                    },
                },
            ],
            groups: GroupsDesc {
                prefilled_groups: vec![
                    GroupDesc {
                        students: BTreeSet::from([3, 4, 5]),
                        can_be_extended: false,
                    },
                    GroupDesc {
                        students: BTreeSet::new(),
                        can_be_extended: true,
                    },
                ],
                not_assigned: BTreeSet::from([0, 1, 2]),
            },
            ..Subject::default()
        },
    ];
    let incompatibility_groups = IncompatibilityGroupList::new();
    let incompatibilities = vec![];
    let students = vec![
        Student {
            incompatibilities: BTreeSet::new(),
        },
        Student {
            incompatibilities: BTreeSet::new(),
        },
        Student {
            incompatibilities: BTreeSet::new(),
        },
        Student {
            incompatibilities: BTreeSet::new(),
        },
        Student {
            incompatibilities: BTreeSet::new(),
        },
        Student {
            incompatibilities: BTreeSet::new(),
        },
    ];
    let slot_groupings = vec![];
    let grouping_incompats = SlotGroupingIncompatSet::new();

    let data = ValidatedData::new(
        general,
        subjects,
        incompatibility_groups,
        incompatibilities,
        students,
        slot_groupings,
        grouping_incompats,
    )
    .unwrap();

    let ilp_translator = data.ilp_translator();
    let one_interrogation_per_period_contraints =
        ilp_translator.build_one_interrogation_per_period_constraints();
    let gis_0_0_0 = Expr::var(&Variable::GroupInSlot { subject: 0, slot: 0, group: 0 }.to_string());
    let gis_0_1_0 = Expr::var(&Variable::GroupInSlot { subject: 0, slot: 1, group: 0 }.to_string());
    let gis_0_2_0 = Expr::var(&Variable::GroupInSlot { subject: 0, slot: 2, group: 0 }.to_string());
    let gis_0_3_0 = Expr::var(&Variable::GroupInSlot { subject: 0, slot: 3, group: 0 }.to_string());
    let gis_1_0_0 = Expr::var(&Variable::GroupInSlot { subject: 1, slot: 0, group: 0 }.to_string());
    let gis_1_1_0 = Expr::var(&Variable::GroupInSlot { subject: 1, slot: 1, group: 0 }.to_string());
    let gis_1_2_0 = Expr::var(&Variable::GroupInSlot { subject: 1, slot: 2, group: 0 }.to_string());
    let gis_1_3_0 = Expr::var(&Variable::GroupInSlot { subject: 1, slot: 3, group: 0 }.to_string());
    let dga_0_0_1_3 = Expr::var(&Variable::DynamicGroupAssignment { subject: 0, slot: 0, group: 1, student: 3 }.to_string());
    let dga_0_0_1_4 = Expr::var(&Variable::DynamicGroupAssignment { subject: 0, slot: 0, group: 1, student: 4 }.to_string());
    let dga_0_0_1_5 = Expr::var(&Variable::DynamicGroupAssignment { subject: 0, slot: 0, group: 1, student: 5 }.to_string());
    let dga_0_1_1_3 = Expr::var(&Variable::DynamicGroupAssignment { subject: 0, slot: 1, group: 1, student: 3 }.to_string());
    let dga_0_1_1_4 = Expr::var(&Variable::DynamicGroupAssignment { subject: 0, slot: 1, group: 1, student: 4 }.to_string());
    let dga_0_1_1_5 = Expr::var(&Variable::DynamicGroupAssignment { subject: 0, slot: 1, group: 1, student: 5 }.to_string());
    let dga_0_2_1_3 = Expr::var(&Variable::DynamicGroupAssignment { subject: 0, slot: 2, group: 1, student: 3 }.to_string());
    let dga_0_2_1_4 = Expr::var(&Variable::DynamicGroupAssignment { subject: 0, slot: 2, group: 1, student: 4 }.to_string());
    let dga_0_2_1_5 = Expr::var(&Variable::DynamicGroupAssignment { subject: 0, slot: 2, group: 1, student: 5 }.to_string());
    let dga_0_3_1_3 = Expr::var(&Variable::DynamicGroupAssignment { subject: 0, slot: 3, group: 1, student: 3 }.to_string());
    let dga_0_3_1_4 = Expr::var(&Variable::DynamicGroupAssignment { subject: 0, slot: 3, group: 1, student: 4 }.to_string());
    let dga_0_3_1_5 = Expr::var(&Variable::DynamicGroupAssignment { subject: 0, slot: 3, group: 1, student: 5 }.to_string());
    let dga_1_0_1_0 = Expr::var(&Variable::DynamicGroupAssignment { subject: 1, slot: 0, group: 1, student: 0 }.to_string());
    let dga_1_0_1_1 = Expr::var(&Variable::DynamicGroupAssignment { subject: 1, slot: 0, group: 1, student: 1 }.to_string());
    let dga_1_0_1_2 = Expr::var(&Variable::DynamicGroupAssignment { subject: 1, slot: 0, group: 1, student: 2 }.to_string());
    let dga_1_1_1_0 = Expr::var(&Variable::DynamicGroupAssignment { subject: 1, slot: 1, group: 1, student: 0 }.to_string());
    let dga_1_1_1_1 = Expr::var(&Variable::DynamicGroupAssignment { subject: 1, slot: 1, group: 1, student: 1 }.to_string());
    let dga_1_1_1_2 = Expr::var(&Variable::DynamicGroupAssignment { subject: 1, slot: 1, group: 1, student: 2 }.to_string());
    let dga_1_2_1_0 = Expr::var(&Variable::DynamicGroupAssignment { subject: 1, slot: 2, group: 1, student: 0 }.to_string());
    let dga_1_2_1_1 = Expr::var(&Variable::DynamicGroupAssignment { subject: 1, slot: 2, group: 1, student: 1 }.to_string());
    let dga_1_2_1_2 = Expr::var(&Variable::DynamicGroupAssignment { subject: 1, slot: 2, group: 1, student: 2 }.to_string());
    let dga_1_3_1_0 = Expr::var(&Variable::DynamicGroupAssignment { subject: 1, slot: 3, group: 1, student: 0 }.to_string());
    let dga_1_3_1_1 = Expr::var(&Variable::DynamicGroupAssignment { subject: 1, slot: 3, group: 1, student: 1 }.to_string());
    let dga_1_3_1_2 = Expr::var(&Variable::DynamicGroupAssignment { subject: 1, slot: 3, group: 1, student: 2 }.to_string());
    let expected_result = texts(&[
        gis_0_0_0.add(&gis_0_1_0).eq(&Expr::constant(1)),
        dga_0_0_1_3.add(&dga_0_1_1_3).eq(&Expr::constant(1)),
        dga_0_0_1_4.add(&dga_0_1_1_4).eq(&Expr::constant(1)),
        dga_0_0_1_5.add(&dga_0_1_1_5).eq(&Expr::constant(1)),

        gis_0_1_0.add(&gis_0_2_0).eq(&Expr::constant(1)),
        dga_0_1_1_3.add(&dga_0_2_1_3).eq(&Expr::constant(1)),
        dga_0_1_1_4.add(&dga_0_2_1_4).eq(&Expr::constant(1)),
        dga_0_1_1_5.add(&dga_0_2_1_5).eq(&Expr::constant(1)),

        gis_0_2_0.add(&gis_0_3_0).eq(&Expr::constant(1)),
        dga_0_2_1_3.add(&dga_0_3_1_3).eq(&Expr::constant(1)),
        dga_0_2_1_4.add(&dga_0_3_1_4).eq(&Expr::constant(1)),
        dga_0_2_1_5.add(&dga_0_3_1_5).eq(&Expr::constant(1)),

        gis_1_0_0.add(&gis_1_1_0).eq(&Expr::constant(1)),
        dga_1_0_1_0.add(&dga_1_1_1_0).eq(&Expr::constant(1)),
        dga_1_0_1_1.add(&dga_1_1_1_1).eq(&Expr::constant(1)),
        dga_1_0_1_2.add(&dga_1_1_1_2).eq(&Expr::constant(1)),

        gis_1_2_0.add(&gis_1_3_0).eq(&Expr::constant(1)),
        dga_1_2_1_0.add(&dga_1_3_1_0).eq(&Expr::constant(1)),
        dga_1_2_1_1.add(&dga_1_3_1_1).eq(&Expr::constant(1)),
        dga_1_2_1_2.add(&dga_1_3_1_2).eq(&Expr::constant(1)),
    ]);

    assert_eq!(texts(&one_interrogation_per_period_contraints), expected_result);
}

#[test]
fn one_interrogation_per_period_with_incomplete_period() {
    let general = GeneralData {
        periodicity_cuts: BTreeSet::new(),
        teacher_count: 2,
        week_count: NonZeroU32::new(5).unwrap(),
        interrogations_per_week: None,
        max_interrogations_per_day: None,
    };

    let subjects = vec![
        Subject {
            students_per_group: NonZeroUsizeRange::new(NonZeroUsize::new(2).unwrap(), NonZeroUsize::new(3).unwrap()),
            max_groups_per_slot: NonZeroUsize::new(1).unwrap(),
            period: NonZeroU32::new(2).unwrap(),
            period_is_strict: true,
            duration: NonZeroU32::new(60).unwrap(),
            slots: vec![
                SlotWithTeacher {
                    cost: 0,
                    teacher: 0,
                    start: SlotStart {
                        week: 0,
                        weekday: time::Weekday::Monday,
                        start_time: time::Time::from_hm(8, 0).unwrap(),
                    },
                },
                SlotWithTeacher {
                    cost: 0,
                    teacher: 0,
                    start: SlotStart {
                        week: 1,
                        weekday: time::Weekday::Tuesday,
                        start_time: time::Time::from_hm(8, 0).unwrap(),
                    },
                },
                SlotWithTeacher {
                    cost: 0,
                    teacher: 0,
                    start: SlotStart {
                        week: 2,
                        weekday: time::Weekday::Monday,
                        start_time: time::Time::from_hm(8, 0).unwrap(),
                    },
                },
                SlotWithTeacher {
                    cost: 0,
                    teacher: 0,
                    start: SlotStart {
                        week: 3,
                        weekday: time::Weekday::Tuesday,
                        start_time: time::Time::from_hm(8, 0).unwrap(),
                    },
                },
                SlotWithTeacher {
                    cost: 0,
                    teacher: 0,
                    start: SlotStart {
                        week: 4,
                        weekday: time::Weekday::Monday,
                        start_time: time::Time::from_hm(8, 0).unwrap(),
                    },
                },
            ],
            groups: GroupsDesc {
                prefilled_groups: vec![
                    GroupDesc {
                        students: BTreeSet::from([0, 1, 2]),
                        can_be_extended: false,
                    },
                    GroupDesc {
                        students: BTreeSet::new(),
                        can_be_extended: true,
                    },
                ],
                not_assigned: BTreeSet::from([3, 4, 5]),
            },
            ..Subject::default()
        },
        Subject {
            students_per_group: NonZeroUsizeRange::new(NonZeroUsize::new(2).unwrap(), NonZeroUsize::new(3).unwrap()),
            max_groups_per_slot: NonZeroUsize::new(1).unwrap(),
            period: NonZeroU32::new(2).unwrap(),
            duration: NonZeroU32::new(60).unwrap(),
            slots: vec![
                SlotWithTeacher {
                    cost: 0,
                    teacher: 1,
                    start: SlotStart {
                        week: 0,
                        weekday: time::Weekday::Monday,
                        start_time: time::Time::from_hm(8, 0).unwrap(),
                    },
                },
                SlotWithTeacher {
                    cost: 0,
                    teacher: 1,
                    start: SlotStart {
                        week: 1,
                        weekday: time::Weekday::Tuesday,
                        start_time: time::Time::from_hm(8, 0).unwrap(),
                    },
                },
                SlotWithTeacher {
                    cost: 0,
                    teacher: 1,
                    start: SlotStart {
                        week: 2,
                        weekday: time::Weekday::Monday,
                        start_time: time::Time::from_hm(8, 0).unwrap(),
                    },
                },
                SlotWithTeacher {
                    cost: 0,
                    teacher: 1,
                    start: SlotStart {
                        week: 3,
                        weekday: time::Weekday::Tuesday,
                        start_time: time::Time::from_hm(8, 0).unwrap(),
                    },
                },
                SlotWithTeacher {
                    cost: 0,
                    teacher: 1,
                    start: SlotStart {
                        week: 4,
                        weekday: time::Weekday::Monday,
                        start_time: time::Time::from_hm(8, 0).unwrap(),
                    },
                },
            ],
            groups: GroupsDesc {
                prefilled_groups: vec![
                    GroupDesc {
                        students: BTreeSet::from([3, 4, 5]),
                        can_be_extended: false,
                    },
                    GroupDesc {
                        students: BTreeSet::new(),
                        can_be_extended: true,
                    },
                ],
                not_assigned: BTreeSet::from([0, 1, 2]),
            },
            ..Subject::default()
        },
    ];
    let incompatibility_groups = IncompatibilityGroupList::new();
    let incompatibilities = vec![];
    let students = vec![
        Student {
            incompatibilities: BTreeSet::new(),
        },
        Student {
            incompatibilities: BTreeSet::new(),
        },
        Student {
            incompatibilities: BTreeSet::new(),
        },
        Student {
            incompatibilities: BTreeSet::new(),
        },
        Student {
            incompatibilities: BTreeSet::new(),
        },
        Student {
            incompatibilities: BTreeSet::new(),
        },
    ];
    let slot_groupings = vec![];
    let grouping_incompats = SlotGroupingIncompatSet::new();

    let data = ValidatedData::new(
        general,
        subjects,
        incompatibility_groups,
        incompatibilities,
        students,
        slot_groupings,
        grouping_incompats,
    )
    .unwrap();

    let ilp_translator = data.ilp_translator();
    let one_interrogation_per_period_contraints =
        ilp_translator.build_one_interrogation_per_period_constraints();
    let gis_0_0_0 = Expr::var(&Variable::GroupInSlot { subject: 0, slot: 0, group: 0 }.to_string());
    let gis_0_1_0 = Expr::var(&Variable::GroupInSlot { subject: 0, slot: 1, group: 0 }.to_string());
    let gis_0_2_0 = Expr::var(&Variable::GroupInSlot { subject: 0, slot: 2, group: 0 }.to_string());
    let gis_0_3_0 = Expr::var(&Variable::GroupInSlot { subject: 0, slot: 3, group: 0 }.to_string());
    let gis_0_4_0 = Expr::var(&Variable::GroupInSlot { subject: 0, slot: 4, group: 0 }.to_string());
    let gis_1_0_0 = Expr::var(&Variable::GroupInSlot { subject: 1, slot: 0, group: 0 }.to_string());
    let gis_1_1_0 = Expr::var(&Variable::GroupInSlot { subject: 1, slot: 1, group: 0 }.to_string());
    let gis_1_2_0 = Expr::var(&Variable::GroupInSlot { subject: 1, slot: 2, group: 0 }.to_string());
    let gis_1_3_0 = Expr::var(&Variable::GroupInSlot { subject: 1, slot: 3, group: 0 }.to_string());
    let gis_1_4_0 = Expr::var(&Variable::GroupInSlot { subject: 1, slot: 4, group: 0 }.to_string());
    let dga_0_0_1_3 = Expr::var(&Variable::DynamicGroupAssignment { subject: 0, slot: 0, group: 1, student: 3 }.to_string());
    let dga_0_0_1_4 = Expr::var(&Variable::DynamicGroupAssignment { subject: 0, slot: 0, group: 1, student: 4 }.to_string());
    let dga_0_0_1_5 = Expr::var(&Variable::DynamicGroupAssignment { subject: 0, slot: 0, group: 1, student: 5 }.to_string());
    let dga_0_1_1_3 = Expr::var(&Variable::DynamicGroupAssignment { subject: 0, slot: 1, group: 1, student: 3 }.to_string());
    let dga_0_1_1_4 = Expr::var(&Variable::DynamicGroupAssignment { subject: 0, slot: 1, group: 1, student: 4 }.to_string());
    let dga_0_1_1_5 = Expr::var(&Variable::DynamicGroupAssignment { subject: 0, slot: 1, group: 1, student: 5 }.to_string());
    let dga_0_2_1_3 = Expr::var(&Variable::DynamicGroupAssignment { subject: 0, slot: 2, group: 1, student: 3 }.to_string());
    let dga_0_2_1_4 = Expr::var(&Variable::DynamicGroupAssignment { subject: 0, slot: 2, group: 1, student: 4 }.to_string());
    let dga_0_2_1_5 = Expr::var(&Variable::DynamicGroupAssignment { subject: 0, slot: 2, group: 1, student: 5 }.to_string());
    let dga_0_3_1_3 = Expr::var(&Variable::DynamicGroupAssignment { subject: 0, slot: 3, group: 1, student: 3 }.to_string());
    let dga_0_3_1_4 = Expr::var(&Variable::DynamicGroupAssignment { subject: 0, slot: 3, group: 1, student: 4 }.to_string());
    let dga_0_3_1_5 = Expr::var(&Variable::DynamicGroupAssignment { subject: 0, slot: 3, group: 1, student: 5 }.to_string());
    let dga_0_4_1_3 = Expr::var(&Variable::DynamicGroupAssignment { subject: 0, slot: 4, group: 1, student: 3 }.to_string());
    let dga_0_4_1_4 = Expr::var(&Variable::DynamicGroupAssignment { subject: 0, slot: 4, group: 1, student: 4 }.to_string());
    let dga_0_4_1_5 = Expr::var(&Variable::DynamicGroupAssignment { subject: 0, slot: 4, group: 1, student: 5 }.to_string());
    let dga_1_0_1_0 = Expr::var(&Variable::DynamicGroupAssignment { subject: 1, slot: 0, group: 1, student: 0 }.to_string());
    let dga_1_0_1_1 = Expr::var(&Variable::DynamicGroupAssignment { subject: 1, slot: 0, group: 1, student: 1 }.to_string());
    let dga_1_0_1_2 = Expr::var(&Variable::DynamicGroupAssignment { subject: 1, slot: 0, group: 1, student: 2 }.to_string());
    let dga_1_1_1_0 = Expr::var(&Variable::DynamicGroupAssignment { subject: 1, slot: 1, group: 1, student: 0 }.to_string());
    let dga_1_1_1_1 = Expr::var(&Variable::DynamicGroupAssignment { subject: 1, slot: 1, group: 1, student: 1 }.to_string());
    let dga_1_1_1_2 = Expr::var(&Variable::DynamicGroupAssignment { subject: 1, slot: 1, group: 1, student: 2 }.to_string());
    let dga_1_2_1_0 = Expr::var(&Variable::DynamicGroupAssignment { subject: 1, slot: 2, group: 1, student: 0 }.to_string());
    let dga_1_2_1_1 = Expr::var(&Variable::DynamicGroupAssignment { subject: 1, slot: 2, group: 1, student: 1 }.to_string());
    let dga_1_2_1_2 = Expr::var(&Variable::DynamicGroupAssignment { subject: 1, slot: 2, group: 1, student: 2 }.to_string());
    let dga_1_3_1_0 = Expr::var(&Variable::DynamicGroupAssignment { subject: 1, slot: 3, group: 1, student: 0 }.to_string());
    let dga_1_3_1_1 = Expr::var(&Variable::DynamicGroupAssignment { subject: 1, slot: 3, group: 1, student: 1 }.to_string());
    let dga_1_3_1_2 = Expr::var(&Variable::DynamicGroupAssignment { subject: 1, slot: 3, group: 1, student: 2 }.to_string());
    let dga_1_4_1_0 = Expr::var(&Variable::DynamicGroupAssignment { subject: 1, slot: 4, group: 1, student: 0 }.to_string());
    let dga_1_4_1_1 = Expr::var(&Variable::DynamicGroupAssignment { subject: 1, slot: 4, group: 1, student: 1 }.to_string());
    let dga_1_4_1_2 = Expr::var(&Variable::DynamicGroupAssignment { subject: 1, slot: 4, group: 1, student: 2 }.to_string());
    let expected_result = texts(&[
        gis_0_0_0.add(&gis_0_1_0).eq(&Expr::constant(1)),
        dga_0_0_1_3.add(&dga_0_1_1_3).eq(&Expr::constant(1)),
        dga_0_0_1_4.add(&dga_0_1_1_4).eq(&Expr::constant(1)),
        dga_0_0_1_5.add(&dga_0_1_1_5).eq(&Expr::constant(1)),

        gis_0_1_0.add(&gis_0_2_0).eq(&Expr::constant(1)),
        dga_0_1_1_3.add(&dga_0_2_1_3).eq(&Expr::constant(1)),
        dga_0_1_1_4.add(&dga_0_2_1_4).eq(&Expr::constant(1)),
        dga_0_1_1_5.add(&dga_0_2_1_5).eq(&Expr::constant(1)),

        gis_0_2_0.add(&gis_0_3_0).eq(&Expr::constant(1)),
        dga_0_2_1_3.add(&dga_0_3_1_3).eq(&Expr::constant(1)),
        dga_0_2_1_4.add(&dga_0_3_1_4).eq(&Expr::constant(1)),
        dga_0_2_1_5.add(&dga_0_3_1_5).eq(&Expr::constant(1)),

        gis_0_3_0.add(&gis_0_4_0).eq(&Expr::constant(1)),
        dga_0_3_1_3.add(&dga_0_4_1_3).eq(&Expr::constant(1)),
        dga_0_3_1_4.add(&dga_0_4_1_4).eq(&Expr::constant(1)),
        dga_0_3_1_5.add(&dga_0_4_1_5).eq(&Expr::constant(1)),

        gis_1_0_0.add(&gis_1_1_0).eq(&Expr::constant(1)),
        dga_1_0_1_0.add(&dga_1_1_1_0).eq(&Expr::constant(1)),
        dga_1_0_1_1.add(&dga_1_1_1_1).eq(&Expr::constant(1)),
        dga_1_0_1_2.add(&dga_1_1_1_2).eq(&Expr::constant(1)),

        gis_1_2_0.add(&gis_1_3_0).eq(&Expr::constant(1)),
        dga_1_2_1_0.add(&dga_1_3_1_0).eq(&Expr::constant(1)),
        dga_1_2_1_1.add(&dga_1_3_1_1).eq(&Expr::constant(1)),
        dga_1_2_1_2.add(&dga_1_3_1_2).eq(&Expr::constant(1)),

        gis_1_3_0.add(&gis_1_4_0).eq(&Expr::constant(1)),
        dga_1_3_1_0.add(&dga_1_4_1_0).eq(&Expr::constant(1)),
        dga_1_3_1_1.add(&dga_1_4_1_1).eq(&Expr::constant(1)),
        dga_1_3_1_2.add(&dga_1_4_1_2).eq(&Expr::constant(1)),
    ]);

    assert_eq!(texts(&one_interrogation_per_period_contraints), expected_result);
}

#[test]
fn interrogations_per_week() {
    let general = GeneralData {
        periodicity_cuts: BTreeSet::new(),
        teacher_count: 2,
        week_count: NonZeroU32::new(2).unwrap(),
        interrogations_per_week: Some(1..3),
        max_interrogations_per_day: None,
    };

    let subjects = vec![
        Subject {
            students_per_group: NonZeroUsizeRange::new(NonZeroUsize::new(2).unwrap(), NonZeroUsize::new(3).unwrap()),
            max_groups_per_slot: NonZeroUsize::new(1).unwrap(),
            period: NonZeroU32::new(2).unwrap(),
            period_is_strict: true,
            duration: NonZeroU32::new(60).unwrap(),
            slots: vec![
                SlotWithTeacher {
                    cost: 0,
                    teacher: 0,
                    start: SlotStart {
                        week: 0,
                        weekday: time::Weekday::Monday,
                        start_time: time::Time::from_hm(8, 0).unwrap(),
                    },
                },
                SlotWithTeacher {
                    cost: 0,
                    teacher: 0,
                    start: SlotStart {
                        week: 1,
                        weekday: time::Weekday::Tuesday,
                        start_time: time::Time::from_hm(8, 0).unwrap(),
                    },
                },
            ],
            groups: GroupsDesc {
                prefilled_groups: vec![
                    GroupDesc {
                        students: BTreeSet::from([0, 1, 2]),
                        can_be_extended: false,
                    },
                    GroupDesc {
                        students: BTreeSet::new(),
                        can_be_extended: true,
                    },
                ],
                not_assigned: BTreeSet::from([3, 4, 5]),
            },
            ..Subject::default()
        },
        Subject {
            students_per_group: NonZeroUsizeRange::new(NonZeroUsize::new(2).unwrap(), NonZeroUsize::new(3).unwrap()),
            max_groups_per_slot: NonZeroUsize::new(1).unwrap(),
            period: NonZeroU32::new(2).unwrap(),
            period_is_strict: true,
            duration: NonZeroU32::new(60).unwrap(),
            slots: vec![
                SlotWithTeacher {
                    cost: 0,
                    teacher: 1,
                    start: SlotStart {
                        week: 0,
                        weekday: time::Weekday::Monday,
                        start_time: time::Time::from_hm(8, 0).unwrap(),
                    },
                },
                SlotWithTeacher {
                    cost: 0,
                    teacher: 1,
                    start: SlotStart {
                        week: 1,
                        weekday: time::Weekday::Tuesday,
                        start_time: time::Time::from_hm(8, 0).unwrap(),
                    },
                },
            ],
            groups: GroupsDesc {
                prefilled_groups: vec![
                    GroupDesc {
                        students: BTreeSet::from([3, 4, 5]),
                        can_be_extended: false,
                    },
                    GroupDesc {
                        students: BTreeSet::new(),
                        can_be_extended: true,
                    },
                ],
                not_assigned: BTreeSet::from([0, 1, 2]),
            },
            ..Subject::default()
        },
        Subject {
            students_per_group: NonZeroUsizeRange::new(NonZeroUsize::new(2).unwrap(), NonZeroUsize::new(3).unwrap()),
            max_groups_per_slot: NonZeroUsize::new(8).unwrap(),
            period: NonZeroU32::new(2).unwrap(),
            period_is_strict: true,
            is_tutorial: true,
            duration: NonZeroU32::new(60).unwrap(),
            slots: vec![
                SlotWithTeacher {
                    cost: 0,
                    teacher: 1,
                    start: SlotStart {
                        week: 0,
                        weekday: time::Weekday::Friday,
                        start_time: time::Time::from_hm(8, 0).unwrap(),
                    },
                },
                SlotWithTeacher {
                    cost: 0,
                    teacher: 1,
                    start: SlotStart {
                        week: 1,
                        weekday: time::Weekday::Friday,
                        start_time: time::Time::from_hm(8, 0).unwrap(),
                    },
                },
            ],
            groups: GroupsDesc {
                prefilled_groups: vec![
                    GroupDesc {
                        students: BTreeSet::from([3, 4, 5]),
                        can_be_extended: false,
                    },
                    GroupDesc {
                        students: BTreeSet::new(),
                        can_be_extended: true,
                    },
                ],
                not_assigned: BTreeSet::from([0, 1, 2]),
            },
            ..Subject::default()
        },
    ];
    let incompatibility_groups = IncompatibilityGroupList::new();
    let incompatibilities = vec![];
    let students = vec![
        Student {
            incompatibilities: BTreeSet::new(),
        },
        Student {
            incompatibilities: BTreeSet::new(),
        },
        Student {
            incompatibilities: BTreeSet::new(),
        },
        Student {
            incompatibilities: BTreeSet::new(),
        },
        Student {
            incompatibilities: BTreeSet::new(),
        },
        Student {
            incompatibilities: BTreeSet::new(),
        },
    ];
    let slot_groupings = vec![];
    let grouping_incompats = SlotGroupingIncompatSet::new();

    let data = ValidatedData::new(
        general,
        subjects,
        incompatibility_groups,
        incompatibilities,
        students,
        slot_groupings,
        grouping_incompats,
    )
    .unwrap();

    let ilp_translator = data.ilp_translator();
    let interrogations_per_week_constraints =
        ilp_translator.build_interrogations_per_week_constraints();
    let gis_0_0_0 = Expr::var(&Variable::GroupInSlot { subject: 0, slot: 0, group: 0 }.to_string());
    let gis_0_1_0 = Expr::var(&Variable::GroupInSlot { subject: 0, slot: 1, group: 0 }.to_string());
    let gis_1_0_0 = Expr::var(&Variable::GroupInSlot { subject: 1, slot: 0, group: 0 }.to_string());
    let gis_1_1_0 = Expr::var(&Variable::GroupInSlot { subject: 1, slot: 1, group: 0 }.to_string());
    let dga_0_0_1_3 = Expr::var(&Variable::DynamicGroupAssignment { subject: 0, slot: 0, group: 1, student: 3 }.to_string());
    let dga_0_0_1_4 = Expr::var(&Variable::DynamicGroupAssignment { subject: 0, slot: 0, group: 1, student: 4 }.to_string());
    let dga_0_0_1_5 = Expr::var(&Variable::DynamicGroupAssignment { subject: 0, slot: 0, group: 1, student: 5 }.to_string());
    let dga_0_1_1_3 = Expr::var(&Variable::DynamicGroupAssignment { subject: 0, slot: 1, group: 1, student: 3 }.to_string());
    let dga_0_1_1_4 = Expr::var(&Variable::DynamicGroupAssignment { subject: 0, slot: 1, group: 1, student: 4 }.to_string());
    let dga_0_1_1_5 = Expr::var(&Variable::DynamicGroupAssignment { subject: 0, slot: 1, group: 1, student: 5 }.to_string());
    let dga_1_0_1_0 = Expr::var(&Variable::DynamicGroupAssignment { subject: 1, slot: 0, group: 1, student: 0 }.to_string());
    let dga_1_0_1_1 = Expr::var(&Variable::DynamicGroupAssignment { subject: 1, slot: 0, group: 1, student: 1 }.to_string());
    let dga_1_0_1_2 = Expr::var(&Variable::DynamicGroupAssignment { subject: 1, slot: 0, group: 1, student: 2 }.to_string());
    let dga_1_1_1_0 = Expr::var(&Variable::DynamicGroupAssignment { subject: 1, slot: 1, group: 1, student: 0 }.to_string());
    let dga_1_1_1_1 = Expr::var(&Variable::DynamicGroupAssignment { subject: 1, slot: 1, group: 1, student: 1 }.to_string());
    let dga_1_1_1_2 = Expr::var(&Variable::DynamicGroupAssignment { subject: 1, slot: 1, group: 1, student: 2 }.to_string());
    let expected_result = texts(&[
        gis_0_0_0.add(&dga_1_0_1_0).leq(&Expr::constant(2)),
        gis_0_0_0.add(&dga_1_0_1_0).geq(&Expr::constant(1)),
        gis_0_0_0.add(&dga_1_0_1_1).leq(&Expr::constant(2)),
        gis_0_0_0.add(&dga_1_0_1_1).geq(&Expr::constant(1)),
        gis_0_0_0.add(&dga_1_0_1_2).leq(&Expr::constant(2)),
        gis_0_0_0.add(&dga_1_0_1_2).geq(&Expr::constant(1)),

        gis_0_1_0.add(&dga_1_1_1_0).leq(&Expr::constant(2)),
        gis_0_1_0.add(&dga_1_1_1_0).geq(&Expr::constant(1)),
        gis_0_1_0.add(&dga_1_1_1_1).leq(&Expr::constant(2)),
        gis_0_1_0.add(&dga_1_1_1_1).geq(&Expr::constant(1)),
        gis_0_1_0.add(&dga_1_1_1_2).leq(&Expr::constant(2)),
        gis_0_1_0.add(&dga_1_1_1_2).geq(&Expr::constant(1)),

        dga_0_0_1_3.add(&gis_1_0_0).leq(&Expr::constant(2)),
        dga_0_0_1_3.add(&gis_1_0_0).geq(&Expr::constant(1)),
        dga_0_0_1_4.add(&gis_1_0_0).leq(&Expr::constant(2)),
        dga_0_0_1_4.add(&gis_1_0_0).geq(&Expr::constant(1)),
        dga_0_0_1_5.add(&gis_1_0_0).leq(&Expr::constant(2)),
        dga_0_0_1_5.add(&gis_1_0_0).geq(&Expr::constant(1)),

        dga_0_1_1_3.add(&gis_1_1_0).leq(&Expr::constant(2)),
        dga_0_1_1_3.add(&gis_1_1_0).geq(&Expr::constant(1)),
        dga_0_1_1_4.add(&gis_1_1_0).leq(&Expr::constant(2)),
        dga_0_1_1_4.add(&gis_1_1_0).geq(&Expr::constant(1)),
        dga_0_1_1_5.add(&gis_1_1_0).leq(&Expr::constant(2)),
        dga_0_1_1_5.add(&gis_1_1_0).geq(&Expr::constant(1)),
    ]);

    assert_eq!(texts(&interrogations_per_week_constraints), expected_result);
}

#[test]
fn at_most_one_interrogation_per_empty_group() {
    let general = GeneralData {
        periodicity_cuts: BTreeSet::new(),
        teacher_count: 2,
        week_count: NonZeroU32::new(2).unwrap(),
        interrogations_per_week: None,
        max_interrogations_per_day: None,
    };

    let subjects = vec![Subject {
        students_per_group: NonZeroUsizeRange::new(NonZeroUsize::new(2).unwrap(), NonZeroUsize::new(3).unwrap()),
        max_groups_per_slot: NonZeroUsize::new(1).unwrap(),
        period: NonZeroU32::new(2).unwrap(),
        period_is_strict: true,
        duration: NonZeroU32::new(60).unwrap(),
        slots: vec![
            SlotWithTeacher {
                cost: 0,
                teacher: 0,
                start: SlotStart {
                    week: 0,
                    weekday: time::Weekday::Monday,
                    start_time: time::Time::from_hm(8, 0).unwrap(),
                },
            },
            SlotWithTeacher {
                cost: 0,
                teacher: 1,
                start: SlotStart {
                    week: 0,
                    weekday: time::Weekday::Tuesday,
                    start_time: time::Time::from_hm(8, 0).unwrap(),
                },
            },
        ],
        groups: GroupsDesc {
            prefilled_groups: vec![
                GroupDesc {
                    students: BTreeSet::from([0, 1, 2]),
                    can_be_extended: false,
                },
                GroupDesc {
                    students: BTreeSet::new(),
                    can_be_extended: true,
                },
            ],
            not_assigned: BTreeSet::from([3, 4, 5]),
        },
        ..Subject::default()
    }];
    let incompatibility_groups = IncompatibilityGroupList::new();
    let incompatibilities = vec![];
    let students = vec![
        Student {
            incompatibilities: BTreeSet::new(),
        },
        Student {
            incompatibilities: BTreeSet::new(),
        },
        Student {
            incompatibilities: BTreeSet::new(),
        },
        Student {
            incompatibilities: BTreeSet::new(),
        },
        Student {
            incompatibilities: BTreeSet::new(),
        },
        Student {
            incompatibilities: BTreeSet::new(),
        },
    ];
    let slot_groupings = vec![];
    let grouping_incompats = SlotGroupingIncompatSet::new();

    let data = ValidatedData::new(
        general,
        subjects,
        incompatibility_groups,
        incompatibilities,
        students,
        slot_groupings,
        grouping_incompats,
    )
    .unwrap();

    let ilp_translator = data.ilp_translator();
    let at_most_one_interrogation_per_period_for_empty_groups_contraints =
        ilp_translator.build_at_most_one_interrogation_per_period_for_empty_groups_contraints();
    let gis_0_0_1 = Expr::var(&Variable::GroupInSlot { subject: 0, slot: 0, group: 1 }.to_string());
    let gis_0_1_1 = Expr::var(&Variable::GroupInSlot { subject: 0, slot: 1, group: 1 }.to_string());
    let expected_result = texts(&[
        gis_0_0_1.add(&gis_0_1_1).leq(&Expr::constant(1)),
    ]);

    assert_eq!(texts(&at_most_one_interrogation_per_period_for_empty_groups_contraints), expected_result);
}

#[test]
fn max_interrogations_per_day() {
    let general = GeneralData {
        periodicity_cuts: BTreeSet::new(),
        teacher_count: 2,
        week_count: NonZeroU32::new(2).unwrap(),
        interrogations_per_week: None,
        max_interrogations_per_day: Some(NonZeroU32::new(1).unwrap()),
    };

    let subjects = vec![
        Subject {
            students_per_group: NonZeroUsizeRange::new(NonZeroUsize::new(2).unwrap(), NonZeroUsize::new(3).unwrap()),
            max_groups_per_slot: NonZeroUsize::new(1).unwrap(),
            period: NonZeroU32::new(2).unwrap(),
            period_is_strict: true,
            duration: NonZeroU32::new(60).unwrap(),
            slots: vec![
                SlotWithTeacher {
                    cost: 0,
                    teacher: 0,
                    start: SlotStart {
                        week: 0,
                        weekday: time::Weekday::Monday,
                        start_time: time::Time::from_hm(8, 0).unwrap(),
                    },
                },
                SlotWithTeacher {
                    cost: 0,
                    teacher: 0,
                    start: SlotStart {
                        week: 0,
                        weekday: time::Weekday::Tuesday,
                        start_time: time::Time::from_hm(8, 0).unwrap(),
                    },
                },
            ],
            groups: GroupsDesc {
                prefilled_groups: vec![
                    GroupDesc {
                        students: BTreeSet::from([0, 1, 2]),
                        can_be_extended: false,
                    },
                    GroupDesc {
                        students: BTreeSet::new(),
                        can_be_extended: true,
                    },
                ],
                not_assigned: BTreeSet::from([3, 4, 5]),
            },
            ..Subject::default()
        },
        Subject {
            students_per_group: NonZeroUsizeRange::new(NonZeroUsize::new(2).unwrap(), NonZeroUsize::new(3).unwrap()),
            max_groups_per_slot: NonZeroUsize::new(1).unwrap(),
            period: NonZeroU32::new(2).unwrap(),
            period_is_strict: true,
            duration: NonZeroU32::new(60).unwrap(),
            slots: vec![
                SlotWithTeacher {
                    cost: 0,
                    teacher: 1,
                    start: SlotStart {
                        week: 0,
                        weekday: time::Weekday::Monday,
                        start_time: time::Time::from_hm(8, 0).unwrap(),
                    },
                },
                SlotWithTeacher {
                    cost: 0,
                    teacher: 1,
                    start: SlotStart {
                        week: 0,
                        weekday: time::Weekday::Tuesday,
                        start_time: time::Time::from_hm(8, 0).unwrap(),
                    },
                },
            ],
            groups: GroupsDesc {
                prefilled_groups: vec![
                    GroupDesc {
                        students: BTreeSet::from([3, 4, 5]),
                        can_be_extended: false,
                    },
                    GroupDesc {
                        students: BTreeSet::new(),
                        can_be_extended: true,
                    },
                ],
                not_assigned: BTreeSet::from([0, 1, 2]),
            },
            ..Subject::default()
        },
        Subject {
            students_per_group: NonZeroUsizeRange::new(NonZeroUsize::new(2).unwrap(), NonZeroUsize::new(3).unwrap()),
            max_groups_per_slot: NonZeroUsize::new(8).unwrap(),
            period: NonZeroU32::new(2).unwrap(),
            period_is_strict: true,
            is_tutorial: true,
            duration: NonZeroU32::new(60).unwrap(),
            slots: vec![
                SlotWithTeacher {
                    cost: 0,
                    teacher: 1,
                    start: SlotStart {
                        week: 0,
                        weekday: time::Weekday::Friday,
                        start_time: time::Time::from_hm(8, 0).unwrap(),
                    },
                },
                SlotWithTeacher {
                    cost: 0,
                    teacher: 1,
                    start: SlotStart {
                        week: 1,
                        weekday: time::Weekday::Friday,
                        start_time: time::Time::from_hm(8, 0).unwrap(),
                    },
                },
            ],
            groups: GroupsDesc {
                prefilled_groups: vec![
                    GroupDesc {
                        students: BTreeSet::from([3, 4, 5]),
                        can_be_extended: false,
                    },
                    GroupDesc {
                        students: BTreeSet::new(),
                        can_be_extended: true,
                    },
                ],
                not_assigned: BTreeSet::from([0, 1, 2]),
            },
            ..Subject::default()
        },
    ];
    let incompatibility_groups = IncompatibilityGroupList::new();
    let incompatibilities = vec![];
    let students = vec![
        Student {
            incompatibilities: BTreeSet::new(),
        },
        Student {
            incompatibilities: BTreeSet::new(),
        },
        Student {
            incompatibilities: BTreeSet::new(),
        },
        Student {
            incompatibilities: BTreeSet::new(),
        },
        Student {
            incompatibilities: BTreeSet::new(),
        },
        Student {
            incompatibilities: BTreeSet::new(),
        },
    ];
    let slot_groupings = vec![];
    let grouping_incompats = SlotGroupingIncompatSet::new();

    let data = ValidatedData::new(
        general,
        subjects,
        incompatibility_groups,
        incompatibilities,
        students,
        slot_groupings,
        grouping_incompats,
    )
    .unwrap();

    let ilp_translator = data.ilp_translator();
    let interrogations_per_week_constraints =
        ilp_translator.build_max_interrogations_per_day_constraints();
    let gis_0_0_0 = Expr::var(&Variable::GroupInSlot { subject: 0, slot: 0, group: 0 }.to_string());
    let gis_0_1_0 = Expr::var(&Variable::GroupInSlot { subject: 0, slot: 1, group: 0 }.to_string());
    let gis_1_0_0 = Expr::var(&Variable::GroupInSlot { subject: 1, slot: 0, group: 0 }.to_string());
    let gis_1_1_0 = Expr::var(&Variable::GroupInSlot { subject: 1, slot: 1, group: 0 }.to_string());
    let dga_0_0_1_3 = Expr::var(&Variable::DynamicGroupAssignment { subject: 0, slot: 0, group: 1, student: 3 }.to_string());
    let dga_0_0_1_4 = Expr::var(&Variable::DynamicGroupAssignment { subject: 0, slot: 0, group: 1, student: 4 }.to_string());
    let dga_0_0_1_5 = Expr::var(&Variable::DynamicGroupAssignment { subject: 0, slot: 0, group: 1, student: 5 }.to_string());
    let dga_0_1_1_3 = Expr::var(&Variable::DynamicGroupAssignment { subject: 0, slot: 1, group: 1, student: 3 }.to_string());
    let dga_0_1_1_4 = Expr::var(&Variable::DynamicGroupAssignment { subject: 0, slot: 1, group: 1, student: 4 }.to_string());
    let dga_0_1_1_5 = Expr::var(&Variable::DynamicGroupAssignment { subject: 0, slot: 1, group: 1, student: 5 }.to_string());
    let dga_1_0_1_0 = Expr::var(&Variable::DynamicGroupAssignment { subject: 1, slot: 0, group: 1, student: 0 }.to_string());
    let dga_1_0_1_1 = Expr::var(&Variable::DynamicGroupAssignment { subject: 1, slot: 0, group: 1, student: 1 }.to_string());
    let dga_1_0_1_2 = Expr::var(&Variable::DynamicGroupAssignment { subject: 1, slot: 0, group: 1, student: 2 }.to_string());
    let dga_1_1_1_0 = Expr::var(&Variable::DynamicGroupAssignment { subject: 1, slot: 1, group: 1, student: 0 }.to_string());
    let dga_1_1_1_1 = Expr::var(&Variable::DynamicGroupAssignment { subject: 1, slot: 1, group: 1, student: 1 }.to_string());
    let dga_1_1_1_2 = Expr::var(&Variable::DynamicGroupAssignment { subject: 1, slot: 1, group: 1, student: 2 }.to_string());
    let expected_result = texts(&[
        gis_0_0_0.add(&dga_1_0_1_0).leq(&Expr::constant(1)),
        gis_0_0_0.add(&dga_1_0_1_1).leq(&Expr::constant(1)),
        gis_0_0_0.add(&dga_1_0_1_2).leq(&Expr::constant(1)),

        gis_0_1_0.add(&dga_1_1_1_0).leq(&Expr::constant(1)),
        gis_0_1_0.add(&dga_1_1_1_1).leq(&Expr::constant(1)),
        gis_0_1_0.add(&dga_1_1_1_2).leq(&Expr::constant(1)),

        dga_0_0_1_3.add(&gis_1_0_0).leq(&Expr::constant(1)),
        dga_0_0_1_4.add(&gis_1_0_0).leq(&Expr::constant(1)),
        dga_0_0_1_5.add(&gis_1_0_0).leq(&Expr::constant(1)),

        dga_0_1_1_3.add(&gis_1_1_0).leq(&Expr::constant(1)),
        dga_0_1_1_4.add(&gis_1_1_0).leq(&Expr::constant(1)),
        dga_0_1_1_5.add(&gis_1_1_0).leq(&Expr::constant(1)),
    ]);

    assert_eq!(texts(&interrogations_per_week_constraints), expected_result);
}

#[test]
fn at_most_one_interrogation_per_time_unit_constraints() {
    let general = GeneralData {
        periodicity_cuts: BTreeSet::new(),
        teacher_count: 2,
        week_count: NonZeroU32::new(2).unwrap(),
        interrogations_per_week: None,
        max_interrogations_per_day: None,
    };

    let subjects = vec![
        Subject {
            students_per_group: NonZeroUsizeRange::new(NonZeroUsize::new(2).unwrap(), NonZeroUsize::new(3).unwrap()),
            max_groups_per_slot: NonZeroUsize::new(1).unwrap(),
            period: NonZeroU32::new(2).unwrap(),
            period_is_strict: true,
            duration: NonZeroU32::new(60).unwrap(),
            slots: vec![
                SlotWithTeacher {
                    cost: 0,
                    teacher: 0,
                    start: SlotStart {
                        week: 0,
                        weekday: time::Weekday::Monday,
                        start_time: time::Time::from_hm(8, 0).unwrap(),
                    },
                },
                SlotWithTeacher {
                    cost: 0,
                    teacher: 0,
                    start: SlotStart {
                        week: 0,
                        weekday: time::Weekday::Tuesday,
                        start_time: time::Time::from_hm(8, 0).unwrap(),
                    },
                },
            ],
            groups: GroupsDesc {
                prefilled_groups: vec![
                    GroupDesc {
                        students: BTreeSet::from([0, 1, 2]),
                        can_be_extended: false,
                    },
                    GroupDesc {
                        students: BTreeSet::new(),
                        can_be_extended: true,
                    },
                ],
                not_assigned: BTreeSet::from([3, 4, 5]),
            },
            ..Subject::default()
        },
        Subject {
            students_per_group: NonZeroUsizeRange::new(NonZeroUsize::new(2).unwrap(), NonZeroUsize::new(3).unwrap()),
            max_groups_per_slot: NonZeroUsize::new(1).unwrap(),
            period: NonZeroU32::new(2).unwrap(),
            period_is_strict: true,
            duration: NonZeroU32::new(60).unwrap(),
            slots: vec![
                SlotWithTeacher {
                    cost: 0,
                    teacher: 1,
                    start: SlotStart {
                        week: 0,
                        weekday: time::Weekday::Monday,
                        start_time: time::Time::from_hm(8, 0).unwrap(),
                    },
                },
                SlotWithTeacher {
                    cost: 0,
                    teacher: 1,
                    start: SlotStart {
                        week: 0,
                        weekday: time::Weekday::Tuesday,
                        start_time: time::Time::from_hm(8, 0).unwrap(),
                    },
                },
            ],
            groups: GroupsDesc {
                prefilled_groups: vec![
                    GroupDesc {
                        students: BTreeSet::from([3, 4, 5]),
                        can_be_extended: false,
                    },
                    GroupDesc {
                        students: BTreeSet::new(),
                        can_be_extended: true,
                    },
                ],
                not_assigned: BTreeSet::from([0, 1, 2]),
            },
            ..Subject::default()
        },
    ];
    let incompatibility_groups = IncompatibilityGroupList::new();
    let incompatibilities = vec![];
    let students = vec![
        Student {
            incompatibilities: BTreeSet::new(),
        },
        Student {
            incompatibilities: BTreeSet::new(),
        },
        Student {
            incompatibilities: BTreeSet::new(),
        },
        Student {
            incompatibilities: BTreeSet::new(),
        },
        Student {
            incompatibilities: BTreeSet::new(),
        },
        Student {
            incompatibilities: BTreeSet::new(),
        },
    ];
    let slot_groupings = vec![];
    let grouping_incompats = SlotGroupingIncompatSet::new();

    let data = ValidatedData::new(
        general,
        subjects,
        incompatibility_groups,
        incompatibilities,
        students,
        slot_groupings,
        grouping_incompats,
    )
    .unwrap();

    let ilp_translator = data.ilp_translator();
    let at_most_one_interrogation_per_time_unit_constraints =
        ilp_translator.build_at_most_one_interrogation_per_time_unit_constraints();
    let gis_0_0_0 = Expr::var(&Variable::GroupInSlot { subject: 0, slot: 0, group: 0 }.to_string());
    let gis_0_1_0 = Expr::var(&Variable::GroupInSlot { subject: 0, slot: 1, group: 0 }.to_string());
    let gis_1_0_0 = Expr::var(&Variable::GroupInSlot { subject: 1, slot: 0, group: 0 }.to_string());
    let gis_1_1_0 = Expr::var(&Variable::GroupInSlot { subject: 1, slot: 1, group: 0 }.to_string());
    let dga_0_0_1_3 = Expr::var(&Variable::DynamicGroupAssignment { subject: 0, slot: 0, group: 1, student: 3 }.to_string());
    let dga_0_0_1_4 = Expr::var(&Variable::DynamicGroupAssignment { subject: 0, slot: 0, group: 1, student: 4 }.to_string());
    let dga_0_0_1_5 = Expr::var(&Variable::DynamicGroupAssignment { subject: 0, slot: 0, group: 1, student: 5 }.to_string());
    let dga_0_1_1_3 = Expr::var(&Variable::DynamicGroupAssignment { subject: 0, slot: 1, group: 1, student: 3 }.to_string());
    let dga_0_1_1_4 = Expr::var(&Variable::DynamicGroupAssignment { subject: 0, slot: 1, group: 1, student: 4 }.to_string());
    let dga_0_1_1_5 = Expr::var(&Variable::DynamicGroupAssignment { subject: 0, slot: 1, group: 1, student: 5 }.to_string());
    let dga_1_0_1_0 = Expr::var(&Variable::DynamicGroupAssignment { subject: 1, slot: 0, group: 1, student: 0 }.to_string());
    let dga_1_0_1_1 = Expr::var(&Variable::DynamicGroupAssignment { subject: 1, slot: 0, group: 1, student: 1 }.to_string());
    let dga_1_0_1_2 = Expr::var(&Variable::DynamicGroupAssignment { subject: 1, slot: 0, group: 1, student: 2 }.to_string());
    let dga_1_1_1_0 = Expr::var(&Variable::DynamicGroupAssignment { subject: 1, slot: 1, group: 1, student: 0 }.to_string());
    let dga_1_1_1_1 = Expr::var(&Variable::DynamicGroupAssignment { subject: 1, slot: 1, group: 1, student: 1 }.to_string());
    let dga_1_1_1_2 = Expr::var(&Variable::DynamicGroupAssignment { subject: 1, slot: 1, group: 1, student: 2 }.to_string());
    let expected_result = texts(&[
        gis_0_0_0.add(&dga_1_0_1_0).leq(&Expr::constant(1)),
        gis_0_0_0.add(&dga_1_0_1_1).leq(&Expr::constant(1)),
        gis_0_0_0.add(&dga_1_0_1_2).leq(&Expr::constant(1)),

        gis_0_1_0.add(&dga_1_1_1_0).leq(&Expr::constant(1)),
        gis_0_1_0.add(&dga_1_1_1_1).leq(&Expr::constant(1)),
        gis_0_1_0.add(&dga_1_1_1_2).leq(&Expr::constant(1)),

        gis_1_0_0.add(&dga_0_0_1_3).leq(&Expr::constant(1)),
        gis_1_0_0.add(&dga_0_0_1_4).leq(&Expr::constant(1)),
        gis_1_0_0.add(&dga_0_0_1_5).leq(&Expr::constant(1)),

        gis_1_1_0.add(&dga_0_1_1_3).leq(&Expr::constant(1)),
        gis_1_1_0.add(&dga_0_1_1_4).leq(&Expr::constant(1)),
        gis_1_1_0.add(&dga_0_1_1_5).leq(&Expr::constant(1)),
    ]);

    assert_eq!(texts(&at_most_one_interrogation_per_time_unit_constraints), expected_result);
}

