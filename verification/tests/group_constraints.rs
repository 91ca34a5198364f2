use std::collections::BTreeSet;

use collomatique::colloscope::{
    GeneralData, GroupDesc, GroupsDesc, IncompatibilityGroupList, SlotGroupingIncompatSet,
    SlotStart, SlotWithTeacher, Student, Subject, Variable,
};
use collomatique::linexpr::{Constraint, Expr};
use collomatique::nonzero::{NonZeroU32, NonZeroUsize, NonZeroUsizeRange};
use collomatique::time;
use collomatique::validation::ValidatedData;

fn texts(cs: &[Constraint]) -> BTreeSet<String> {
    cs.iter().map(|c| c.to_string()).collect()
}

#[test]
fn at_most_max_groups_per_slot_constraints() {
    let general = GeneralData {
        periodicity_cuts: BTreeSet::new(),
        teacher_count: 2,
        week_count: NonZeroU32::new(2).unwrap(),
        interrogations_per_week: None,
        max_interrogations_per_day: None,
    };

    let subjects = vec![
        Subject {
            students_per_group: NonZeroUsizeRange::new(NonZeroUsize::new(2).unwrap(), NonZeroUsize::new(3).unwrap()),
            max_groups_per_slot: NonZeroUsize::new(1).unwrap(),
            period: NonZeroU32::new(2).unwrap(),
            period_is_strict: true,
            duration: NonZeroU32::new(60).unwrap(),
            slots: vec![
                SlotWithTeacher {
                    cost: 0,
                    teacher: 0,
                    start: SlotStart {
                        week: 0,
                        weekday: time::Weekday::Monday,
                        start_time: time::Time::from_hm(8, 0).unwrap(),
                    },
                },
                SlotWithTeacher {
                    cost: 0,
                    teacher: 0,
                    start: SlotStart {
                        week: 0,
                        weekday: time::Weekday::Tuesday,
                        start_time: time::Time::from_hm(17, 0).unwrap(),
                    },
                },
                SlotWithTeacher {
                    cost: 0,
                    teacher: 0,
                    start: SlotStart {
                        week: 1,
                        weekday: time::Weekday::Monday,
                        start_time: time::Time::from_hm(8, 0).unwrap(),
                    },
                },
                SlotWithTeacher {
                    cost: 0,
                    teacher: 0,
                    start: SlotStart {
                        week: 1,
                        weekday: time::Weekday::Tuesday,
                        start_time: time::Time::from_hm(17, 0).unwrap(),
                    },
                },
                SlotWithTeacher {
                    cost: 0,
                    teacher: 1,
                    start: SlotStart {
                        week: 0,
                        weekday: time::Weekday::Monday,
                        start_time: time::Time::from_hm(8, 0).unwrap(),
                    },
                },
                SlotWithTeacher {
                    cost: 0,
                    teacher: 1,
                    start: SlotStart {
                        week: 0,
                        weekday: time::Weekday::Tuesday,
                        start_time: time::Time::from_hm(17, 0).unwrap(),
                    },
                },
                SlotWithTeacher {
                    cost: 0,
                    teacher: 1,
                    start: SlotStart {
                        week: 1,
                        weekday: time::Weekday::Monday,
                        start_time: time::Time::from_hm(8, 0).unwrap(),
                    },
                },
                SlotWithTeacher {
                    cost: 0,
                    teacher: 1,
                    start: SlotStart {
                        week: 1,
                        weekday: time::Weekday::Tuesday,
                        start_time: time::Time::from_hm(17, 0).unwrap(),
                    },
                },
            ],
            groups: GroupsDesc {
                prefilled_groups: vec![
                    GroupDesc {
                        students: BTreeSet::from([0, 1, 2]),
                        can_be_extended: false,
                    },
                    GroupDesc {
                        students: BTreeSet::from([3, 4, 5]),
                        can_be_extended: false,
                    },
                    GroupDesc {
                        students: BTreeSet::new(),
                        can_be_extended: true,
                    },
                    GroupDesc {
                        students: BTreeSet::new(),
                        can_be_extended: true,
                    },
                ],
                not_assigned: BTreeSet::from([6, 7, 8, 9, 10, 11]),
            },
            ..Subject::default()
        },
        Subject {
            students_per_group: NonZeroUsizeRange::new(NonZeroUsize::new(2).unwrap(), NonZeroUsize::new(3).unwrap()),
            max_groups_per_slot: NonZeroUsize::new(2).unwrap(),
            period: NonZeroU32::new(2).unwrap(),
            duration: NonZeroU32::new(60).unwrap(),
            slots: vec![
                SlotWithTeacher {
                    cost: 0,
                    teacher: 0,
                    start: SlotStart {
                        week: 0,
                        weekday: time::Weekday::Thursday,
                        start_time: time::Time::from_hm(8, 0).unwrap(),
                    },
                },
                SlotWithTeacher {
                    cost: 0,
                    teacher: 0,
                    start: SlotStart {
                        week: 1,
                        weekday: time::Weekday::Thursday,
                        start_time: time::Time::from_hm(8, 0).unwrap(),
                    },
                },
            ],
            groups: GroupsDesc {
                prefilled_groups: vec![
                    GroupDesc {
                        students: BTreeSet::from([0, 1, 2]),
                        can_be_extended: false,
                    },
                    GroupDesc {
                        students: BTreeSet::from([3, 4, 5]),
                        can_be_extended: false,
                    },
                ],
                not_assigned: BTreeSet::new(),
            },
            ..Subject::default()
        },
    ];
    let incompatibility_groups = IncompatibilityGroupList::new();
    let incompatibilities = vec![];
    let students = vec![
        Student {
            incompatibilities: BTreeSet::new(),
        },
        Student {
            incompatibilities: BTreeSet::new(),
        },
        Student {
            incompatibilities: BTreeSet::new(),
        },
        Student {
            incompatibilities: BTreeSet::new(),
        },
        Student {
            incompatibilities: BTreeSet::new(),
        },
        Student {
            incompatibilities: BTreeSet::new(),
        },
        Student {
            incompatibilities: BTreeSet::new(),
        },
        Student {
            incompatibilities: BTreeSet::new(),
        },
        Student {
            incompatibilities: BTreeSet::new(),
        },
        Student {
            incompatibilities: BTreeSet::new(),
        },
        Student {
            incompatibilities: BTreeSet::new(),
        },
        Student {
            incompatibilities: BTreeSet::new(),
        },
    ];
    let slot_groupings = vec![];
    let grouping_incompats = SlotGroupingIncompatSet::new();

    let data = ValidatedData::new(
        general,
        subjects,
        incompatibility_groups,
        incompatibilities,
        students,
        slot_groupings,
        grouping_incompats,
    )
    .unwrap();

    let ilp_translator = data.ilp_translator();
    let at_most_max_groups_per_slot_constraints =
        ilp_translator.build_at_most_max_groups_per_slot_constraints();
    let gis_0_0 = Expr::var(&Variable::GroupInSlot { subject: 0, slot: 0, group: 0 }.to_string());
    let gis_0_1 = Expr::var(&Variable::GroupInSlot { subject: 0, slot: 0, group: 1 }.to_string());
    let gis_0_2 = Expr::var(&Variable::GroupInSlot { subject: 0, slot: 0, group: 2 }.to_string());
    let gis_0_3 = Expr::var(&Variable::GroupInSlot { subject: 0, slot: 0, group: 3 }.to_string());
    let gis_1_0 = Expr::var(&Variable::GroupInSlot { subject: 0, slot: 1, group: 0 }.to_string());
    let gis_1_1 = Expr::var(&Variable::GroupInSlot { subject: 0, slot: 1, group: 1 }.to_string());
    let gis_1_2 = Expr::var(&Variable::GroupInSlot { subject: 0, slot: 1, group: 2 }.to_string());
    let gis_1_3 = Expr::var(&Variable::GroupInSlot { subject: 0, slot: 1, group: 3 }.to_string());
    let gis_2_0 = Expr::var(&Variable::GroupInSlot { subject: 0, slot: 2, group: 0 }.to_string());
    let gis_2_1 = Expr::var(&Variable::GroupInSlot { subject: 0, slot: 2, group: 1 }.to_string());
    let gis_2_2 = Expr::var(&Variable::GroupInSlot { subject: 0, slot: 2, group: 2 }.to_string());
    let gis_2_3 = Expr::var(&Variable::GroupInSlot { subject: 0, slot: 2, group: 3 }.to_string());
    let gis_3_0 = Expr::var(&Variable::GroupInSlot { subject: 0, slot: 3, group: 0 }.to_string());
    let gis_3_1 = Expr::var(&Variable::GroupInSlot { subject: 0, slot: 3, group: 1 }.to_string());
    let gis_3_2 = Expr::var(&Variable::GroupInSlot { subject: 0, slot: 3, group: 2 }.to_string());
    let gis_3_3 = Expr::var(&Variable::GroupInSlot { subject: 0, slot: 3, group: 3 }.to_string());
    let gis_4_0 = Expr::var(&Variable::GroupInSlot { subject: 0, slot: 4, group: 0 }.to_string());
    let gis_4_1 = Expr::var(&Variable::GroupInSlot { subject: 0, slot: 4, group: 1 }.to_string());
    let gis_4_2 = Expr::var(&Variable::GroupInSlot { subject: 0, slot: 4, group: 2 }.to_string());
    let gis_4_3 = Expr::var(&Variable::GroupInSlot { subject: 0, slot: 4, group: 3 }.to_string());
    let gis_5_0 = Expr::var(&Variable::GroupInSlot { subject: 0, slot: 5, group: 0 }.to_string());
    let gis_5_1 = Expr::var(&Variable::GroupInSlot { subject: 0, slot: 5, group: 1 }.to_string());
    let gis_5_2 = Expr::var(&Variable::GroupInSlot { subject: 0, slot: 5, group: 2 }.to_string());
    let gis_5_3 = Expr::var(&Variable::GroupInSlot { subject: 0, slot: 5, group: 3 }.to_string());
    let gis_6_0 = Expr::var(&Variable::GroupInSlot { subject: 0, slot: 6, group: 0 }.to_string());
    let gis_6_1 = Expr::var(&Variable::GroupInSlot { subject: 0, slot: 6, group: 1 }.to_string());
    let gis_6_2 = Expr::var(&Variable::GroupInSlot { subject: 0, slot: 6, group: 2 }.to_string());
    let gis_6_3 = Expr::var(&Variable::GroupInSlot { subject: 0, slot: 6, group: 3 }.to_string());
    let gis_7_0 = Expr::var(&Variable::GroupInSlot { subject: 0, slot: 7, group: 0 }.to_string());
    let gis_7_1 = Expr::var(&Variable::GroupInSlot { subject: 0, slot: 7, group: 1 }.to_string());
    let gis_7_2 = Expr::var(&Variable::GroupInSlot { subject: 0, slot: 7, group: 2 }.to_string());
    let gis_7_3 = Expr::var(&Variable::GroupInSlot { subject: 0, slot: 7, group: 3 }.to_string());
    let gis_1_0_0 = Expr::var(&Variable::GroupInSlot { subject: 1, slot: 0, group: 0 }.to_string());
    let gis_1_0_1 = Expr::var(&Variable::GroupInSlot { subject: 1, slot: 0, group: 1 }.to_string());
    let gis_1_1_0 = Expr::var(&Variable::GroupInSlot { subject: 1, slot: 1, group: 0 }.to_string());
    let gis_1_1_1 = Expr::var(&Variable::GroupInSlot { subject: 1, slot: 1, group: 1 }.to_string());
    let expected_result = texts(&[
        gis_0_0.add(&gis_0_1).add(&gis_0_2).add(&gis_0_3).leq(&Expr::constant(1)),
        gis_1_0.add(&gis_1_1).add(&gis_1_2).add(&gis_1_3).leq(&Expr::constant(1)),
        gis_2_0.add(&gis_2_1).add(&gis_2_2).add(&gis_2_3).leq(&Expr::constant(1)),
        gis_3_0.add(&gis_3_1).add(&gis_3_2).add(&gis_3_3).leq(&Expr::constant(1)),
        gis_4_0.add(&gis_4_1).add(&gis_4_2).add(&gis_4_3).leq(&Expr::constant(1)),
        gis_5_0.add(&gis_5_1).add(&gis_5_2).add(&gis_5_3).leq(&Expr::constant(1)),
        gis_6_0.add(&gis_6_1).add(&gis_6_2).add(&gis_6_3).leq(&Expr::constant(1)),
        gis_7_0.add(&gis_7_1).add(&gis_7_2).add(&gis_7_3).leq(&Expr::constant(1)),
        gis_1_0_0.add(&gis_1_0_1).leq(&Expr::constant(2)),
        gis_1_1_0.add(&gis_1_1_1).leq(&Expr::constant(2)),
    ]);

    assert_eq!(texts(&at_most_max_groups_per_slot_constraints), expected_result);
}

#[test]
fn students_per_group_count() {
    let general = GeneralData {
        periodicity_cuts: BTreeSet::new(),
        teacher_count: 2,
        week_count: NonZeroU32::new(2).unwrap(),
        interrogations_per_week: None,
        max_interrogations_per_day: None,
    };

    let subjects = vec![Subject {
        students_per_group: NonZeroUsizeRange::new(NonZeroUsize::new(2).unwrap(), NonZeroUsize::new(3).unwrap()),
        max_groups_per_slot: NonZeroUsize::new(1).unwrap(),
        period: NonZeroU32::new(2).unwrap(),
        period_is_strict: true,
        duration: NonZeroU32::new(60).unwrap(),
        slots: vec![
            SlotWithTeacher {
                cost: 0,
                teacher: 0,
                start: SlotStart {
                    week: 0,
                    weekday: time::Weekday::Monday,
                    start_time: time::Time::from_hm(8, 0).unwrap(),
                },
            },
            SlotWithTeacher {
                cost: 0,
                teacher: 1,
                start: SlotStart {
                    week: 0,
                    weekday: time::Weekday::Tuesday,
                    start_time: time::Time::from_hm(8, 0).unwrap(),
                },
            },
            SlotWithTeacher {
                cost: 0,
                teacher: 0,
                start: SlotStart {
                    week: 1,
                    weekday: time::Weekday::Monday,
                    start_time: time::Time::from_hm(8, 0).unwrap(),
                },
            },
            SlotWithTeacher {
                cost: 0,
                teacher: 1,
                start: SlotStart {
                    week: 1,
                    weekday: time::Weekday::Tuesday,
                    start_time: time::Time::from_hm(8, 0).unwrap(),
                },
            },
        ],
        groups: GroupsDesc {
            prefilled_groups: vec![
                GroupDesc {
                    students: BTreeSet::from([0, 1, 2]),
                    can_be_extended: false,
                },
                GroupDesc {
                    students: BTreeSet::from([3]),
                    can_be_extended: true,
                },
                GroupDesc {
                    students: BTreeSet::from([4, 5]),
                    can_be_extended: true,
                },
                GroupDesc {
                    students: BTreeSet::new(),
                    can_be_extended: true,
                },
            ],
            not_assigned: BTreeSet::from([6, 7, 8, 9, 10, 11]),
        },
        ..Subject::default()
    }];
    let incompatibility_groups = IncompatibilityGroupList::new();
    let incompatibilities = vec![];
    let students = vec![
        Student {
            incompatibilities: BTreeSet::new(),
        },
        Student {
            incompatibilities: BTreeSet::new(),
        },
        Student {
            incompatibilities: BTreeSet::new(),
        },
        Student {
            incompatibilities: BTreeSet::new(),
        },
        Student {
            incompatibilities: BTreeSet::new(),
        },
        Student {
            incompatibilities: BTreeSet::new(),
        },
        Student {
            incompatibilities: BTreeSet::new(),
        },
        Student {
            incompatibilities: BTreeSet::new(),
        },
        Student {
            incompatibilities: BTreeSet::new(),
        },
        Student {
            incompatibilities: BTreeSet::new(),
        },
        Student {
            incompatibilities: BTreeSet::new(),
        },
        Student {
            incompatibilities: BTreeSet::new(),
        },
    ];
    let slot_groupings = vec![];
    let grouping_incompats = SlotGroupingIncompatSet::new();

    let data = ValidatedData::new(
        general,
        subjects,
        incompatibility_groups,
        incompatibilities,
        students,
        slot_groupings,
        grouping_incompats,
    )
    .unwrap();

    let ilp_translator = data.ilp_translator();
    let students_per_group_count_constraints =
        ilp_translator.build_students_per_group_count_constraints();
    let sig_0_6_1 = Expr::var(&Variable::StudentInGroup { subject: 0, student: 6, group: 1 }.to_string());
    let sig_0_7_1 = Expr::var(&Variable::StudentInGroup { subject: 0, student: 7, group: 1 }.to_string());
    let sig_0_8_1 = Expr::var(&Variable::StudentInGroup { subject: 0, student: 8, group: 1 }.to_string());
    let sig_0_9_1 = Expr::var(&Variable::StudentInGroup { subject: 0, student: 9, group: 1 }.to_string());
    let sig_0_10_1 = Expr::var(&Variable::StudentInGroup { subject: 0, student: 10, group: 1 }.to_string());
    let sig_0_11_1 = Expr::var(&Variable::StudentInGroup { subject: 0, student: 11, group: 1 }.to_string());
    let sig_0_6_2 = Expr::var(&Variable::StudentInGroup { subject: 0, student: 6, group: 2 }.to_string());
    let sig_0_7_2 = Expr::var(&Variable::StudentInGroup { subject: 0, student: 7, group: 2 }.to_string());
    let sig_0_8_2 = Expr::var(&Variable::StudentInGroup { subject: 0, student: 8, group: 2 }.to_string());
    let sig_0_9_2 = Expr::var(&Variable::StudentInGroup { subject: 0, student: 9, group: 2 }.to_string());
    let sig_0_10_2 = Expr::var(&Variable::StudentInGroup { subject: 0, student: 10, group: 2 }.to_string());
    let sig_0_11_2 = Expr::var(&Variable::StudentInGroup { subject: 0, student: 11, group: 2 }.to_string());
    let sig_0_6_3 = Expr::var(&Variable::StudentInGroup { subject: 0, student: 6, group: 3 }.to_string());
    let sig_0_7_3 = Expr::var(&Variable::StudentInGroup { subject: 0, student: 7, group: 3 }.to_string());
    let sig_0_8_3 = Expr::var(&Variable::StudentInGroup { subject: 0, student: 8, group: 3 }.to_string());
    let sig_0_9_3 = Expr::var(&Variable::StudentInGroup { subject: 0, student: 9, group: 3 }.to_string());
    let sig_0_10_3 = Expr::var(&Variable::StudentInGroup { subject: 0, student: 10, group: 3 }.to_string());
    let sig_0_11_3 = Expr::var(&Variable::StudentInGroup { subject: 0, student: 11, group: 3 }.to_string());
    let expected_result = texts(&[
        sig_0_6_1.add(&sig_0_7_1).add(&sig_0_8_1).add(&sig_0_9_1).add(&sig_0_10_1).add(&sig_0_11_1).leq(&Expr::constant(2)),
        sig_0_6_1.add(&sig_0_7_1).add(&sig_0_8_1).add(&sig_0_9_1).add(&sig_0_10_1).add(&sig_0_11_1).geq(&Expr::constant(1)),

        sig_0_6_2.add(&sig_0_7_2).add(&sig_0_8_2).add(&sig_0_9_2).add(&sig_0_10_2).add(&sig_0_11_2).leq(&Expr::constant(1)),

        sig_0_6_3.add(&sig_0_7_3).add(&sig_0_8_3).add(&sig_0_9_3).add(&sig_0_10_3).add(&sig_0_11_3).leq(&Expr::constant(3)),
        sig_0_6_3.add(&sig_0_7_3).add(&sig_0_8_3).add(&sig_0_9_3).add(&sig_0_10_3).add(&sig_0_11_3).geq(&Expr::constant(2)),
    ]);

    assert_eq!(texts(&students_per_group_count_constraints), expected_result);
}

#[test]
fn student_in_single_group() {
    let general = GeneralData {
        periodicity_cuts: BTreeSet::new(),
        teacher_count: 2,
        week_count: NonZeroU32::new(2).unwrap(),
        interrogations_per_week: None,
        max_interrogations_per_day: None,
    };

    let subjects = vec![Subject {
        students_per_group: NonZeroUsizeRange::new(NonZeroUsize::new(2).unwrap(), NonZeroUsize::new(3).unwrap()),
        max_groups_per_slot: NonZeroUsize::new(1).unwrap(),
        period: NonZeroU32::new(2).unwrap(),
        period_is_strict: true,
        duration: NonZeroU32::new(60).unwrap(),
        slots: vec![
            SlotWithTeacher {
                cost: 0,
                teacher: 0,
                start: SlotStart {
                    week: 0,
                    weekday: time::Weekday::Monday,
                    start_time: time::Time::from_hm(8, 0).unwrap(),
                },
            },
            SlotWithTeacher {
                cost: 0,
                teacher: 1,
                start: SlotStart {
                    week: 0,
                    weekday: time::Weekday::Tuesday,
                    start_time: time::Time::from_hm(8, 0).unwrap(),
                },
            },
            SlotWithTeacher {
                cost: 0,
                teacher: 0,
                start: SlotStart {
                    week: 1,
                    weekday: time::Weekday::Monday,
                    start_time: time::Time::from_hm(8, 0).unwrap(),
                },
            },
            SlotWithTeacher {
                cost: 0,
                teacher: 1,
                start: SlotStart {
                    week: 1,
                    weekday: time::Weekday::Tuesday,
                    start_time: time::Time::from_hm(8, 0).unwrap(),
                },
            },
        ],
        groups: GroupsDesc {
            prefilled_groups: vec![
                GroupDesc {
                    students: BTreeSet::from([0, 1, 2]),
                    can_be_extended: false,
                },
                GroupDesc {
                    students: BTreeSet::from([3]),
                    can_be_extended: true,
                },
                GroupDesc {
                    students: BTreeSet::from([4, 5]),
                    can_be_extended: true,
                },
                GroupDesc {
                    students: BTreeSet::new(),
                    can_be_extended: true,
                },
            ],
            not_assigned: BTreeSet::from([6, 7, 8, 9, 10, 11]),
        },
        ..Subject::default()
    }];
    let incompatibility_groups = IncompatibilityGroupList::new();
    let incompatibilities = vec![];
    let students = vec![
        Student {
            incompatibilities: BTreeSet::new(),
        },
        Student {
            incompatibilities: BTreeSet::new(),
        },
        Student {
            incompatibilities: BTreeSet::new(),
        },
        Student {
            incompatibilities: BTreeSet::new(),
        },
        Student {
            incompatibilities: BTreeSet::new(),
        },
        Student {
            incompatibilities: BTreeSet::new(),
        },
        Student {
            incompatibilities: BTreeSet::new(),
        },
        Student {
            incompatibilities: BTreeSet::new(),
        },
        Student {
            incompatibilities: BTreeSet::new(),
        },
        Student {
            incompatibilities: BTreeSet::new(),
        },
        Student {
            incompatibilities: BTreeSet::new(),
        },
        Student {
            incompatibilities: BTreeSet::new(),
        },
    ];
    let slot_groupings = vec![];
    let grouping_incompats = SlotGroupingIncompatSet::new();

    let data = ValidatedData::new(
        general,
        subjects,
        incompatibility_groups,
        incompatibilities,
        students,
        slot_groupings,
        grouping_incompats,
    )
    .unwrap();

    let ilp_translator = data.ilp_translator();
    let student_in_single_group_constraints =
        ilp_translator.build_student_in_single_group_constraints();
    let sig_0_6_1 = Expr::var(&Variable::StudentInGroup { subject: 0, student: 6, group: 1 }.to_string());
    let sig_0_7_1 = Expr::var(&Variable::StudentInGroup { subject: 0, student: 7, group: 1 }.to_string());
    let sig_0_8_1 = Expr::var(&Variable::StudentInGroup { subject: 0, student: 8, group: 1 }.to_string());
    let sig_0_9_1 = Expr::var(&Variable::StudentInGroup { subject: 0, student: 9, group: 1 }.to_string());
    let sig_0_10_1 = Expr::var(&Variable::StudentInGroup { subject: 0, student: 10, group: 1 }.to_string());
    let sig_0_11_1 = Expr::var(&Variable::StudentInGroup { subject: 0, student: 11, group: 1 }.to_string());
    let sig_0_6_2 = Expr::var(&Variable::StudentInGroup { subject: 0, student: 6, group: 2 }.to_string());
    let sig_0_7_2 = Expr::var(&Variable::StudentInGroup { subject: 0, student: 7, group: 2 }.to_string());
    let sig_0_8_2 = Expr::var(&Variable::StudentInGroup { subject: 0, student: 8, group: 2 }.to_string());
    let sig_0_9_2 = Expr::var(&Variable::StudentInGroup { subject: 0, student: 9, group: 2 }.to_string());
    let sig_0_10_2 = Expr::var(&Variable::StudentInGroup { subject: 0, student: 10, group: 2 }.to_string());
    let sig_0_11_2 = Expr::var(&Variable::StudentInGroup { subject: 0, student: 11, group: 2 }.to_string());
    let sig_0_6_3 = Expr::var(&Variable::StudentInGroup { subject: 0, student: 6, group: 3 }.to_string());
    let sig_0_7_3 = Expr::var(&Variable::StudentInGroup { subject: 0, student: 7, group: 3 }.to_string());
    let sig_0_8_3 = Expr::var(&Variable::StudentInGroup { subject: 0, student: 8, group: 3 }.to_string());
    let sig_0_9_3 = Expr::var(&Variable::StudentInGroup { subject: 0, student: 9, group: 3 }.to_string());
    let sig_0_10_3 = Expr::var(&Variable::StudentInGroup { subject: 0, student: 10, group: 3 }.to_string());
    let sig_0_11_3 = Expr::var(&Variable::StudentInGroup { subject: 0, student: 11, group: 3 }.to_string());
    let expected_result = texts(&[
        sig_0_6_1.add(&sig_0_6_2).add(&sig_0_6_3).eq(&Expr::constant(1)),
        sig_0_7_1.add(&sig_0_7_2).add(&sig_0_7_3).eq(&Expr::constant(1)),
        sig_0_8_1.add(&sig_0_8_2).add(&sig_0_8_3).eq(&Expr::constant(1)),
        sig_0_9_1.add(&sig_0_9_2).add(&sig_0_9_3).eq(&Expr::constant(1)),
        sig_0_10_1.add(&sig_0_10_2).add(&sig_0_10_3).eq(&Expr::constant(1)),
        sig_0_11_1.add(&sig_0_11_2).add(&sig_0_11_3).eq(&Expr::constant(1)),
    ]);

    assert_eq!(texts(&student_in_single_group_constraints), expected_result);
}

#[test]
fn dynamic_groups_student_in_group_inequalities() {
    let general = GeneralData {
        periodicity_cuts: BTreeSet::new(),
        teacher_count: 2,
        week_count: NonZeroU32::new(2).unwrap(),
        interrogations_per_week: None,
        max_interrogations_per_day: None,
    };

    let subjects = vec![Subject {
        students_per_group: NonZeroUsizeRange::new(NonZeroUsize::new(2).unwrap(), NonZeroUsize::new(3).unwrap()),
        max_groups_per_slot: NonZeroUsize::new(1).unwrap(),
        period: NonZeroU32::new(2).unwrap(),
        period_is_strict: true,
        duration: NonZeroU32::new(60).unwrap(),
        slots: vec![
            SlotWithTeacher {
                cost: 0,
                teacher: 0,
                start: SlotStart {
                    week: 0,
                    weekday: time::Weekday::Monday,
                    start_time: time::Time::from_hm(8, 0).unwrap(),
                },
            },
            SlotWithTeacher {
                cost: 0,
                teacher: 1,
                start: SlotStart {
                    week: 0,
                    weekday: time::Weekday::Tuesday,
                    start_time: time::Time::from_hm(8, 0).unwrap(),
                },
            },
        ],
        groups: GroupsDesc {
            prefilled_groups: vec![
                GroupDesc {
                    students: BTreeSet::from([0, 1, 2]),
                    can_be_extended: false,
                },
                GroupDesc {
                    students: BTreeSet::new(),
                    can_be_extended: true,
                },
            ],
            not_assigned: BTreeSet::from([3, 4, 5]),
        },
        ..Subject::default()
    }];
    let incompatibility_groups = IncompatibilityGroupList::new();
    let incompatibilities = vec![];
    let students = vec![
        Student {
            incompatibilities: BTreeSet::new(),
        },
        Student {
            incompatibilities: BTreeSet::new(),
        },
        Student {
            incompatibilities: BTreeSet::new(),
        },
        Student {
            incompatibilities: BTreeSet::new(),
        },
        Student {
            incompatibilities: BTreeSet::new(),
        },
        Student {
            incompatibilities: BTreeSet::new(),
        },
    ];
    let slot_groupings = vec![];
    let grouping_incompats = SlotGroupingIncompatSet::new();

    let data = ValidatedData::new(
        general,
        subjects,
        incompatibility_groups,
        incompatibilities,
        students,
        slot_groupings,
        grouping_incompats,
    )
    .unwrap();

    let ilp_translator = data.ilp_translator();
    let dynamic_groups_student_in_group_constraints =
        ilp_translator.build_dynamic_groups_student_in_group_constraints();
    let sig_0_3_1 = Expr::var(&Variable::StudentInGroup { subject: 0, student: 3, group: 1 }.to_string());
    let sig_0_4_1 = Expr::var(&Variable::StudentInGroup { subject: 0, student: 4, group: 1 }.to_string());
    let sig_0_5_1 = Expr::var(&Variable::StudentInGroup { subject: 0, student: 5, group: 1 }.to_string());
    let dga_0_0_1_3 = Expr::var(&Variable::DynamicGroupAssignment { subject: 0, slot: 0, group: 1, student: 3 }.to_string());
    let dga_0_0_1_4 = Expr::var(&Variable::DynamicGroupAssignment { subject: 0, slot: 0, group: 1, student: 4 }.to_string());
    let dga_0_0_1_5 = Expr::var(&Variable::DynamicGroupAssignment { subject: 0, slot: 0, group: 1, student: 5 }.to_string());
    let dga_0_1_1_3 = Expr::var(&Variable::DynamicGroupAssignment { subject: 0, slot: 1, group: 1, student: 3 }.to_string());
    let dga_0_1_1_4 = Expr::var(&Variable::DynamicGroupAssignment { subject: 0, slot: 1, group: 1, student: 4 }.to_string());
    let dga_0_1_1_5 = Expr::var(&Variable::DynamicGroupAssignment { subject: 0, slot: 1, group: 1, student: 5 }.to_string());
    let expected_result = texts(&[
        dga_0_0_1_3.leq(&sig_0_3_1),
        dga_0_1_1_3.leq(&sig_0_3_1),

        dga_0_0_1_4.leq(&sig_0_4_1),
        dga_0_1_1_4.leq(&sig_0_4_1),

        dga_0_0_1_5.leq(&sig_0_5_1),
        dga_0_1_1_5.leq(&sig_0_5_1),
    ]);

    assert_eq!(texts(&dynamic_groups_student_in_group_constraints), expected_result);
}

#[test]
fn dynamic_groups_group_in_slot_inequalities() {
    let general = GeneralData {
        periodicity_cuts: BTreeSet::new(),
        teacher_count: 2,
        week_count: NonZeroU32::new(2).unwrap(),
        interrogations_per_week: None,
        max_interrogations_per_day: None,
    };

    let subjects = vec![Subject {
        students_per_group: NonZeroUsizeRange::new(NonZeroUsize::new(2).unwrap(), NonZeroUsize::new(3).unwrap()),
        max_groups_per_slot: NonZeroUsize::new(1).unwrap(),
        period: NonZeroU32::new(2).unwrap(),
        period_is_strict: true,
        duration: NonZeroU32::new(60).unwrap(),
        slots: vec![
            SlotWithTeacher {
                cost: 0,
                teacher: 0,
                start: SlotStart {
                    week: 0,
                    weekday: time::Weekday::Monday,
                    start_time: time::Time::from_hm(8, 0).unwrap(),
                },
            },
            SlotWithTeacher {
                cost: 0,
                teacher: 1,
                start: SlotStart {
                    week: 0,
                    weekday: time::Weekday::Tuesday,
                    start_time: time::Time::from_hm(8, 0).unwrap(),
                },
            },
        ],
        groups: GroupsDesc {
            prefilled_groups: vec![
                GroupDesc {
                    students: BTreeSet::from([0, 1, 2]),
                    can_be_extended: false,
                },
                GroupDesc {
                    students: BTreeSet::new(),
                    can_be_extended: true,
                },
            ],
            not_assigned: BTreeSet::from([3, 4, 5]),
        },
        ..Subject::default()
    }];
    let incompatibility_groups = IncompatibilityGroupList::new();
    let incompatibilities = vec![];
    let students = vec![
        Student {
            incompatibilities: BTreeSet::new(),
        },
        Student {
            incompatibilities: BTreeSet::new(),
        },
        Student {
            incompatibilities: BTreeSet::new(),
        },
        Student {
            incompatibilities: BTreeSet::new(),
        },
        Student {
            incompatibilities: BTreeSet::new(),
        },
        Student {
            incompatibilities: BTreeSet::new(),
        },
    ];
    let slot_groupings = vec![];
    let grouping_incompats = SlotGroupingIncompatSet::new();

    let data = ValidatedData::new(
        general,
        subjects,
        incompatibility_groups,
        incompatibilities,
        students,
        slot_groupings,
        grouping_incompats,
    )
    .unwrap();

    let ilp_translator = data.ilp_translator();
    let dynamic_groups_group_in_slot_constraints =
        ilp_translator.build_dynamic_groups_group_in_slot_constraints();
    let gis_0_0_1 = Expr::var(&Variable::GroupInSlot { subject: 0, slot: 0, group: 1 }.to_string());
    let gis_0_1_1 = Expr::var(&Variable::GroupInSlot { subject: 0, slot: 1, group: 1 }.to_string());
    let dga_0_0_1_3 = Expr::var(&Variable::DynamicGroupAssignment { subject: 0, slot: 0, group: 1, student: 3 }.to_string());
    let dga_0_0_1_4 = Expr::var(&Variable::DynamicGroupAssignment { subject: 0, slot: 0, group: 1, student: 4 }.to_string());
    let dga_0_0_1_5 = Expr::var(&Variable::DynamicGroupAssignment { subject: 0, slot: 0, group: 1, student: 5 }.to_string());
    let dga_0_1_1_3 = Expr::var(&Variable::DynamicGroupAssignment { subject: 0, slot: 1, group: 1, student: 3 }.to_string());
    let dga_0_1_1_4 = Expr::var(&Variable::DynamicGroupAssignment { subject: 0, slot: 1, group: 1, student: 4 }.to_string());
    let dga_0_1_1_5 = Expr::var(&Variable::DynamicGroupAssignment { subject: 0, slot: 1, group: 1, student: 5 }.to_string());
    let expected_result = texts(&[
        dga_0_0_1_3.leq(&gis_0_0_1),
        dga_0_0_1_4.leq(&gis_0_0_1),
        dga_0_0_1_5.leq(&gis_0_0_1),

        dga_0_1_1_3.leq(&gis_0_1_1),
        dga_0_1_1_4.leq(&gis_0_1_1),
        dga_0_1_1_5.leq(&gis_0_1_1),
    ]);

    assert_eq!(texts(&dynamic_groups_group_in_slot_constraints), expected_result);
}

