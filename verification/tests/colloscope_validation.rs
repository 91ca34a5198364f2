use std::collections::BTreeSet;

use collomatique::colloscope::{
    Error, GeneralData, GroupDesc, GroupsDesc, Incompatibility, IncompatibilityGroup,
    IncompatibilityGroupList, IncompatibilityList, SlotGrouping, SlotGroupingIncompat,
    SlotGroupingIncompatSet, SlotGroupingList, SlotRef, SlotStart, SlotWithDuration,
    SlotWithTeacher, Student, StudentList, Subject, SubjectList,
};
use collomatique::nonzero::{NonZeroU32, NonZeroUsize, NonZeroUsizeRange};
use collomatique::sorted::SortedVec;
use collomatique::time;
use collomatique::validation::ValidatedData;

fn trivial_validated_data_inputs() -> (
    GeneralData,
    SubjectList,
    IncompatibilityGroupList,
    IncompatibilityList,
    StudentList,
    SlotGroupingList,
    SlotGroupingIncompatSet,
) {
    let general = GeneralData {
        periodicity_cuts: BTreeSet::new(),
        teacher_count: 0,
        week_count: NonZeroU32::new(1).unwrap(),
        interrogations_per_week: None,
        max_interrogations_per_day: None,
    };

    let subjects = SubjectList::new();
    let incompatibility_groups = IncompatibilityGroupList::new();
    let incompatibilities = IncompatibilityList::new();
    let students = StudentList::new();

    let slot_groupings = SlotGroupingList::new();
    let grouping_incompats = SlotGroupingIncompatSet::new();

    (
        general,
        subjects,
        incompatibility_groups,
        incompatibilities,
        students,
        slot_groupings,
        grouping_incompats,
    )
}

#[test]
fn trivial_validated_data() {
    let (general, subjects, incompatibility_groups, incompatibilities, students, slot_groupings, grouping_incompats) =
        trivial_validated_data_inputs();
    let expected_result = trivial_validated_data_inputs();

    let result = ValidatedData::new(
        general,
        subjects,
        incompatibility_groups,
        incompatibilities,
        students,
        slot_groupings,
        grouping_incompats,
    );
    assert!(result.is_ok());
    let data = result.unwrap();
    assert_eq!(data.general(), &expected_result.0);
    assert_eq!(data.subjects(), &expected_result.1);
    assert_eq!(data.incompatibility_groups(), &expected_result.2);
    assert_eq!(data.incompatibilities(), &expected_result.3);
    assert_eq!(data.students(), &expected_result.4);
    assert_eq!(data.slot_groupings(), &expected_result.5);
    assert_eq!(data.slot_grouping_incompats(), &expected_result.6);
}

fn simple_validated_data_inputs() -> (
    GeneralData,
    SubjectList,
    IncompatibilityGroupList,
    IncompatibilityList,
    StudentList,
    SlotGroupingList,
    SlotGroupingIncompatSet,
) {
    let general = GeneralData {
        periodicity_cuts: BTreeSet::new(),
        teacher_count: 1,
        week_count: NonZeroU32::new(2).unwrap(),
        interrogations_per_week: None,
        max_interrogations_per_day: None,
    };

    let subjects = vec![Subject {
        students_per_group: NonZeroUsizeRange::new(NonZeroUsize::new(2).unwrap(), NonZeroUsize::new(3).unwrap()),
        max_groups_per_slot: NonZeroUsize::new(1).unwrap(),
        period: NonZeroU32::new(2).unwrap(),
        period_is_strict: true,
        duration: NonZeroU32::new(60).unwrap(),
        slots: vec![
            SlotWithTeacher {
                teacher: 0,
                start: SlotStart {
                    week: 0,
                    weekday: time::Weekday::Monday,
                    start_time: time::Time::from_hm(8, 0).unwrap(),
                },
                cost: 0,
            },
            SlotWithTeacher {
                teacher: 0,
                start: SlotStart {
                    week: 0,
                    weekday: time::Weekday::Tuesday,
                    start_time: time::Time::from_hm(17, 0).unwrap(),
                },
                cost: 0,
            },
            SlotWithTeacher {
                teacher: 0,
                start: SlotStart {
                    week: 0,
                    weekday: time::Weekday::Wednesday,
                    start_time: time::Time::from_hm(12, 0).unwrap(),
                },
                cost: 0,
            },
            SlotWithTeacher {
                teacher: 0,
                start: SlotStart {
                    week: 0,
                    weekday: time::Weekday::Wednesday,
                    start_time: time::Time::from_hm(13, 0).unwrap(),
                },
                cost: 0,
            },
        ],
        groups: GroupsDesc {
            prefilled_groups: vec![
                GroupDesc {
                    students: BTreeSet::from([0, 1, 2]),
                    can_be_extended: false,
                },
                GroupDesc {
                    students: BTreeSet::from([3, 4]),
                    can_be_extended: true,
                },
                GroupDesc {
                    students: BTreeSet::from([]),
                    can_be_extended: true,
                },
            ],
            not_assigned: BTreeSet::from([5, 6, 7, 8]),
        },
        ..Subject::default()
    }];
    let incompatibility_groups = vec![IncompatibilityGroup {
        slots: SortedVec::from_vec(vec![SlotWithDuration {
            duration: NonZeroU32::new(60).unwrap(),
            start: SlotStart {
                week: 0,
                weekday: time::Weekday::Monday,
                start_time: time::Time::from_hm(8, 0).unwrap(),
            },
        }]),
    }];
    let incompatibilities = vec![Incompatibility {
        groups: BTreeSet::from([0]),
        max_count: 0,
    }];
    let students = vec![
        Student {
            incompatibilities: BTreeSet::from([0]),
        },
        Student {
            incompatibilities: BTreeSet::from([0]),
        },
        Student {
            incompatibilities: BTreeSet::from([0]),
        },
        Student {
            incompatibilities: BTreeSet::new(),
        },
        Student {
            incompatibilities: BTreeSet::new(),
        },
        Student {
            incompatibilities: BTreeSet::new(),
        },
        Student {
            incompatibilities: BTreeSet::from([0]),
        },
        Student {
            incompatibilities: BTreeSet::from([0]),
        },
        Student {
            incompatibilities: BTreeSet::from([0]),
        },
    ];
    let slot_groupings = vec![
        SlotGrouping {
            slots: SortedVec::from_vec(vec![SlotRef {
                subject: 0,
                slot: 2,
            }]),
        },
        SlotGrouping {
            slots: SortedVec::from_vec(vec![SlotRef {
                subject: 0,
                slot: 3,
            }]),
        },
    ];
    let grouping_incompats = SlotGroupingIncompatSet::from_vec(vec![SlotGroupingIncompat {
        groupings: BTreeSet::from([0, 1]),
        max_count: NonZeroUsize::new(1).unwrap(),
    }]);

    (
        general,
        subjects,
        incompatibility_groups,
        incompatibilities,
        students,
        slot_groupings,
        grouping_incompats,
    )
}

#[test]
fn simple_validated_data() {
    let (general, subjects, incompatibility_groups, incompatibilities, students, slot_groupings, grouping_incompats) =
        simple_validated_data_inputs();
    let expected_result = simple_validated_data_inputs();

    let result = ValidatedData::new(
        general,
        subjects,
        incompatibility_groups,
        incompatibilities,
        students,
        slot_groupings,
        grouping_incompats,
    );
    assert!(result.is_ok());
    let data = result.unwrap();
    assert_eq!(data.general(), &expected_result.0);
    assert_eq!(data.subjects(), &expected_result.1);
    assert_eq!(data.incompatibility_groups(), &expected_result.2);
    assert_eq!(data.incompatibilities(), &expected_result.3);
    assert_eq!(data.students(), &expected_result.4);
    assert_eq!(data.slot_groupings(), &expected_result.5);
    assert_eq!(data.slot_grouping_incompats(), &expected_result.6);
}

#[test]
fn invalid_students_per_interrogation() {
    let general = GeneralData {
        periodicity_cuts: BTreeSet::new(),
        teacher_count: 1,
        week_count: NonZeroU32::new(2).unwrap(),
        interrogations_per_week: None,
        max_interrogations_per_day: None,
    };

    let subjects = vec![Subject {
        students_per_group: NonZeroUsizeRange::new(NonZeroUsize::new(2).unwrap(), NonZeroUsize::new(1).unwrap()),
        max_groups_per_slot: NonZeroUsize::new(1).unwrap(),
        period: NonZeroU32::new(2).unwrap(),
        period_is_strict: true,
        duration: NonZeroU32::new(60).unwrap(),
        slots: vec![SlotWithTeacher {
            teacher: 0,
            start: SlotStart {
                week: 0,
                weekday: time::Weekday::Monday,
                start_time: time::Time::from_hm(0, 0).unwrap(),
            },
            cost: 0,
        }],
        groups: GroupsDesc {
            prefilled_groups: vec![],
            not_assigned: BTreeSet::new(),
        },
        ..Subject::default()
    }];
    let incompatibility_groups = IncompatibilityGroupList::new();
    let incompatibilities = IncompatibilityList::new();
    let students = StudentList::new();
    let slot_groupings = SlotGroupingList::new();
    let grouping_incompats = SlotGroupingIncompatSet::new();

    assert_eq!(
        ValidatedData::new(
            general,
            subjects,
            incompatibility_groups,
            incompatibilities,
            students,
            slot_groupings,
            grouping_incompats
        ),
        Err(Error::SubjectWithInvalidStudentsPerSlotRange(
            0,
            NonZeroUsizeRange::new(NonZeroUsize::new(2).unwrap(), NonZeroUsize::new(1).unwrap())
        ))
    );
}

#[test]
fn subject_slot_overlaps_next_day() {
    let general = GeneralData {
        periodicity_cuts: BTreeSet::new(),
        teacher_count: 1,
        week_count: NonZeroU32::new(2).unwrap(),
        interrogations_per_week: None,
        max_interrogations_per_day: None,
    };

    let subjects = vec![Subject {
        students_per_group: NonZeroUsizeRange::new(NonZeroUsize::new(2).unwrap(), NonZeroUsize::new(3).unwrap()),
        max_groups_per_slot: NonZeroUsize::new(1).unwrap(),
        period: NonZeroU32::new(2).unwrap(),
        period_is_strict: true,
        duration: NonZeroU32::new(60).unwrap(),
        slots: vec![SlotWithTeacher {
            teacher: 0,
            start: SlotStart {
                week: 0,
                weekday: time::Weekday::Monday,
                start_time: time::Time::from_hm(23, 1).unwrap(),
            },
            cost: 0,
        }],
        groups: GroupsDesc {
            prefilled_groups: vec![],
            not_assigned: BTreeSet::new(),
        },
        ..Subject::default()
    }];
    let incompatibility_groups = IncompatibilityGroupList::new();
    let incompatibilities = IncompatibilityList::new();
    let students = StudentList::new();
    let slot_groupings = SlotGroupingList::new();
    let grouping_incompats = SlotGroupingIncompatSet::new();

    assert_eq!(
        ValidatedData::new(
            general,
            subjects,
            incompatibility_groups,
            incompatibilities,
            students,
            slot_groupings,
            grouping_incompats
        ),
        Err(Error::SubjectWithSlotOverlappingNextDay(0, 0))
    );
}

#[test]
fn incompatibility_slot_overlaps_next_day() {
    let general = GeneralData {
        periodicity_cuts: BTreeSet::new(),
        teacher_count: 0,
        week_count: NonZeroU32::new(1).unwrap(),
        interrogations_per_week: None,
        max_interrogations_per_day: None,
    };
    let subjects = SubjectList::new();
    let incompatibility_groups = vec![IncompatibilityGroup {
        slots: SortedVec::from_vec(vec![SlotWithDuration {
            duration: NonZeroU32::new(60).unwrap(),
            start: SlotStart {
                week: 0,
                weekday: time::Weekday::Monday,
                start_time: time::Time::from_hm(23, 1).unwrap(),
            },
        }]),
    }];
    let incompatibilities = vec![Incompatibility {
        groups: BTreeSet::from([0]),
        max_count: 0,
    }];
    let students = StudentList::new();
    let slot_groupings = SlotGroupingList::new();
    let grouping_incompats = SlotGroupingIncompatSet::new();
    assert_eq!(
        ValidatedData::new(
            general,
            subjects,
            incompatibility_groups,
            incompatibilities,
            students,
            slot_groupings,
            grouping_incompats
        ),
        Err(Error::IncompatibilityGroupWithSlotOverlappingNextDay(
            0,
            SlotWithDuration {
                duration: NonZeroU32::new(60).unwrap(),
                start: SlotStart {
                    week: 0,
                    weekday: time::Weekday::Monday,
                    start_time: time::Time::from_hm(23, 1).unwrap(),
                },
            }
        ))
    );
}

#[test]
fn invalid_teacher_number() {
    let general = GeneralData {
        periodicity_cuts: BTreeSet::new(),
        teacher_count: 1,
        week_count: NonZeroU32::new(2).unwrap(),
        interrogations_per_week: None,
        max_interrogations_per_day: None,
    };

    let subjects = vec![Subject {
        students_per_group: NonZeroUsizeRange::new(NonZeroUsize::new(2).unwrap(), NonZeroUsize::new(3).unwrap()),
        max_groups_per_slot: NonZeroUsize::new(1).unwrap(),
        period: NonZeroU32::new(2).unwrap(),
        period_is_strict: true,
        duration: NonZeroU32::new(60).unwrap(),
        slots: vec![SlotWithTeacher {
            teacher: 1,
            start: SlotStart {
                week: 0,
                weekday: time::Weekday::Monday,
                start_time: time::Time::from_hm(23, 0).unwrap(),
            },
            cost: 0,
        }],
        groups: GroupsDesc {
            prefilled_groups: vec![],
            not_assigned: BTreeSet::new(),
        },
        ..Subject::default()
    }];
    let incompatibility_groups = IncompatibilityGroupList::new();
    let incompatibilities = IncompatibilityList::new();
    let students = StudentList::new();
    let slot_groupings = SlotGroupingList::new();
    let grouping_incompats = SlotGroupingIncompatSet::new();

    assert_eq!(
        ValidatedData::new(
            general,
            subjects,
            incompatibility_groups,
            incompatibilities,
            students,
            slot_groupings,
            grouping_incompats
        ),
        Err(Error::SubjectWithInvalidTeacher(0, 0, 1))
    );
}

#[test]
fn invalid_incompatibility_number() {
    let general = GeneralData {
        periodicity_cuts: BTreeSet::new(),
        teacher_count: 1,
        week_count: NonZeroU32::new(1).unwrap(),
        interrogations_per_week: None,
        max_interrogations_per_day: None,
    };

    let subjects = SubjectList::new();
    let incompatibility_groups = vec![IncompatibilityGroup {
        slots: SortedVec::from_vec(vec![SlotWithDuration {
            duration: NonZeroU32::new(60).unwrap(),
            start: SlotStart {
                week: 0,
                weekday: time::Weekday::Monday,
                start_time: time::Time::from_hm(23, 0).unwrap(),
            },
        }]),
    }];
    let incompatibilities = vec![Incompatibility {
        groups: BTreeSet::from([0]),
        max_count: 0,
    }];
    let students = vec![Student {
        incompatibilities: BTreeSet::from([1]),
    }];
    let slot_groupings = SlotGroupingList::new();
    let grouping_incompats = SlotGroupingIncompatSet::new();

    assert_eq!(
        ValidatedData::new(
            general,
            subjects,
            incompatibility_groups,
            incompatibilities,
            students,
            slot_groupings,
            grouping_incompats
        ),
        Err(Error::StudentWithInvalidIncompatibility(0, 1))
    );
}

#[test]
fn slot_ref_has_invalid_subject() {
    let general = GeneralData {
        periodicity_cuts: BTreeSet::new(),
        teacher_count: 1,
        week_count: NonZeroU32::new(2).unwrap(),
        interrogations_per_week: None,
        max_interrogations_per_day: None,
    };

    let subjects = vec![
        Subject {
            students_per_group: NonZeroUsizeRange::new(NonZeroUsize::new(2).unwrap(), NonZeroUsize::new(3).unwrap()),
            max_groups_per_slot: NonZeroUsize::new(1).unwrap(),
            period: NonZeroU32::new(2).unwrap(),
            period_is_strict: true,
            duration: NonZeroU32::new(60).unwrap(),
            slots: vec![SlotWithTeacher {
                teacher: 0,
                start: SlotStart {
                    week: 0,
                    weekday: time::Weekday::Monday,
                    start_time: time::Time::from_hm(17, 0).unwrap(),
                },
                cost: 0,
            }],
            groups: GroupsDesc {
                prefilled_groups: vec![],
                not_assigned: BTreeSet::new(),
            },
            ..Subject::default()
        },
        Subject {
            students_per_group: NonZeroUsizeRange::new(NonZeroUsize::new(2).unwrap(), NonZeroUsize::new(3).unwrap()),
            max_groups_per_slot: NonZeroUsize::new(1).unwrap(),
            period: NonZeroU32::new(2).unwrap(),
            duration: NonZeroU32::new(60).unwrap(),
            slots: vec![SlotWithTeacher {
                teacher: 0,
                start: SlotStart {
                    week: 0,
                    weekday: time::Weekday::Tuesday,
                    start_time: time::Time::from_hm(8, 0).unwrap(),
                },
                cost: 0,
            }],
            groups: GroupsDesc {
                prefilled_groups: vec![],
                not_assigned: BTreeSet::new(),
            },
            ..Subject::default()
        },
    ];
    let incompatibility_groups = IncompatibilityGroupList::new();
    let incompatibilities = IncompatibilityList::new();
    let students = StudentList::new();
    let slot_groupings = vec![SlotGrouping {
        slots: SortedVec::from_vec(vec![
            SlotRef {
                subject: 1,
                slot: 0,
            },
            SlotRef {
                subject: 2,
                slot: 0,
            },
        ]),
    }];
    let grouping_incompats = SlotGroupingIncompatSet::new();

    assert_eq!(
        ValidatedData::new(
            general,
            subjects,
            incompatibility_groups,
            incompatibilities,
            students,
            slot_groupings,
            grouping_incompats
        ),
        Err(Error::SlotGroupingWithInvalidSubject(
            0,
            SlotRef {
                subject: 2,
                slot: 0,
            }
        ))
    );
}

#[test]
fn slot_ref_has_invalid_slot() {
    let general = GeneralData {
        periodicity_cuts: BTreeSet::new(),
        teacher_count: 1,
        week_count: NonZeroU32::new(2).unwrap(),
        interrogations_per_week: None,
        max_interrogations_per_day: None,
    };

    let subjects = vec![
        Subject {
            students_per_group: NonZeroUsizeRange::new(NonZeroUsize::new(2).unwrap(), NonZeroUsize::new(3).unwrap()),
            max_groups_per_slot: NonZeroUsize::new(1).unwrap(),
            period: NonZeroU32::new(2).unwrap(),
            period_is_strict: true,
            duration: NonZeroU32::new(60).unwrap(),
            slots: vec![SlotWithTeacher {
                teacher: 0,
                start: SlotStart {
                    week: 0,
                    weekday: time::Weekday::Monday,
                    start_time: time::Time::from_hm(17, 0).unwrap(),
                },
                cost: 0,
            }],
            groups: GroupsDesc {
                prefilled_groups: vec![],
                not_assigned: BTreeSet::new(),
            },
            ..Subject::default()
        },
        Subject {
            students_per_group: NonZeroUsizeRange::new(NonZeroUsize::new(2).unwrap(), NonZeroUsize::new(3).unwrap()),
            max_groups_per_slot: NonZeroUsize::new(1).unwrap(),
            period: NonZeroU32::new(2).unwrap(),
            duration: NonZeroU32::new(60).unwrap(),
            slots: vec![SlotWithTeacher {
                teacher: 0,
                start: SlotStart {
                    week: 0,
                    weekday: time::Weekday::Tuesday,
                    start_time: time::Time::from_hm(8, 0).unwrap(),
                },
                cost: 0,
            }],
            groups: GroupsDesc {
                prefilled_groups: vec![],
                not_assigned: BTreeSet::new(),
            },
            ..Subject::default()
        },
    ];
    let incompatibility_groups = IncompatibilityGroupList::new();
    let incompatibilities = IncompatibilityList::new();
    let students = StudentList::new();
    let slot_groupings = vec![SlotGrouping {
        slots: SortedVec::from_vec(vec![
            SlotRef {
                subject: 1,
                slot: 0,
            },
            SlotRef {
                subject: 0,
                slot: 1,
            },
        ]),
    }];
    let grouping_incompats = SlotGroupingIncompatSet::new();

    assert_eq!(
        ValidatedData::new(
            general,
            subjects,
            incompatibility_groups,
            incompatibilities,
            students,
            slot_groupings,
            grouping_incompats
        ),
        Err(Error::SlotGroupingWithInvalidSlot(
            0,
            SlotRef {
                subject: 0,
                slot: 1,
            }
        ))
    );
}

#[test]
fn slot_grouping_overlap() {
    let general = GeneralData {
        periodicity_cuts: BTreeSet::new(),
        teacher_count: 1,
        week_count: NonZeroU32::new(2).unwrap(),
        interrogations_per_week: None,
        max_interrogations_per_day: None,
    };

    let subjects = vec![
        Subject {
            students_per_group: NonZeroUsizeRange::new(NonZeroUsize::new(2).unwrap(), NonZeroUsize::new(3).unwrap()),
            max_groups_per_slot: NonZeroUsize::new(1).unwrap(),
            period: NonZeroU32::new(2).unwrap(),
            period_is_strict: true,
            duration: NonZeroU32::new(60).unwrap(),
            slots: vec![
                SlotWithTeacher {
                    teacher: 0,
                    start: SlotStart {
                        week: 0,
                        weekday: time::Weekday::Monday,
                        start_time: time::Time::from_hm(17, 0).unwrap(),
                    },
                    cost: 0,
                },
                SlotWithTeacher {
                    teacher: 0,
                    start: SlotStart {
                        week: 0,
                        weekday: time::Weekday::Tuesday,
                        start_time: time::Time::from_hm(8, 0).unwrap(),
                    },
                    cost: 0,
                },
            ],
            groups: GroupsDesc {
                prefilled_groups: vec![],
                not_assigned: BTreeSet::new(),
            },
            ..Subject::default()
        },
        Subject {
            students_per_group: NonZeroUsizeRange::new(NonZeroUsize::new(2).unwrap(), NonZeroUsize::new(3).unwrap()),
            max_groups_per_slot: NonZeroUsize::new(1).unwrap(),
            period: NonZeroU32::new(2).unwrap(),
            duration: NonZeroU32::new(60).unwrap(),
            slots: vec![SlotWithTeacher {
                teacher: 0,
                start: SlotStart {
                    week: 0,
                    weekday: time::Weekday::Tuesday,
                    start_time: time::Time::from_hm(8, 0).unwrap(),
                },
                cost: 0,
            }],
            groups: GroupsDesc {
                prefilled_groups: vec![],
                not_assigned: BTreeSet::new(),
            },
            ..Subject::default()
        },
    ];
    let incompatibility_groups = IncompatibilityGroupList::new();
    let incompatibilities = IncompatibilityList::new();
    let students = StudentList::new();
    let slot_groupings = vec![
        SlotGrouping {
            slots: SortedVec::from_vec(vec![
                SlotRef {
                    subject: 1,
                    slot: 0,
                },
                SlotRef {
                    subject: 0,
                    slot: 1,
                },
            ]),
        },
        SlotGrouping {
            slots: SortedVec::from_vec(vec![
                SlotRef {
                    subject: 0,
                    slot: 0,
                },
                SlotRef {
                    subject: 0,
                    slot: 1,
                },
            ]),
        },
    ];
    let grouping_incompats = SlotGroupingIncompatSet::new();

    assert_eq!(
        ValidatedData::new(
            general,
            subjects,
            incompatibility_groups,
            incompatibilities,
            students,
            slot_groupings,
            grouping_incompats
        ),
        Err(Error::SlotGroupingOverlap(
            0,
            1,
            SlotRef {
                subject: 0,
                slot: 1,
            }
        ))
    );
}

#[test]
fn grouping_incompact_invalid_ref() {
    let general = GeneralData {
        periodicity_cuts: BTreeSet::new(),
        teacher_count: 1,
        week_count: NonZeroU32::new(2).unwrap(),
        interrogations_per_week: None,
        max_interrogations_per_day: None,
    };

    let subjects = vec![
        Subject {
            students_per_group: NonZeroUsizeRange::new(NonZeroUsize::new(2).unwrap(), NonZeroUsize::new(3).unwrap()),
            max_groups_per_slot: NonZeroUsize::new(1).unwrap(),
            period: NonZeroU32::new(2).unwrap(),
            period_is_strict: true,
            duration: NonZeroU32::new(60).unwrap(),
            slots: vec![SlotWithTeacher {
                teacher: 0,
                start: SlotStart {
                    week: 0,
                    weekday: time::Weekday::Monday,
                    start_time: time::Time::from_hm(17, 0).unwrap(),
                },
                cost: 0,
            }],
            groups: GroupsDesc {
                prefilled_groups: vec![],
                not_assigned: BTreeSet::new(),
            },
            ..Subject::default()
        },
        Subject {
            students_per_group: NonZeroUsizeRange::new(NonZeroUsize::new(2).unwrap(), NonZeroUsize::new(3).unwrap()),
            max_groups_per_slot: NonZeroUsize::new(1).unwrap(),
            period: NonZeroU32::new(2).unwrap(),
            slots: vec![SlotWithTeacher {
                teacher: 0,
                start: SlotStart {
                    week: 0,
                    weekday: time::Weekday::Tuesday,
                    start_time: time::Time::from_hm(8, 0).unwrap(),
                },
                cost: 0,
            }],
            groups: GroupsDesc {
                prefilled_groups: vec![],
                not_assigned: BTreeSet::new(),
            },
            ..Subject::default()
        },
    ];
    let incompatibility_groups = IncompatibilityGroupList::new();
    let incompatibilities = IncompatibilityList::new();
    let students = StudentList::new();
    let slot_groupings = vec![
        SlotGrouping {
            slots: SortedVec::from_vec(vec![SlotRef {
                subject: 1,
                slot: 0,
            }]),
        },
        SlotGrouping {
            slots: SortedVec::from_vec(vec![SlotRef {
                subject: 0,
                slot: 0,
            }]),
        },
    ];
    let grouping_incompats = SortedVec::from_vec(vec![SlotGroupingIncompat {
        groupings: BTreeSet::from([0, 2]),
        max_count: NonZeroUsize::new(1).unwrap(),
    }]);

    assert_eq!(
        ValidatedData::new(
            general,
            subjects,
            incompatibility_groups,
            incompatibilities,
            students,
            slot_groupings,
            grouping_incompats
        ),
        Err(Error::SlotGroupingIncompatWithInvalidSlotGrouping(0, 2))
    );
}

#[test]
fn invalid_interrogations_per_week() {
    let general = GeneralData {
        periodicity_cuts: BTreeSet::new(),
        teacher_count: 0,
        week_count: NonZeroU32::new(1).unwrap(),
        interrogations_per_week: Some(10..8),
        max_interrogations_per_day: None,
    };

    let subjects = SubjectList::new();
    let incompatibility_groups = IncompatibilityGroupList::new();
    let incompatibilities = IncompatibilityList::new();
    let students = StudentList::new();

    let slot_groupings = SlotGroupingList::new();
    let grouping_incompats = SlotGroupingIncompatSet::new();

    assert_eq!(
        ValidatedData::new(
            general,
            subjects,
            incompatibility_groups,
            incompatibilities,
            students,
            slot_groupings,
            grouping_incompats
        )
        .err(),
        Some(Error::SlotGeneralDataWithInvalidInterrogationsPerWeek(
            10..8
        ))
    );
}

#[test]
fn duplicated_groups() {
    let general = GeneralData {
        periodicity_cuts: BTreeSet::new(),
        teacher_count: 1,
        week_count: NonZeroU32::new(2).unwrap(),
        interrogations_per_week: None,
        max_interrogations_per_day: None,
    };

    let subjects = vec![Subject {
        students_per_group: NonZeroUsizeRange::new(NonZeroUsize::new(2).unwrap(), NonZeroUsize::new(3).unwrap()),
        max_groups_per_slot: NonZeroUsize::new(1).unwrap(),
        period: NonZeroU32::new(2).unwrap(),
        period_is_strict: true,
        duration: NonZeroU32::new(60).unwrap(),
        slots: vec![
            SlotWithTeacher {
                teacher: 0,
                start: SlotStart {
                    week: 0,
                    weekday: time::Weekday::Monday,
                    start_time: time::Time::from_hm(8, 0).unwrap(),
                },
                cost: 0,
            },
            SlotWithTeacher {
                teacher: 0,
                start: SlotStart {
                    week: 0,
                    weekday: time::Weekday::Tuesday,
                    start_time: time::Time::from_hm(17, 0).unwrap(),
                },
                cost: 0,
            },
            SlotWithTeacher {
                teacher: 0,
                start: SlotStart {
                    week: 0,
                    weekday: time::Weekday::Wednesday,
                    start_time: time::Time::from_hm(12, 0).unwrap(),
                },
                cost: 0,
            },
            SlotWithTeacher {
                teacher: 0,
                start: SlotStart {
                    week: 0,
                    weekday: time::Weekday::Wednesday,
                    start_time: time::Time::from_hm(13, 0).unwrap(),
                },
                cost: 0,
            },
        ],
        groups: GroupsDesc {
            prefilled_groups: vec![
                GroupDesc {
                    students: BTreeSet::from([0, 1, 2]),
                    can_be_extended: false,
                },
                GroupDesc {
                    students: BTreeSet::from([3, 4, 5]),
                    can_be_extended: false,
                },
                GroupDesc {
                    students: BTreeSet::from([0, 1, 2]),
                    can_be_extended: false,
                },
            ],
            not_assigned: BTreeSet::new(),
        },
        ..Subject::default()
    }];
    let incompatibility_groups = IncompatibilityGroupList::new();
    let incompatibilities = IncompatibilityList::new();
    let students = vec![
        Student {
            incompatibilities: BTreeSet::new(),
        },
        Student {
            incompatibilities: BTreeSet::new(),
        },
        Student {
            incompatibilities: BTreeSet::new(),
        },
        Student {
            incompatibilities: BTreeSet::new(),
        },
        Student {
            incompatibilities: BTreeSet::new(),
        },
        Student {
            incompatibilities: BTreeSet::new(),
        },
    ];
    let slot_groupings = SlotGroupingList::new();
    let grouping_incompats = SlotGroupingIncompatSet::new();

    assert_eq!(
        ValidatedData::new(
            general,
            subjects,
            incompatibility_groups,
            incompatibilities,
            students,
            slot_groupings,
            grouping_incompats
        )
        .err(),
        Some(Error::SubjectWithDuplicatedStudentInGroups(0, 0, 0, 2))
    );
}

#[test]
fn duplicated_student() {
    let general = GeneralData {
        periodicity_cuts: BTreeSet::new(),
        teacher_count: 1,
        week_count: NonZeroU32::new(2).unwrap(),
        interrogations_per_week: None,
        max_interrogations_per_day: None,
    };

    let subjects = vec![Subject {
        students_per_group: NonZeroUsizeRange::new(NonZeroUsize::new(2).unwrap(), NonZeroUsize::new(3).unwrap()),
        max_groups_per_slot: NonZeroUsize::new(1).unwrap(),
        period: NonZeroU32::new(2).unwrap(),
        period_is_strict: true,
        duration: NonZeroU32::new(60).unwrap(),
        slots: vec![
            SlotWithTeacher {
                teacher: 0,
                start: SlotStart {
                    week: 0,
                    weekday: time::Weekday::Monday,
                    start_time: time::Time::from_hm(8, 0).unwrap(),
                },
                cost: 0,
            },
            SlotWithTeacher {
                teacher: 0,
                start: SlotStart {
                    week: 0,
                    weekday: time::Weekday::Tuesday,
                    start_time: time::Time::from_hm(17, 0).unwrap(),
                },
                cost: 0,
            },
            SlotWithTeacher {
                teacher: 0,
                start: SlotStart {
                    week: 0,
                    weekday: time::Weekday::Wednesday,
                    start_time: time::Time::from_hm(12, 0).unwrap(),
                },
                cost: 0,
            },
            SlotWithTeacher {
                teacher: 0,
                start: SlotStart {
                    week: 0,
                    weekday: time::Weekday::Wednesday,
                    start_time: time::Time::from_hm(13, 0).unwrap(),
                },
                cost: 0,
            },
        ],
        groups: GroupsDesc {
            prefilled_groups: vec![
                GroupDesc {
                    students: BTreeSet::from([0, 1, 2]),
                    can_be_extended: false,
                },
                GroupDesc {
                    students: BTreeSet::from([3, 4, 5]),
                    can_be_extended: false,
                },
                GroupDesc {
                    students: BTreeSet::from([3, 7, 8]),
                    can_be_extended: false,
                },
            ],
            not_assigned: BTreeSet::new(),
        },
        ..Subject::default()
    }];
    let incompatibility_groups = IncompatibilityGroupList::new();
    let incompatibilities = IncompatibilityList::new();
    let students = vec![
        Student {
            incompatibilities: BTreeSet::new(),
        },
        Student {
            incompatibilities: BTreeSet::new(),
        },
        Student {
            incompatibilities: BTreeSet::new(),
        },
        Student {
            incompatibilities: BTreeSet::new(),
        },
        Student {
            incompatibilities: BTreeSet::new(),
        },
        Student {
            incompatibilities: BTreeSet::new(),
        },
        Student {
            incompatibilities: BTreeSet::new(),
        },
        Student {
            incompatibilities: BTreeSet::new(),
        },
        Student {
            incompatibilities: BTreeSet::new(),
        },
    ];
    let slot_groupings = SlotGroupingList::new();
    let grouping_incompats = SlotGroupingIncompatSet::new();

    assert_eq!(
        ValidatedData::new(
            general,
            subjects,
            incompatibility_groups,
            incompatibilities,
            students,
            slot_groupings,
            grouping_incompats
        )
        .err(),
        Some(Error::SubjectWithDuplicatedStudentInGroups(0, 3, 1, 2))
    );
}

#[test]
fn duplicated_student_not_assigned() {
    let general = GeneralData {
        periodicity_cuts: BTreeSet::new(),
        teacher_count: 1,
        week_count: NonZeroU32::new(2).unwrap(),
        interrogations_per_week: None,
        max_interrogations_per_day: None,
    };

    let subjects = vec![Subject {
        students_per_group: NonZeroUsizeRange::new(NonZeroUsize::new(2).unwrap(), NonZeroUsize::new(3).unwrap()),
        max_groups_per_slot: NonZeroUsize::new(1).unwrap(),
        period: NonZeroU32::new(2).unwrap(),
        period_is_strict: true,
        duration: NonZeroU32::new(60).unwrap(),
        slots: vec![
            SlotWithTeacher {
                teacher: 0,
                start: SlotStart {
                    week: 0,
                    weekday: time::Weekday::Monday,
                    start_time: time::Time::from_hm(8, 0).unwrap(),
                },
                cost: 0,
            },
            SlotWithTeacher {
                teacher: 0,
                start: SlotStart {
                    week: 0,
                    weekday: time::Weekday::Tuesday,
                    start_time: time::Time::from_hm(17, 0).unwrap(),
                },
                cost: 0,
            },
            SlotWithTeacher {
                teacher: 0,
                start: SlotStart {
                    week: 0,
                    weekday: time::Weekday::Wednesday,
                    start_time: time::Time::from_hm(12, 0).unwrap(),
                },
                cost: 0,
            },
            SlotWithTeacher {
                teacher: 0,
                start: SlotStart {
                    week: 0,
                    weekday: time::Weekday::Wednesday,
                    start_time: time::Time::from_hm(13, 0).unwrap(),
                },
                cost: 0,
            },
        ],
        groups: GroupsDesc {
            prefilled_groups: vec![
                GroupDesc {
                    students: BTreeSet::from([0, 1]),
                    can_be_extended: true,
                },
                GroupDesc {
                    students: BTreeSet::from([3, 4, 5]),
                    can_be_extended: false,
                },
            ],
            not_assigned: BTreeSet::from([3]),
        },
        ..Subject::default()
    }];
    let incompatibility_groups = IncompatibilityGroupList::new();
    let incompatibilities = IncompatibilityList::new();
    let students = vec![
        Student {
            incompatibilities: BTreeSet::new(),
        },
        Student {
            incompatibilities: BTreeSet::new(),
        },
        Student {
            incompatibilities: BTreeSet::new(),
        },
        Student {
            incompatibilities: BTreeSet::new(),
        },
        Student {
            incompatibilities: BTreeSet::new(),
        },
        Student {
            incompatibilities: BTreeSet::new(),
        },
        Student {
            incompatibilities: BTreeSet::new(),
        },
        Student {
            incompatibilities: BTreeSet::new(),
        },
        Student {
            incompatibilities: BTreeSet::new(),
        },
    ];
    let slot_groupings = SlotGroupingList::new();
    let grouping_incompats = SlotGroupingIncompatSet::new();

    assert_eq!(
        ValidatedData::new(
            general,
            subjects,
            incompatibility_groups,
            incompatibilities,
            students,
            slot_groupings,
            grouping_incompats
        )
        .err(),
        Some(Error::SubjectWithDuplicatedStudentInGroupsAndUnassigned(
            0, 3, 1
        ))
    );
}

#[test]
fn invalid_student_in_group() {
    let general = GeneralData {
        periodicity_cuts: BTreeSet::new(),
        teacher_count: 1,
        week_count: NonZeroU32::new(2).unwrap(),
        interrogations_per_week: None,
        max_interrogations_per_day: None,
    };

    let subjects = vec![Subject {
        students_per_group: NonZeroUsizeRange::new(NonZeroUsize::new(2).unwrap(), NonZeroUsize::new(3).unwrap()),
        max_groups_per_slot: NonZeroUsize::new(1).unwrap(),
        period: NonZeroU32::new(2).unwrap(),
        period_is_strict: true,
        duration: NonZeroU32::new(60).unwrap(),
        slots: vec![
            SlotWithTeacher {
                teacher: 0,
                start: SlotStart {
                    week: 0,
                    weekday: time::Weekday::Monday,
                    start_time: time::Time::from_hm(8, 0).unwrap(),
                },
                cost: 0,
            },
            SlotWithTeacher {
                teacher: 0,
                start: SlotStart {
                    week: 0,
                    weekday: time::Weekday::Tuesday,
                    start_time: time::Time::from_hm(17, 0).unwrap(),
                },
                cost: 0,
            },
            SlotWithTeacher {
                teacher: 0,
                start: SlotStart {
                    week: 0,
                    weekday: time::Weekday::Wednesday,
                    start_time: time::Time::from_hm(12, 0).unwrap(),
                },
                cost: 0,
            },
            SlotWithTeacher {
                teacher: 0,
                start: SlotStart {
                    week: 0,
                    weekday: time::Weekday::Wednesday,
                    start_time: time::Time::from_hm(13, 0).unwrap(),
                },
                cost: 0,
            },
        ],
        groups: GroupsDesc {
            prefilled_groups: vec![
                GroupDesc {
                    students: BTreeSet::from([1, 2, 3]),
                    can_be_extended: false,
                },
                GroupDesc {
                    students: BTreeSet::from([4, 5, 6]),
                    can_be_extended: false,
                },
            ],
            not_assigned: BTreeSet::from([0]),
        },
        ..Subject::default()
    }];
    let incompatibility_groups = IncompatibilityGroupList::new();
    let incompatibilities = IncompatibilityList::new();
    let students = vec![
        Student {
            incompatibilities: BTreeSet::new(),
        },
        Student {
            incompatibilities: BTreeSet::new(),
        },
        Student {
            incompatibilities: BTreeSet::new(),
        },
        Student {
            incompatibilities: BTreeSet::new(),
        },
        Student {
            incompatibilities: BTreeSet::new(),
        },
        Student {
            incompatibilities: BTreeSet::new(),
        },
    ];
    let slot_groupings = SlotGroupingList::new();
    let grouping_incompats = SlotGroupingIncompatSet::new();

    assert_eq!(
        ValidatedData::new(
            general,
            subjects,
            incompatibility_groups,
            incompatibilities,
            students,
            slot_groupings,
            grouping_incompats
        )
        .err(),
        Some(Error::SubjectWithInvalidAssignedStudent(0, 1, 6))
    );
}

#[test]
fn invalid_student_not_assigned() {
    let general = GeneralData {
        periodicity_cuts: BTreeSet::new(),
        teacher_count: 1,
        week_count: NonZeroU32::new(2).unwrap(),
        interrogations_per_week: None,
        max_interrogations_per_day: None,
    };

    let subjects = vec![Subject {
        students_per_group: NonZeroUsizeRange::new(NonZeroUsize::new(2).unwrap(), NonZeroUsize::new(3).unwrap()),
        max_groups_per_slot: NonZeroUsize::new(1).unwrap(),
        period: NonZeroU32::new(2).unwrap(),
        period_is_strict: true,
        duration: NonZeroU32::new(60).unwrap(),
        slots: vec![
            SlotWithTeacher {
                teacher: 0,
                start: SlotStart {
                    week: 0,
                    weekday: time::Weekday::Monday,
                    start_time: time::Time::from_hm(8, 0).unwrap(),
                },
                cost: 0,
            },
            SlotWithTeacher {
                teacher: 0,
                start: SlotStart {
                    week: 0,
                    weekday: time::Weekday::Tuesday,
                    start_time: time::Time::from_hm(17, 0).unwrap(),
                },
                cost: 0,
            },
            SlotWithTeacher {
                teacher: 0,
                start: SlotStart {
                    week: 0,
                    weekday: time::Weekday::Wednesday,
                    start_time: time::Time::from_hm(12, 0).unwrap(),
                },
                cost: 0,
            },
            SlotWithTeacher {
                teacher: 0,
                start: SlotStart {
                    week: 0,
                    weekday: time::Weekday::Wednesday,
                    start_time: time::Time::from_hm(13, 0).unwrap(),
                },
                cost: 0,
            },
        ],
        groups: GroupsDesc {
            prefilled_groups: vec![GroupDesc {
                students: BTreeSet::from([0, 1, 2]),
                can_be_extended: false,
            }],
            not_assigned: BTreeSet::from([4, 7]),
        },
        ..Subject::default()
    }];
    let incompatibility_groups = IncompatibilityGroupList::new();
    let incompatibilities = IncompatibilityList::new();
    let students = vec![
        Student {
            incompatibilities: BTreeSet::new(),
        },
        Student {
            incompatibilities: BTreeSet::new(),
        },
        Student {
            incompatibilities: BTreeSet::new(),
        },
        Student {
            incompatibilities: BTreeSet::new(),
        },
        Student {
            incompatibilities: BTreeSet::new(),
        },
        Student {
            incompatibilities: BTreeSet::new(),
        },
    ];
    let slot_groupings = SlotGroupingList::new();
    let grouping_incompats = SlotGroupingIncompatSet::new();

    assert_eq!(
        ValidatedData::new(
            general,
            subjects,
            incompatibility_groups,
            incompatibilities,
            students,
            slot_groupings,
            grouping_incompats
        )
        .err(),
        Some(Error::SubjectWithInvalidNotAssignedStudent(0, 7))
    );
}

#[test]
fn empty_group() {
    let general = GeneralData {
        periodicity_cuts: BTreeSet::new(),
        teacher_count: 1,
        week_count: NonZeroU32::new(2).unwrap(),
        interrogations_per_week: None,
        max_interrogations_per_day: None,
    };

    let subjects = vec![Subject {
        students_per_group: NonZeroUsizeRange::new(NonZeroUsize::new(2).unwrap(), NonZeroUsize::new(3).unwrap()),
        max_groups_per_slot: NonZeroUsize::new(1).unwrap(),
        period: NonZeroU32::new(2).unwrap(),
        period_is_strict: true,
        duration: NonZeroU32::new(60).unwrap(),
        slots: vec![
            SlotWithTeacher {
                teacher: 0,
                start: SlotStart {
                    week: 0,
                    weekday: time::Weekday::Monday,
                    start_time: time::Time::from_hm(8, 0).unwrap(),
                },
                cost: 0,
            },
            SlotWithTeacher {
                teacher: 0,
                start: SlotStart {
                    week: 0,
                    weekday: time::Weekday::Tuesday,
                    start_time: time::Time::from_hm(17, 0).unwrap(),
                },
                cost: 0,
            },
            SlotWithTeacher {
                teacher: 0,
                start: SlotStart {
                    week: 0,
                    weekday: time::Weekday::Wednesday,
                    start_time: time::Time::from_hm(12, 0).unwrap(),
                },
                cost: 0,
            },
            SlotWithTeacher {
                teacher: 0,
                start: SlotStart {
                    week: 0,
                    weekday: time::Weekday::Wednesday,
                    start_time: time::Time::from_hm(13, 0).unwrap(),
                },
                cost: 0,
            },
        ],
        groups: GroupsDesc {
            prefilled_groups: vec![
                GroupDesc {
                    students: BTreeSet::from([0, 1, 2]),
                    can_be_extended: false,
                },
                GroupDesc {
                    students: BTreeSet::from([3, 4, 5]),
                    can_be_extended: false,
                },
                GroupDesc {
                    students: BTreeSet::from([]),
                    can_be_extended: false,
                },
            ],
            not_assigned: BTreeSet::new(),
        },
        ..Subject::default()
    }];
    let incompatibility_groups = IncompatibilityGroupList::new();
    let incompatibilities = IncompatibilityList::new();
    let students = vec![
        Student {
            incompatibilities: BTreeSet::new(),
        },
        Student {
            incompatibilities: BTreeSet::new(),
        },
        Student {
            incompatibilities: BTreeSet::new(),
        },
        Student {
            incompatibilities: BTreeSet::new(),
        },
        Student {
            incompatibilities: BTreeSet::new(),
        },
        Student {
            incompatibilities: BTreeSet::new(),
        },
        Student {
            incompatibilities: BTreeSet::new(),
        },
        Student {
            incompatibilities: BTreeSet::new(),
        },
        Student {
            incompatibilities: BTreeSet::new(),
        },
    ];
    let slot_groupings = SlotGroupingList::new();
    let grouping_incompats = SlotGroupingIncompatSet::new();

    assert_eq!(
        ValidatedData::new(
            general,
            subjects,
            incompatibility_groups,
            incompatibilities,
            students,
            slot_groupings,
            grouping_incompats
        )
        .err(),
        Some(Error::SubjectWithTooSmallNonExtensibleGroup(
            0,
            2,
            NonZeroUsizeRange::new(NonZeroUsize::new(2).unwrap(), NonZeroUsize::new(3).unwrap())
        ))
    );
}

#[test]
fn extensible_empty_group() {
    let general = GeneralData {
        periodicity_cuts: BTreeSet::new(),
        teacher_count: 1,
        week_count: NonZeroU32::new(2).unwrap(),
        interrogations_per_week: None,
        max_interrogations_per_day: None,
    };

    let subjects = vec![Subject {
        students_per_group: NonZeroUsizeRange::new(NonZeroUsize::new(2).unwrap(), NonZeroUsize::new(3).unwrap()),
        max_groups_per_slot: NonZeroUsize::new(1).unwrap(),
        period: NonZeroU32::new(2).unwrap(),
        period_is_strict: true,
        duration: NonZeroU32::new(60).unwrap(),
        slots: vec![
            SlotWithTeacher {
                teacher: 0,
                start: SlotStart {
                    week: 0,
                    weekday: time::Weekday::Monday,
                    start_time: time::Time::from_hm(8, 0).unwrap(),
                },
                cost: 0,
            },
            SlotWithTeacher {
                teacher: 0,
                start: SlotStart {
                    week: 0,
                    weekday: time::Weekday::Tuesday,
                    start_time: time::Time::from_hm(17, 0).unwrap(),
                },
                cost: 0,
            },
            SlotWithTeacher {
                teacher: 0,
                start: SlotStart {
                    week: 0,
                    weekday: time::Weekday::Wednesday,
                    start_time: time::Time::from_hm(12, 0).unwrap(),
                },
                cost: 0,
            },
            SlotWithTeacher {
                teacher: 0,
                start: SlotStart {
                    week: 0,
                    weekday: time::Weekday::Wednesday,
                    start_time: time::Time::from_hm(13, 0).unwrap(),
                },
                cost: 0,
            },
        ],
        groups: GroupsDesc {
            prefilled_groups: vec![
                GroupDesc {
                    students: BTreeSet::from([0, 1, 2]),
                    can_be_extended: false,
                },
                GroupDesc {
                    students: BTreeSet::from([3, 4, 5]),
                    can_be_extended: false,
                },
                GroupDesc {
                    students: BTreeSet::from([]),
                    can_be_extended: true,
                },
            ],
            not_assigned: BTreeSet::from([6, 7]),
        },
        ..Subject::default()
    }];
    let incompatibility_groups = IncompatibilityGroupList::new();
    let incompatibilities = IncompatibilityList::new();
    let students = vec![
        Student {
            incompatibilities: BTreeSet::new(),
        },
        Student {
            incompatibilities: BTreeSet::new(),
        },
        Student {
            incompatibilities: BTreeSet::new(),
        },
        Student {
            incompatibilities: BTreeSet::new(),
        },
        Student {
            incompatibilities: BTreeSet::new(),
        },
        Student {
            incompatibilities: BTreeSet::new(),
        },
        Student {
            incompatibilities: BTreeSet::new(),
        },
        Student {
            incompatibilities: BTreeSet::new(),
        },
        Student {
            incompatibilities: BTreeSet::new(),
        },
    ];
    let slot_groupings = SlotGroupingList::new();
    let grouping_incompats = SlotGroupingIncompatSet::new();

    assert_eq!(
        ValidatedData::new(
            general,
            subjects,
            incompatibility_groups,
            incompatibilities,
            students,
            slot_groupings,
            grouping_incompats
        )
        .err(),
        None
    );
}

#[test]
fn group_too_large() {
    let general = GeneralData {
        periodicity_cuts: BTreeSet::new(),
        teacher_count: 1,
        week_count: NonZeroU32::new(2).unwrap(),
        interrogations_per_week: None,
        max_interrogations_per_day: None,
    };

    let subjects = vec![Subject {
        students_per_group: NonZeroUsizeRange::new(NonZeroUsize::new(2).unwrap(), NonZeroUsize::new(3).unwrap()),
        max_groups_per_slot: NonZeroUsize::new(1).unwrap(),
        period: NonZeroU32::new(2).unwrap(),
        period_is_strict: true,
        duration: NonZeroU32::new(60).unwrap(),
        slots: vec![
            SlotWithTeacher {
                teacher: 0,
                start: SlotStart {
                    week: 0,
                    weekday: time::Weekday::Monday,
                    start_time: time::Time::from_hm(8, 0).unwrap(),
                },
                cost: 0,
            },
            SlotWithTeacher {
                teacher: 0,
                start: SlotStart {
                    week: 0,
                    weekday: time::Weekday::Tuesday,
                    start_time: time::Time::from_hm(17, 0).unwrap(),
                },
                cost: 0,
            },
            SlotWithTeacher {
                teacher: 0,
                start: SlotStart {
                    week: 0,
                    weekday: time::Weekday::Wednesday,
                    start_time: time::Time::from_hm(12, 0).unwrap(),
                },
                cost: 0,
            },
            SlotWithTeacher {
                teacher: 0,
                start: SlotStart {
                    week: 0,
                    weekday: time::Weekday::Wednesday,
                    start_time: time::Time::from_hm(13, 0).unwrap(),
                },
                cost: 0,
            },
        ],
        groups: GroupsDesc {
            prefilled_groups: vec![
                GroupDesc {
                    students: BTreeSet::from([0, 1]),
                    can_be_extended: false,
                },
                GroupDesc {
                    students: BTreeSet::from([2, 3, 4, 5]),
                    can_be_extended: false,
                },
            ],
            not_assigned: BTreeSet::new(),
        },
        ..Subject::default()
    }];
    let incompatibility_groups = IncompatibilityGroupList::new();
    let incompatibilities = IncompatibilityList::new();
    let students = vec![
        Student {
            incompatibilities: BTreeSet::new(),
        },
        Student {
            incompatibilities: BTreeSet::new(),
        },
        Student {
            incompatibilities: BTreeSet::new(),
        },
        Student {
            incompatibilities: BTreeSet::new(),
        },
        Student {
            incompatibilities: BTreeSet::new(),
        },
        Student {
            incompatibilities: BTreeSet::new(),
        },
        Student {
            incompatibilities: BTreeSet::new(),
        },
        Student {
            incompatibilities: BTreeSet::new(),
        },
        Student {
            incompatibilities: BTreeSet::new(),
        },
    ];
    let slot_groupings = SlotGroupingList::new();
    let grouping_incompats = SlotGroupingIncompatSet::new();

    assert_eq!(
        ValidatedData::new(
            general,
            subjects,
            incompatibility_groups,
            incompatibilities,
            students,
            slot_groupings,
            grouping_incompats
        )
        .err(),
        Some(Error::SubjectWithTooLargeAssignedGroup(
            0,
            1,
            NonZeroUsizeRange::new(NonZeroUsize::new(2).unwrap(), NonZeroUsize::new(3).unwrap())
        ))
    );
}

#[test]
fn non_extensible_too_small_group() {
    let general = GeneralData {
        periodicity_cuts: BTreeSet::new(),
        teacher_count: 1,
        week_count: NonZeroU32::new(2).unwrap(),
        interrogations_per_week: None,
        max_interrogations_per_day: None,
    };

    let subjects = vec![Subject {
        students_per_group: NonZeroUsizeRange::new(NonZeroUsize::new(2).unwrap(), NonZeroUsize::new(3).unwrap()),
        max_groups_per_slot: NonZeroUsize::new(1).unwrap(),
        period: NonZeroU32::new(2).unwrap(),
        period_is_strict: true,
        duration: NonZeroU32::new(60).unwrap(),
        slots: vec![
            SlotWithTeacher {
                teacher: 0,
                start: SlotStart {
                    week: 0,
                    weekday: time::Weekday::Monday,
                    start_time: time::Time::from_hm(8, 0).unwrap(),
                },
                cost: 0,
            },
            SlotWithTeacher {
                teacher: 0,
                start: SlotStart {
                    week: 0,
                    weekday: time::Weekday::Tuesday,
                    start_time: time::Time::from_hm(17, 0).unwrap(),
                },
                cost: 0,
            },
            SlotWithTeacher {
                teacher: 0,
                start: SlotStart {
                    week: 0,
                    weekday: time::Weekday::Wednesday,
                    start_time: time::Time::from_hm(12, 0).unwrap(),
                },
                cost: 0,
            },
            SlotWithTeacher {
                teacher: 0,
                start: SlotStart {
                    week: 0,
                    weekday: time::Weekday::Wednesday,
                    start_time: time::Time::from_hm(13, 0).unwrap(),
                },
                cost: 0,
            },
        ],
        groups: GroupsDesc {
            prefilled_groups: vec![
                GroupDesc {
                    students: BTreeSet::from([0, 1, 2]),
                    can_be_extended: false,
                },
                GroupDesc {
                    students: BTreeSet::from([3, 4, 5]),
                    can_be_extended: false,
                },
                GroupDesc {
                    students: BTreeSet::from([6]),
                    can_be_extended: false,
                },
            ],
            not_assigned: BTreeSet::new(),
        },
        ..Subject::default()
    }];
    let incompatibility_groups = IncompatibilityGroupList::new();
    let incompatibilities = IncompatibilityList::new();
    let students = vec![
        Student {
            incompatibilities: BTreeSet::new(),
        },
        Student {
            incompatibilities: BTreeSet::new(),
        },
        Student {
            incompatibilities: BTreeSet::new(),
        },
        Student {
            incompatibilities: BTreeSet::new(),
        },
        Student {
            incompatibilities: BTreeSet::new(),
        },
        Student {
            incompatibilities: BTreeSet::new(),
        },
        Student {
            incompatibilities: BTreeSet::new(),
        },
        Student {
            incompatibilities: BTreeSet::new(),
        },
        Student {
            incompatibilities: BTreeSet::new(),
        },
    ];
    let slot_groupings = SlotGroupingList::new();
    let grouping_incompats = SlotGroupingIncompatSet::new();

    assert_eq!(
        ValidatedData::new(
            general,
            subjects,
            incompatibility_groups,
            incompatibilities,
            students,
            slot_groupings,
            grouping_incompats
        )
        .err(),
        Some(Error::SubjectWithTooSmallNonExtensibleGroup(
            0,
            2,
            NonZeroUsizeRange::new(NonZeroUsize::new(2).unwrap(), NonZeroUsize::new(3).unwrap())
        ))
    );
}

#[test]
fn too_few_groups() {
    let general = GeneralData {
        periodicity_cuts: BTreeSet::new(),
        teacher_count: 1,
        week_count: NonZeroU32::new(2).unwrap(),
        interrogations_per_week: None,
        max_interrogations_per_day: None,
    };

    let subjects = vec![Subject {
        students_per_group: NonZeroUsizeRange::new(NonZeroUsize::new(2).unwrap(), NonZeroUsize::new(3).unwrap()),
        max_groups_per_slot: NonZeroUsize::new(1).unwrap(),
        period: NonZeroU32::new(2).unwrap(),
        period_is_strict: true,
        duration: NonZeroU32::new(60).unwrap(),
        slots: vec![
            SlotWithTeacher {
                teacher: 0,
                start: SlotStart {
                    week: 0,
                    weekday: time::Weekday::Monday,
                    start_time: time::Time::from_hm(8, 0).unwrap(),
                },
                cost: 0,
            },
            SlotWithTeacher {
                teacher: 0,
                start: SlotStart {
                    week: 0,
                    weekday: time::Weekday::Tuesday,
                    start_time: time::Time::from_hm(17, 0).unwrap(),
                },
                cost: 0,
            },
            SlotWithTeacher {
                teacher: 0,
                start: SlotStart {
                    week: 0,
                    weekday: time::Weekday::Wednesday,
                    start_time: time::Time::from_hm(12, 0).unwrap(),
                },
                cost: 0,
            },
            SlotWithTeacher {
                teacher: 0,
                start: SlotStart {
                    week: 0,
                    weekday: time::Weekday::Wednesday,
                    start_time: time::Time::from_hm(13, 0).unwrap(),
                },
                cost: 0,
            },
        ],
        groups: GroupsDesc {
            prefilled_groups: vec![
                GroupDesc {
                    students: BTreeSet::from([0, 1, 2]),
                    can_be_extended: false,
                },
                GroupDesc {
                    students: BTreeSet::new(),
                    can_be_extended: true,
                },
            ],
            not_assigned: BTreeSet::from([3, 4, 5, 6, 7, 8]),
        },
        ..Subject::default()
    }];
    let incompatibility_groups = IncompatibilityGroupList::new();
    let incompatibilities = IncompatibilityList::new();
    let students = vec![
        Student {
            incompatibilities: BTreeSet::new(),
        },
        Student {
            incompatibilities: BTreeSet::new(),
        },
        Student {
            incompatibilities: BTreeSet::new(),
        },
        Student {
            incompatibilities: BTreeSet::new(),
        },
        Student {
            incompatibilities: BTreeSet::new(),
        },
        Student {
            incompatibilities: BTreeSet::new(),
        },
        Student {
            incompatibilities: BTreeSet::new(),
        },
        Student {
            incompatibilities: BTreeSet::new(),
        },
        Student {
            incompatibilities: BTreeSet::new(),
        },
    ];
    let slot_groupings = SlotGroupingList::new();
    let grouping_incompats = SlotGroupingIncompatSet::new();

    assert_eq!(
        ValidatedData::new(
            general,
            subjects,
            incompatibility_groups,
            incompatibilities,
            students,
            slot_groupings,
            grouping_incompats
        )
        .err(),
        Some(Error::SubjectWithTooFewGroups(
            0,
            NonZeroUsizeRange::new(NonZeroUsize::new(2).unwrap(), NonZeroUsize::new(3).unwrap())
        ))
    );
}

#[test]
fn too_many_groups() {
    let general = GeneralData {
        periodicity_cuts: BTreeSet::new(),
        teacher_count: 1,
        week_count: NonZeroU32::new(2).unwrap(),
        interrogations_per_week: None,
        max_interrogations_per_day: None,
    };

    let subjects = vec![Subject {
        students_per_group: NonZeroUsizeRange::new(NonZeroUsize::new(2).unwrap(), NonZeroUsize::new(3).unwrap()),
        max_groups_per_slot: NonZeroUsize::new(1).unwrap(),
        period: NonZeroU32::new(2).unwrap(),
        period_is_strict: true,
        duration: NonZeroU32::new(60).unwrap(),
        slots: vec![
            SlotWithTeacher {
                teacher: 0,
                start: SlotStart {
                    week: 0,
                    weekday: time::Weekday::Monday,
                    start_time: time::Time::from_hm(8, 0).unwrap(),
                },
                cost: 0,
            },
            SlotWithTeacher {
                teacher: 0,
                start: SlotStart {
                    week: 0,
                    weekday: time::Weekday::Tuesday,
                    start_time: time::Time::from_hm(17, 0).unwrap(),
                },
                cost: 0,
            },
            SlotWithTeacher {
                teacher: 0,
                start: SlotStart {
                    week: 0,
                    weekday: time::Weekday::Wednesday,
                    start_time: time::Time::from_hm(12, 0).unwrap(),
                },
                cost: 0,
            },
            SlotWithTeacher {
                teacher: 0,
                start: SlotStart {
                    week: 0,
                    weekday: time::Weekday::Wednesday,
                    start_time: time::Time::from_hm(13, 0).unwrap(),
                },
                cost: 0,
            },
        ],
        groups: GroupsDesc {
            prefilled_groups: vec![
                GroupDesc {
                    students: BTreeSet::from([0, 1, 2]),
                    can_be_extended: false,
                },
                GroupDesc {
                    students: BTreeSet::new(),
                    can_be_extended: true,
                },
                GroupDesc {
                    students: BTreeSet::new(),
                    can_be_extended: true,
                },
                GroupDesc {
                    students: BTreeSet::new(),
                    can_be_extended: true,
                },
                GroupDesc {
                    students: BTreeSet::new(),
                    can_be_extended: true,
                },
            ],
            not_assigned: BTreeSet::from([3, 4, 5, 6, 7, 8]),
        },
        ..Subject::default()
    }];
    let incompatibility_groups = IncompatibilityGroupList::new();
    let incompatibilities = IncompatibilityList::new();
    let students = vec![
        Student {
            incompatibilities: BTreeSet::new(),
        },
        Student {
            incompatibilities: BTreeSet::new(),
        },
        Student {
            incompatibilities: BTreeSet::new(),
        },
        Student {
            incompatibilities: BTreeSet::new(),
        },
        Student {
            incompatibilities: BTreeSet::new(),
        },
        Student {
            incompatibilities: BTreeSet::new(),
        },
        Student {
            incompatibilities: BTreeSet::new(),
        },
        Student {
            incompatibilities: BTreeSet::new(),
        },
        Student {
            incompatibilities: BTreeSet::new(),
        },
    ];
    let slot_groupings = SlotGroupingList::new();
    let grouping_incompats = SlotGroupingIncompatSet::new();

    assert_eq!(
        ValidatedData::new(
            general,
            subjects,
            incompatibility_groups,
            incompatibilities,
            students,
            slot_groupings,
            grouping_incompats
        )
        .err(),
        Some(Error::SubjectWithTooManyGroups(
            0,
            NonZeroUsizeRange::new(NonZeroUsize::new(2).unwrap(), NonZeroUsize::new(3).unwrap())
        ))
    );
}

#[test]
fn no_full_period() {
    let general = GeneralData {
        periodicity_cuts: BTreeSet::new(),
        teacher_count: 1,
        week_count: NonZeroU32::new(1).unwrap(),
        interrogations_per_week: None,
        max_interrogations_per_day: None,
    };

    let subjects = vec![Subject {
        students_per_group: NonZeroUsizeRange::new(NonZeroUsize::new(2).unwrap(), NonZeroUsize::new(3).unwrap()),
        max_groups_per_slot: NonZeroUsize::new(1).unwrap(),
        period: NonZeroU32::new(2).unwrap(),
        period_is_strict: true,
        duration: NonZeroU32::new(60).unwrap(),
        slots: vec![
            SlotWithTeacher {
                cost: 0,
                teacher: 0,
                start: SlotStart {
                    week: 0,
                    weekday: time::Weekday::Monday,
                    start_time: time::Time::from_hm(8, 0).unwrap(),
                },
            },
            SlotWithTeacher {
                cost: 0,
                teacher: 1,
                start: SlotStart {
                    week: 0,
                    weekday: time::Weekday::Tuesday,
                    start_time: time::Time::from_hm(17, 0).unwrap(),
                },
            },
        ],
        groups: GroupsDesc {
            prefilled_groups: vec![
                GroupDesc {
                    students: BTreeSet::from([0, 1, 2]),
                    can_be_extended: false,
                },
                GroupDesc {
                    students: BTreeSet::new(),
                    can_be_extended: true,
                },
            ],
            not_assigned: BTreeSet::from([3, 4, 5]),
        },
        ..Subject::default()
    }];
    let incompatibility_groups = IncompatibilityGroupList::new();
    let incompatibilities = IncompatibilityList::new();
    let students = vec![
        Student {
            incompatibilities: BTreeSet::new(),
        },
        Student {
            incompatibilities: BTreeSet::new(),
        },
        Student {
            incompatibilities: BTreeSet::new(),
        },
        Student {
            incompatibilities: BTreeSet::new(),
        },
        Student {
            incompatibilities: BTreeSet::new(),
        },
        Student {
            incompatibilities: BTreeSet::new(),
        },
    ];
    let slot_groupings = SlotGroupingList::new();
    let grouping_incompats = SlotGroupingIncompatSet::new();

    assert_eq!(
        ValidatedData::new(
            general,
            subjects,
            incompatibility_groups,
            incompatibilities,
            students,
            slot_groupings,
            grouping_incompats
        )
        .err(),
        Some(Error::SubjectWithPeriodicityTooBig(0, 2, 1))
    );
}
