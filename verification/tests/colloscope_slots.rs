use std::collections::BTreeSet;

use collomatique::colloscope::{
    BalancingObject, SlotRef, SlotStart, SlotWithDuration, SlotWithTeacher, TeacherBalancing,
    TeacherAndTimeslotBalancing, TimeslotBalancing, Variable, WeekSelection,
};
use collomatique::nonzero::NonZeroU32;
use collomatique::time;

#[test]
fn slot_overlaps() {
    let slot1 = SlotWithDuration {
        start: SlotStart {
            week: 0,
            weekday: time::Weekday::Monday,
            start_time: time::Time::from_hm(12, 0).unwrap(),
        },
        duration: NonZeroU32::new(60).unwrap(),
    };

    let slot2 = SlotWithDuration {
        start: SlotStart {
            week: 0,
            weekday: time::Weekday::Monday,
            start_time: time::Time::from_hm(11, 30).unwrap(),
        },
        duration: NonZeroU32::new(60).unwrap(),
    };

    let slot3 = SlotWithDuration {
        start: SlotStart {
            week: 0,
            weekday: time::Weekday::Monday,
            start_time: time::Time::from_hm(12, 30).unwrap(),
        },
        duration: NonZeroU32::new(60).unwrap(),
    };

    let slot4 = SlotWithDuration {
        start: SlotStart {
            week: 0,
            weekday: time::Weekday::Monday,
            start_time: time::Time::from_hm(11, 0).unwrap(),
        },
        duration: NonZeroU32::new(60).unwrap(),
    };

    let slot5 = SlotWithDuration {
        start: SlotStart {
            week: 0,
            weekday: time::Weekday::Monday,
            start_time: time::Time::from_hm(13, 0).unwrap(),
        },
        duration: NonZeroU32::new(60).unwrap(),
    };

    let slot6 = SlotWithDuration {
        start: SlotStart {
            week: 0,
            weekday: time::Weekday::Tuesday,
            start_time: time::Time::from_hm(12, 0).unwrap(),
        },
        duration: NonZeroU32::new(60).unwrap(),
    };

    let slot7 = SlotWithDuration {
        start: SlotStart {
            week: 1,
            weekday: time::Weekday::Monday,
            start_time: time::Time::from_hm(12, 0).unwrap(),
        },
        duration: NonZeroU32::new(60).unwrap(),
    };

    assert_eq!(slot1.overlap_with(&slot2), true);
    assert_eq!(slot1.overlap_with(&slot3), true);
    assert_eq!(slot1.overlap_with(&slot4), false);
    assert_eq!(slot1.overlap_with(&slot5), false);
    assert_eq!(slot1.overlap_with(&slot6), false);
    assert_eq!(slot1.overlap_with(&slot7), false);
}

fn span(week: u32, weekday: time::Weekday, hour: u32, min: u32, duration: u32) -> SlotWithDuration {
    SlotWithDuration {
        start: SlotStart {
            week,
            weekday,
            start_time: time::Time::from_hm(hour, min).unwrap(),
        },
        duration: NonZeroU32::new(duration).unwrap(),
    }
}

#[test]
fn end_time_is_last_minute() {
    let s = span(0, time::Weekday::Monday, 12, 0, 60);
    assert_eq!(s.end_time().get(), 12 * 60 + 59);
    let s = span(0, time::Weekday::Monday, 23, 0, 60);
    assert_eq!(s.end_time().get(), 23 * 60 + 59);
}

#[test]
fn overlap_at_touching_minute() {
    // The last minute of the first span is the first minute of the second one.
    let a = span(0, time::Weekday::Monday, 12, 0, 60);
    let b = span(0, time::Weekday::Monday, 12, 59, 30);
    assert!(a.overlap_with(&b));
    assert!(!b.overlap_with(&a));
    let c = span(0, time::Weekday::Monday, 12, 0, 30);
    assert!(a.overlap_with(&c));
    assert!(c.overlap_with(&a));
}

#[test]
fn variable_names() {
    let v = Variable::GroupInSlot { subject: 1, slot: 2, group: 3 };
    assert_eq!(v.to_string(), "GiS_1_2_3");
    let v = Variable::GroupOnWeekSelection { subject: 0, week_selection: 10, group: 7 };
    assert_eq!(v.to_string(), "GoWS_0_10_7");
    let v = Variable::DynamicGroupAssignment { subject: 4, slot: 5, group: 6, student: 12 };
    assert_eq!(v.to_string(), "DGA_4_5_6_12");
    let v = Variable::StudentInGroup { subject: 2, student: 30, group: 1 };
    assert_eq!(v.to_string(), "SiG_2_30_1");
    let v = Variable::UseGrouping(42);
    assert_eq!(v.to_string(), "UG_42");
    let v = Variable::IncompatGroupForStudent { incompat_group: 3, student: 9 };
    assert_eq!(v.to_string(), "IGfS_3_9");
}

fn slot(teacher: usize, week: u32, weekday: time::Weekday, hour: u32) -> SlotWithTeacher {
    SlotWithTeacher {
        teacher,
        start: SlotStart {
            week,
            weekday,
            start_time: time::Time::from_hm(hour, 0).unwrap(),
        },
        cost: 0,
    }
}

fn weeks(list: &[u32]) -> WeekSelection {
    WeekSelection {
        selection: list.iter().copied().collect::<BTreeSet<u32>>(),
    }
}

#[test]
fn balancing_over_teachers() {
    // Weeks 0 and 2 have teacher 0 twice and teacher 1 once; week 1 has teacher 1 once.
    let slots = vec![
        slot(0, 0, time::Weekday::Monday, 8),
        slot(0, 0, time::Weekday::Tuesday, 8),
        slot(1, 0, time::Weekday::Monday, 9),
        slot(1, 1, time::Weekday::Monday, 9),
        slot(1, 2, time::Weekday::Monday, 9),
        slot(0, 2, time::Weekday::Monday, 8),
        slot(0, 2, time::Weekday::Friday, 8),
    ];
    let expected = BalancingObject::Teachers(vec![
        (
            weeks(&[0, 2]),
            vec![(TeacherBalancing { teacher: 0 }, 2), (TeacherBalancing { teacher: 1 }, 1)],
        ),
        (weeks(&[1]), vec![(TeacherBalancing { teacher: 1 }, 1)]),
    ]);
    assert_eq!(BalancingObject::teachers_from_slots(&slots), expected);
}

#[test]
fn balancing_over_timeslots() {
    let slots = vec![
        slot(0, 0, time::Weekday::Monday, 8),
        slot(1, 1, time::Weekday::Monday, 8),
        slot(0, 1, time::Weekday::Tuesday, 10),
        slot(2, 0, time::Weekday::Tuesday, 10),
        slot(0, 3, time::Weekday::Monday, 8),
    ];
    let monday_8 = TimeslotBalancing {
        weekday: time::Weekday::Monday,
        time: time::Time::from_hm(8, 0).unwrap(),
    };
    let tuesday_10 = TimeslotBalancing {
        weekday: time::Weekday::Tuesday,
        time: time::Time::from_hm(10, 0).unwrap(),
    };
    let expected = BalancingObject::Timeslots(vec![
        (weeks(&[0, 1]), vec![(monday_8, 1), (tuesday_10, 1)]),
        (weeks(&[3]), vec![(monday_8, 1)]),
    ]);
    assert_eq!(BalancingObject::timeslots_from_slots(&slots), expected);
}

#[test]
fn balancing_over_teachers_and_timeslots() {
    let slots = vec![
        slot(0, 1, time::Weekday::Monday, 8),
        slot(1, 0, time::Weekday::Monday, 8),
    ];
    let t0 = TeacherAndTimeslotBalancing {
        teacher: 0,
        weekday: time::Weekday::Monday,
        time: time::Time::from_hm(8, 0).unwrap(),
    };
    let t1 = TeacherAndTimeslotBalancing {
        teacher: 1,
        weekday: time::Weekday::Monday,
        time: time::Time::from_hm(8, 0).unwrap(),
    };
    let expected = BalancingObject::TeachersAndTimeslots(vec![
        (weeks(&[0]), vec![(t1, 1)]),
        (weeks(&[1]), vec![(t0, 1)]),
    ]);
    assert_eq!(BalancingObject::teachers_and_timeslots_from_slots(&slots), expected);
    assert_eq!(BalancingObject::teachers_from_slots(&vec![]), BalancingObject::Teachers(vec![]));
}

#[test]
fn week_selections_of_balancing() {
    let slots = vec![slot(0, 0, time::Weekday::Monday, 8), slot(0, 2, time::Weekday::Monday, 9)];
    let object = BalancingObject::teachers_from_slots(&slots);
    let selections = object.extract_week_selections();
    assert_eq!(selections.len(), 1);
    assert_eq!(selections[0], weeks(&[0, 2]));
    assert_eq!(object.week_selection_count(), 1);
}

#[test]
fn slot_ref_order() {
    let a = SlotRef { subject: 0, slot: 5 };
    let b = SlotRef { subject: 1, slot: 0 };
    assert!(a < b);
}
