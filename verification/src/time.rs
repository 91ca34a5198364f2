//! Days of the week and times of day, counted in minutes since midnight.

use vstd::prelude::*;
use vstd::string::StringExecFns;

use crate::text::str_equal;

verus! {

/// Number of minutes in an hour.
pub const MINUTES_PER_HOUR: u32 = 60;
/// Number of hours in a day.
pub const HOUR_PER_DAY: u32 = 24;
/// Number of minutes in a day.
pub const MINUTES_PER_DAY: u32 = 1440;

/// A day of the week, Monday first.
#[derive(Copy, Clone, PartialEq, Eq, Debug, Structural, PartialOrd, Ord, Hash)]
pub enum Weekday {
    Monday,
    Tuesday,
    Wednesday,
    Thursday,
    Friday,
    Saturday,
    Sunday,
}

/// Error given back when a day number does not name a weekday.
#[derive(Clone, Copy, Debug, PartialEq, Eq, Structural)]
pub enum WeekdayError {
    DayNumberTooBig,
}

/// Position of a weekday in the week, Monday being 0.
pub open spec fn weekday_index(d: Weekday) -> nat {
    match d {
        Weekday::Monday => 0,
        Weekday::Tuesday => 1,
        Weekday::Wednesday => 2,
        Weekday::Thursday => 3,
        Weekday::Friday => 4,
        Weekday::Saturday => 5,
        Weekday::Sunday => 6,
    }
}

/// The weekday at a given position of the week (positions above 6 give Sunday).
pub open spec fn weekday_at(i: nat) -> Weekday {
    if i == 0 {
        Weekday::Monday
    } else if i == 1 {
        Weekday::Tuesday
    } else if i == 2 {
        Weekday::Wednesday
    } else if i == 3 {
        Weekday::Thursday
    } else if i == 4 {
        Weekday::Friday
    } else if i == 5 {
        Weekday::Saturday
    } else {
        Weekday::Sunday
    }
}

/// The French name of a weekday, as shown to users.
pub open spec fn weekday_name(d: Weekday) -> Seq<char> {
    match d {
        Weekday::Monday => "Lundi"@,
        Weekday::Tuesday => "Mardi"@,
        Weekday::Wednesday => "Mercredi"@,
        Weekday::Thursday => "Jeudi"@,
        Weekday::Friday => "Vendredi"@,
        Weekday::Saturday => "Samedi"@,
        Weekday::Sunday => "Dimanche"@,
    }
}

/// Indices and weekdays are in one-to-one correspondence on 0..7.
pub proof fn lemma_weekday_index_roundtrip(d: Weekday, i: nat)
    ensures
        weekday_index(d) < 7,
        weekday_at(weekday_index(d)) == d,
        i < 7 ==> weekday_index(weekday_at(i)) == i,
{
}

/// Each name names one day: reading back the name of a day gives that day.
pub proof fn lemma_weekday_name_injective(a: Weekday, b: Weekday)
    requires
        weekday_name(a) == weekday_name(b),
    ensures
        a == b,
{
    reveal_strlit("Lundi");
    reveal_strlit("Mardi");
    reveal_strlit("Mercredi");
    reveal_strlit("Jeudi");
    reveal_strlit("Vendredi");
    reveal_strlit("Samedi");
    reveal_strlit("Dimanche");
    let (x, y) = (weekday_name(a), weekday_name(b));
    assert(x.len() == y.len());
    assert(x[0] == y[0]);
    assert(x[1] == y[1]);
}

impl Weekday {
    /// All the days of the week, in order from Monday to Sunday.
    pub fn iter() -> (r: Vec<Weekday>)
        ensures
            r@.len() == 7,
            forall|i: int| 0 <= i < 7 ==> r@[i] == weekday_at(i as nat),
    {
        let mut v: Vec<Weekday> = Vec::new();
        v.push(Weekday::Monday);
        v.push(Weekday::Tuesday);
        v.push(Weekday::Wednesday);
        v.push(Weekday::Thursday);
        v.push(Weekday::Friday);
        v.push(Weekday::Saturday);
        v.push(Weekday::Sunday);
        v
    }

    /// Position of the day in the week, Monday being 0.
    pub fn index(&self) -> (r: usize)
        ensures
            r == weekday_index(*self),
    {
        match *self {
            Weekday::Monday => 0,
            Weekday::Tuesday => 1,
            Weekday::Wednesday => 2,
            Weekday::Thursday => 3,
            Weekday::Friday => 4,
            Weekday::Saturday => 5,
            Weekday::Sunday => 6,
        }
    }

    /// The weekday at position `value` of the week; positions above 6 are refused.
    pub fn try_from_index(value: usize) -> (r: Result<Weekday, WeekdayError>)
        ensures
            value > 6 ==> r == Err::<Weekday, WeekdayError>(WeekdayError::DayNumberTooBig),
            value <= 6 ==> r == Ok::<Weekday, WeekdayError>(weekday_at(value as nat)),
    {
        if value > 6 {
            return Err(WeekdayError::DayNumberTooBig);
        }
        let list = Self::iter();
        Ok(list[value])
    }

    /// The weekday whose French name is `value`, or an error message.
    pub fn try_from_name(value: &str) -> (r: Result<Weekday, &'static str>)
        ensures
            match r {
                Ok(d) => weekday_name(d) == value@,
                Err(_) => forall|d: Weekday| weekday_name(d) != value@,
            },
    {
        let list = Self::iter();
        let mut i: usize = 0;
        while i < 7
            invariant
                0 <= i <= 7,
                list@.len() == 7,
                forall|j: int| 0 <= j < 7 ==> list@[j] == weekday_at(j as nat),
                forall|j: int| 0 <= j < i ==> weekday_name(#[trigger] weekday_at(j as nat)) != value@,
            decreases 7 - i,
        {
            let d = list[i];
            let name = d.name();
            if str_equal(name.as_str(), value) {
                return Ok(d);
            }
            i = i + 1;
        }
        proof {
            assert forall|d: Weekday| weekday_name(d) != value@ by {
                lemma_weekday_index_roundtrip(d, 0);
                let j: int = weekday_index(d) as int;
                assert(0 <= j < 7);
                assert(weekday_name(weekday_at(j as nat)) != value@);
            }
        }
        Err("Unknown weekday")
    }

    /// The French name of the day.
    pub fn name(&self) -> (r: String)
        ensures
            r@ == weekday_name(*self),
    {
        match *self {
            Weekday::Monday => String::from_str("Lundi"),
            Weekday::Tuesday => String::from_str("Mardi"),
            Weekday::Wednesday => String::from_str("Mercredi"),
            Weekday::Thursday => String::from_str("Jeudi"),
            Weekday::Friday => String::from_str("Vendredi"),
            Weekday::Saturday => String::from_str("Samedi"),
            Weekday::Sunday => String::from_str("Dimanche"),
        }
    }

    /// Same as `name`: the text shown for the day.
    pub fn to_string(&self) -> (r: String)
        ensures
            r@ == weekday_name(*self),
    {
        self.name()
    }

    /// Whether `self` comes strictly before `other` in the week.
    pub fn is_before(&self, other: &Weekday) -> (r: bool)
        ensures
            r == (weekday_index(*self) < weekday_index(*other)),
    {
        self.index() < other.index()
    }
}

impl Default for Weekday {
    fn default() -> (r: Weekday)
        ensures
            r == Weekday::Monday,
    {
        Weekday::Monday
    }
}

/// A time of day, in minutes since midnight (always less than a full day).
#[derive(Clone, Copy, PartialEq, Eq, Debug, Structural, PartialOrd, Ord, Hash)]
pub struct Time {
    time_in_minutes: u32,
}

impl Time {
    #[verifier::type_invariant]
    spec fn inv(self) -> bool {
        self.time_in_minutes < MINUTES_PER_DAY
    }

    /// Minutes since midnight.
    pub closed spec fn minutes(self) -> nat {
        self.time_in_minutes as nat
    }

    /// A time of day is determined by its minutes since midnight.
    pub proof fn lemma_minutes_injective(a: Time, b: Time)
        requires
            a.minutes() == b.minutes(),
        ensures
            a == b,
    {
    }

    /// The time `min` minutes after midnight, if that is within the day.
    pub fn new(min: u32) -> (r: Option<Time>)
        ensures
            min >= MINUTES_PER_DAY ==> r.is_none(),
            min < MINUTES_PER_DAY ==> r.is_some() && r.unwrap().minutes() == min,
    {
        if min >= MINUTES_PER_DAY {
            return None;
        }
        Some(Time { time_in_minutes: min })
    }

    /// The time `hour`:`min`, if both are in range.
    pub fn from_hm(hour: u32, min: u32) -> (r: Option<Time>)
        ensures
            (min >= MINUTES_PER_HOUR || hour >= HOUR_PER_DAY) ==> r.is_none(),
            (min < MINUTES_PER_HOUR && hour < HOUR_PER_DAY) ==> r.is_some() && r.unwrap().minutes()
                == hour * 60 + min,
    {
        if min >= MINUTES_PER_HOUR {
            return None;
        }
        if hour >= HOUR_PER_DAY {
            return None;
        }
        Some(Time { time_in_minutes: hour * MINUTES_PER_HOUR + min })
    }

    /// Minutes since midnight.
    pub fn get(&self) -> (r: u32)
        ensures
            r == self.minutes(),
            r < MINUTES_PER_DAY,
    {
        proof {
            use_type_invariant(self);
        }
        self.time_in_minutes
    }

    /// The hour of the day.
    pub fn get_hour(&self) -> (r: u32)
        ensures
            r == self.minutes() / 60,
            r < HOUR_PER_DAY,
    {
        proof {
            use_type_invariant(self);
        }
        self.time_in_minutes / MINUTES_PER_HOUR
    }

    /// The minutes within the hour.
    pub fn get_min(&self) -> (r: u32)
        ensures
            r == self.minutes() % 60,
    {
        self.time_in_minutes % MINUTES_PER_HOUR
    }

    /// The time `duration_in_minutes` later, if it is still within the same day.
    pub fn add(&self, duration_in_minutes: u32) -> (r: Option<Time>)
        ensures
            self.minutes() + duration_in_minutes >= MINUTES_PER_DAY ==> r.is_none(),
            self.minutes() + duration_in_minutes < MINUTES_PER_DAY ==> r.is_some()
                && r.unwrap().minutes() == self.minutes() + duration_in_minutes,
    {
        match self.time_in_minutes.checked_add(duration_in_minutes) {
            None => None,
            Some(x) => Self::new(x),
        }
    }

    /// Whether an interval of `duration_in_minutes` starting now ends by midnight.
    pub fn fit_in_day(&self, duration_in_minutes: u32) -> (r: bool)
        ensures
            r == (self.minutes() + duration_in_minutes <= MINUTES_PER_DAY),
    {
        match self.time_in_minutes.checked_add(duration_in_minutes) {
            None => false,
            Some(x) => x <= MINUTES_PER_DAY,
        }
    }

    /// The times from now to the end of the day, `step_in_minutes` apart.
    pub fn iterate_until_end_of_day(&self, step_in_minutes: u32) -> (r: TimeIterator)
        ensures
            r.current() == Some(*self),
            r.step() == step_in_minutes,
    {
        TimeIterator { current_time: Some(*self), step_in_minutes }
    }

    /// Whether `self` falls within the interval of `duration` minutes starting at `time`
    /// (an interval running past midnight holds every later time of the day).
    pub fn fit_in(&self, time: &Time, duration: u32) -> (r: bool)
        ensures
            r == (time.minutes() <= self.minutes() && (time.minutes() + duration
                >= MINUTES_PER_DAY || self.minutes() < time.minutes() + duration)),
    {
        if self.time_in_minutes < time.time_in_minutes {
            return false;
        }
        match time.add(duration) {
            None => true,
            Some(end) => self.time_in_minutes < end.time_in_minutes,
        }
    }

    /// Whether `self` is strictly earlier in the day than `other`.
    pub fn is_before(&self, other: &Time) -> (r: bool)
        ensures
            r == (self.minutes() < other.minutes()),
    {
        self.time_in_minutes < other.time_in_minutes
    }
}

impl Default for Time {
    fn default() -> (r: Time)
        ensures
            r.minutes() == 0,
    {
        Time { time_in_minutes: 0 }
    }
}

/// The successive times of a day, from a start time, a fixed step apart.
pub struct TimeIterator {
    current_time: Option<Time>,
    step_in_minutes: u32,
}

impl TimeIterator {
    /// The time that the next call hands out, if any.
    pub closed spec fn current(&self) -> Option<Time> {
        self.current_time
    }

    /// The step between two successive times.
    pub closed spec fn step(&self) -> u32 {
        self.step_in_minutes
    }

    /// Hands out the current time and moves one step forward, staying within the day.
    pub fn next(&mut self) -> (r: Option<Time>)
        ensures
            r == old(self).current(),
            final(self).step() == old(self).step(),
            match old(self).current() {
                None => final(self).current().is_none(),
                Some(t) => if t.minutes() + old(self).step() < MINUTES_PER_DAY {
                    final(self).current().is_some() && final(self).current().unwrap().minutes()
                        == t.minutes() + old(self).step()
                } else {
                    final(self).current().is_none()
                },
            },
    {
        match self.current_time {
            None => None,
            Some(time) => {
                self.current_time = time.add(self.step_in_minutes);
                Some(time)
            },
        }
    }
}

} // verus!
