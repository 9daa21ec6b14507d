use crate::dates::{weekday_of, Weekday};
use crate::records::{find, index_of, keep_latest, keys, latest};
use crate::sort::{ordered, sort};
use crate::structures::Date;
use crate::text::{clock_seconds, parse_time};
use vstd::string::StringSliceAdditionalSpecFns;
use std::collections::HashSet;
use vstd::prelude::*;

verus! {

/// The days of the week on which a service runs, and the period in which it
/// does.
#[derive(Debug)]
pub struct Calendar {
    pub id: String,
    pub monday: bool,
    pub tuesday: bool,
    pub wednesday: bool,
    pub thursday: bool,
    pub friday: bool,
    pub saturday: bool,
    pub sunday: bool,
    pub start_date: Date,
    pub end_date: Date,
}

/// A day on which a service runs although its calendar does not say so
/// (`exception_type` 1), or does not run although it says so (2).
#[derive(Debug)]
pub struct CalendarDate {
    pub service_id: String,
    pub date: Date,
    pub exception_type: u8,
}

/// A place of the network, as a feed describes it.
#[derive(Debug)]
pub struct Stop {
    pub id: String,
    pub stop_name: String,
    pub location_type: Option<u8>,
    pub parent_station: Option<String>,
}

/// A call of a trip at a stop, with its times in seconds since midnight.
#[derive(Debug)]
pub struct StopTime {
    pub trip_id: String,
    pub arrival_time: u32,
    pub departure_time: u32,
    pub stop_id: String,
    pub stop_sequence: u32,
    pub pickup_type: Option<u8>,
    pub drop_off_type: Option<u8>,
}

/// A line, the trips of which run under one name.
#[derive(Debug)]
pub struct Route {
    pub id: String,
    pub route_short_name: String,
    pub route_long_name: String,
    pub route_type: u8,
}

/// A vehicle run, on the days on which its service runs.
#[derive(Debug)]
pub struct Trip {
    pub id: String,
    pub service_id: String,
    pub route_id: String,
}

/// A feed: each calendar, route and trip once, by identifier, and the stop
/// times trip by trip.
pub struct Gtfs {
    pub read_duration: i64,
    pub calendar: Vec<Calendar>,
    pub calendar_dates: Vec<CalendarDate>,
    pub stops: Vec<Stop>,
    pub routes: Vec<Route>,
    pub trips: Vec<Trip>,
    pub stop_times: Vec<StopTime>,
}

/// A day's distance from the first day, as the 16 bits that a list of days
/// has for it.
pub open spec fn day_number(offset: int) -> u16 {
    (offset % 0x10000) as u16
}

/// The first of `calendars` that belongs to `service`.
pub open spec fn calendar_of(calendars: Seq<Calendar>, service: Seq<char>) -> Option<Calendar> {
    let at = index_of(keys(calendars), service);
    if at < calendars.len() {
        Some(calendars[at])
    } else {
        None
    }
}

/// Whether `exception` is one of type `exception_type` for `service`, on
/// the day `start` or later.
pub open spec fn excepts(
    exception: CalendarDate,
    service: Seq<char>,
    start: Date,
    exception_type: u8,
) -> bool {
    exception.service_id@ == service && exception.date.days >= start.days
        && exception.exception_type == exception_type
}

/// The days that `dates` add to `service`, counted from `start`, in the
/// order of `dates`.
pub open spec fn added_days(dates: Seq<CalendarDate>, service: Seq<char>, start: Date) -> Seq<u16>
    decreases dates.len(),
{
    if dates.len() == 0 {
        Seq::empty()
    } else {
        let before = added_days(dates.drop_last(), service, start);
        if excepts(dates.last(), service, start, 1) {
            before.push(day_number(dates.last().date.days - start.days))
        } else {
            before
        }
    }
}

/// The days that `dates` take from `service`, counted from `start`.
pub open spec fn removed_days(dates: Seq<CalendarDate>, service: Seq<char>, start: Date) -> Set<i64>
    decreases dates.len(),
{
    if dates.len() == 0 {
        Set::empty()
    } else {
        let before = removed_days(dates.drop_last(), service, start);
        if excepts(dates.last(), service, start, 2) {
            before.insert((dates.last().date.days - start.days) as i64)
        } else {
            before
        }
    }
}

impl Calendar {
    /// Whether the service runs on `weekday` by its calendar.
    pub open spec fn runs(&self, weekday: Weekday) -> bool {
        match weekday {
            Weekday::Mon => self.monday,
            Weekday::Tue => self.tuesday,
            Weekday::Wed => self.wednesday,
            Weekday::Thu => self.thursday,
            Weekday::Fri => self.friday,
            Weekday::Sat => self.saturday,
            Weekday::Sun => self.sunday,
        }
    }

    /// Whether the service runs on the day `offset` days after `start`: the
    /// day lies in the period of the calendar, on one of its days of the
    /// week, and is not among `removed`.
    pub open spec fn serves(&self, start: Date, removed: Set<i64>, offset: int) -> bool {
        let day = start.days + offset;
        &&& self.start_date.days <= day <= self.end_date.days
        &&& weekday_of(day as i32) matches Some(weekday) && self.runs(weekday)
        &&& !removed.contains(offset as i64)
    }

    /// The days among the first `n` from `start` on which the service runs,
    /// counted from `start`.
    pub open spec fn served_days(&self, start: Date, removed: Set<i64>, n: int) -> Seq<u16>
        decreases n,
    {
        if n <= 0 {
            Seq::empty()
        } else {
            let before = self.served_days(start, removed, n - 1);
            if self.serves(start, removed, n - 1) {
                before.push(day_number(n - 1))
            } else {
                before
            }
        }
    }

    /// Whether the service runs on `weekday` by its calendar.
    pub fn runs_on(&self, weekday: Weekday) -> (runs: bool)
        ensures
            runs == self.runs(weekday),
    {
        match weekday {
            Weekday::Mon => self.monday,
            Weekday::Tue => self.tuesday,
            Weekday::Wed => self.wednesday,
            Weekday::Thu => self.thursday,
            Weekday::Fri => self.friday,
            Weekday::Sat => self.saturday,
            Weekday::Sun => self.sunday,
        }
    }

    /// Whether the service runs on the day of the week of `date`.
    pub fn valid_weekday(&self, date: Date) -> (valid: bool)
        requires
            weekday_of(date.days) is Some,
        ensures
            valid == self.runs(weekday_of(date.days)->0),
    {
        self.runs_on(date.weekday().unwrap())
    }

    /// As `valid_weekday`; `None` for a day so far off that it has no day of
    /// the week.
    pub fn weekday_served(&self, date: Date) -> (valid: Option<bool>)
        ensures
            valid == match weekday_of(date.days) {
                Some(weekday) => Some(self.runs(weekday)),
                None => None,
            },
    {
        match date.weekday() {
            Some(_) => Some(self.valid_weekday(date)),
            None => None,
        }
    }
}

/// Reads a time of day as feeds write it: hours, minutes and seconds parted
/// by colons, where hours may pass 24. Gives the seconds since midnight.
pub fn deserialize_time(text: &str) -> (seconds: Option<u32>)
    ensures
        seconds == clock_seconds(text.spec_bytes()),
{
    parse_time(text)
}

/// Reads a flag as feeds write it: `1` for yes, anything else for no.
pub fn deserialize_bool(text: &str) -> (flag: bool)
    ensures
        flag == (text@ == "1"@),
{
    text.to_owned() == "1".to_owned()
}

impl Gtfs {
    /// The feed of the records of its files, in the order of each file. Of
    /// calendars, routes and trips with one identifier the last counts. The
    /// stop times are put in order: trip by trip, and within a trip in the
    /// sequence of its stops.
    pub fn new(
        read_duration: i64,
        calendars: Vec<Calendar>,
        calendar_dates: Vec<CalendarDate>,
        stops: Vec<Stop>,
        routes: Vec<Route>,
        trips: Vec<Trip>,
        stop_times: Vec<StopTime>,
    ) -> (gtfs: Gtfs)
        ensures
            gtfs.read_duration == read_duration,
            gtfs.calendar@ == latest(calendars@),
            gtfs.calendar_dates@ == calendar_dates@,
            gtfs.stops@ == stops@,
            gtfs.routes@ == latest(routes@),
            gtfs.trips@ == latest(trips@),
            gtfs.stop_times@ == ordered(stop_times@),
    {
        Gtfs {
            read_duration,
            calendar: keep_latest(calendars),
            calendar_dates,
            stops,
            routes: keep_latest(routes),
            trips: keep_latest(trips),
            stop_times: sort(stop_times),
        }
    }

    /// The days on which `service` runs, each by the number of days from
    /// `start`: first the days that the exceptions add, in their order, then
    /// the days of the calendar before its last day, from the earliest on.
    pub open spec fn service_days(&self, service: Seq<char>, start: Date) -> Seq<u16> {
        added_days(self.calendar_dates@, service, start) + match calendar_of(
            self.calendar@,
            service,
        ) {
            Some(calendar) => calendar.served_days(
                start,
                removed_days(self.calendar_dates@, service, start),
                calendar.end_date.days - start.days,
            ),
            None => Seq::empty(),
        }
    }

    /// The days on which the service `service_id` runs, each by the number
    /// of days from `start_date`.
    pub fn trip_days(&self, service_id: &String, start_date: Date) -> (days: Vec<u16>)
        ensures
            days@ == self.service_days(service_id@, start_date),
    {
        broadcast use vstd::std_specs::hash::group_hash_axioms;

        let mut result: Vec<u16> = Vec::new();
        let mut removed: HashSet<i64> = HashSet::new();
        let mut at: usize = 0;
        while at < self.calendar_dates.len()
            invariant
                at <= self.calendar_dates.len(),
                result@ == added_days(self.calendar_dates@.take(at as int), service_id@, start_date),
                removed@ == removed_days(
                    self.calendar_dates@.take(at as int),
                    service_id@,
                    start_date,
                ),
            decreases self.calendar_dates.len() - at,
        {
            let extra_day = &self.calendar_dates[at];
            assert(self.calendar_dates@.take(at + 1).drop_last() == self.calendar_dates@.take(
                at as int,
            ));
            if extra_day.service_id == *service_id {
                let offset = extra_day.date.days_since(start_date);
                if offset >= 0 {
                    if extra_day.exception_type == 1 {
                        result.push((offset % 0x10000) as u16);
                    } else if extra_day.exception_type == 2 {
                        removed.insert(offset);
                    }
                }
            }
            at += 1;
        }
        assert(self.calendar_dates@.take(at as int) == self.calendar_dates@);
        let ghost added = result@;

        let found = find(&self.calendar, service_id);
        if found < self.calendar.len() {
            let calendar = &self.calendar[found];
            let total_days = calendar.end_date.days_since(start_date);
            let mut days_offset: i64 = 0;
            while days_offset < total_days
                invariant
                    0 <= days_offset,
                    days_offset <= total_days || days_offset == 0,
                    total_days == calendar.end_date.days - start_date.days,
                    removed@ == removed_days(self.calendar_dates@, service_id@, start_date),
                    result@ == added + calendar.served_days(start_date, removed@, days_offset as int),
                decreases total_days - days_offset,
            {
                let current_date = Date { days: (start_date.days as i64 + days_offset) as i32 };
                if calendar.start_date.days <= current_date.days && calendar.end_date.days
                    >= current_date.days && !removed.contains(&days_offset) {
                    if let Some(true) = calendar.weekday_served(current_date) {
                        result.push((days_offset % 0x10000) as u16);
                    }
                }
                days_offset += 1;
            }
            assert(calendar.served_days(start_date, removed@, days_offset as int)
                == calendar.served_days(start_date, removed@, total_days as int));
        } else {
            assert(added + Seq::<u16>::empty() == added);
        }
        result
    }
}

} // verus!
