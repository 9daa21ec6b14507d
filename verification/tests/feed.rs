use chrono::{Datelike, NaiveDate};
use csa::dates::{deserialize_date, Weekday};
use csa::feed::FeedError;
use csa::gtfs_structures::{
    deserialize_bool, deserialize_time, Calendar, CalendarDate, Gtfs, Route, Stop, StopTime, Trip,
};
use csa::structures::{Date, LocationType, Timetable};

fn day(year: i32, month: u32, day: u32) -> Date {
    Date {
        days: NaiveDate::from_ymd_opt(year, month, day)
            .unwrap()
            .num_days_from_ce(),
    }
}

fn calendar(id: &str, days: [bool; 7], start_date: Date, end_date: Date) -> Calendar {
    Calendar {
        id: id.to_string(),
        monday: days[0],
        tuesday: days[1],
        wednesday: days[2],
        thursday: days[3],
        friday: days[4],
        saturday: days[5],
        sunday: days[6],
        start_date,
        end_date,
    }
}

fn exception(service_id: &str, date: Date, exception_type: u8) -> CalendarDate {
    CalendarDate {
        service_id: service_id.to_string(),
        date,
        exception_type,
    }
}

fn stop(id: &str, location_type: Option<u8>, parent_station: Option<&str>) -> Stop {
    Stop {
        id: id.to_string(),
        stop_name: format!("Stop {}", id),
        location_type,
        parent_station: parent_station.map(|p| p.to_string()),
    }
}

fn trip(id: &str, service_id: &str) -> Trip {
    Trip {
        id: id.to_string(),
        service_id: service_id.to_string(),
        route_id: "route1".to_string(),
    }
}

fn route(id: &str, name: &str) -> Route {
    Route {
        id: id.to_string(),
        route_short_name: name.to_string(),
        route_long_name: name.to_string(),
        route_type: 3,
    }
}

fn call(trip_id: &str, stop_sequence: u32, stop_id: &str, time: &str) -> StopTime {
    let seconds = deserialize_time(time).unwrap();
    StopTime {
        trip_id: trip_id.to_string(),
        arrival_time: seconds,
        departure_time: seconds,
        stop_id: stop_id.to_string(),
        stop_sequence,
        pickup_type: None,
        drop_off_type: None,
    }
}

const ALL_WEEK: [bool; 7] = [true; 7];
const WEEKEND: [bool; 7] = [false, false, false, false, false, true, true];

/// One trip that calls at three stops, on the first day only.
fn fixture() -> Gtfs {
    Gtfs::new(
        12,
        vec![calendar("service1", WEEKEND, day(2016, 12, 25), day(2017, 1, 2))],
        vec![exception("service1", day(2017, 1, 7), 2)],
        vec![
            stop("stop1", Some(1), None),
            stop("stop2", None, None),
            stop("stop3", Some(0), Some("stop1")),
            stop("stop4", None, None),
            stop("stop5", Some(0), Some("stop1")),
        ],
        vec![route("route1", "1")],
        vec![trip("trip1", "service1")],
        vec![
            call("trip1", 3, "stop5", "10:30:00"),
            call("trip1", 1, "stop2", "10:00:00"),
            call("trip1", 2, "stop3", "10:10:00"),
        ],
    )
}

#[test]
fn from_gtfs() {
    let gtfs = fixture();
    let timetable = Timetable::from_gtfs(&gtfs, "2017-1-1", 10);
    assert_eq!(5, timetable.stops.len());
    assert_eq!(2, timetable.connections.len());
    assert_eq!(5, timetable.footpaths.len());
    for i in 0..timetable.stops.len() {
        if timetable.stops[i].id == "stop3" || timetable.stops[i].id == "stop5" {
            assert_eq!(timetable.footpaths[i].len(), 1);
        } else {
            assert!(timetable.footpaths[i].is_empty());
        }
    }
}

#[test]
fn from_gtfs_makes_the_rides_of_each_day() {
    let mut gtfs = fixture();
    gtfs.calendar_dates.push(exception("service1", day(2017, 1, 4), 1));
    let timetable = Timetable::from_gtfs(&gtfs, "2017-01-01", 10);
    assert!(timetable.is_valid());
    assert_eq!(day(2017, 1, 1), timetable.start_date);
    assert_eq!(0, timetable.transform_duration);
    assert_eq!(10, timetable.trips.len());
    let rides: Vec<_> = timetable
        .connections
        .iter()
        .map(|c| (c.trip, c.dep_stop, c.arr_stop, c.dep_time, c.arr_time))
        .collect();
    let later = 3 * 86400;
    assert_eq!(
        vec![
            (3, 2, 4, 36600 + later, 37800 + later),
            (3, 1, 2, 36000 + later, 36600 + later),
            (0, 2, 4, 36600, 37800),
            (0, 1, 2, 36000, 36600),
        ],
        rides
    );
    assert_eq!("Stop stop3", timetable.stops[2].name);
    assert_eq!(Some("stop1".to_string()), timetable.stops[2].parent_station);
    assert_eq!(LocationType::StopPoint, timetable.stops[2].location_type);
    assert_eq!(LocationType::StopArea, timetable.stops[0].location_type);
    assert_eq!((4, 5), (timetable.footpaths[2][0].from, timetable.footpaths[2][0].duration));
    assert_eq!((2, 5), (timetable.footpaths[4][0].from, timetable.footpaths[4][0].duration));
}

#[test]
fn from_gtfs_leaves_out_days_past_the_horizon() {
    let mut gtfs = fixture();
    gtfs.calendar_dates.push(exception("service1", day(2017, 1, 4), 1));
    let timetable = Timetable::from_gtfs(&gtfs, "2017-01-01", 3);
    assert_eq!(2, timetable.connections.len());
    assert_eq!(3, timetable.trips.len());
    let none = Timetable::from_gtfs(&gtfs, "2017-01-01", 0);
    assert!(none.connections.is_empty());
    assert!(none.trips.is_empty());
}

#[test]
fn try_from_gtfs_reports_what_is_wrong() {
    let gtfs = fixture();
    assert!(Timetable::try_from_gtfs(&gtfs, "2017-1-1", 10).is_ok());
    match Timetable::try_from_gtfs(&gtfs, "first of January", 10) {
        Err(FeedError::InvalidDate(text)) => assert_eq!("first of January", text),
        _ => panic!("the date was read"),
    }

    let mut gtfs = fixture();
    gtfs.stop_times.push(call("trip1", 4, "stop9", "11:00:00"));
    gtfs.stop_times.push(call("trip7", 1, "stop8", "11:00:00"));
    match Timetable::try_from_gtfs(&gtfs, "2017-1-1", 10) {
        Err(FeedError::UnknownStop(id)) => assert_eq!("stop9", id),
        _ => panic!("the stop was found"),
    }

    let mut gtfs = fixture();
    gtfs.stop_times.push(call("trip7", 1, "stop1", "11:00:00"));
    match gtfs.validate(10) {
        Err(FeedError::UnknownTrip(id)) => assert_eq!("trip7", id),
        _ => panic!("the trip was found"),
    }

    let mut gtfs = fixture();
    gtfs.stop_times[1].arrival_time = u32::MAX - 10 * 86400 + 1;
    match gtfs.validate(10) {
        Err(FeedError::TimeOutOfRange(id)) => assert_eq!("trip1", id),
        _ => panic!("the time was moved"),
    }
    assert!(gtfs.validate(9).is_ok());
}

#[test]
fn new_keeps_the_last_record_of_each_identifier() {
    let gtfs = Gtfs::new(
        7,
        vec![
            calendar("a", ALL_WEEK, day(2017, 1, 1), day(2017, 1, 2)),
            calendar("b", ALL_WEEK, day(2017, 1, 1), day(2017, 1, 2)),
            calendar("a", WEEKEND, day(2017, 2, 1), day(2017, 2, 2)),
        ],
        vec![
            exception("b", day(2017, 1, 4), 1),
            exception("a", day(2017, 1, 4), 1),
        ],
        vec![stop("s", None, None), stop("s", Some(1), None)],
        vec![route("r", "1"), route("q", "2"), route("r", "3")],
        vec![trip("t", "a"), trip("u", "a"), trip("u", "b"), trip("t", "b")],
        vec![],
    );
    assert_eq!(7, gtfs.read_duration);
    let calendars: Vec<_> = gtfs.calendar.iter().map(|c| (c.id.as_str(), c.monday)).collect();
    assert_eq!(vec![("a", false), ("b", true)], calendars);
    let routes: Vec<_> = gtfs
        .routes
        .iter()
        .map(|r| (r.id.as_str(), r.route_short_name.as_str()))
        .collect();
    assert_eq!(vec![("r", "3"), ("q", "2")], routes);
    let trips: Vec<_> = gtfs
        .trips
        .iter()
        .map(|t| (t.id.as_str(), t.service_id.as_str()))
        .collect();
    assert_eq!(vec![("t", "b"), ("u", "b")], trips);
    assert_eq!(2, gtfs.stops.len());
    assert_eq!("b", gtfs.calendar_dates[0].service_id);
}

#[test]
fn new_orders_stop_times_by_trip_and_sequence() {
    let gtfs = Gtfs::new(
        0,
        vec![],
        vec![],
        vec![],
        vec![],
        vec![],
        vec![
            call("b", 2, "first b2", "0:00:00"),
            call("ab", 9, "ab9", "0:00:00"),
            call("a", 3, "a3", "0:00:00"),
            call("b", 1, "b1", "0:00:00"),
            call("b", 2, "second b2", "0:00:00"),
            call("", 5, "none", "0:00:00"),
            call("a", 1, "a1", "0:00:00"),
            call("B", 1, "B1", "0:00:00"),
        ],
    );
    let order: Vec<_> = gtfs.stop_times.iter().map(|s| s.stop_id.as_str()).collect();
    assert_eq!(
        vec!["none", "B1", "a1", "a3", "ab9", "b1", "first b2", "second b2"],
        order
    );
}

#[test]
fn new_orders_stop_times_as_strings_compare() {
    let ids = ["é", "e", "z", "ez", "", "Z", "éa", "e\u{301}", "日本", "~"];
    let gtfs = Gtfs::new(
        0,
        vec![],
        vec![],
        vec![],
        vec![],
        vec![],
        ids.iter().map(|id| call(id, 1, id, "0:00:00")).collect(),
    );
    let mut sorted = ids.to_vec();
    sorted.sort();
    let order: Vec<_> = gtfs.stop_times.iter().map(|s| s.trip_id.as_str()).collect();
    assert_eq!(sorted, order);
}

#[test]
fn valid_weekday_goes_by_the_day_of_the_week() {
    let weekend = calendar("w", WEEKEND, day(2017, 1, 1), day(2017, 12, 31));
    // 1 January 2017 was a Sunday.
    assert!(weekend.valid_weekday(day(2017, 1, 1)));
    assert!(!weekend.valid_weekday(day(2017, 1, 2)));
    assert!(!weekend.valid_weekday(day(2017, 1, 6)));
    assert!(weekend.valid_weekday(day(2017, 1, 7)));
    assert_eq!(Some(true), weekend.weekday_served(day(2017, 1, 8)));
    assert_eq!(Some(false), weekend.weekday_served(day(2017, 1, 9)));
    assert_eq!(None, weekend.weekday_served(Date { days: i32::MAX }));
    assert_eq!(None, weekend.weekday_served(Date { days: i32::MIN }));

    let monday_only = calendar(
        "m",
        [true, false, false, false, false, false, false],
        day(2017, 1, 1),
        day(2017, 12, 31),
    );
    assert!(monday_only.runs_on(Weekday::Mon));
    assert!(!monday_only.runs_on(Weekday::Sun));
    assert!(monday_only.valid_weekday(day(2017, 1, 2)));
    assert!(!monday_only.valid_weekday(day(2017, 1, 1)));
}

#[test]
fn weekday_of_known_days() {
    assert_eq!(Some(Weekday::Sun), day(2017, 1, 1).weekday());
    assert_eq!(Some(Weekday::Mon), day(2019, 2, 11).weekday());
    assert_eq!(Some(Weekday::Mon), Date { days: 1 }.weekday());
    assert_eq!(Some(Weekday::Sat), Date { days: 6 }.weekday());
    assert_eq!(Some(Weekday::Tue), day(2024, 12, 31).weekday());
    assert_eq!(Some(Weekday::Wed), day(2025, 1, 1).weekday());
    assert_eq!(Some(Weekday::Thu), day(2026, 1, 1).weekday());
    assert_eq!(Some(Weekday::Fri), day(2027, 1, 1).weekday());
}

#[test]
fn dates_are_read_as_chrono_reads_them() {
    assert_eq!(736330, Date::parse("2017-1-1").unwrap().days);
    assert_eq!(736330, Date::parse("2017-01-01").unwrap().days);
    assert_eq!(737101, Date::parse("2019-02-11").unwrap().days);
    assert_eq!("2017-02-30", Date::parse("2017-02-30").unwrap_err().text);
    assert_eq!("", Date::parse("").unwrap_err().text);
    assert!(Date::parse("20170101").is_err());

    assert_eq!(736330, deserialize_date("20170101").unwrap().days);
    assert_eq!(day(2024, 2, 29), deserialize_date("20240229").unwrap());
    assert_eq!("20230229", deserialize_date("20230229").unwrap_err().text);
    assert!(deserialize_date("2017-01-01").is_err());
    assert!(deserialize_date("").is_err());
}

#[test]
fn days_since_counts_whole_days() {
    assert_eq!(771, day(2019, 2, 11).days_since(day(2017, 1, 1)));
    assert_eq!(-771, day(2017, 1, 1).days_since(day(2019, 2, 11)));
    assert_eq!(0, day(2017, 1, 1).days_since(day(2017, 1, 1)));
    assert_eq!(
        i32::MAX as i64 - i32::MIN as i64,
        Date { days: i32::MAX }.days_since(Date { days: i32::MIN })
    );
}

#[test]
fn trip_days_joins_exceptions_and_calendar() {
    let gtfs = Gtfs::new(
        0,
        vec![
            calendar("other", ALL_WEEK, day(2017, 1, 1), day(2017, 1, 4)),
            calendar("weekend", WEEKEND, day(2017, 1, 7), day(2017, 1, 23)),
        ],
        vec![
            exception("weekend", day(2017, 1, 11), 1),
            exception("weekend", day(2017, 1, 14), 2),
            exception("other", day(2017, 1, 12), 1),
            exception("weekend", day(2016, 12, 31), 1),
            exception("weekend", day(2017, 1, 1), 1),
            exception("weekend", day(2017, 1, 15), 3),
        ],
        vec![],
        vec![],
        vec![],
        vec![],
    );
    let start = day(2017, 1, 1);
    // Added: the 11th and the 1st. By the calendar: the weekends from the 7th
    // to the 22nd, but for the 14th.
    assert_eq!(
        vec![10, 0, 6, 7, 14, 20, 21],
        gtfs.trip_days(&"weekend".to_string(), start)
    );
    assert_eq!(vec![11, 0, 1, 2], gtfs.trip_days(&"other".to_string(), start));
    assert!(gtfs.trip_days(&"none".to_string(), start).is_empty());
    // A calendar that ends before the first day gives nothing.
    assert!(gtfs
        .trip_days(&"other".to_string(), day(2017, 1, 13))
        .is_empty());
    assert_eq!(
        vec![(65536 + 10) as u16],
        gtfs.trip_days(&"weekend".to_string(), Date { days: day(2017, 1, 1).days - 65536 })
            .into_iter()
            .take(1)
            .collect::<Vec<_>>()
    );
}

#[test]
fn times_are_read_in_seconds() {
    assert_eq!(Some(10), deserialize_time("0:0:10"));
    assert_eq!(Some(3723), deserialize_time("1:02:03"));
    assert_eq!(Some(90000), deserialize_time("25:00:00"));
    assert_eq!(Some(7), deserialize_time("000:00:0000000000000000000007"));
    assert_eq!(Some(u32::MAX), deserialize_time("0:0:4294967295"));
    assert_eq!(Some(u32::MAX), deserialize_time("1193046:28:15"));
    assert_eq!(None, deserialize_time("1193046:28:16"));
    assert_eq!(None, deserialize_time("0:0:4294967296"));
    assert_eq!(None, deserialize_time("99999999999999999999:0:0"));
    assert_eq!(None, deserialize_time(""));
    assert_eq!(None, deserialize_time("10"));
    assert_eq!(None, deserialize_time("0:10"));
    assert_eq!(None, deserialize_time("1:2:3:4"));
    assert_eq!(None, deserialize_time("1::3"));
    assert_eq!(None, deserialize_time(":2:3"));
    assert_eq!(None, deserialize_time("1:2:"));
    assert_eq!(None, deserialize_time("a:b:c"));
    assert_eq!(None, deserialize_time("1:2:3 "));
    assert_eq!(None, deserialize_time("+1:2:3"));
    assert_eq!(None, deserialize_time("1:٢:3"));
}

#[test]
fn flags_are_set_by_a_one() {
    assert!(deserialize_bool("1"));
    assert!(!deserialize_bool("0"));
    assert!(!deserialize_bool(""));
    assert!(!deserialize_bool("11"));
    assert!(!deserialize_bool("true"));
    assert!(!deserialize_bool(" 1"));
}
