use chrono::{Datelike, NaiveDate};
use csa::sort::sort_by_departure;
use csa::structures::{Connection, Footpath, LocationType, Stop, Timetable};

#[test]
fn builder() {
    let mut b = Timetable::builder();
    b.trip();
    assert_eq!(1, b.trips.len());
    assert_eq!(0, b.stop("a"));
    assert_eq!(0, b.stop("a"));
    assert_eq!(1, b.stop("b"));
}

#[test]
fn builder_transform() {
    let mut b = Timetable::builder();
    b.trip()
        .s("a", "0:10")
        .s("b", "0:20")
        .s("c", "0:30")
        .trip()
        .s("b", "0:00")
        .s("d", "0:40");

    let t = b.build();
    assert_eq!(4, t.stops.len());
    assert_eq!(2, t.trips.len());
    assert_eq!(3, t.connections.len());
}

#[test]
fn builder_lists_stops_as_they_come() {
    let mut b = Timetable::builder();
    b.trip()
        .s("x", "0:10")
        .s("y", "0:20")
        .trip()
        .s("z", "0:05")
        .s("x", "0:07");
    let t = b.build();
    let ids: Vec<_> = t.stops.iter().map(|s| s.id.as_str()).collect();
    assert_eq!(vec!["x", "y", "z"], ids);
    let names: Vec<_> = t.stops.iter().map(|s| s.name.as_str()).collect();
    assert_eq!(vec!["x", "y", "z"], names);
    assert!(t.stops.iter().all(|s| s.parent_station.is_none()));
    assert!(t
        .stops
        .iter()
        .all(|s| s.location_type == LocationType::StopPoint));
    assert_eq!(3, t.footpaths.len());
    assert!(t.footpaths.iter().all(|f| f.is_empty()));
    assert_eq!(0, t.transform_duration);
    assert!(t.is_valid());
}

#[test]
fn builder_starts_on_the_42nd_day_of_2019() {
    let t = Timetable::builder().build();
    let day = NaiveDate::from_yo_opt(2019, 42).unwrap();
    assert_eq!(day.num_days_from_ce(), t.start_date.days);
    assert!(t.stops.is_empty());
    assert!(t.is_valid());
}

#[test]
fn builder_reads_minutes_and_seconds() {
    let mut b = Timetable::builder();
    b.trip().s("a", "0:10").s("b", "1:10").s("c", "12:34");
    let t = b.build();
    let times: Vec<_> = t
        .connections
        .iter()
        .map(|c| (c.trip, c.dep_stop, c.dep_time, c.arr_stop, c.arr_time))
        .collect();
    assert_eq!(vec![(0, 1, 70, 2, 754), (0, 0, 10, 1, 70)], times);
}

#[test]
fn build_keeps_connections_that_leave_together_in_their_order() {
    let mut b = Timetable::builder();
    b.trip()
        .s("a", "0:10")
        .s("b", "0:20")
        .trip()
        .s("c", "0:30")
        .s("d", "0:40")
        .trip()
        .s("e", "0:10")
        .s("f", "0:20")
        .trip()
        .s("g", "0:30")
        .s("h", "0:40")
        .trip()
        .s("i", "0:10")
        .s("j", "0:20");
    let t = b.build();
    let trips: Vec<_> = t.connections.iter().map(|c| c.trip).collect();
    assert_eq!(vec![1, 3, 0, 2, 4], trips);
}

#[test]
fn sort_by_departure_is_stable() {
    let list: Vec<Connection> = [5u32, 1, 5, 9, 1, 5, 0, 9]
        .iter()
        .enumerate()
        .map(|(trip, dep_time)| Connection {
            trip,
            dep_time: *dep_time,
            arr_time: 0,
            dep_stop: 0,
            arr_stop: 0,
        })
        .collect();
    let sorted: Vec<_> = sort_by_departure(list)
        .iter()
        .map(|c| (c.dep_time, c.trip))
        .collect();
    assert_eq!(
        vec![(9, 3), (9, 7), (5, 0), (5, 2), (5, 5), (1, 1), (1, 4), (0, 6)],
        sorted
    );
    assert!(sort_by_departure(Vec::new()).is_empty());
}

#[test]
fn is_valid_tells_what_compute_takes() {
    let built = || {
        let mut b = Timetable::builder();
        b.trip().s("a", "0:10").s("b", "0:20").s("c", "0:40");
        b.build()
    };
    assert!(built().is_valid());

    let mut t = built();
    t.footpaths[0].push(Footpath { from: 2, duration: 7 });
    assert!(t.is_valid());
    t.footpaths[0].push(Footpath { from: 3, duration: 7 });
    assert!(!t.is_valid());

    let mut t = built();
    t.footpaths.pop();
    assert!(!t.is_valid());

    let mut t = built();
    t.connections.reverse();
    assert!(!t.is_valid());

    let mut t = built();
    t.trips.clear();
    assert!(!t.is_valid());

    let mut t = built();
    t.connections[0].arr_stop = 3;
    assert!(!t.is_valid());
    t.connections[0].arr_stop = 2;
    t.connections[0].dep_stop = 3;
    assert!(!t.is_valid());

    // A walk from where a connection arrives must end in time.
    let mut t = built();
    t.footpaths[0].push(Footpath { from: 2, duration: u32::MAX - 40 });
    assert!(t.is_valid());
    t.footpaths[1].push(Footpath { from: 2, duration: u32::MAX - 39 });
    assert!(!t.is_valid());
    t.connections.insert(
        0,
        Connection { trip: 0, dep_time: u32::MAX, arr_time: u32::MAX, dep_stop: 0, arr_stop: 0 },
    );
    t.footpaths[1].pop();
    assert!(t.is_valid());
    t.footpaths[1].push(Footpath { from: 0, duration: 1 });
    assert!(!t.is_valid());
}

#[test]
fn is_punctual_tells_whether_connections_arrive_after_they_leave() {
    let mut b = Timetable::builder();
    b.trip().s("a", "0:10").s("b", "0:20").s("c", "0:20");
    assert!(b.build().is_punctual());
    let mut b = Timetable::builder();
    b.trip().s("a", "0:10").s("b", "0:20").s("c", "0:19");
    let t = b.build();
    assert!(t.is_valid());
    assert!(!t.is_punctual());
    assert!(Timetable::builder().build().is_punctual());
}

#[test]
fn stop_areas_give_their_stops_and_footpaths() {
    let stop = |id: &str, parent: Option<&str>, location_type| Stop {
        id: id.to_string(),
        name: id.to_string(),
        parent_station: parent.map(|p| p.to_string()),
        location_type,
    };
    let stops = vec![
        stop("area", None, LocationType::StopArea),
        stop("east", Some("area"), LocationType::StopPoint),
        stop("lone", None, LocationType::StopPoint),
        stop("door", Some("area"), LocationType::StationEntrance),
        stop("west", Some("area"), LocationType::StopPoint),
        stop("pier", Some("other"), LocationType::StopPoint),
        stop("north", Some("area"), LocationType::StopPoint),
        stop("east", Some("area"), LocationType::StopPoint),
    ];
    let walks: Vec<Vec<_>> = Timetable::footpaths(&stops)
        .iter()
        .map(|into| into.iter().map(|f| (f.from, f.duration)).collect())
        .collect();
    let none: Vec<(usize, u32)> = Vec::new();
    assert_eq!(
        vec![
            none.clone(),
            vec![(4, 5), (6, 5)],
            none.clone(),
            none.clone(),
            vec![(1, 5), (6, 5), (7, 5)],
            none.clone(),
            vec![(1, 5), (4, 5), (7, 5)],
            vec![(4, 5), (6, 5)],
        ],
        walks
    );

    let mut t = Timetable::builder().build();
    t.stops = stops;
    assert_eq!(vec![1, 3, 4, 6, 7], t.stop_index_by_stop_area_id("area"));
    assert_eq!(vec![5], t.stop_index_by_stop_area_id("other"));
    assert!(t.stop_index_by_stop_area_id("east").is_empty());
    assert!(t.stop_index_by_stop_area_id("").is_empty());
}

#[test]
fn stops_are_made_from_feed_stops() {
    let feed = csa::gtfs_structures::Stop {
        id: "s1".to_string(),
        stop_name: "First".to_string(),
        location_type: Some(2),
        parent_station: Some("area".to_string()),
    };
    let made = Stop::from(&feed);
    assert_eq!("s1", made.id);
    assert_eq!("First", made.name);
    assert_eq!(Some("area".to_string()), made.parent_station);
    assert_eq!(LocationType::StationEntrance, made.location_type);
    assert_eq!(LocationType::StopPoint, LocationType::from_code(None));
    assert_eq!(LocationType::StopPoint, LocationType::from_code(Some(0)));
    assert_eq!(LocationType::StopArea, LocationType::from_code(Some(1)));
    assert_eq!(LocationType::Other(3), LocationType::from_code(Some(3)));
}

#[test]
fn try_s_tells_whether_the_stop_was_taken() {
    let mut b = Timetable::builder();
    assert!(!b.try_s("a", "0:10"));
    b.trip();
    assert!(b.try_s("a", "0:10"));
    assert!(!b.try_s("b", "ten past"));
    assert!(!b.try_s("b", "0:0:20"));
    assert!(!b.try_s("b", ""));
    assert!(b.try_s("c", "0:30"));
    let t = b.build();
    let ids: Vec<_> = t.stops.iter().map(|s| s.id.as_str()).collect();
    assert_eq!(vec!["a", "c"], ids);
    assert_eq!(1, t.connections.len());
    assert_eq!((10, 30), (t.connections[0].dep_time, t.connections[0].arr_time));
}
