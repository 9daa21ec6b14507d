use csa::algo::{arrival_time_with_stop_change, compute, min_duration, Incorporate, Profile};
use csa::journey::Summary;
use csa::structures::{Connection, Footpath, Timetable};

fn profile(dep_time: u32, arr_time: u32) -> Profile {
    Profile {
        out_connection: Some(0),
        dep_time,
        arr_time,
    }
}

fn pairs(list: &[Profile]) -> Vec<(u32, u32)> {
    list.iter().map(|p| (p.dep_time, p.arr_time)).collect()
}

fn network() -> Timetable {
    let mut b = Timetable::builder();
    b.trip()
        .s("a", "0:10")
        .s("b", "0:20")
        .s("c", "0:45")
        .trip()
        .s("b", "0:30")
        .s("c", "0:40")
        .trip()
        .s("a", "1:10")
        .s("b", "1:20")
        .trip()
        .s("b", "1:30")
        .s("c", "1:40")
        .trip()
        .s("d", "0:05")
        .s("a", "0:08")
        .trip()
        .s("a", "0:10")
        .s("c", "0:50");
    let mut t = b.build();
    t.footpaths[0].push(Footpath {
        from: 3,
        duration: 4,
    });
    t.footpaths[2].push(Footpath {
        from: 1,
        duration: 3,
    });
    t
}

#[test]
fn default_profile_is_the_marker() {
    let p = Profile::default();
    assert_eq!(None, p.out_connection);
    assert_eq!(u32::MAX, p.dep_time);
    assert_eq!(0, p.arr_time);
}

#[test]
fn min_duration_ignores_absent_values() {
    assert_eq!(None, min_duration(None, None));
    assert_eq!(Some(4), min_duration(Some(4), None));
    assert_eq!(Some(4), min_duration(None, Some(4)));
    assert_eq!(Some(3), min_duration(Some(7), Some(3)));
    assert_eq!(Some(3), min_duration(Some(3), Some(3)));
}

#[test]
fn stop_change_takes_the_last_profile_that_leaves_late_enough() {
    let c = Connection {
        trip: 0,
        dep_time: 0,
        arr_time: 10,
        dep_stop: 0,
        arr_stop: 1,
    };
    let list = vec![profile(30, 60), profile(16, 40), profile(15, 35)];
    assert_eq!(Some(40), arrival_time_with_stop_change(&list, &c));
    let list = vec![profile(15, 35), profile(12, 30)];
    assert_eq!(None, arrival_time_with_stop_change(&list, &c));
    assert_eq!(None, arrival_time_with_stop_change(&[], &c));
}

#[test]
fn stop_change_at_a_destination_arrives_with_the_connection() {
    let c = Connection {
        trip: 0,
        dep_time: 0,
        arr_time: 10,
        dep_stop: 0,
        arr_stop: 1,
    };
    assert_eq!(
        Some(10),
        arrival_time_with_stop_change(&[Profile::default()], &c)
    );
}

#[test]
fn stop_change_does_not_wrap_at_the_end_of_time() {
    let c = Connection {
        trip: 0,
        dep_time: 0,
        arr_time: u32::MAX - 2,
        dep_stop: 0,
        arr_stop: 1,
    };
    assert_eq!(
        None,
        arrival_time_with_stop_change(&[Profile::default(), profile(3, 9)], &c)
    );
}

#[test]
fn incorporate_without_pivot_puts_the_candidate_first() {
    let mut list = vec![profile(10, 20), profile(5, 12)];
    assert!(list.incorporate(profile(20, 30)));
    assert_eq!(vec![(20, 30), (10, 20), (5, 12)], pairs(&list));

    let mut list = vec![profile(10, 20), profile(5, 12)];
    assert!(list.incorporate(profile(20, 15)));
    assert_eq!(vec![(20, 15), (5, 12)], pairs(&list));
}

#[test]
fn incorporate_rejects_what_the_pivot_beats() {
    let mut list = vec![profile(20, 30), profile(10, 20)];
    assert!(!list.incorporate(profile(10, 20)));
    assert!(!list.incorporate(profile(9, 20)));
    assert!(!list.incorporate(profile(15, 30)));
    assert!(!list.incorporate(profile(15, 31)));
    assert_eq!(vec![(20, 30), (10, 20)], pairs(&list));
}

#[test]
fn incorporate_present_profile_changes_nothing() {
    let mut list = vec![profile(20, 30), profile(10, 20), profile(0, 10)];
    for k in 0..3 {
        let again = list[k];
        assert!(!list.incorporate(again));
        assert_eq!(vec![(20, 30), (10, 20), (0, 10)], pairs(&list));
    }
}

#[test]
fn incorporate_twice_is_rejected_the_second_time() {
    let mut list = vec![profile(20, 30), profile(10, 20), profile(0, 10)];
    assert!(list.incorporate(profile(12, 15)));
    let once = pairs(&list);
    assert!(!list.incorporate(profile(12, 15)));
    assert_eq!(once, pairs(&list));
}

#[test]
fn incorporate_drops_what_the_candidate_dominates() {
    // The candidate dominates two members: the list loses one in all.
    let mut list = vec![profile(20, 30), profile(10, 20), profile(5, 15), profile(0, 10)];
    assert!(list.incorporate(profile(11, 12)));
    assert_eq!(vec![(20, 30), (11, 12), (0, 10)], pairs(&list));
}

#[test]
fn insert_and_filter_keeps_what_stands_before() {
    let mut list = vec![profile(20, 30), profile(10, 20), profile(5, 15), profile(0, 10)];
    list.insert_and_filter(profile(11, 15), 1);
    assert_eq!(vec![(20, 30), (11, 15), (0, 10)], pairs(&list));
    let mut list = vec![profile(20, 30)];
    list.insert_and_filter(profile(11, 15), 1);
    assert_eq!(vec![(20, 30), (11, 15)], pairs(&list));
}

#[test]
fn incorporate_keeps_a_pivot_that_leaves_together() {
    // The candidate dominates the pivot, which stays before it.
    let mut list = vec![profile(10, 30)];
    assert!(list.incorporate(profile(10, 20)));
    assert_eq!(vec![(10, 30), (10, 20)], pairs(&list));
}

#[test]
fn computed_lists_fall_in_departure_and_arrival() {
    let t = network();
    for destination in 0..t.stops.len() {
        let profiles = compute(&t, &[destination]);
        assert_eq!(t.stops.len(), profiles.len());
        for list in &profiles {
            for pair in list.windows(2) {
                assert!(pair[0].dep_time >= pair[1].dep_time);
                assert!(pair[0].arr_time > pair[1].arr_time);
            }
        }
    }
}

#[test]
fn computed_profiles_board_where_they_stand() {
    let t = network();
    for destination in 0..t.stops.len() {
        let profiles = compute(&t, &[destination]);
        for (stop, list) in profiles.iter().enumerate() {
            for p in list {
                match p.out_connection {
                    None => {
                        assert_eq!(stop, destination);
                        assert_eq!((u32::MAX, 0), (p.dep_time, p.arr_time));
                    }
                    Some(i) => {
                        let c = &t.connections[i];
                        let here = c.dep_stop == stop && c.dep_time == p.dep_time;
                        let walked = t.footpaths[c.dep_stop].iter().any(|f| {
                            f.from == stop
                                && f.duration < c.dep_time
                                && c.dep_time - f.duration == p.dep_time
                        });
                        assert!(here || walked);
                        assert!(p.arr_time >= p.dep_time);
                    }
                }
            }
        }
    }
}

#[test]
fn compute_gives_the_same_answer_again() {
    let t = network();
    let first = compute(&t, &[2]);
    let second = compute(&t, &[2]);
    assert_eq!(first.len(), second.len());
    for (a, b) in first.iter().zip(second.iter()) {
        assert_eq!(pairs(a), pairs(b));
        let ca: Vec<_> = a.iter().map(|p| p.out_connection).collect();
        let cb: Vec<_> = b.iter().map(|p| p.out_connection).collect();
        assert_eq!(ca, cb);
    }
}

#[test]
fn compute_finds_the_expected_frontier() {
    let t = network();
    let profiles = compute(&t, &[2]);
    // From a: a ride to b and the walk from there, twice a day.
    assert_eq!(vec![(70, 83), (10, 23)], pairs(&profiles[0]));
    // From b: the two rides that are not beaten.
    assert_eq!(vec![(90, 100), (30, 40)], pairs(&profiles[1]));
    assert_eq!(vec![(u32::MAX, 0)], pairs(&profiles[2]));
    // From d: the walk to a, in time for each of its departures.
    assert_eq!(vec![(66, 83), (6, 23)], pairs(&profiles[3]));
}

#[test]
fn compute_without_destination_finds_nothing() {
    let t = network();
    let profiles = compute(&t, &[]);
    assert!(profiles.iter().all(|list| list.is_empty()));
}

#[test]
fn compute_marks_a_destination_each_time_it_is_named() {
    let t = network();
    let profiles = compute(&t, &[2, 2]);
    assert_eq!(vec![(u32::MAX, 0), (u32::MAX, 0)], pairs(&profiles[2]));
}

#[test]
fn departures_at_one_time_may_both_stay() {
    // The slow ride stands first among connections that leave together.
    let mut b = Timetable::builder();
    b.trip()
        .s("a", "0:10")
        .s("c", "0:50")
        .trip()
        .s("a", "0:10")
        .s("c", "0:40");
    let t = b.build();
    let profiles = compute(&t, &[1]);
    assert_eq!(vec![(10, 50), (10, 40)], pairs(&profiles[0]));
}

#[test]
fn route_follows_the_changes() {
    let mut b = Timetable::builder();
    b.trip()
        .s("a", "0:10")
        .s("b", "0:20")
        .trip()
        .s("b", "0:30")
        .s("c", "0:40");
    let t = b.build();
    let profiles = compute(&t, &[2]);
    let legs = profiles[0][0].route(&profiles, &t);
    assert_eq!(2, legs.len());
    assert_eq!((0, 1, 10, 20), (legs[0].dep_stop, legs[0].arr_stop, legs[0].dep_time, legs[0].arr_time));
    assert_eq!((1, 2, 30, 40), (legs[1].dep_stop, legs[1].arr_stop, legs[1].dep_time, legs[1].arr_time));

    let summary = Summary::from(&legs);
    assert_eq!(10, summary.departure);
    assert_eq!(40, summary.arrival);
    assert_eq!(2, summary.transfers);

    let last = profiles[1][0].route(&profiles, &t);
    assert_eq!(1, last.len());
    assert_eq!(30, last[0].dep_time);
    assert!(profiles[2][0].route(&profiles, &t).is_empty());
}

#[test]
fn route_of_a_seated_journey_is_its_first_connection() {
    let mut b = Timetable::builder();
    b.trip().s("a", "0:10").s("b", "0:20").s("c", "0:40");
    let t = b.build();
    let profiles = compute(&t, &[2]);
    let legs = profiles[0][0].route(&profiles, &t);
    assert_eq!(1, legs.len());
    assert_eq!((0, 1), (legs[0].dep_stop, legs[0].arr_stop));
    let summary = Summary::from(&legs);
    assert_eq!((10, 20, 1), (summary.departure, summary.arrival, summary.transfers));
}

#[test]
fn summary_counts_each_trip_once() {
    let ride = |trip, dep_time, arr_time| Connection {
        trip,
        dep_time,
        arr_time,
        dep_stop: 0,
        arr_stop: 1,
    };
    let summary = Summary::from(&[ride(4, 1, 2), ride(7, 3, 4), ride(4, 5, 6)]);
    assert_eq!((1, 6, 2), (summary.departure, summary.arrival, summary.transfers));
}

#[test]
fn seated_arrival_is_kept_for_a_rejected_candidate() {
    // The ride from b with the first trip is beaten at b, but whoever boards
    // the trip at a still arrives with it.
    let mut b = Timetable::builder();
    b.trip()
        .s("a", "0:10")
        .s("b", "0:20")
        .s("c", "0:45")
        .trip()
        .s("b", "0:22")
        .s("c", "0:40");
    let t = b.build();
    let profiles = compute(&t, &[2]);
    assert_eq!(vec![(22, 40)], pairs(&profiles[1]));
    assert_eq!(vec![(10, 45)], pairs(&profiles[0]));
}

#[test]
fn walks_must_start_after_time_zero() {
    let timetable = |duration| {
        let mut b = Timetable::builder();
        b.trip().s("a", "0:03").s("b", "0:10").trip().s("z", "0:00").s("y", "0:00");
        let mut t = b.build();
        t.footpaths[0].push(Footpath { from: 2, duration });
        t
    };
    let profiles = compute(&timetable(2), &[1]);
    assert_eq!(vec![(3, 10)], pairs(&profiles[0]));
    assert_eq!(vec![(1, 10)], pairs(&profiles[2]));
    assert_eq!(Some(0), profiles[2][0].out_connection);
    let profiles = compute(&timetable(3), &[1]);
    assert_eq!(vec![(3, 10)], pairs(&profiles[0]));
    assert!(profiles[2].is_empty());
    let profiles = compute(&timetable(4), &[1]);
    assert!(profiles[2].is_empty());
}

#[test]
fn transfer_needs_more_than_the_transfer_time() {
    let timetable = |second: &str| {
        let mut b = Timetable::builder();
        b.trip().s("a", "0:10").s("b", "0:20").trip().s("b", second).s("c", "0:40");
        b.build()
    };
    assert!(compute(&timetable("0:25"), &[2])[0].is_empty());
    assert_eq!(vec![(10, 40)], pairs(&compute(&timetable("0:26"), &[2])[0]));
}

/// For each connection, the times at which a journey that starts with it
/// ends: once it has reached a destination, by itself or by a walk, or
/// later with a connection that stands before it, of the same trip or
/// after a change.
fn arrivals(t: &Timetable, destinations: &[usize]) -> Vec<Vec<u32>> {
    let mut all: Vec<Vec<u32>> = Vec::new();
    for i in 0..t.connections.len() {
        let c = &t.connections[i];
        let mut ends = Vec::new();
        if destinations.contains(&c.arr_stop) {
            ends.push(c.arr_time);
        }
        for d in destinations {
            for f in &t.footpaths[*d] {
                if f.from == c.arr_stop {
                    ends.push(c.arr_time + f.duration);
                }
            }
        }
        for j in 0..i {
            let next = &t.connections[j];
            let at_once = next.dep_stop == c.arr_stop && next.dep_time > c.arr_time + 5;
            let walking = t.footpaths[next.dep_stop].iter().any(|f| {
                f.from == c.arr_stop
                    && f.duration < next.dep_time
                    && next.dep_time - f.duration > c.arr_time + 5
            });
            if next.trip == c.trip || at_once || walking {
                ends.extend(all[j].iter().copied());
            }
        }
        all.push(ends);
    }
    all
}

fn without_footpaths() -> Timetable {
    let mut t = network();
    for walks in t.footpaths.iter_mut() {
        walks.clear();
    }
    t
}

#[test]
fn every_profile_is_a_journey() {
    for t in [network(), without_footpaths()] {
        for destination in 0..t.stops.len() {
            let ends = arrivals(&t, &[destination]);
            let profiles = compute(&t, &[destination]);
            for list in &profiles {
                for p in list {
                    if let Some(i) = p.out_connection {
                        assert!(ends[i].contains(&p.arr_time));
                    }
                }
            }
        }
    }
}

#[test]
fn every_journey_is_served_where_nobody_walks() {
    let t = without_footpaths();
    assert!(t.is_punctual());
    for destination in 0..t.stops.len() {
        let ends = arrivals(&t, &[destination]);
        let profiles = compute(&t, &[destination]);
        for (i, c) in t.connections.iter().enumerate() {
            for end in &ends[i] {
                assert!(profiles[c.dep_stop]
                    .iter()
                    .any(|p| p.dep_time >= c.dep_time && p.arr_time <= *end));
            }
        }
    }
}

#[test]
fn a_walk_to_a_beaten_connection_is_not_offered() {
    // From y one walks to z and rides from there, which beats the slow ride
    // from y. Whoever comes from x can walk to y, but not on to z.
    let mut b = Timetable::builder();
    b.trip()
        .s("z", "1:50")
        .s("d", "2:00")
        .trip()
        .s("y", "1:35")
        .s("d", "3:20")
        .trip()
        .s("w", "0:01")
        .s("x", "0:02");
    let mut t = b.build();
    t.footpaths[0].push(Footpath { from: 2, duration: 10 });
    t.footpaths[2].push(Footpath { from: 4, duration: 3 });
    let profiles = compute(&t, &[1]);
    assert_eq!(vec![(110, 120)], pairs(&profiles[0]));
    assert_eq!(vec![(100, 120)], pairs(&profiles[2]));
    assert!(profiles[4].is_empty());
    // The ride from y is a journey all the same.
    assert_eq!(vec![200], arrivals(&t, &[1])[1]);
}
