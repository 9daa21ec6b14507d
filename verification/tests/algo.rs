use csa::algo::{compute, Incorporate, Profile};
use csa::structures::{Footpath, Timetable};

#[test]
fn test_incorporate() {
    let mut profiles = Vec::new();
    profiles.incorporate(Profile {
        dep_time: 20,
        arr_time: 30,
        out_connection: None,
    });

    assert_eq!(1, profiles.len());

    profiles.incorporate(Profile {
        dep_time: 10,
        arr_time: 20,
        out_connection: None,
    });
    assert_eq!(2, profiles.len());

    // Dominated profile, should not be inserted
    profiles.incorporate(Profile {
        dep_time: 8,
        arr_time: 21,
        out_connection: None,
    });
    assert_eq!(2, profiles.len());
    assert_eq!(10, profiles[1].dep_time);

    profiles.incorporate(Profile {
        dep_time: 0,
        arr_time: 10,
        out_connection: None,
    });
    assert_eq!(3, profiles.len());

    // Dominating profile, should remove the existing one
    profiles.incorporate(Profile {
        dep_time: 11,
        arr_time: 20,
        out_connection: None,
    });
    assert_eq!(3, profiles.len());
    assert_eq!(11, profiles[1].dep_time);
}

#[test]
fn simple_transfer() {
    let mut b = Timetable::builder();
    b.trip()
        .s("a", "0:10")
        .s("b", "0:20")
        .trip()
        .s("b", "0:30")
        .s("c", "0:40");

    let t = b.build();
    let profiles = compute(&t, &[2]);
    assert_eq!(1, profiles[0].len());
    assert_eq!(10, profiles[0][0].dep_time);
    assert_eq!(40, profiles[0][0].arr_time);

    assert_eq!(1, profiles[1].len());
    assert_eq!(30, profiles[1][0].dep_time);
    assert_eq!(40, profiles[1][0].arr_time);
}

#[test]
fn no_route() {
    let mut b = Timetable::builder();
    b.trip()
        .s("a", "0:10")
        .s("b", "0:20")
        .trip()
        .s("c", "0:30")
        .s("d", "0:40");
    let t = b.build();
    let profiles = compute(&t, &[0]);
    assert!(profiles[2].is_empty());
}

#[test]
fn insuffisent_transfer_time() {
    let mut b = Timetable::builder();
    b.trip()
        .s("a", "0:10")
        .s("b", "0:20")
        .trip()
        .s("b", "0:20")
        .s("c", "0:40");
    let t = b.build();
    let profiles = compute(&t, &[2]);
    assert!(profiles[0].is_empty());
    assert!(!profiles[1].is_empty());
}

#[test]
fn equivalent_solutions() {
    let mut b = Timetable::builder();
    b.trip()
        .s("a", "0:10")
        .s("b", "0:20")
        .trip()
        .s("a", "1:10")
        .s("b", "1:20")
        .trip()
        .s("b", "0:30")
        .s("c", "0:40")
        .trip()
        .s("b", "1:30")
        .s("c", "1:40");

    let t = b.build();
    let profiles = compute(&t, &[2]);
    assert_eq!(2, profiles[0].len());
    assert_eq!(10, profiles[0][1].dep_time);
    assert_eq!(40, profiles[0][1].arr_time);
    assert_eq!(70, profiles[0][0].dep_time);
    assert_eq!(100, profiles[0][0].arr_time);
}

#[test]
fn dominated_solution() {
    let mut b = Timetable::builder();
    b.trip()
        .s("a", "0:10")
        .s("b", "0:20")
        .trip()
        .s("b", "0:30")
        .s("c", "0:40")
        .trip()
        .s("a", "0:10")
        .s("c", "0:50");

    let t = b.build();
    let profiles = compute(&t, &[2]);
    assert_eq!(1, profiles[0].len());
    assert_eq!(40, profiles[0][0].arr_time);
}

#[test]
fn stay_seated() {
    let mut b = Timetable::builder();
    b.trip().s("a", "0:10").s("b", "0:20").s("c", "0:40");
    let t = b.build();
    let profiles = compute(&t, &[2]);
    assert_eq!(1, profiles[0].len());
    assert_eq!(10, profiles[0][0].dep_time);
    assert_eq!(40, profiles[0][0].arr_time);
    assert_eq!(1, profiles[1].len());
    assert_eq!(20, profiles[1][0].dep_time);
    assert_eq!(40, profiles[1][0].arr_time);
}

#[test]
fn footpath() {
    let mut b = Timetable::builder();
    b.trip()
        .s("a", "0:10")
        .s("b", "0:20")
        .trip()
        .s("c", "0:30")
        .s("d", "0:40");
    let mut t = b.build();
    t.footpaths[2].push(Footpath {
        from: 1,
        duration: 3,
    });
    let profiles = compute(&t, &[3]);
    assert_eq!(1, profiles[0].len());
    assert_eq!(10, profiles[0][0].dep_time);
    assert_eq!(1, profiles[1].len());
    assert_eq!(27, profiles[1][0].dep_time);
}

#[test]
fn final_footpath() {
    let mut b = Timetable::builder();
    b.trip()
        .s("a", "0:10")
        .s("b", "0:20")
        .trip()
        .s("b", "0:30")
        .s("c", "0:40");
    let mut t = b.build();
    t.footpaths[2].push(Footpath {
        from: 1,
        duration: 3,
    });
    let profiles = compute(&t, &[2]);
    assert_eq!(23, profiles[0][0].arr_time);
}

#[test]
fn final_multiple_footpath() {
    let mut b = Timetable::builder();
    b.trip()
        .s("a", "0:10")
        .s("b", "0:20")
        .trip()
        .s("c", "0:30")
        .s("d", "0:40");
    let mut t = b.build();
    t.footpaths[2].push(Footpath {
        from: 1,
        duration: 3,
    });
    t.footpaths[3].push(Footpath {
        from: 1,
        duration: 10,
    });
    let profiles = compute(&t, &[2, 3]);
    assert_eq!(23, profiles[0][0].arr_time);
}
