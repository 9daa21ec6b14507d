use crate::gtfs_structures;
use crate::records::{find, index_of, keys, lemma_index_of};
use crate::sort::{by_departure, sort_by_departure};
use crate::text::{clock_seconds, parse_clock, COLON};
use vstd::prelude::*;
use vstd::string::StringSliceAdditionalSpecFns;

verus! {

/// A calendar day, counted in days of the proleptic Gregorian calendar with
/// 1 January of the year 1 as day 1.
#[derive(Clone, Copy, Debug, PartialEq, Eq, Structural)]
pub struct Date {
    pub days: i32,
}

/// The sort of place that a stop record stands for.
#[derive(Clone, Copy, Debug, PartialEq, Eq, Structural)]
pub enum LocationType {
    /// A place where vehicles are boarded.
    StopPoint,
    /// A station that groups stop points.
    StopArea,
    /// A way into or out of a station.
    StationEntrance,
    /// A place of which a feed gave only a number without a meaning here.
    Other(u8),
}

impl LocationType {
    /// What a feed means by `code`. A stop without a code is a stop point.
    pub open spec fn of_code(code: Option<u8>) -> LocationType {
        match code {
            None => LocationType::StopPoint,
            Some(0) => LocationType::StopPoint,
            Some(1) => LocationType::StopArea,
            Some(2) => LocationType::StationEntrance,
            Some(other) => LocationType::Other(other),
        }
    }

    /// What a feed means by `code`.
    pub fn from_code(code: Option<u8>) -> (location: LocationType)
        ensures
            location == LocationType::of_code(code),
    {
        match code {
            None => LocationType::StopPoint,
            Some(0) => LocationType::StopPoint,
            Some(1) => LocationType::StopArea,
            Some(2) => LocationType::StationEntrance,
            Some(other) => LocationType::Other(other),
        }
    }
}

/// A place of the network, as the timetable lists it.
#[derive(Debug)]
pub struct Stop {
    pub id: String,
    pub name: String,
    pub parent_station: Option<String>,
    pub location_type: LocationType,
}

impl<'a> vstd::std_specs::convert::FromSpecImpl<&'a gtfs_structures::Stop> for Stop {
    open spec fn obeys_from_spec() -> bool {
        true
    }

    /// The stop that a feed describes by `stop`.
    open spec fn from_spec(stop: &'a gtfs_structures::Stop) -> Stop {
        Stop {
            id: stop.id,
            name: stop.stop_name,
            parent_station: stop.parent_station,
            location_type: LocationType::of_code(stop.location_type),
        }
    }
}

impl<'a> From<&'a gtfs_structures::Stop> for Stop {
    fn from(stop: &'a gtfs_structures::Stop) -> (made: Self) {
        Stop {
            id: stop.id.clone(),
            name: stop.stop_name.clone(),
            parent_station: match &stop.parent_station {
                Some(id) => Some(id.clone()),
                None => None,
            },
            location_type: LocationType::from_code(stop.location_type),
        }
    }
}

/// One elementary ride of a trip between two consecutive stops.
#[derive(Clone, Copy, Debug)]
pub struct Connection {
    pub trip: usize,
    pub dep_time: u32,
    pub arr_time: u32,
    pub dep_stop: usize,
    pub arr_stop: usize,
}

/// A walk into the stop under which it is stored, starting at `from`.
#[derive(Clone, Copy, Debug)]
pub struct Footpath {
    pub from: usize,
    pub duration: u32,
}

/// One vehicle run on one day. Trips are told apart by their index alone.
#[derive(Clone, Copy, Debug)]
pub struct Trip {}

/// Stops, trips and connections by dense index; `footpaths[to]` holds the
/// walks that end at stop `to`.
pub struct Timetable {
    pub start_date: Date,
    pub transform_duration: i64,
    pub stops: Vec<Stop>,
    pub connections: Vec<Connection>,
    pub footpaths: Vec<Vec<Footpath>>,
    pub trips: Vec<Trip>,
}

/// What the sweep reads of a timetable.
pub struct Network {
    pub stops: nat,
    pub trips: nat,
    pub connections: Seq<Connection>,
    pub footpaths: Seq<Seq<Footpath>>,
}

impl View for Timetable {
    type V = Network;

    open spec fn view(&self) -> Network {
        Network {
            stops: self.stops@.len(),
            trips: self.trips@.len(),
            connections: self.connections@,
            footpaths: self.footpaths@.map_values(|walks: Vec<Footpath>| walks@),
        }
    }
}

impl Network {
    /// Every index points into its array, and connections can be told apart
    /// by a machine index.
    pub open spec fn linked(self) -> bool {
        &&& self.footpaths.len() == self.stops
        &&& self.connections.len() <= usize::MAX
        &&& forall|i: int|
            0 <= i < self.connections.len() ==> {
                &&& (#[trigger] self.connections[i]).trip < self.trips
                &&& self.connections[i].dep_stop < self.stops
                &&& self.connections[i].arr_stop < self.stops
            }
        &&& forall|to: int, k: int|
            0 <= to < self.footpaths.len() && 0 <= k < self.footpaths[to].len() ==> (
            #[trigger] self.footpaths[to][k]).from < self.stops
    }

    /// Connections stand in the order of their departure, latest first.
    pub open spec fn sorted(self) -> bool {
        forall|i: int, j: int|
            0 <= i <= j < self.connections.len() ==> (#[trigger] self.connections[i]).dep_time >= (
            #[trigger] self.connections[j]).dep_time
    }

    /// Whoever alights from a connection and walks on arrives at a time
    /// that can still be written down.
    pub open spec fn bounded(self) -> bool {
        forall|i: int, to: int, k: int|
            0 <= i < self.connections.len() && 0 <= to < self.footpaths.len() && 0 <= k
                < self.footpaths[to].len() && (#[trigger] self.footpaths[to][k]).from == (
            #[trigger] self.connections[i]).arr_stop ==> self.connections[i].arr_time
                + self.footpaths[to][k].duration <= u32::MAX
    }

    /// No connection arrives before it leaves.
    pub open spec fn punctual(self) -> bool {
        forall|i: int|
            0 <= i < self.connections.len() ==> (#[trigger] self.connections[i]).arr_time
                >= self.connections[i].dep_time
    }

    /// There is no footpath.
    pub open spec fn walkless(self) -> bool {
        forall|to: int| 0 <= to < self.footpaths.len() ==> (#[trigger] self.footpaths[to]).len() == 0
    }

    /// No two connections leave one stop at the same time.
    pub open spec fn staggered(self) -> bool {
        forall|i: int, j: int|
            0 <= i < j < self.connections.len() && (#[trigger] self.connections[i]).dep_stop == (
            #[trigger] self.connections[j]).dep_stop ==> self.connections[i].dep_time
                != self.connections[j].dep_time
    }

    /// What the sweep asks of a timetable.
    pub open spec fn wf(self) -> bool {
        self.linked() && self.sorted() && self.bounded()
    }
}

/// What a builder has been told so far.
pub struct Plan {
    /// The identifiers of the stops, each once, in the order in which they
    /// were first named.
    pub stops: Seq<Seq<char>>,
    /// How many trips were opened.
    pub trips: nat,
    /// The stop and the time named last in the open trip.
    pub last_stop: Option<(usize, u32)>,
    /// The connections, in the order in which they were made.
    pub connections: Seq<Connection>,
}

impl Plan {
    /// No stop is listed twice, and every index points to a stop or a trip
    /// that the plan holds.
    pub open spec fn wf(self) -> bool {
        &&& self.stops.no_duplicates()
        &&& self.last_stop matches Some(last) ==> last.0 < self.stops.len()
        &&& forall|i: int|
            0 <= i < self.connections.len() ==> {
                &&& (#[trigger] self.connections[i]).trip < self.trips
                &&& self.connections[i].dep_stop < self.stops.len()
                &&& self.connections[i].arr_stop < self.stops.len()
            }
    }

    /// The plan with a new trip opened.
    pub open spec fn with_trip(self) -> Plan {
        Plan { trips: self.trips + 1, last_stop: None, ..self }
    }

    /// The stops with `id` among them.
    pub open spec fn stops_with(self, id: Seq<char>) -> Seq<Seq<char>> {
        if index_of(self.stops, id) < self.stops.len() {
            self.stops
        } else {
            self.stops.push(id)
        }
    }

    /// The plan after the open trip calls at stop `id` at `time`: behind the
    /// first stop of a trip, a connection leads there from the stop and the
    /// time named before.
    pub open spec fn with_stop(self, id: Seq<char>, time: u32) -> Plan {
        let stop = index_of(self.stops, id) as usize;
        Plan {
            stops: self.stops_with(id),
            trips: self.trips,
            last_stop: Some((stop, time)),
            connections: match self.last_stop {
                Some(last) => self.connections.push(
                    Connection {
                        trip: (self.trips - 1) as usize,
                        dep_stop: last.0,
                        dep_time: last.1,
                        arr_stop: stop,
                        arr_time: time,
                    },
                ),
                None => self.connections,
            },
        }
    }
}

/// The bytes of the time that `s` reads where `time` is given: `time` behind
/// an hour of 0.
pub open spec fn past_midnight(time: Seq<u8>) -> Seq<u8> {
    seq![0x30u8, COLON] + time
}

/// The day that a built timetable starts on: 11 February 2019.
pub const BUILT_START: i32 = 737101;

/// Takes trips stop by stop and makes a timetable of them.
pub struct TimetableBuilder {
    stops: Vec<String>,
    pub trips: Vec<Trip>,
    last_stop: Option<(usize, u32)>,
    connections: Vec<Connection>,
}

impl View for TimetableBuilder {
    type V = Plan;

    closed spec fn view(&self) -> Plan {
        Plan {
            stops: keys(self.stops@),
            trips: self.trips@.len(),
            last_stop: self.last_stop,
            connections: self.connections@,
        }
    }
}

impl TimetableBuilder {
    /// Opens a new trip. The stops named next belong to it.
    pub fn trip(&mut self) -> (builder: &mut Self)
        ensures
            builder@ == old(self)@.with_trip(),
            *final(builder) == *final(self),
    {
        self.last_stop = None;
        self.trips.push(Trip {  });
        self
    }

    /// Index of the stop `stop_id`, which is listed if it was not yet.
    pub fn stop(&mut self, stop_id: &str) -> (index: usize)
        ensures
            index == index_of(old(self)@.stops, stop_id@),
            final(self)@ == (Plan { stops: old(self)@.stops_with(stop_id@), ..old(self)@ }),
            old(self)@.wf() ==> final(self)@.wf(),
    {
        let id = stop_id.to_owned();
        let ghost before = keys(self.stops@);
        let index = find(&self.stops, &id);
        if index == self.stops.len() {
            self.stops.push(id);
            proof {
                lemma_index_of(before, stop_id@);
                assert(keys(self.stops@) == before.push(stop_id@));
            }
        }
        index
    }

    /// Lets the open trip call at `stop` at `time`, which is written as
    /// minutes and seconds parted by a colon.
    pub fn s(&mut self, stop: &str, time: &str) -> (builder: &mut Self)
        requires
            old(self)@.wf(),
            old(self)@.trips > 0,
            clock_seconds(past_midnight(time.spec_bytes())) is Some,
        ensures
            builder@ == old(self)@.with_stop(
                stop@,
                clock_seconds(past_midnight(time.spec_bytes()))->0,
            ),
            builder@.wf(),
            *final(builder) == *final(self),
    {
        let trip_id = self.trips.len();
        let stop_index = self.stop(stop);
        let mut text: Vec<u8> = Vec::new();
        text.push(0x30);
        text.push(COLON);
        text.extend_from_slice(time.as_bytes());
        assert(text@ == past_midnight(time.spec_bytes()));
        let parsed_time = parse_clock(text.as_slice()).unwrap();
        proof {
            lemma_index_of(old(self)@.stops, stop@);
        }
        if let Some(prev) = self.last_stop {
            self.connections.push(
                Connection {
                    trip: trip_id - 1,
                    dep_stop: prev.0,
                    dep_time: prev.1,
                    arr_stop: stop_index,
                    arr_time: parsed_time,
                },
            );
        }
        self.last_stop = Some((stop_index, parsed_time));
        self
    }

    /// As `s`, where a trip is open and `time` can be read; else the builder
    /// stays as it is. Says which it was.
    pub fn try_s(&mut self, stop: &str, time: &str) -> (done: bool)
        requires
            old(self)@.wf(),
        ensures
            done == (old(self)@.trips > 0 && clock_seconds(past_midnight(time.spec_bytes()))
                is Some),
            done ==> final(self)@ == old(self)@.with_stop(
                stop@,
                clock_seconds(past_midnight(time.spec_bytes()))->0,
            ),
            !done ==> final(self)@ == old(self)@,
            final(self)@.wf(),
    {
        let mut text: Vec<u8> = Vec::new();
        text.push(0x30);
        text.push(COLON);
        text.extend_from_slice(time.as_bytes());
        assert(text@ == past_midnight(time.spec_bytes()));
        if self.trips.len() > 0 && parse_clock(text.as_slice()).is_some() {
            self.s(stop, time);
            true
        } else {
            false
        }
    }

    /// The timetable of what was told: the connections by departure, the
    /// latest first, a stop for each identifier, and no footpath.
    pub fn build(self) -> (timetable: Timetable)
        requires
            self@.wf(),
        ensures
            timetable@ == (Network {
                stops: self@.stops.len(),
                trips: self@.trips,
                connections: by_departure(self@.connections),
                footpaths: Seq::new(self@.stops.len(), |to: int| Seq::<Footpath>::empty()),
            }),
            timetable@.wf(),
            timetable.start_date.days == BUILT_START,
            timetable.transform_duration == 0,
            forall|i: int|
                0 <= i < self@.stops.len() ==> {
                    &&& (#[trigger] timetable.stops@[i]).id@ == self@.stops[i]
                    &&& timetable.stops@[i].name@ == self@.stops[i]
                    &&& timetable.stops@[i].parent_station is None
                    &&& timetable.stops@[i].location_type == LocationType::StopPoint
                },
    {
        let connections = sort_by_departure(self.connections);
        let mut stops: Vec<Stop> = Vec::new();
        let mut footpaths: Vec<Vec<Footpath>> = Vec::new();
        let mut i: usize = 0;
        while i < self.stops.len()
            invariant
                i <= self.stops.len(),
                stops.len() == i,
                footpaths.len() == i,
                forall|k: int| 0 <= k < i ==> (#[trigger] footpaths@[k])@ == Seq::<Footpath>::empty(),
                forall|k: int|
                    0 <= k < i ==> {
                        &&& (#[trigger] stops@[k]).id@ == self.stops@[k]@
                        &&& stops@[k].name@ == self.stops@[k]@
                        &&& stops@[k].parent_station is None
                        &&& stops@[k].location_type == LocationType::StopPoint
                    },
            decreases self.stops.len() - i,
        {
            stops.push(
                Stop {
                    id: self.stops[i].clone(),
                    name: self.stops[i].clone(),
                    parent_station: None,
                    location_type: LocationType::StopPoint,
                },
            );
            footpaths.push(Vec::new());
            i += 1;
        }
        let timetable = Timetable {
            start_date: Date { days: BUILT_START },
            transform_duration: 0,
            stops,
            connections,
            footpaths,
            trips: self.trips,
        };
        proof {
            crate::sort::lemma_by_departure(self@.connections);
            assert(timetable@.footpaths == Seq::new(
                self@.stops.len(),
                |to: int| Seq::<Footpath>::empty(),
            ));
            assert forall|i: int| 0 <= i < timetable@.connections.len() implies {
                &&& (#[trigger] timetable@.connections[i]).trip < timetable@.trips
                &&& timetable@.connections[i].dep_stop < timetable@.stops
                &&& timetable@.connections[i].arr_stop < timetable@.stops
            } by {
                let c = timetable@.connections[i];
                assert(self@.connections.contains(c));
                let at = choose|at: int|
                    0 <= at < self@.connections.len() && self@.connections[at] == c;
                assert(self@.connections[at].trip < self@.trips);
            }
            assert(timetable.connections@.len() == timetable.connections.len());
            assert(timetable@.linked());
            assert(timetable@.sorted()) by {
                assert(crate::sort::is_by_departure(timetable@.connections));
            }
            assert(timetable@.bounded());
        }
        timetable
    }
}

/// The longest of the walks among `walks[..to]` and `walks[to][..k]` that
/// start at stop `from` is `longest`; `None` where none starts there.
spec fn is_longest_walk(
    walks: Seq<Seq<Footpath>>,
    to: int,
    k: int,
    from: int,
    longest: Option<u32>,
) -> bool {
    &&& longest matches Some(d) ==> exists|t: int, j: int|
        0 <= t <= to && t < walks.len() && 0 <= j < walks[t].len() && (t < to || j < k) && (
        #[trigger] walks[t][j]).from == from && walks[t][j].duration == d
    &&& forall|t: int, j: int|
        0 <= t <= to && t < walks.len() && 0 <= j < walks[t].len() && (t < to || j < k) && (
        #[trigger] walks[t][j]).from == from ==> longest is Some && walks[t][j].duration
            <= longest->0
}

impl Timetable {
    /// Whether every index points into its array.
    fn is_linked(&self) -> (ok: bool)
        ensures
            ok == self@.linked(),
    {
        let stops = self.stops.len();
        if self.footpaths.len() != stops {
            return false;
        }
        let ghost net = self@;
        assert(net.connections.len() == self.connections.len());
        let mut i: usize = 0;
        while i < self.connections.len()
            invariant
                net == self@,
                stops == net.stops,
                i <= self.connections.len(),
                forall|k: int|
                    0 <= k < i ==> {
                        &&& (#[trigger] net.connections[k]).trip < net.trips
                        &&& net.connections[k].dep_stop < net.stops
                        &&& net.connections[k].arr_stop < net.stops
                    },
            decreases self.connections.len() - i,
        {
            let c = &self.connections[i];
            if c.trip >= self.trips.len() || c.dep_stop >= stops || c.arr_stop >= stops {
                assert(net.connections[i as int] == *c);
                return false;
            }
            i += 1;
        }
        let mut to: usize = 0;
        while to < stops
            invariant
                net == self@,
                stops == net.stops,
                stops == self.footpaths.len(),
                to <= stops,
                forall|t: int, k: int|
                    0 <= t < to && 0 <= k < net.footpaths[t].len() ==> (
                    #[trigger] net.footpaths[t][k]).from < net.stops,
            decreases stops - to,
        {
            let walks = &self.footpaths[to];
            assert(net.footpaths[to as int] == walks@);
            let mut k: usize = 0;
            while k < walks.len()
                invariant
                    net == self@,
                    stops == net.stops,
                    stops == self.footpaths.len(),
                    to < stops,
                    net.footpaths[to as int] == walks@,
                    k <= walks.len(),
                    forall|j: int| 0 <= j < k ==> (#[trigger] walks@[j]).from < stops,
                decreases walks.len() - k,
            {
                if walks[k].from >= stops {
                    assert(net.footpaths[to as int][k as int].from >= net.stops);
                    return false;
                }
                k += 1;
            }
            to += 1;
        }
        true
    }

    /// Whether the connections stand by departure, the latest first.
    fn is_sorted(&self) -> (ok: bool)
        ensures
            ok == self@.sorted(),
    {
        let ghost list = self@.connections;
        let mut i: usize = 1;
        while i < self.connections.len()
            invariant
                list == self.connections@,
                list == self@.connections,
                1 <= i,
                forall|a: int, b: int|
                    0 <= a <= b < i && b < list.len() ==> (#[trigger] list[a]).dep_time >= (
                    #[trigger] list[b]).dep_time,
            decreases self.connections.len() - i,
        {
            if self.connections[i - 1].dep_time < self.connections[i].dep_time {
                assert(list[i - 1].dep_time < list[i as int].dep_time);
                return false;
            }
            assert forall|a: int, b: int| 0 <= a <= b < i + 1 && b < list.len() implies (
            #[trigger] list[a]).dep_time >= (#[trigger] list[b]).dep_time by {
                if b == i && a < i {
                    assert(list[a].dep_time >= list[i - 1].dep_time);
                }
            }
            i += 1;
        }
        true
    }

    /// Whether walking on from any connection ends at a time that can be
    /// written down.
    fn is_bounded(&self) -> (ok: bool)
        requires
            self@.linked(),
        ensures
            ok == self@.bounded(),
    {
        let ghost net = self@;
        let stops = self.stops.len();
        let mut longest: Vec<Option<u32>> = Vec::new();
        while longest.len() < stops
            invariant
                longest.len() <= stops,
                forall|s: int| 0 <= s < longest.len() ==> longest@[s] is None,
            decreases stops - longest.len(),
        {
            longest.push(None);
        }
        let mut to: usize = 0;
        while to < stops
            invariant
                net == self@,
                net.linked(),
                stops == net.stops,
                longest.len() == stops,
                to <= stops,
                forall|s: int|
                    0 <= s < stops ==> is_longest_walk(net.footpaths, to as int, 0, s, #[trigger] longest@[s]),
            decreases stops - to,
        {
            let walks = &self.footpaths[to];
            assert(net.footpaths[to as int] == walks@);
            let mut k: usize = 0;
            while k < walks.len()
                invariant
                    net == self@,
                    net.linked(),
                    stops == net.stops,
                    longest.len() == stops,
                    to < stops,
                    net.footpaths[to as int] == walks@,
                    k <= walks.len(),
                    forall|s: int|
                        0 <= s < stops ==> is_longest_walk(
                            net.footpaths,
                            to as int,
                            k as int,
                            s,
                            #[trigger] longest@[s],
                        ),
                decreases walks.len() - k,
            {
                let walk = walks[k];
                assert(net.footpaths[to as int][k as int] == walk);
                let ghost before = longest@;
                let known = longest[walk.from];
                let more = match known {
                    Some(d) => d < walk.duration,
                    None => true,
                };
                if more {
                    longest[walk.from] = Some(walk.duration);
                }
                assert forall|s: int| 0 <= s < stops implies is_longest_walk(
                    net.footpaths,
                    to as int,
                    k + 1,
                    s,
                    #[trigger] longest@[s],
                ) by {
                    assert(is_longest_walk(net.footpaths, to as int, k as int, s, before[s]));
                    if s == walk.from {
                        if more {
                            assert(net.footpaths[to as int][k as int].from == s);
                        }
                    }
                }
                k += 1;
            }
            assert forall|s: int| 0 <= s < stops implies is_longest_walk(
                net.footpaths,
                to + 1,
                0,
                s,
                #[trigger] longest@[s],
            ) by {
                assert(is_longest_walk(net.footpaths, to as int, k as int, s, longest@[s]));
            }
            to += 1;
        }
        let mut i: usize = 0;
        while i < self.connections.len()
            invariant
                net == self@,
                net.linked(),
                stops == net.stops,
                longest.len() == stops,
                i <= self.connections.len(),
                forall|s: int|
                    0 <= s < stops ==> is_longest_walk(
                        net.footpaths,
                        stops as int,
                        0,
                        s,
                        #[trigger] longest@[s],
                    ),
                forall|c: int, t: int, j: int|
                    0 <= c < i && 0 <= t < net.footpaths.len() && 0 <= j < net.footpaths[t].len()
                        && (#[trigger] net.footpaths[t][j]).from == (
                    #[trigger] net.connections[c]).arr_stop ==> net.connections[c].arr_time
                        + net.footpaths[t][j].duration <= u32::MAX,
            decreases self.connections.len() - i,
        {
            let c = self.connections[i];
            assert(net.connections[i as int] == c);
            assert(is_longest_walk(
                net.footpaths,
                stops as int,
                0,
                c.arr_stop as int,
                longest@[c.arr_stop as int],
            ));
            if let Some(d) = longest[c.arr_stop] {
                if c.arr_time as u64 + d as u64 > u32::MAX as u64 {
                    return false;
                }
            }
            i += 1;
        }
        true
    }

    /// Whether no connection arrives before it leaves.
    pub fn is_punctual(&self) -> (ok: bool)
        ensures
            ok == self@.punctual(),
    {
        let ghost list = self@.connections;
        let mut i: usize = 0;
        while i < self.connections.len()
            invariant
                list == self.connections@,
                list == self@.connections,
                i <= self.connections.len(),
                forall|k: int| 0 <= k < i ==> (#[trigger] list[k]).arr_time >= list[k].dep_time,
            decreases self.connections.len() - i,
        {
            if self.connections[i].arr_time < self.connections[i].dep_time {
                assert(list[i as int].arr_time < list[i as int].dep_time);
                return false;
            }
            i += 1;
        }
        true
    }

    /// Whether the timetable is one that `compute` takes.
    pub fn is_valid(&self) -> (ok: bool)
        ensures
            ok == self@.wf(),
    {
        self.is_linked() && self.is_sorted() && self.is_bounded()
    }

    /// A builder that was told nothing yet.
    pub fn builder() -> (builder: TimetableBuilder)
        ensures
            builder@ == (Plan {
                stops: Seq::empty(),
                trips: 0,
                last_stop: None,
                connections: Seq::empty(),
            }),
            builder@.wf(),
    {
        let builder = TimetableBuilder {
            connections: Vec::new(),
            last_stop: None,
            stops: Vec::new(),
            trips: Vec::new(),
        };
        assert(keys(builder.stops@) == Seq::<Seq<char>>::empty());
        builder
    }
}

} // verus!
