use crate::dates::day_of_text;
use crate::gtfs_structures::{Gtfs, StopTime};
use crate::records::{find, index_of, keys};
use crate::sort::{by_departure, lemma_by_departure, sort_by_departure};
use crate::structures::{Connection, Date, Footpath, LocationType, Stop, Timetable, Trip};
use vstd::prelude::*;

verus! {

/// Seconds of a day.
pub const DAY: u32 = 86400;

/// What keeps a feed from becoming a timetable.
#[derive(Debug)]
pub enum FeedError {
    /// The first day is no date.
    InvalidDate(String),
    /// A stop time names a stop that the feed does not list.
    UnknownStop(String),
    /// A stop time names a trip that the feed does not list.
    UnknownTrip(String),
    /// A stop time of this trip lies so late that, moved to the last day
    /// of the horizon, it cannot be written down.
    TimeOutOfRange(String),
    /// The trips of all days cannot be counted.
    TooManyTrips,
}

/// What is wrong with one stop time.
pub enum Fault {
    UnknownStop,
    UnknownTrip,
    TimeOutOfRange,
}

impl Gtfs {
    /// The identifiers of the stops, in their order.
    pub open spec fn stop_ids(&self) -> Seq<Seq<char>> {
        keys(self.stops@)
    }

    /// The identifiers of the trips, in their order.
    pub open spec fn trip_ids(&self) -> Seq<Seq<char>> {
        keys(self.trips@)
    }

    /// Index of the stop at which stop time `at` calls.
    pub open spec fn stop_of(&self, at: int) -> int {
        index_of(self.stop_ids(), self.stop_times@[at].stop_id@)
    }

    /// Index of the trip to which stop time `at` belongs.
    pub open spec fn trip_of(&self, at: int) -> int {
        index_of(self.trip_ids(), self.stop_times@[at].trip_id@)
    }

    /// What is wrong with stop time `at`, if anything, for a timetable of
    /// `horizon` days.
    pub open spec fn fault(&self, horizon: u16, at: int) -> Option<Fault> {
        let call = self.stop_times@[at];
        if self.stop_of(at) >= self.stops@.len() {
            Some(Fault::UnknownStop)
        } else if self.trip_of(at) >= self.trips@.len() {
            Some(Fault::UnknownTrip)
        } else if call.departure_time + horizon * DAY > u32::MAX || call.arrival_time + horizon
            * DAY > u32::MAX {
            Some(Fault::TimeOutOfRange)
        } else {
            None
        }
    }

    /// Whether a timetable of `horizon` days can be made of the feed: the
    /// trips of all days can be counted, every stop time names a stop and a
    /// trip of the feed, and its times can be moved to any day of the
    /// horizon.
    pub open spec fn fits(&self, horizon: u16) -> bool {
        &&& self.trips@.len() * horizon <= usize::MAX
        &&& forall|at: int| 0 <= at < self.stop_times@.len() ==> self.fault(horizon, at) is None
    }

    /// The ride from stop time `at` to the next, `day` days after the first
    /// day.
    pub open spec fn ride(&self, horizon: u16, at: int, day: u16) -> Connection {
        Connection {
            trip: (self.trip_of(at) * horizon + day) as usize,
            dep_time: (self.stop_times@[at].departure_time + day * DAY) as u32,
            arr_time: (self.stop_times@[at + 1].arrival_time + day * DAY) as u32,
            dep_stop: self.stop_of(at) as usize,
            arr_stop: self.stop_of(at + 1) as usize,
        }
    }

    /// The rides from stop time `at` to the next on the days of `days` that
    /// lie within the horizon, in the order of `days`.
    pub open spec fn rides_on(&self, horizon: u16, at: int, days: Seq<u16>) -> Seq<Connection>
        decreases days.len(),
    {
        if days.len() == 0 {
            Seq::empty()
        } else {
            let before = self.rides_on(horizon, at, days.drop_last());
            if days.last() < horizon {
                before.push(self.ride(horizon, at, days.last()))
            } else {
                before
            }
        }
    }

    /// Whether stop time `at` and the next belong to one trip, so that the
    /// trip rides from the one to the other.
    pub open spec fn is_ride(&self, at: int) -> bool {
        at + 1 < self.stop_times@.len() && self.stop_times@[at].trip_id@ == self.stop_times@[at
            + 1].trip_id@
    }

    /// The days on which the trip of stop time `at` runs, counted from
    /// `start`.
    pub open spec fn days_of(&self, start: Date, at: int) -> Seq<u16> {
        self.service_days(self.trips@[self.trip_of(at)].service_id@, start)
    }

    /// The rides that start at one of the first `n` stop times, in the order
    /// of the stop times, and for each on the days on which its trip runs.
    pub open spec fn rides(&self, start: Date, horizon: u16, n: int) -> Seq<Connection>
        decreases n,
    {
        if n <= 0 {
            Seq::empty()
        } else {
            let before = self.rides(start, horizon, n - 1);
            if self.is_ride(n - 1) {
                before + self.rides_on(horizon, n - 1, self.days_of(start, n - 1))
            } else {
                before
            }
        }
    }

    /// Whether `error` says what keeps the feed from a timetable of
    /// `horizon` days: the number of trips, or else the fault of the first
    /// stop time that has one.
    pub open spec fn reports(&self, horizon: u16, error: FeedError) -> bool {
        if self.trips@.len() * horizon > usize::MAX {
            error is TooManyTrips
        } else {
            exists|at: int|
                0 <= at < self.stop_times@.len() && (forall|k: int|
                    0 <= k < at ==> self.fault(horizon, k) is None) && names(
                    error,
                    self.fault(horizon, at),
                    #[trigger] self.stop_times@[at],
                )
        }
    }

    /// Whether a timetable of `horizon` days can be made of the feed, and
    /// if not, what is wrong with it.
    pub fn validate(&self, horizon: u16) -> (checked: Result<(), FeedError>)
        ensures
            checked is Ok <==> self.fits(horizon),
            checked matches Err(e) ==> self.reports(horizon, e),
    {
        let trips = self.trips.len();
        assert(trips * horizon <= 0xffff_ffff_ffff_ffff * 0xffff) by (nonlinear_arith)
            requires
                0 <= trips <= 0xffff_ffff_ffff_ffff,
                0 <= horizon <= 0xffff,
        ;
        let count = trips as u128 * horizon as u128;
        if count > usize::MAX as u128 {
            return Err(FeedError::TooManyTrips);
        }
        let shift: u64 = horizon as u64 * DAY as u64;
        let mut at: usize = 0;
        while at < self.stop_times.len()
            invariant
                at <= self.stop_times.len(),
                shift == horizon * DAY,
                self.trips@.len() * horizon <= usize::MAX,
                forall|k: int| 0 <= k < at ==> self.fault(horizon, k) is None,
            decreases self.stop_times.len() - at,
        {
            let call = &self.stop_times[at];
            assert(self.fault(horizon, at as int) is Some ==> !self.fits(horizon));
            if find(&self.stops, &call.stop_id) >= self.stops.len() {
                return Err(FeedError::UnknownStop(call.stop_id.clone()));
            }
            if find(&self.trips, &call.trip_id) >= self.trips.len() {
                return Err(FeedError::UnknownTrip(call.trip_id.clone()));
            }
            if call.departure_time as u64 + shift > u32::MAX as u64 || call.arrival_time as u64
                + shift > u32::MAX as u64 {
                return Err(FeedError::TimeOutOfRange(call.trip_id.clone()));
            }
            at += 1;
        }
        Ok(())
    }
}

/// Whether `error` reports `fault` of the stop time `call`, by the
/// identifier that `call` gives.
pub open spec fn names(error: FeedError, fault: Option<Fault>, call: StopTime) -> bool {
    match error {
        FeedError::UnknownStop(id) => fault == Some(Fault::UnknownStop) && id@ == call.stop_id@,
        FeedError::UnknownTrip(id) => fault == Some(Fault::UnknownTrip) && id@ == call.trip_id@,
        FeedError::TimeOutOfRange(id) => fault == Some(Fault::TimeOutOfRange) && id@
            == call.trip_id@,
        _ => false,
    }
}

/// Time that the walk between two stop points of one stop area takes.
pub const SIBLING_WALK: u32 = 5;

/// Whether `stop` belongs to the stop area `area`.
pub open spec fn is_child_of(stop: Stop, area: Seq<char>) -> bool {
    stop.parent_station matches Some(parent) && parent@ == area
}

/// The indices below `n` of the stops that belong to `area`, from the
/// lowest on.
pub open spec fn children(stops: Seq<Stop>, area: Seq<char>, n: int) -> Seq<usize>
    decreases n,
{
    if n <= 0 {
        Seq::empty()
    } else {
        let before = children(stops, area, n - 1);
        if is_child_of(stops[n - 1], area) {
            before.push((n - 1) as usize)
        } else {
            before
        }
    }
}

/// Whether one can walk between `a` and `b`: two different stop points of
/// one stop area.
pub open spec fn are_siblings(a: Stop, b: Stop) -> bool {
    &&& a.location_type == LocationType::StopPoint
    &&& b.location_type == LocationType::StopPoint
    &&& a.parent_station matches Some(area) && is_child_of(b, area@)
    &&& a.id@ != b.id@
}

/// The walks into stop `to` from its siblings among the first `n` stops,
/// from the lowest index on.
pub open spec fn sibling_walks(stops: Seq<Stop>, to: int, n: int) -> Seq<Footpath>
    decreases n,
{
    if n <= 0 {
        Seq::empty()
    } else {
        let before = sibling_walks(stops, to, n - 1);
        if are_siblings(stops[to], stops[n - 1]) {
            before.push(Footpath { from: (n - 1) as usize, duration: SIBLING_WALK })
        } else {
            before
        }
    }
}

/// Sibling walks start at one of the stops and take `SIBLING_WALK`.
pub proof fn lemma_sibling_walks(stops: Seq<Stop>, to: int, n: int)
    requires
        n <= usize::MAX,
    ensures
        forall|k: int|
            0 <= k < sibling_walks(stops, to, n).len() ==> (#[trigger] sibling_walks(
                stops,
                to,
                n,
            )[k]).from < n && sibling_walks(stops, to, n)[k].duration == SIBLING_WALK,
    decreases n,
{
    if n > 0 {
        lemma_sibling_walks(stops, to, n - 1);
        let before = sibling_walks(stops, to, n - 1);
        let walks = sibling_walks(stops, to, n);
        assert forall|k: int| 0 <= k < walks.len() implies (#[trigger] walks[k]).from < n
            && walks[k].duration == SIBLING_WALK by {
            if k < before.len() {
                assert(walks[k] == before[k]);
            }
        }
    }
}

/// Whether `stop` belongs to the stop area `area`.
fn has_parent(stop: &Stop, area: &String) -> (is_child: bool)
    ensures
        is_child == is_child_of(*stop, area@),
{
    match &stop.parent_station {
        Some(parent) => *parent == *area,
        None => false,
    }
}

/// Whether one can walk between `a` and `b`.
fn siblings(a: &Stop, b: &Stop) -> (walkable: bool)
    ensures
        walkable == are_siblings(*a, *b),
{
    if a.location_type == LocationType::StopPoint && b.location_type == LocationType::StopPoint {
        match &a.parent_station {
            Some(area) => has_parent(b, area) && a.id != b.id,
            None => false,
        }
    } else {
        false
    }
}

/// The stop that a feed describes by `stop`.
pub open spec fn stop_of_feed(stop: crate::gtfs_structures::Stop) -> Stop {
    Stop {
        id: stop.id,
        name: stop.stop_name,
        parent_station: stop.parent_station,
        location_type: LocationType::of_code(stop.location_type),
    }
}

/// Whether `c` can stand in a timetable of `stops` stops and `trips` trips
/// in which walks take `SIBLING_WALK`.
pub open spec fn is_linked(c: Connection, stops: nat, trips: nat) -> bool {
    &&& c.trip < trips
    &&& c.dep_stop < stops
    &&& c.arr_stop < stops
    &&& c.arr_time + SIBLING_WALK <= u32::MAX
}

impl Timetable {
    /// Whether `self` is the timetable of `gtfs` for `horizon` days from
    /// `start`: its stops are those of the feed, its trips those of the feed
    /// on each day, its connections the rides of the feed by departure, the
    /// latest first, and its footpaths lead between the stop points of one
    /// stop area.
    pub open spec fn made_of(&self, gtfs: &Gtfs, start: Date, horizon: u16) -> bool {
        &&& self.start_date == start
        &&& self.transform_duration == 0
        &&& self.stops@ == gtfs.stops@.map_values(
            |stop: crate::gtfs_structures::Stop| stop_of_feed(stop),
        )
        &&& self.trips@.len() == gtfs.trips@.len() * horizon
        &&& self.connections@ == by_departure(
            gtfs.rides(start, horizon, gtfs.stop_times@.len() as int),
        )
        &&& self.footpaths@.len() == self.stops@.len()
        &&& forall|to: int|
            0 <= to < self.stops@.len() ==> (#[trigger] self.footpaths@[to])@ == sibling_walks(
                self.stops@,
                to,
                self.stops@.len() as int,
            )
    }

    /// The rides of the feed on the days of the horizon, by departure, the
    /// latest first.
    pub fn connections(gtfs: &Gtfs, start_date: Date, horizon: u16) -> (sorted: Vec<Connection>)
        requires
            gtfs.fits(horizon),
        ensures
            sorted@ == by_departure(
                gtfs.rides(start_date, horizon, gtfs.stop_times@.len() as int),
            ),
            forall|k: int|
                0 <= k < sorted@.len() ==> is_linked(
                    #[trigger] sorted@[k],
                    gtfs.stops@.len(),
                    gtfs.trips@.len() * horizon as nat,
                ),
    {
        let ghost stops = gtfs.stops@.len();
        let ghost trips = gtfs.trips@.len() * horizon as nat;
        let mut result: Vec<Connection> = Vec::new();
        let mut at: usize = 0;
        while at < gtfs.stop_times.len()
            invariant
                gtfs.fits(horizon),
                stops == gtfs.stops@.len(),
                trips == gtfs.trips@.len() * horizon as nat,
                at <= gtfs.stop_times.len(),
                result@ == gtfs.rides(start_date, horizon, at as int),
                forall|k: int| 0 <= k < result@.len() ==> is_linked(#[trigger] result@[k], stops, trips),
            decreases gtfs.stop_times.len() - at,
        {
            if at + 1 < gtfs.stop_times.len() && gtfs.stop_times[at].trip_id == gtfs.stop_times[at
                + 1].trip_id {
                let departure = &gtfs.stop_times[at];
                let arrival = &gtfs.stop_times[at + 1];
                assert(gtfs.fault(horizon, at as int) is None);
                assert(gtfs.fault(horizon, at + 1) is None);
                let trip = find(&gtfs.trips, &departure.trip_id);
                let dep_stop = find(&gtfs.stops, &departure.stop_id);
                let arr_stop = find(&gtfs.stops, &arrival.stop_id);
                let days = gtfs.trip_days(&gtfs.trips[trip].service_id, start_date);
                let ghost before = result@;
                let mut d: usize = 0;
                while d < days.len()
                    invariant
                        gtfs.fits(horizon),
                        stops == gtfs.stops@.len(),
                        trips == gtfs.trips@.len() * horizon as nat,
                        at + 1 < gtfs.stop_times.len(),
                        *departure == gtfs.stop_times@[at as int],
                        *arrival == gtfs.stop_times@[at + 1],
                        trip == gtfs.trip_of(at as int),
                        trip < gtfs.trips@.len(),
                        dep_stop == gtfs.stop_of(at as int),
                        arr_stop == gtfs.stop_of(at + 1),
                        dep_stop < stops,
                        arr_stop < stops,
                        d <= days.len(),
                        result@ == before + gtfs.rides_on(
                            horizon,
                            at as int,
                            days@.take(d as int),
                        ),
                        forall|k: int|
                            0 <= k < result@.len() ==> is_linked(#[trigger] result@[k], stops, trips),
                    decreases days.len() - d,
                {
                    let day = days[d];
                    assert(days@.take(d + 1).drop_last() == days@.take(d as int));
                    if day < horizon {
                        assert(gtfs.fault(horizon, at as int) is None);
                        assert(gtfs.fault(horizon, at + 1) is None);
                        assert(trip * horizon + day < gtfs.trips@.len() * horizon) by (nonlinear_arith)
                            requires
                                0 <= trip < gtfs.trips@.len(),
                                0 <= day < horizon,
                        ;
                        assert(day * DAY + SIBLING_WALK <= horizon * DAY);
                        let shift: u32 = day as u32 * DAY;
                        let ghost so_far = result@;
                        result.push(
                            Connection {
                                trip: trip * horizon as usize + day as usize,
                                dep_time: departure.departure_time + shift,
                                arr_time: arrival.arrival_time + shift,
                                dep_stop,
                                arr_stop,
                            },
                        );
                        assert(result@[so_far.len() as int] == gtfs.ride(horizon, at as int, day));
                    }
                    d += 1;
                }
                assert(days@.take(d as int) == days@);
            }
            at += 1;
        }
        proof {
            lemma_by_departure(result@);
            assert forall|k: int| 0 <= k < result@.len() implies is_linked(
                #[trigger] by_departure(result@)[k],
                stops,
                trips,
            ) by {
                let c = by_departure(result@)[k];
                assert(result@.contains(c));
                let from = choose|from: int| 0 <= from < result@.len() && result@[from] == c;
                assert(is_linked(result@[from], stops, trips));
            }
        }
        sort_by_departure(result)
    }

    /// The timetable of `gtfs` for `horizon` days from the day that
    /// `start_date_str` names.
    pub fn from_gtfs(gtfs: &Gtfs, start_date_str: &str, horizon: u16) -> (timetable: Timetable)
        requires
            day_of_text(start_date_str@) is Some,
            gtfs.fits(horizon),
        ensures
            timetable.made_of(gtfs, Date { days: day_of_text(start_date_str@)->0 }, horizon),
            timetable@.wf(),
    {
        let start_date = Date::parse(start_date_str).unwrap();
        let mut stops: Vec<Stop> = Vec::new();
        let mut i: usize = 0;
        while i < gtfs.stops.len()
            invariant
                i <= gtfs.stops.len(),
                stops@ == gtfs.stops@.take(i as int).map_values(
                    |stop: crate::gtfs_structures::Stop| stop_of_feed(stop),
                ),
            decreases gtfs.stops.len() - i,
        {
            stops.push(Stop::from(&gtfs.stops[i]));
            assert(gtfs.stops@.take(i + 1) == gtfs.stops@.take(i as int).push(gtfs.stops@[i as int]));
            i += 1;
        }
        assert(gtfs.stops@.take(i as int) == gtfs.stops@);

        let count = gtfs.trips.len() * horizon as usize;
        let mut trips: Vec<Trip> = Vec::new();
        while trips.len() < count
            invariant
                trips.len() <= count,
            decreases count - trips.len(),
        {
            trips.push(Trip {  });
        }
        let connections = Timetable::connections(gtfs, start_date, horizon);
        let footpaths = Timetable::footpaths(stops.as_slice());
        let timetable = Timetable {
            start_date,
            footpaths,
            stops,
            connections,
            transform_duration: 0,
            trips,
        };
        proof {
            let net = timetable@;
            assert(timetable.connections@.len() == timetable.connections.len());
            assert forall|to: int, k: int|
                0 <= to < net.footpaths.len() && 0 <= k < net.footpaths[to].len() implies (
            #[trigger] net.footpaths[to][k]).from < net.stops && net.footpaths[to][k].duration
                == SIBLING_WALK by {
                assert(net.footpaths[to] == timetable.footpaths@[to]@);
                lemma_sibling_walks(timetable.stops@, to, timetable.stops@.len() as int);
            }
            assert forall|i: int| 0 <= i < net.connections.len() implies is_linked(
                #[trigger] net.connections[i],
                net.stops,
                net.trips,
            ) by {}
            assert(net.linked());
            assert(net.sorted()) by {
                lemma_by_departure(
                    gtfs.rides(start_date, horizon, gtfs.stop_times@.len() as int),
                );
            }
            assert(net.bounded());
        }
        timetable
    }

    /// As `from_gtfs`, for any feed and any text: says what keeps them from
    /// becoming a timetable, the text first.
    pub fn try_from_gtfs(gtfs: &Gtfs, start_date_str: &str, horizon: u16) -> (made: Result<
        Timetable,
        FeedError,
    >)
        ensures
            made is Ok <==> day_of_text(start_date_str@) is Some && gtfs.fits(horizon),
            made matches Ok(timetable) ==> timetable.made_of(
                gtfs,
                Date { days: day_of_text(start_date_str@)->0 },
                horizon,
            ) && timetable@.wf(),
            made matches Err(e) ==> if day_of_text(start_date_str@) is None {
                e matches FeedError::InvalidDate(text) && text@ == start_date_str@
            } else {
                gtfs.reports(horizon, e)
            },
    {
        match Date::parse(start_date_str) {
            Err(e) => Err(FeedError::InvalidDate(e.text)),
            Ok(_) => match gtfs.validate(horizon) {
                Err(e) => Err(e),
                Ok(_) => Ok(Timetable::from_gtfs(gtfs, start_date_str, horizon)),
            },
        }
    }

    /// For each stop the walks into it: one of `SIBLING_WALK` from every
    /// other stop point of its stop area.
    pub fn footpaths(stops: &[Stop]) -> (walks: Vec<Vec<Footpath>>)
        ensures
            walks@.len() == stops@.len(),
            forall|to: int|
                0 <= to < stops@.len() ==> (#[trigger] walks@[to])@ == sibling_walks(
                    stops@,
                    to,
                    stops@.len() as int,
                ),
    {
        let mut result: Vec<Vec<Footpath>> = Vec::new();
        let mut to: usize = 0;
        while to < stops.len()
            invariant
                to <= stops.len(),
                result.len() == to,
                forall|k: int|
                    0 <= k < to ==> (#[trigger] result@[k])@ == sibling_walks(
                        stops@,
                        k,
                        stops@.len() as int,
                    ),
            decreases stops.len() - to,
        {
            let mut into: Vec<Footpath> = Vec::new();
            let mut from: usize = 0;
            while from < stops.len()
                invariant
                    to < stops.len(),
                    from <= stops.len(),
                    into@ == sibling_walks(stops@, to as int, from as int),
                decreases stops.len() - from,
            {
                if siblings(&stops[to], &stops[from]) {
                    into.push(Footpath { from, duration: SIBLING_WALK });
                }
                from += 1;
            }
            result.push(into);
            to += 1;
        }
        result
    }

    /// The indices of the stops that belong to the stop area
    /// `stop_area_id`, from the lowest on.
    pub fn stop_index_by_stop_area_id(&self, stop_area_id: &str) -> (indices: Vec<usize>)
        ensures
            indices@ == children(self.stops@, stop_area_id@, self.stops@.len() as int),
            forall|k: int| 0 <= k < indices@.len() ==> #[trigger] indices@[k] < self.stops@.len(),
            indices@.no_duplicates(),
    {
        let area = stop_area_id.to_owned();
        let mut indices: Vec<usize> = Vec::new();
        let mut index: usize = 0;
        while index < self.stops.len()
            invariant
                index <= self.stops.len(),
                area@ == stop_area_id@,
                indices@ == children(self.stops@, stop_area_id@, index as int),
                forall|k: int| 0 <= k < indices@.len() ==> #[trigger] indices@[k] < index,
                indices@.no_duplicates(),
            decreases self.stops.len() - index,
        {
            if has_parent(&self.stops[index], &area) {
                indices.push(index);
            }
            index += 1;
        }
        indices
    }
}

} // verus!
