use crate::algo::{earlier, Profile};
use crate::frontier::{
    accepts, incorporated, is_frontier, is_strict_frontier, last_leaving_from, leaving_at,
    lemma_incorporated_frontier, lemma_incorporated_members, lemma_incorporated_strict_frontier,
    lemma_last_leaving_from, lemma_leaving_at_member,
};
use crate::structures::{Connection, Footpath, Network};
use vstd::prelude::*;

verus! {

/// Time that a change of trips at one stop takes.
pub const TRANSFER_TIME: u32 = 5;

/// Arrival at a destination for a traveller who alights from `c` and changes
/// at its arrival stop, whose profiles are `list`. The traveller takes the
/// last profile that leaves more than `TRANSFER_TIME` after `c` arrives.
/// Where that profile is the marker, `c` itself has reached a destination.
pub open spec fn transfer_arrival(list: Seq<Profile>, c: Connection) -> Option<u32> {
    let found = last_leaving_from(list, c.arr_time + TRANSFER_TIME + 1);
    if found < 0 {
        None
    } else if list[found].out_connection is Some {
        Some(list[found].arr_time)
    } else {
        Some(c.arr_time)
    }
}

/// The shortest of `walks` that starts at stop `from`.
pub open spec fn shortest_walk(walks: Seq<Footpath>, from: int) -> Option<u32>
    decreases walks.len(),
{
    if walks.len() == 0 {
        None
    } else {
        earlier(
            shortest_walk(walks.drop_last(), from),
            if walks.last().from == from {
                Some(walks.last().duration)
            } else {
                None
            },
        )
    }
}

/// The shortest walk from stop `from` into any of `destinations`.
pub open spec fn final_walk(net: Network, destinations: Seq<usize>, from: int) -> Option<u32>
    decreases destinations.len(),
{
    if destinations.len() == 0 {
        None
    } else {
        earlier(
            final_walk(net, destinations.drop_last(), from),
            shortest_walk(net.footpaths[destinations.last() as int], from),
        )
    }
}

/// A walk that `shortest_walk` returns is one of `walks` and starts at `from`.
pub proof fn lemma_shortest_walk_start(walks: Seq<Footpath>, from: int)
    ensures
        shortest_walk(walks, from) matches Some(d) ==> exists|k: int|
            0 <= k < walks.len() && (#[trigger] walks[k]).from == from && walks[k].duration == d,
    decreases walks.len(),
{
    if walks.len() > 0 {
        let front = walks.drop_last();
        lemma_shortest_walk_start(front, from);
        if let Some(d) = shortest_walk(walks, from) {
            if walks.last().from == from && walks.last().duration == d {
                assert(walks[walks.len() - 1].from == from);
            } else {
                let k = choose|k: int|
                    0 <= k < front.len() && (#[trigger] front[k]).from == from && front[k].duration
                        == d;
                assert(walks[k] == front[k]);
            }
        }
    }
}

/// A walk that `final_walk` returns starts at `from` and ends at a
/// destination.
pub proof fn lemma_final_walk_start(net: Network, destinations: Seq<usize>, from: int)
    ensures
        final_walk(net, destinations, from) matches Some(d) ==> exists|i: int, k: int|
            0 <= i < destinations.len() && 0 <= k < net.footpaths[destinations[i] as int].len() && (
            #[trigger] net.footpaths[destinations[i] as int][k]).from == from
                && net.footpaths[destinations[i] as int][k].duration == d,
    decreases destinations.len(),
{
    if destinations.len() > 0 {
        let front = destinations.drop_last();
        lemma_final_walk_start(net, front, from);
        let last = destinations.len() - 1;
        let walks = net.footpaths[destinations[last] as int];
        lemma_shortest_walk_start(walks, from);
        if let Some(d) = final_walk(net, destinations, from) {
            if shortest_walk(walks, from) == Some(d) {
                let k = choose|k: int|
                    0 <= k < walks.len() && (#[trigger] walks[k]).from == from && walks[k].duration
                        == d;
                assert(net.footpaths[destinations[last] as int][k].from == from);
            } else {
                let (i, k) = choose|i: int, k: int|
                    0 <= i < front.len() && 0 <= k < net.footpaths[front[i] as int].len() && (
                    #[trigger] net.footpaths[front[i] as int][k]).from == from
                        && net.footpaths[front[i] as int][k].duration == d;
                assert(front[i] == destinations[i]);
                assert(net.footpaths[destinations[i] as int][k].from == from);
            }
        }
    }
}

/// No walk of `walks` that starts at `from` is shorter than the shortest.
pub proof fn lemma_shortest_walk_least(walks: Seq<Footpath>, from: int, k: int)
    requires
        0 <= k < walks.len(),
        walks[k].from == from,
    ensures
        shortest_walk(walks, from) matches Some(d) && d <= walks[k].duration,
    decreases walks.len(),
{
    if k < walks.len() - 1 {
        let front = walks.drop_last();
        assert(front[k] == walks[k]);
        lemma_shortest_walk_least(front, from, k);
    }
}

/// No walk from `from` into a destination is shorter than the final walk.
pub proof fn lemma_final_walk_least(
    net: Network,
    destinations: Seq<usize>,
    from: int,
    i: int,
    k: int,
)
    requires
        0 <= i < destinations.len(),
        0 <= k < net.footpaths[destinations[i] as int].len(),
        net.footpaths[destinations[i] as int][k].from == from,
    ensures
        final_walk(net, destinations, from) matches Some(d) && d
            <= net.footpaths[destinations[i] as int][k].duration,
    decreases destinations.len(),
{
    if i < destinations.len() - 1 {
        let front = destinations.drop_last();
        assert(front[i] == destinations[i]);
        lemma_final_walk_least(net, front, from, i, k);
    } else {
        lemma_shortest_walk_least(net.footpaths[destinations[i] as int], from, k);
    }
}

/// Profiles before any connection is read: each destination holds one marker
/// for each time it is named.
pub open spec fn seeded(stops: nat, destinations: Seq<usize>) -> Seq<Seq<Profile>>
    decreases destinations.len(),
{
    if destinations.len() == 0 {
        Seq::new(stops, |s: int| Seq::<Profile>::empty())
    } else {
        let before = seeded(stops, destinations.drop_last());
        let d = destinations.last() as int;
        before.update(d, before[d].push(Profile::marker()))
    }
}

/// What the sweep knows after some connections.
pub struct Sweep {
    /// For each stop, the profiles found so far.
    pub profiles: Seq<Seq<Profile>>,
    /// For each trip, the arrival of a traveller who is aboard.
    pub aboard: Seq<Option<u32>>,
}

/// Arrival of a traveller who alights from `c` and walks `walk` to a
/// destination.
pub open spec fn walk_arrival(c: Connection, walk: Option<u32>) -> Option<u32> {
    match walk {
        Some(d) => Some((c.arr_time + d) as u32),
        None => None,
    }
}

/// The best arrival that riding `c` offers: by walking to a destination, by
/// staying aboard, or by changing at the arrival stop.
pub open spec fn best_arrival(
    net: Network,
    destinations: Seq<usize>,
    state: Sweep,
    c: Connection,
) -> Option<u32> {
    earlier(
        earlier(
            walk_arrival(c, final_walk(net, destinations, c.arr_stop as int)),
            state.aboard[c.trip as int],
        ),
        transfer_arrival(state.profiles[c.arr_stop as int], c),
    )
}

/// Offers to the start of each of `walks` the profile of a traveller who
/// walks it and then boards connection `index`, which leaves at `dep_time`.
/// A walk is passed over unless it is shorter than `dep_time`, so that the
/// traveller sets out after time 0.
pub open spec fn spread(
    profiles: Seq<Seq<Profile>>,
    walks: Seq<Footpath>,
    index: usize,
    dep_time: u32,
    arr_time: u32,
) -> Seq<Seq<Profile>>
    decreases walks.len(),
{
    if walks.len() == 0 {
        profiles
    } else {
        let before = spread(profiles, walks.drop_last(), index, dep_time, arr_time);
        let walk = walks.last();
        if walk.duration < dep_time {
            before.update(
                walk.from as int,
                incorporated(
                    before[walk.from as int],
                    Profile {
                        out_connection: Some(index),
                        dep_time: (dep_time - walk.duration) as u32,
                        arr_time,
                    },
                ),
            )
        } else {
            before
        }
    }
}

/// The state after connection `index` was read in `state`.
pub open spec fn step(net: Network, destinations: Seq<usize>, state: Sweep, index: int) -> Sweep {
    let c = net.connections[index];
    match best_arrival(net, destinations, state, c) {
        None => state,
        Some(t) => {
            let candidate = Profile {
                out_connection: Some(index as usize),
                dep_time: c.dep_time,
                arr_time: t,
            };
            let here = state.profiles[c.dep_stop as int];
            Sweep {
                profiles: if accepts(here, candidate) {
                    spread(
                        state.profiles.update(c.dep_stop as int, incorporated(here, candidate)),
                        net.footpaths[c.dep_stop as int],
                        index as usize,
                        c.dep_time,
                        t,
                    )
                } else {
                    state.profiles
                },
                aboard: state.aboard.update(c.trip as int, Some(t)),
            }
        },
    }
}

/// The state after the first `n` connections.
pub open spec fn sweep(net: Network, destinations: Seq<usize>, n: nat) -> Sweep
    decreases n,
{
    if n == 0 {
        Sweep {
            profiles: seeded(net.stops, destinations),
            aboard: Seq::new(net.trips, |t: int| None::<u32>),
        }
    } else {
        step(net, destinations, sweep(net, destinations, (n - 1) as nat), n - 1)
    }
}

/// The profiles of every stop once all connections are read.
pub open spec fn solution(net: Network, destinations: Seq<usize>) -> Seq<Seq<Profile>> {
    sweep(net, destinations, net.connections.len()).profiles
}

/// Whether every index of `destinations` is a stop.
pub open spec fn are_stops(destinations: Seq<usize>, stops: nat) -> bool {
    forall|k: int| 0 <= k < destinations.len() ==> #[trigger] destinations[k] < stops
}

/// Whether `good` holds of every profile of every stop.
pub open spec fn every(profiles: Seq<Seq<Profile>>, good: spec_fn(int, Profile) -> bool) -> bool {
    forall|s: int, k: int|
        0 <= s < profiles.len() && 0 <= k < profiles[s].len() ==> good(s, #[trigger] profiles[s][k])
}

/// Whether the profiles of every stop are a frontier.
pub open spec fn frontiers(profiles: Seq<Seq<Profile>>) -> bool {
    forall|s: int| 0 <= s < profiles.len() ==> is_frontier(#[trigger] profiles[s])
}

/// The profile of a traveller who takes `walk` to connection `index`, which
/// leaves at `dep_time`.
pub open spec fn walked(walk: Footpath, index: usize, dep_time: u32, arr_time: u32) -> Profile {
    Profile {
        out_connection: Some(index),
        dep_time: (dep_time - walk.duration) as u32,
        arr_time,
    }
}

/// Whether `p`, held by `stop`, starts as the timetable allows: its
/// connection leaves `stop` when `p` does, or leaves a stop to which a
/// footpath leads from `stop`, which the traveller sets out on at the
/// departure of `p`. A marker stands at a destination only.
pub open spec fn boards(net: Network, destinations: Seq<usize>, stop: int, p: Profile) -> bool {
    match p.out_connection {
        None => p == Profile::marker() && destinations.contains(stop as usize),
        Some(i) => {
            &&& i < net.connections.len()
            &&& {
                let c = net.connections[i as int];
                ||| c.dep_stop == stop && p.dep_time == c.dep_time
                ||| exists|k: int|
                    0 <= k < net.footpaths[c.dep_stop as int].len() && (
                    #[trigger] net.footpaths[c.dep_stop as int][k]).from == stop
                        && net.footpaths[c.dep_stop as int][k].duration < c.dep_time && p.dep_time
                        == c.dep_time - net.footpaths[c.dep_stop as int][k].duration
            }
        },
    }
}

/// The seed gives each stop a list, which holds markers only, and none
/// where the stop is no destination.
pub proof fn lemma_seeded(stops: nat, destinations: Seq<usize>)
    requires
        are_stops(destinations, stops),
    ensures
        seeded(stops, destinations).len() == stops,
        forall|s: int, k: int|
            0 <= s < stops && 0 <= k < seeded(stops, destinations)[s].len() ==> (
            #[trigger] seeded(stops, destinations)[s][k]) == Profile::marker()
                && destinations.contains(s as usize),
        forall|s: int|
            0 <= s < stops && !destinations.contains(s as usize) ==> (#[trigger] seeded(
                stops,
                destinations,
            )[s]).len() == 0,
        destinations.no_duplicates() ==> forall|s: int|
            0 <= s < stops ==> (#[trigger] seeded(stops, destinations)[s]).len() <= 1,
    decreases destinations.len(),
{
    if destinations.len() > 0 {
        let front = destinations.drop_last();
        let last = destinations.len() - 1;
        let d = destinations[last] as int;
        assert forall|k: int| 0 <= k < front.len() implies #[trigger] front[k] < stops by {
            assert(front[k] == destinations[k]);
        }
        lemma_seeded(stops, front);
        let before = seeded(stops, front);
        let after = seeded(stops, destinations);
        assert forall|s: int, k: int| 0 <= s < stops && 0 <= k < after[s].len() implies (
        #[trigger] after[s][k]) == Profile::marker() && destinations.contains(s as usize) by {
            if s == d && k == before[s].len() {
                assert(destinations[last] == s as usize);
            } else {
                assert(after[s][k] == before[s][k]);
                let at = choose|at: int| 0 <= at < front.len() && front[at] == s as usize;
                assert(destinations[at] == s as usize);
            }
        }
        assert forall|s: int| 0 <= s < stops && !destinations.contains(s as usize) implies (
        #[trigger] after[s]).len() == 0 by {
            assert(destinations[last] != s as usize);
            if front.contains(s as usize) {
                let at = choose|at: int| 0 <= at < front.len() && front[at] == s as usize;
                assert(destinations[at] == s as usize);
            }
        }
        if destinations.no_duplicates() {
            assert(front.no_duplicates()) by {
                assert forall|i: int, j: int|
                    0 <= i < front.len() && 0 <= j < front.len() && i != j implies front[i]
                    != front[j] by {
                    assert(front[i] == destinations[i] && front[j] == destinations[j]);
                }
            }
            if front.contains(d as usize) {
                let at = choose|at: int| 0 <= at < front.len() && front[at] == d as usize;
                assert(destinations[at] == destinations[last]);
            }
        }
    }
}

/// Offering a candidate at one stop keeps what holds of every profile, if
/// it holds of the candidate.
proof fn lemma_offer_every(
    profiles: Seq<Seq<Profile>>,
    stop: int,
    candidate: Profile,
    good: spec_fn(int, Profile) -> bool,
)
    requires
        every(profiles, good),
        0 <= stop < profiles.len(),
        good(stop, candidate),
    ensures
        every(profiles.update(stop, incorporated(profiles[stop], candidate)), good),
{
    let after = profiles.update(stop, incorporated(profiles[stop], candidate));
    lemma_incorporated_members(profiles[stop], candidate);
    assert forall|s: int, k: int| 0 <= s < after.len() && 0 <= k < after[s].len() implies good(
        s,
        #[trigger] after[s][k],
    ) by {
        if s == stop {
            if after[s][k] != candidate {
                let at = choose|at: int|
                    0 <= at < profiles[stop].len() && profiles[stop][at] == after[s][k];
                assert(good(s, profiles[s][at]));
            }
        } else {
            assert(after[s][k] == profiles[s][k]);
        }
    }
}

/// Spreading a candidate over walks keeps the number of stops, and keeps
/// what holds of every profile, if it holds of each walked profile.
proof fn lemma_spread_every(
    profiles: Seq<Seq<Profile>>,
    walks: Seq<Footpath>,
    index: usize,
    dep_time: u32,
    arr_time: u32,
    good: spec_fn(int, Profile) -> bool,
)
    requires
        every(profiles, good),
        forall|k: int| 0 <= k < walks.len() ==> (#[trigger] walks[k]).from < profiles.len(),
        forall|k: int|
            0 <= k < walks.len() && (#[trigger] walks[k]).duration < dep_time ==> good(
                walks[k].from as int,
                walked(walks[k], index, dep_time, arr_time),
            ),
    ensures
        spread(profiles, walks, index, dep_time, arr_time).len() == profiles.len(),
        every(spread(profiles, walks, index, dep_time, arr_time), good),
    decreases walks.len(),
{
    if walks.len() > 0 {
        let front = walks.drop_last();
        assert forall|k: int| 0 <= k < front.len() implies (#[trigger] front[k]).from
            < profiles.len() && (front[k].duration < dep_time ==> good(
            front[k].from as int,
            walked(front[k], index, dep_time, arr_time),
        )) by {
            assert(front[k] == walks[k]);
        }
        lemma_spread_every(profiles, front, index, dep_time, arr_time, good);
        let walk = walks[walks.len() - 1];
        if walk.duration < dep_time {
            lemma_offer_every(
                spread(profiles, front, index, dep_time, arr_time),
                walk.from as int,
                walked(walk, index, dep_time, arr_time),
                good,
            );
        }
    }
}

/// Spreading a candidate over walks keeps frontiers.
proof fn lemma_spread_frontiers(
    profiles: Seq<Seq<Profile>>,
    walks: Seq<Footpath>,
    index: usize,
    dep_time: u32,
    arr_time: u32,
)
    requires
        frontiers(profiles),
        forall|k: int| 0 <= k < walks.len() ==> (#[trigger] walks[k]).from < profiles.len(),
    ensures
        spread(profiles, walks, index, dep_time, arr_time).len() == profiles.len(),
        frontiers(spread(profiles, walks, index, dep_time, arr_time)),
    decreases walks.len(),
{
    if walks.len() > 0 {
        let front = walks.drop_last();
        assert forall|k: int| 0 <= k < front.len() implies (#[trigger] front[k]).from
            < profiles.len() by {
            assert(front[k] == walks[k]);
        }
        lemma_spread_frontiers(profiles, front, index, dep_time, arr_time);
        let walk = walks[walks.len() - 1];
        let before = spread(profiles, front, index, dep_time, arr_time);
        if walk.duration < dep_time {
            lemma_incorporated_frontier(
                before[walk.from as int],
                walked(walk, index, dep_time, arr_time),
            );
        }
    }
}

/// The candidate that connection `index` offers where it leaves, if it
/// reaches a destination at `arr_time`.
pub open spec fn boarded(net: Network, index: int, arr_time: u32) -> Profile {
    Profile {
        out_connection: Some(index as usize),
        dep_time: net.connections[index].dep_time,
        arr_time,
    }
}

/// One step keeps the number of stops and of trips, and keeps what holds of
/// every profile, if it holds of the profiles that the step offers.
proof fn lemma_step_every(
    net: Network,
    destinations: Seq<usize>,
    state: Sweep,
    index: int,
    good: spec_fn(int, Profile) -> bool,
)
    requires
        net.linked(),
        0 <= index < net.connections.len(),
        state.profiles.len() == net.stops,
        state.aboard.len() == net.trips,
        every(state.profiles, good),
        best_arrival(net, destinations, state, net.connections[index]) matches Some(t) ==> {
            let c = net.connections[index];
            let walks = net.footpaths[c.dep_stop as int];
            &&& good(c.dep_stop as int, boarded(net, index, t))
            &&& forall|k: int|
                0 <= k < walks.len() && (#[trigger] walks[k]).duration < c.dep_time ==> good(
                    walks[k].from as int,
                    walked(walks[k], index as usize, c.dep_time, t),
                )
        },
    ensures
        step(net, destinations, state, index).profiles.len() == net.stops,
        step(net, destinations, state, index).aboard.len() == net.trips,
        every(step(net, destinations, state, index).profiles, good),
{
    let c = net.connections[index];
    if let Some(t) = best_arrival(net, destinations, state, c) {
        let candidate = boarded(net, index, t);
        let here = state.profiles[c.dep_stop as int];
        if accepts(here, candidate) {
            lemma_offer_every(state.profiles, c.dep_stop as int, candidate, good);
            lemma_spread_every(
                state.profiles.update(c.dep_stop as int, incorporated(here, candidate)),
                net.footpaths[c.dep_stop as int],
                index as usize,
                c.dep_time,
                t,
                good,
            );
        }
    }
}

/// One step keeps frontiers.
proof fn lemma_step_frontiers(net: Network, destinations: Seq<usize>, state: Sweep, index: int)
    requires
        net.linked(),
        0 <= index < net.connections.len(),
        state.profiles.len() == net.stops,
        frontiers(state.profiles),
    ensures
        frontiers(step(net, destinations, state, index).profiles),
{
    let c = net.connections[index];
    if let Some(t) = best_arrival(net, destinations, state, c) {
        let candidate = boarded(net, index, t);
        let here = state.profiles[c.dep_stop as int];
        if accepts(here, candidate) {
            lemma_incorporated_frontier(here, candidate);
            lemma_spread_frontiers(
                state.profiles.update(c.dep_stop as int, incorporated(here, candidate)),
                net.footpaths[c.dep_stop as int],
                index as usize,
                c.dep_time,
                t,
            );
        }
    }
}

/// At every point of the sweep each stop has its list, each trip its
/// arrival, and every profile starts as the timetable allows.
pub proof fn lemma_sweep_boards(net: Network, destinations: Seq<usize>, n: nat)
    requires
        net.linked(),
        are_stops(destinations, net.stops),
        n <= net.connections.len(),
    ensures
        sweep(net, destinations, n).profiles.len() == net.stops,
        sweep(net, destinations, n).aboard.len() == net.trips,
        every(
            sweep(net, destinations, n).profiles,
            |s: int, p: Profile| boards(net, destinations, s, p),
        ),
    decreases n,
{
    let good = |s: int, p: Profile| boards(net, destinations, s, p);
    if n == 0 {
        lemma_seeded(net.stops, destinations);
    } else {
        let index = n - 1;
        let state = sweep(net, destinations, index as nat);
        lemma_sweep_boards(net, destinations, index as nat);
        let c = net.connections[index];
        if let Some(t) = best_arrival(net, destinations, state, c) {
            let walks = net.footpaths[c.dep_stop as int];
            assert forall|k: int|
                0 <= k < walks.len() && (#[trigger] walks[k]).duration < c.dep_time implies good(
                walks[k].from as int,
                walked(walks[k], index as usize, c.dep_time, t),
            ) by {
                assert(net.footpaths[c.dep_stop as int][k].from == walks[k].from);
            }
        }
        lemma_step_every(net, destinations, state, index, good);
    }
}

/// Where no destination is named twice, the profiles of every stop are a
/// frontier at every point of the sweep.
pub proof fn lemma_sweep_frontiers(net: Network, destinations: Seq<usize>, n: nat)
    requires
        net.linked(),
        are_stops(destinations, net.stops),
        destinations.no_duplicates(),
        n <= net.connections.len(),
    ensures
        frontiers(sweep(net, destinations, n).profiles),
    decreases n,
{
    if n == 0 {
        lemma_seeded(net.stops, destinations);
    } else {
        lemma_sweep_frontiers(net, destinations, (n - 1) as nat);
        lemma_sweep_boards(net, destinations, (n - 1) as nat);
        lemma_step_frontiers(net, destinations, sweep(net, destinations, (n - 1) as nat), n - 1);
    }
}

/// Whether a traveller who alights from connection `i` can board connection
/// `j`: at the same stop, or after a walk to the stop where `j` leaves, and
/// in each case with more than `TRANSFER_TIME` to spare.
pub open spec fn changes(net: Network, i: int, j: int) -> bool {
    let c = net.connections[i];
    let next = net.connections[j];
    ||| next.dep_stop == c.arr_stop && next.dep_time > c.arr_time + TRANSFER_TIME
    ||| exists|k: int|
        0 <= k < net.footpaths[next.dep_stop as int].len() && (
        #[trigger] net.footpaths[next.dep_stop as int][k]).from == c.arr_stop
            && net.footpaths[next.dep_stop as int][k].duration < next.dep_time && next.dep_time
            - net.footpaths[next.dep_stop as int][k].duration > c.arr_time + TRANSFER_TIME
}

/// Whether a traveller aboard connection `i` can go on with connection
/// `j`: it stands before `i`, and belongs to the same trip or can be boarded
/// after a change.
pub open spec fn goes_on(net: Network, i: int, j: int) -> bool {
    0 <= j < i && (net.connections[j].trip == net.connections[i].trip || changes(net, i, j))
}

/// Whether a traveller who alights from connection `i` is at a destination
/// at time `t`: the connection arrives there at `t`, or a walk leads from
/// its arrival to a destination and ends at `t`.
pub open spec fn ends_at(net: Network, destinations: Seq<usize>, i: int, t: int) -> bool {
    let c = net.connections[i];
    ||| destinations.contains(c.arr_stop) && t == c.arr_time
    ||| exists|d: int, k: int|
        0 <= d < destinations.len() && 0 <= k < net.footpaths[destinations[d] as int].len() && (
        #[trigger] net.footpaths[destinations[d] as int][k]).from == c.arr_stop && t == c.arr_time
            + net.footpaths[destinations[d] as int][k].duration
}

/// Whether the connections `legs` are a journey to a destination that ends
/// at time `t`: a traveller aboard each of them can go on with the next, and
/// is at a destination at `t` after the last.
pub open spec fn is_journey(net: Network, destinations: Seq<usize>, legs: Seq<int>, t: int) -> bool {
    &&& legs.len() > 0
    &&& 0 <= legs.first()
    &&& forall|k: int| 0 <= k < legs.len() - 1 ==> goes_on(net, #[trigger] legs[k], legs[k + 1])
    &&& ends_at(net, destinations, legs.last(), t)
}

/// Whether `p` is the marker or a journey that can be made: it boards one
/// of the first `n` connections, with which a journey starts that ends when
/// `p` arrives.
pub open spec fn travels(net: Network, destinations: Seq<usize>, n: int, p: Profile) -> bool {
    p.out_connection matches Some(i) ==> i < n && exists|legs: Seq<int>|
        legs.first() == i && #[trigger] is_journey(net, destinations, legs, p.arr_time as int)
}

/// A journey with a connection before it, from which a traveller can go on
/// with its first, is a journey.
proof fn lemma_journey_after(net: Network, destinations: Seq<usize>, i: int, legs: Seq<int>, t: int)
    requires
        is_journey(net, destinations, legs, t),
        goes_on(net, i, legs.first()),
    ensures
        is_journey(net, destinations, seq![i] + legs, t),
        (seq![i] + legs).first() == i,
{
    let all = seq![i] + legs;
    assert forall|k: int| 0 <= k < all.len() - 1 implies goes_on(net, #[trigger] all[k], all[k + 1]) by {
        if k > 0 {
            assert(all[k] == legs[k - 1]);
            assert(goes_on(net, legs[k - 1], legs[k - 1 + 1]));
        }
    }
    assert(all.last() == legs.last());
}

/// At every point of the sweep, every profile is a journey that can be
/// made, and whoever is aboard a trip is aboard a journey that ends at the
/// time that is kept for the trip.
pub proof fn lemma_sweep_travels(net: Network, destinations: Seq<usize>, n: nat)
    requires
        net.wf(),
        are_stops(destinations, net.stops),
        n <= net.connections.len(),
    ensures
        every(
            sweep(net, destinations, n).profiles,
            |s: int, p: Profile| travels(net, destinations, n as int, p),
        ),
        forall|trip: int|
            0 <= trip < net.trips ==> ((#[trigger] sweep(net, destinations, n).aboard[trip])
                matches Some(t) ==> exists|legs: Seq<int>|
                0 <= legs.first() < n && net.connections[legs.first()].trip == trip
                    && #[trigger] is_journey(net, destinations, legs, t as int)),
    decreases n,
{
    let good = |s: int, p: Profile| travels(net, destinations, n as int, p);
    if n == 0 {
        lemma_seeded(net.stops, destinations);
    } else {
        let index = n - 1;
        let state = sweep(net, destinations, index as nat);
        let before = |s: int, p: Profile| travels(net, destinations, index, p);
        lemma_sweep_travels(net, destinations, index as nat);
        lemma_sweep_boards(net, destinations, index as nat);
        assert(every(state.profiles, good)) by {
            assert forall|s: int, k: int|
                0 <= s < state.profiles.len() && 0 <= k < state.profiles[s].len() implies good(
                s,
                #[trigger] state.profiles[s][k],
            ) by {
                assert(before(s, state.profiles[s][k]));
            }
        }
        let c = net.connections[index];
        let made = best_arrival(net, destinations, state, c);
        if let Some(t) = made {
            let walking = walk_arrival(c, final_walk(net, destinations, c.arr_stop as int));
            let seated = state.aboard[c.trip as int];
            let changing = transfer_arrival(state.profiles[c.arr_stop as int], c);
            // A journey that starts with this connection and ends at `t`.
            let legs: Seq<int> = if walking == Some(t) {
                let w = final_walk(net, destinations, c.arr_stop as int)->0;
                lemma_final_walk_start(net, destinations, c.arr_stop as int);
                let (d, k) = choose|d: int, k: int|
                    0 <= d < destinations.len() && 0 <= k
                        < net.footpaths[destinations[d] as int].len() && (
                    #[trigger] net.footpaths[destinations[d] as int][k]).from == c.arr_stop
                        && net.footpaths[destinations[d] as int][k].duration == w;
                assert(destinations[d] < net.stops);
                assert(c.arr_time + w <= u32::MAX);
                seq![index]
            } else if seated == Some(t) {
                let rest = choose|legs: Seq<int>|
                    0 <= legs.first() < index && net.connections[legs.first()].trip == c.trip
                        && #[trigger] is_journey(net, destinations, legs, t as int);
                lemma_journey_after(net, destinations, index, rest, t as int);
                seq![index] + rest
            } else {
                let list = state.profiles[c.arr_stop as int];
                lemma_last_leaving_from(list, c.arr_time + TRANSFER_TIME + 1);
                let found = last_leaving_from(list, c.arr_time + TRANSFER_TIME + 1);
                let q = list[found];
                assert(boards(net, destinations, c.arr_stop as int, q)) by {
                    let board = |s: int, p: Profile| boards(net, destinations, s, p);
                    assert(board(c.arr_stop as int, state.profiles[c.arr_stop as int][found]));
                }
                assert(before(c.arr_stop as int, state.profiles[c.arr_stop as int][found]));
                match q.out_connection {
                    None => seq![index],
                    Some(j) => {
                        let rest = choose|legs: Seq<int>|
                            legs.first() == j && #[trigger] is_journey(
                                net,
                                destinations,
                                legs,
                                t as int,
                            );
                        assert(changes(net, index, j as int));
                        lemma_journey_after(net, destinations, index, rest, t as int);
                        seq![index] + rest
                    },
                }
            };
            assert(legs.first() == index && is_journey(net, destinations, legs, t as int));
            assert(good(c.dep_stop as int, boarded(net, index, t)));
            let walks = net.footpaths[c.dep_stop as int];
            assert forall|k: int|
                0 <= k < walks.len() && (#[trigger] walks[k]).duration < c.dep_time implies good(
                walks[k].from as int,
                walked(walks[k], index as usize, c.dep_time, t),
            ) by {
                let p = walked(walks[k], index as usize, c.dep_time, t);
                assert(p.out_connection == Some(index as usize));
                assert(legs.first() == index as usize);
                assert(is_journey(net, destinations, legs, p.arr_time as int));
                assert(travels(net, destinations, n as int, p));
            }
        }
        lemma_step_every(net, destinations, state, index, good);
        assert forall|trip: int| 0 <= trip < net.trips implies ((#[trigger] sweep(
            net,
            destinations,
            n,
        ).aboard[trip]) matches Some(t) ==> exists|legs: Seq<int>|
            0 <= legs.first() < n && net.connections[legs.first()].trip == trip
                && #[trigger] is_journey(net, destinations, legs, t as int)) by {
            if let Some(t) = sweep(net, destinations, n).aboard[trip] {
                if made is Some && trip == c.trip {
                    let legs = choose|legs: Seq<int>|
                        legs.first() == index && #[trigger] is_journey(
                            net,
                            destinations,
                            legs,
                            t as int,
                        );
                    assert(0 <= legs.first() < n);
                } else {
                    assert(state.aboard[trip] == Some(t));
                    let legs = choose|legs: Seq<int>|
                        0 <= legs.first() < index && net.connections[legs.first()].trip == trip
                            && #[trigger] is_journey(net, destinations, legs, t as int);
                    assert(0 <= legs.first() < n);
                }
            }
        }
    }
}

/// Whether the profiles of every stop are a strict frontier.
pub open spec fn strict_frontiers(profiles: Seq<Seq<Profile>>) -> bool {
    forall|s: int| 0 <= s < profiles.len() ==> is_strict_frontier(#[trigger] profiles[s])
}

/// In a timetable without footpaths, in which no two connections leave one
/// stop at the same time, and for destinations of which none is named
/// twice, the profiles of every stop are a strict frontier at every point
/// of the sweep.
pub proof fn lemma_sweep_strict_frontiers(net: Network, destinations: Seq<usize>, n: nat)
    requires
        net.wf(),
        net.walkless(),
        net.staggered(),
        are_stops(destinations, net.stops),
        destinations.no_duplicates(),
        n <= net.connections.len(),
    ensures
        strict_frontiers(sweep(net, destinations, n).profiles),
    decreases n,
{
    if n == 0 {
        lemma_seeded(net.stops, destinations);
    } else {
        let index = n - 1;
        let state = sweep(net, destinations, index as nat);
        lemma_sweep_strict_frontiers(net, destinations, index as nat);
        lemma_sweep_boards(net, destinations, index as nat);
        lemma_sweep_travels(net, destinations, index as nat);
        let c = net.connections[index];
        if let Some(t) = best_arrival(net, destinations, state, c) {
            let candidate = boarded(net, index, t);
            let list = state.profiles[c.dep_stop as int];
            if accepts(list, candidate) {
                // No member leaves with the candidate.
                if leaving_at(list, c.dep_time).len() > 0 {
                    lemma_leaving_at_member(list, c.dep_time);
                    lemma_last_leaving_from(list, c.dep_time as int);
                    let pivot = last_leaving_from(list, c.dep_time as int);
                    let board = |s: int, p: Profile| boards(net, destinations, s, p);
                    let travel = |s: int, p: Profile| travels(net, destinations, index, p);
                    let k = choose|k: int|
                        0 <= k < list.len() && (#[trigger] list[k]).dep_time == c.dep_time;
                    assert(board(c.dep_stop as int, state.profiles[c.dep_stop as int][k]));
                    assert(travel(c.dep_stop as int, state.profiles[c.dep_stop as int][k]));
                    assert(board(c.dep_stop as int, state.profiles[c.dep_stop as int][pivot]));
                    assert(travel(c.dep_stop as int, state.profiles[c.dep_stop as int][pivot]));
                    if let Some(j) = list[pivot].out_connection {
                        assert(net.footpaths[net.connections[j as int].dep_stop as int].len() == 0);
                        assert(net.connections[j as int].dep_time >= net.connections[index].dep_time);
                    }
                    if let Some(j) = list[k].out_connection {
                        assert(net.footpaths[net.connections[j as int].dep_stop as int].len() == 0);
                        assert(net.connections[j as int].dep_time != net.connections[index].dep_time);
                    }
                    assert(false);
                }
                lemma_incorporated_strict_frontier(list, candidate);
                let walks = net.footpaths[c.dep_stop as int];
                assert(walks.len() == 0);
            }
        }
    }
}

/// No journey arrives before it starts. The marker is no journey.
pub open spec fn on_time(p: Profile) -> bool {
    p.out_connection is Some ==> p.arr_time >= p.dep_time
}

/// With connections that do not arrive before they leave, no profile does,
/// at any point of the sweep; and whoever is aboard a trip arrives no
/// earlier than the connection read last leaves.
pub proof fn lemma_sweep_on_time(net: Network, destinations: Seq<usize>, n: nat)
    requires
        net.wf(),
        net.punctual(),
        are_stops(destinations, net.stops),
        n <= net.connections.len(),
    ensures
        every(sweep(net, destinations, n).profiles, |s: int, p: Profile| on_time(p)),
        forall|trip: int|
            0 <= trip < net.trips ==> ((#[trigger] sweep(net, destinations, n).aboard[trip])
                matches Some(t) ==> n > 0 && t >= net.connections[n - 1].dep_time),
    decreases n,
{
    let good = |s: int, p: Profile| on_time(p);
    if n == 0 {
        lemma_seeded(net.stops, destinations);
    } else {
        let index = n - 1;
        let state = sweep(net, destinations, index as nat);
        lemma_sweep_on_time(net, destinations, index as nat);
        lemma_sweep_boards(net, destinations, index as nat);
        let c = net.connections[index];
        assert(c.arr_time >= c.dep_time);
        if index > 0 {
            assert(net.connections[index - 1].dep_time >= net.connections[index].dep_time);
        }
        if let Some(t) = best_arrival(net, destinations, state, c) {
            let walking = walk_arrival(c, final_walk(net, destinations, c.arr_stop as int));
            let seated = state.aboard[c.trip as int];
            let changing = transfer_arrival(state.profiles[c.arr_stop as int], c);
            if let Some(d) = final_walk(net, destinations, c.arr_stop as int) {
                lemma_final_walk_start(net, destinations, c.arr_stop as int);
                let (i, k) = choose|i: int, k: int|
                    0 <= i < destinations.len() && 0 <= k
                        < net.footpaths[destinations[i] as int].len() && (
                    #[trigger] net.footpaths[destinations[i] as int][k]).from == c.arr_stop
                        && net.footpaths[destinations[i] as int][k].duration == d;
                assert(destinations[i] < net.stops);
                assert(c.arr_time + d <= u32::MAX);
            }
            if changing is Some {
                let list = state.profiles[c.arr_stop as int];
                lemma_last_leaving_from(list, c.arr_time + TRANSFER_TIME + 1);
                let found = last_leaving_from(list, c.arr_time + TRANSFER_TIME + 1);
                assert(good(c.arr_stop as int, list[found]));
            }
            assert(walking matches Some(a) ==> a >= c.dep_time);
            assert(seated matches Some(a) ==> a >= c.dep_time);
            assert(changing matches Some(a) ==> a >= c.dep_time);
            assert(t >= c.dep_time);
        }
        lemma_step_every(net, destinations, state, index, good);
    }
}

} // verus!
