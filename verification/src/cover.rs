use crate::algo::{earlier, Profile};
use crate::frontier::{
    accepts, incorporated, is_frontier, last_leaving_from, lemma_incorporated_members,
    lemma_last_leaving_from,
};
use crate::structures::Network;
use crate::sweep::{
    are_stops, best_arrival, boarded, boards, ends_at, every, final_walk, frontiers, goes_on,
    is_journey, lemma_seeded, lemma_sweep_boards, lemma_sweep_frontiers, spread, step, sweep,
    transfer_arrival, walk_arrival, Sweep, TRANSFER_TIME,
};
use vstd::prelude::*;

verus! {

/// Whether `list` has a profile for whoever wants to leave at `dep_time` or
/// later and be at a destination at `t` or earlier.
pub open spec fn covers(list: Seq<Profile>, dep_time: int, t: int) -> bool {
    exists|k: int| 0 <= k < list.len() && (#[trigger] list[k]).dep_time >= dep_time && list[k].arr_time <= t
}

/// Whether every connection arrives so early that a change behind it can
/// still be timed.
pub open spec fn early(net: Network) -> bool {
    forall|i: int|
        0 <= i < net.connections.len() ==> (#[trigger] net.connections[i]).arr_time + TRANSFER_TIME
            < u32::MAX
}

/// A list that was offered a candidate covers what it covered before, and
/// what the candidate offers.
pub proof fn lemma_incorporated_covers(list: Seq<Profile>, candidate: Profile, dep_time: int, t: int)
    requires
        covers(list, dep_time, t) || (candidate.dep_time >= dep_time && candidate.arr_time <= t),
    ensures
        covers(incorporated(list, candidate), dep_time, t),
{
    let new = incorporated(list, candidate);
    lemma_last_leaving_from(list, candidate.dep_time as int);
    let pivot = last_leaving_from(list, candidate.dep_time as int);
    if accepts(list, candidate) {
        lemma_incorporated_members(list, candidate);
        let at = choose|at: int| 0 <= at < new.len() && new[at] == candidate;
        if candidate.dep_time >= dep_time && candidate.arr_time <= t {
            assert(new[at].dep_time >= dep_time);
        } else {
            let k = choose|k: int|
                0 <= k < list.len() && (#[trigger] list[k]).dep_time >= dep_time && list[k].arr_time
                    <= t;
            if k <= pivot {
                assert(new[k] == list[k]);
            } else if list[k].arr_time >= candidate.arr_time {
                // The candidate takes the place of what it beats.
                assert(new[at].dep_time >= dep_time && new[at].arr_time <= t);
            } else {
                lemma_kept(list, candidate, k);
                let to = choose|to: int| 0 <= to < new.len() && new[to] == list[k];
                assert(new[to].dep_time >= dep_time);
            }
        }
    } else if !covers(list, dep_time, t) {
        assert(list[pivot].dep_time >= dep_time && list[pivot].arr_time <= t);
    }
}

/// A member behind the pivot that arrives before the candidate stays.
proof fn lemma_kept(list: Seq<Profile>, candidate: Profile, k: int)
    requires
        accepts(list, candidate),
        last_leaving_from(list, candidate.dep_time as int) < k < list.len(),
        list[k].arr_time < candidate.arr_time,
    ensures
        incorporated(list, candidate).contains(list[k]),
{
    broadcast use vstd::seq_lib::group_filter_ensures;

    lemma_last_leaving_from(list, candidate.dep_time as int);
    let at = last_leaving_from(list, candidate.dep_time as int) + 1;
    let tail = list.skip(at);
    let keep = |e: Profile| e.arr_time < candidate.arr_time;
    assert(tail[k - at] == list[k]);
    assert(keep(tail[k - at]));
    assert(tail.filter(keep).contains(tail[k - at]));
    let from = choose|from: int| 0 <= from < tail.filter(keep).len() && tail.filter(keep)[from] == list[k];
    let new = incorporated(list, candidate);
    assert(new[at + 1 + from] == list[k]);
}

/// Along a journey the connections stand ever earlier in the timetable.
pub proof fn lemma_journey_falls(net: Network, destinations: Seq<usize>, legs: Seq<int>, t: int, k: int)
    requires
        is_journey(net, destinations, legs, t),
        0 <= k < legs.len(),
    ensures
        0 <= legs.last() <= legs[k] <= legs.first(),
    decreases legs.len() - k,
{
    if k < legs.len() - 1 {
        assert(goes_on(net, legs[k], legs[k + 1]));
        lemma_journey_falls(net, destinations, legs, t, k + 1);
    } else if k > 0 {
        assert(goes_on(net, legs[k - 1], legs[k - 1 + 1]));
    }
    lemma_journey_rises(net, destinations, legs, t, k);
}

/// No connection of a journey stands behind the first.
proof fn lemma_journey_rises(net: Network, destinations: Seq<usize>, legs: Seq<int>, t: int, k: int)
    requires
        is_journey(net, destinations, legs, t),
        0 <= k < legs.len(),
    ensures
        legs[k] <= legs.first(),
    decreases k,
{
    if k > 0 {
        assert(goes_on(net, legs[k - 1], legs[k - 1 + 1]));
        lemma_journey_rises(net, destinations, legs, t, k - 1);
    }
}

/// In a timetable by departure, of which no connection arrives before it
/// leaves, no journey ends before its first connection leaves.
pub proof fn lemma_journey_takes_time(net: Network, destinations: Seq<usize>, legs: Seq<int>, t: int)
    requires
        net.sorted(),
        net.punctual(),
        is_journey(net, destinations, legs, t),
        legs.first() < net.connections.len(),
    ensures
        t >= net.connections[legs.first()].dep_time,
{
    lemma_journey_falls(net, destinations, legs, t, 0);
    let last = legs.last();
    assert(net.connections[last].dep_time >= net.connections[legs.first()].dep_time);
    assert(net.connections[last].arr_time >= net.connections[last].dep_time);
}

/// What is left of a journey after its first connection is a journey, with
/// which the traveller goes on.
pub proof fn lemma_journey_rest(net: Network, destinations: Seq<usize>, legs: Seq<int>, t: int)
    requires
        is_journey(net, destinations, legs, t),
        legs.len() >= 2,
    ensures
        is_journey(net, destinations, legs.skip(1), t),
        legs.skip(1).first() == legs[1],
        goes_on(net, legs[0], legs[1]),
{
    let rest = legs.skip(1);
    assert(goes_on(net, legs[0int], legs[0int + 1]));
    assert forall|k: int| 0 <= k < rest.len() - 1 implies goes_on(net, #[trigger] rest[k], rest[k + 1]) by {
        assert(goes_on(net, legs[k + 1], legs[k + 1 + 1]));
    }
    assert(rest.last() == legs.last());
}

/// What the sweep has for every journey that starts with one of the first
/// `n` connections: a profile, where the journey starts, that leaves no
/// earlier and arrives no later; and for whoever is aboard the trip, an
/// arrival that is no later.
pub open spec fn serves(net: Network, destinations: Seq<usize>, state: Sweep, n: int) -> bool {
    forall|legs: Seq<int>, t: int|
        #[trigger] is_journey(net, destinations, legs, t) && legs.first() < n ==> {
            let first = net.connections[legs.first()];
            &&& covers(state.profiles[first.dep_stop as int], first.dep_time as int, t)
            &&& state.aboard[first.trip as int] matches Some(a) && a <= t
        }
}

/// Whether every destination holds the marker and nothing else.
pub open spec fn marked(destinations: Seq<usize>, profiles: Seq<Seq<Profile>>) -> bool {
    forall|d: int|
        0 <= d < destinations.len() ==> #[trigger] profiles[destinations[d] as int] == seq![
            Profile::marker(),
        ]
}

/// The seed marks every destination that is named once.
proof fn lemma_seeded_marked(stops: nat, destinations: Seq<usize>)
    requires
        are_stops(destinations, stops),
        destinations.no_duplicates(),
    ensures
        marked(destinations, crate::sweep::seeded(stops, destinations)),
{
    lemma_seeded(stops, destinations);
    let seed = crate::sweep::seeded(stops, destinations);
    assert forall|d: int| 0 <= d < destinations.len() implies #[trigger] seed[destinations[d] as int]
        == seq![Profile::marker()] by {
        let s = destinations[d] as int;
        lemma_seeded_once(stops, destinations, d);
        assert(seed[s][0] == Profile::marker());
    }
}

/// A destination that is named once holds one profile in the seed.
proof fn lemma_seeded_once(stops: nat, destinations: Seq<usize>, d: int)
    requires
        are_stops(destinations, stops),
        destinations.no_duplicates(),
        0 <= d < destinations.len(),
    ensures
        crate::sweep::seeded(stops, destinations)[destinations[d] as int].len() == 1,
    decreases destinations.len(),
{
    let front = destinations.drop_last();
    let last = destinations.len() - 1;
    assert forall|k: int| 0 <= k < front.len() implies #[trigger] front[k] < stops by {
        assert(front[k] == destinations[k]);
    }
    assert forall|i: int, j: int| 0 <= i < front.len() && 0 <= j < front.len() && i != j implies front[i]
        != front[j] by {
        assert(front[i] == destinations[i] && front[j] == destinations[j]);
    }
    lemma_seeded(stops, front);
    if d < last {
        assert(front[d] == destinations[d]);
        lemma_seeded_once(stops, front, d);
    } else {
        if front.contains(destinations[d]) {
            let at = choose|at: int| 0 <= at < front.len() && front[at] == destinations[d];
            assert(destinations[at] == destinations[d]);
        }
    }
}

/// In a timetable without footpaths, of which no connection arrives before
/// it leaves or too late for a change, and for destinations of which none
/// is named twice, the sweep serves every journey that starts with a
/// connection that it has read.
pub proof fn lemma_sweep_serves(net: Network, destinations: Seq<usize>, n: nat)
    requires
        net.wf(),
        net.walkless(),
        net.punctual(),
        early(net),
        are_stops(destinations, net.stops),
        destinations.no_duplicates(),
        n <= net.connections.len(),
    ensures
        serves(net, destinations, sweep(net, destinations, n), n as int),
        marked(destinations, sweep(net, destinations, n).profiles),
    decreases n,
{
    if n == 0 {
        lemma_seeded_marked(net.stops, destinations);
        assert forall|legs: Seq<int>, t: int| #[trigger]
            is_journey(net, destinations, legs, t) implies legs.first() >= 0 by {
            lemma_journey_falls(net, destinations, legs, t, 0);
        }
    } else {
        let index = n - 1;
        let state = sweep(net, destinations, index as nat);
        let after = sweep(net, destinations, n);
        lemma_sweep_serves(net, destinations, index as nat);
        lemma_sweep_boards(net, destinations, index as nat);
        lemma_sweep_frontiers(net, destinations, index as nat);
        let c = net.connections[index];
        let made = best_arrival(net, destinations, state, c);
        let here = state.profiles[c.dep_stop as int];
        assert(net.footpaths[c.dep_stop as int].len() == 0);

        // Every journey that starts with this connection ends no earlier
        // than the connection is found to arrive.
        assert forall|legs: Seq<int>, t: int| #[trigger]
            is_journey(net, destinations, legs, t) && legs.first() == index implies made matches Some(
            m,
        ) && m <= t by {
            lemma_reaches(net, destinations, n, legs, t);
        }

        // Destinations stay marked.
        assert forall|d: int| 0 <= d < destinations.len() implies #[trigger] after.profiles[destinations[d] as int]
            == seq![Profile::marker()] by {
            let s = destinations[d] as int;
            assert(state.profiles[s] == seq![Profile::marker()]);
            if let Some(m) = made {
                if s == c.dep_stop {
                    lemma_last_leaving_from(here, c.dep_time as int);
                    assert(here[0].dep_time >= c.dep_time);
                    assert(!accepts(here, boarded(net, index, m)));
                }
            }
        }

        assert forall|legs: Seq<int>, t: int| #[trigger]
            is_journey(net, destinations, legs, t) && legs.first() < n implies ({
            let first = net.connections[legs.first()];
            &&& covers(after.profiles[first.dep_stop as int], first.dep_time as int, t)
            &&& after.aboard[first.trip as int] matches Some(a) && a <= t
        }) by {
            lemma_journey_falls(net, destinations, legs, t, 0);
            let first = net.connections[legs.first()];
            if legs.first() == index {
                let m = made->0;
                lemma_incorporated_covers(here, boarded(net, index, m), c.dep_time as int, t);
            } else {
                assert(legs.first() < index);
                let list = state.profiles[first.dep_stop as int];
                assert(covers(list, first.dep_time as int, t));
                if let Some(m) = made {
                    if first.dep_stop == c.dep_stop {
                        lemma_incorporated_covers(list, boarded(net, index, m), first.dep_time as int, t);
                    }
                }
            }
        }
    }
}

/// In the state before connection `n - 1` is read, which serves every
/// journey that starts before it, a journey that starts with it ends no
/// earlier than the connection is found to arrive.
proof fn lemma_reaches(net: Network, destinations: Seq<usize>, n: nat, legs: Seq<int>, t: int)
    requires
        net.wf(),
        net.walkless(),
        net.punctual(),
        early(net),
        are_stops(destinations, net.stops),
        destinations.no_duplicates(),
        0 < n <= net.connections.len(),
        is_journey(net, destinations, legs, t),
        legs.first() == n - 1,
        serves(net, destinations, sweep(net, destinations, (n - 1) as nat), n - 1),
        marked(destinations, sweep(net, destinations, (n - 1) as nat).profiles),
        frontiers(sweep(net, destinations, (n - 1) as nat).profiles),
        every(
            sweep(net, destinations, (n - 1) as nat).profiles,
            |s: int, p: Profile| boards(net, destinations, s, p),
        ),
        sweep(net, destinations, (n - 1) as nat).profiles.len() == net.stops,
    ensures
        best_arrival(
            net,
            destinations,
            sweep(net, destinations, (n - 1) as nat),
            net.connections[n - 1],
        ) matches Some(m) && m <= t,
{
    let index = n - 1;
    let state = sweep(net, destinations, index as nat);
    let c = net.connections[index];
    let list = state.profiles[c.arr_stop as int];
    let ready = c.arr_time + TRANSFER_TIME + 1;
    let changing = transfer_arrival(list, c);
    lemma_last_leaving_from(list, ready);
    let found = last_leaving_from(list, ready);
    if legs.len() == 1 {
        assert(legs.last() == index);
        assert(ends_at(net, destinations, index, t));
        if !(destinations.contains(c.arr_stop) && t == c.arr_time) {
            let (d, k) = choose|d: int, k: int|
                0 <= d < destinations.len() && 0 <= k < net.footpaths[destinations[d] as int].len()
                    && (#[trigger] net.footpaths[destinations[d] as int][k]).from == c.arr_stop;
            assert(net.footpaths[destinations[d] as int].len() == 0);
        }
        let d = choose|d: int| 0 <= d < destinations.len() && destinations[d] == c.arr_stop;
        assert(state.profiles[destinations[d] as int] == seq![Profile::marker()]);
        assert(list[0].dep_time >= ready);
        assert(changing == Some(c.arr_time));
    } else {
        lemma_journey_rest(net, destinations, legs, t);
        let rest = legs.skip(1);
        let j = legs[1];
        let next = net.connections[j];
        assert(is_journey(net, destinations, rest, t) && rest.first() < index);
        if next.trip != c.trip {
            assert(net.footpaths[next.dep_stop as int].len() == 0);
            assert(next.dep_stop == c.arr_stop && next.dep_time >= ready);
            assert(covers(list, next.dep_time as int, t));
            let k = choose|k: int|
                0 <= k < list.len() && (#[trigger] list[k]).dep_time >= next.dep_time
                    && list[k].arr_time <= t;
            assert(k <= found);
            if k < found {
                assert(list[k].arr_time > list[found].arr_time);
            }
            if list[found].out_connection is None {
                let board = |s: int, p: Profile| boards(net, destinations, s, p);
                assert(board(c.arr_stop as int, state.profiles[c.arr_stop as int][found]));
                lemma_journey_takes_time(net, destinations, rest, t);
            }
            assert(changing matches Some(a) && a <= t);
        }
    }
}

} // verus!
