use crate::frontier::{
    accepts, arriving_before, dominated_by, dominates, holds, incorporated, is_frontier,
    is_strict_frontier, last_leaving_from, leaving_at, lemma_incorporate_present,
    lemma_incorporated_frontier, lemma_incorporated_len, lemma_incorporated_strict_frontier,
    lemma_last_leaving_from, lemma_strict_frontier_undominated,
};
use crate::cover::{covers, early, lemma_sweep_serves};
use crate::structures::{Connection, Timetable};
use crate::sweep::{
    boards, final_walk, is_journey, lemma_final_walk_start, lemma_sweep_boards,
    lemma_sweep_frontiers,
    lemma_sweep_on_time, lemma_sweep_strict_frontiers, lemma_sweep_travels, on_time, seeded,
    shortest_walk, solution, spread, sweep, transfer_arrival, travels, TRANSFER_TIME,
};
use vstd::prelude::*;

verus! {

/// A way to leave a stop at `dep_time` and reach a destination at `arr_time`,
/// boarding `out_connection` first. A destination itself carries the marker
/// profile, which has no connection.
#[derive(Clone, Copy, Debug)]
pub struct Profile {
    pub out_connection: Option<usize>,
    pub dep_time: u32,
    pub arr_time: u32,
}

impl Profile {
    /// The marker of a destination: it leaves later than any ride and has
    /// already arrived.
    pub open spec fn marker() -> Profile {
        Profile { out_connection: None, dep_time: u32::MAX, arr_time: 0 }
    }
}

impl Default for Profile {
    fn default() -> (p: Self)
        ensures
            p == Profile::marker(),
    {
        Profile { out_connection: None, dep_time: u32::MAX, arr_time: 0 }
    }
}

/// Searches `list` from its tail for a profile that leaves at `t` or later.
pub(crate) fn rposition_leaving_from(list: &[Profile], t: u64) -> (found: Option<usize>)
    ensures
        match found {
            Some(p) => p == last_leaving_from(list@, t as int),
            None => last_leaving_from(list@, t as int) == -1,
        },
{
    let mut i: usize = list.len();
    assert(list@.take(i as int) == list@);
    while i > 0
        invariant
            i <= list.len(),
            last_leaving_from(list@, t as int) == last_leaving_from(list@.take(i as int), t as int),
        decreases i,
    {
        if list[i - 1].dep_time as u64 >= t {
            return Some(i - 1);
        }
        assert(list@.take(i as int).drop_last() == list@.take(i - 1));
        i -= 1;
    }
    None
}

/// Arrival at a destination after alighting from `c` and changing at its
/// arrival stop, where `profiles` are the profiles of that stop; `None` where
/// no profile leaves late enough.
pub fn arrival_time_with_stop_change(profiles: &[Profile], c: &Connection) -> (arrival: Option<u32>)
    ensures
        arrival == transfer_arrival(profiles@, *c),
{
    proof {
        lemma_last_leaving_from(profiles@, c.arr_time + TRANSFER_TIME + 1);
    }
    match rposition_leaving_from(profiles, c.arr_time as u64 + TRANSFER_TIME as u64 + 1) {
        Some(pos) => {
            let p = &profiles[pos];
            if p.out_connection.is_some() {
                Some(p.arr_time)
            } else {
                Some(c.arr_time)
            }
        },
        None => None,
    }
}

/// A list of profiles to which a candidate can be offered.
pub trait Incorporate {
    /// The profiles held, in their order.
    spec fn entries(&self) -> Seq<Profile>;

    /// Offers `candidate` to the list and says whether it was taken.
    ///
    /// A frontier stays a frontier. It rejects a profile that it holds, by
    /// departure and arrival, and stays as it is. Where it takes the
    /// candidate, it loses what the candidate dominates, but for the members
    /// that leave together with the candidate: with such a member a strict
    /// frontier is strict no more.
    fn incorporate(&mut self, candidate: Profile) -> (added: bool)
        ensures
            added == accepts(old(self).entries(), candidate),
            final(self).entries() == incorporated(old(self).entries(), candidate),
            is_frontier(old(self).entries()) ==> is_frontier(final(self).entries()),
            is_strict_frontier(old(self).entries()) ==> (is_strict_frontier(
                final(self).entries(),
            ) <==> !(added && leaving_at(old(self).entries(), candidate.dep_time).len() > 0)),
            is_frontier(old(self).entries()) && holds(old(self).entries(), candidate) ==> !added
                && final(self).entries() == old(self).entries(),
            is_frontier(old(self).entries()) && added ==> final(self).entries().len()
                + dominated_by(old(self).entries(), candidate).len() == old(self).entries().len()
                + 1 + leaving_at(old(self).entries(), candidate.dep_time).len(),
    ;

    /// Puts `candidate` at index `at` and drops every profile that stood at
    /// `at` or behind it and does not arrive strictly earlier.
    fn insert_and_filter(&mut self, candidate: Profile, at: usize)
        requires
            at <= old(self).entries().len(),
        ensures
            final(self).entries() == old(self).entries().take(at as int).push(candidate)
                + arriving_before(old(self).entries().skip(at as int), candidate.arr_time),
    ;
}

impl Incorporate for Vec<Profile> {
    open spec fn entries(&self) -> Seq<Profile> {
        self@
    }

    fn insert_and_filter(&mut self, candidate: Profile, at: usize) {
        let ghost before = self@;
        let ghost keep = |e: Profile| e.arr_time < candidate.arr_time;
        let ghost mut seen: int = at as int;
        let mut i: usize = at;
        proof {
            reveal(Seq::filter);
            assert(before.subrange(at as int, seen).filter(keep) == Seq::<Profile>::empty());
            assert(self@ == before.take(at as int) + before.subrange(at as int, seen).filter(keep)
                + before.skip(seen));
        }
        while i < self.len()
            invariant
                at <= i <= self.len(),
                at <= seen <= before.len(),
                keep == |e: Profile| e.arr_time < candidate.arr_time,
                i == at + before.subrange(at as int, seen).filter(keep).len(),
                self@ == before.take(at as int) + before.subrange(at as int, seen).filter(keep)
                    + before.skip(seen),
            decreases before.len() - seen,
        {
            let ghost kept = before.subrange(at as int, seen).filter(keep);
            assert(self@[i as int] == before[seen]);
            assert(before.subrange(at as int, seen + 1) == before.subrange(at as int, seen).push(before[seen]));
            proof {
                before.subrange(at as int, seen).lemma_filter_push(before[seen], keep);
            }
            if candidate.arr_time <= self[i].arr_time {
                self.remove(i);
                assert(self@ == before.take(at as int) + kept + before.skip(seen + 1));
            } else {
                i += 1;
                assert(self@ == before.take(at as int) + kept.push(before[seen]) + before.skip(seen + 1));
            }
            proof {
                seen = seen + 1;
            }
        }
        assert(before.subrange(at as int, seen) == before.skip(at as int));
        self.insert(at, candidate);
        assert(self@ == before.take(at as int).push(candidate) + arriving_before(
            before.skip(at as int),
            candidate.arr_time,
        ));
    }

    fn incorporate(&mut self, candidate: Profile) -> (added: bool) {
        proof {
            lemma_last_leaving_from(self@, candidate.dep_time as int);
            if is_frontier(self@) {
                lemma_incorporated_frontier(self@, candidate);
                if holds(self@, candidate) {
                    lemma_incorporate_present(self@, candidate);
                }
                if accepts(self@, candidate) {
                    lemma_incorporated_len(self@, candidate);
                }
            }
            if is_strict_frontier(self@) {
                lemma_incorporated_strict_frontier(self@, candidate);
            }
        }
        let len = self.len();
        match rposition_leaving_from(self.as_slice(), candidate.dep_time as u64) {
            Some(pivot) => {
                assert(pivot < len);
                if candidate.arr_time < self[pivot].arr_time {
                    self.insert_and_filter(candidate, pivot + 1);
                    true
                } else {
                    false
                }
            },
            None => {
                self.insert_and_filter(candidate, 0);
                true
            },
        }
    }
}

/// The smaller of `a` and `b`; the one that is there where the other is
/// absent.
pub open spec fn earlier(a: Option<u32>, b: Option<u32>) -> Option<u32> {
    match (a, b) {
        (None, _) => b,
        (_, None) => a,
        (Some(x), Some(y)) => Some(if x <= y { x } else { y }),
    }
}

/// The smaller of two optional durations, where an absent one never wins.
pub fn min_duration(a: Option<u32>, b: Option<u32>) -> (m: Option<u32>)
    ensures
        m == earlier(a, b),
{
    match (a, b) {
        (None, _) => b,
        (_, None) => a,
        (Some(x), Some(y)) => Some(if x <= y { x } else { y }),
    }
}

/// The profile lists of `lists`, each as a sequence.
pub open spec fn views(lists: Seq<Vec<Profile>>) -> Seq<Seq<Profile>> {
    lists.map_values(|list: Vec<Profile>| list@)
}

/// As many `None` as `n`.
fn unknown(n: usize) -> (v: Vec<Option<u32>>)
    ensures
        v@ == Seq::new(n as nat, |i: int| None::<u32>),
{
    let mut v: Vec<Option<u32>> = Vec::new();
    while v.len() < n
        invariant
            v.len() <= n,
            forall|i: int| 0 <= i < v.len() ==> v@[i] is None,
        decreases n - v.len(),
    {
        v.push(None);
    }
    assert(v@ == Seq::new(n as nat, |i: int| None::<u32>));
    v
}

/// As many empty profile lists as `n`.
fn empty_lists(n: usize) -> (v: Vec<Vec<Profile>>)
    ensures
        v.len() == n,
        views(v@) == Seq::new(n as nat, |s: int| Seq::<Profile>::empty()),
{
    let mut v: Vec<Vec<Profile>> = Vec::new();
    while v.len() < n
        invariant
            v.len() <= n,
            forall|i: int| 0 <= i < v.len() ==> v@[i]@ == Seq::<Profile>::empty(),
        decreases n - v.len(),
    {
        v.push(Vec::new());
    }
    assert(views(v@) == Seq::new(n as nat, |s: int| Seq::<Profile>::empty()));
    v
}

/// For every stop the profiles towards `destinations`: the latest first, and
/// each with the connection that a traveller boards first.
///
/// The lists are those that reading the connections in their order leaves
/// behind. Every profile starts as the timetable allows, and arrives when a
/// journey ends that starts with its connection. Where no connection
/// arrives before it leaves, no profile does.
///
/// Where no destination is named twice, every list is a frontier. If there
/// are no footpaths, then the frontier is a strict one, in which no profile
/// dominates another, if no two connections leave one stop together; and
/// then for every journey the stop where it starts has a profile that leaves
/// no earlier and arrives no later, if no connection arrives before it
/// leaves or too late for a change.
pub fn compute(timetable: &Timetable, destinations: &[usize]) -> (profiles: Vec<Vec<Profile>>)
    requires
        timetable@.wf(),
        forall|k: int| 0 <= k < destinations@.len() ==> destinations@[k] < timetable@.stops,
    ensures
        views(profiles@) == solution(timetable@, destinations@),
        profiles.len() == timetable@.stops,
        forall|s: int, k: int|
            0 <= s < profiles.len() && 0 <= k < profiles@[s]@.len() ==> boards(
                timetable@,
                destinations@,
                s,
                #[trigger] profiles@[s]@[k],
            ),
        forall|s: int, k: int|
            0 <= s < profiles.len() && 0 <= k < profiles@[s]@.len() ==> travels(
                timetable@,
                destinations@,
                timetable@.connections.len() as int,
                #[trigger] profiles@[s]@[k],
            ),
        destinations@.no_duplicates() ==> forall|s: int|
            0 <= s < profiles.len() ==> is_frontier(#[trigger] profiles@[s]@),
        destinations@.no_duplicates() && timetable@.walkless() && timetable@.staggered()
            ==> forall|s: int|
            0 <= s < profiles.len() ==> is_strict_frontier(#[trigger] profiles@[s]@),
        destinations@.no_duplicates() && timetable@.walkless() && timetable@.staggered()
            ==> forall|s: int, i: int, j: int|
            0 <= s < profiles.len() && 0 <= i < profiles@[s]@.len() && 0 <= j
                < profiles@[s]@.len() ==> !dominates(
                #[trigger] profiles@[s]@[i],
                #[trigger] profiles@[s]@[j],
            ),
        destinations@.no_duplicates() && timetable@.walkless() && timetable@.punctual()
            && early(timetable@) ==> forall|legs: Seq<int>, t: int|
            #[trigger] is_journey(timetable@, destinations@, legs, t) && legs.first()
                < timetable@.connections.len() ==> covers(
                profiles@[timetable@.connections[legs.first()].dep_stop as int]@,
                timetable@.connections[legs.first()].dep_time as int,
                t,
            ),
        timetable@.punctual() ==> forall|s: int, k: int|
            0 <= s < profiles.len() && 0 <= k < profiles@[s]@.len() ==> on_time(
                #[trigger] profiles@[s]@[k],
            ),
{
    let ghost net = timetable@;
    let stops = timetable.stops.len();
    let mut arr_time_with_trip = unknown(timetable.trips.len());
    let mut profiles = empty_lists(stops);
    let mut final_footpaths = unknown(stops);

    let mut k: usize = 0;
    while k < destinations.len()
        invariant
            net == timetable@,
            net.linked(),
            stops == net.stops,
            forall|k: int| 0 <= k < destinations@.len() ==> destinations@[k] < net.stops,
            k <= destinations.len(),
            final_footpaths.len() == stops,
            profiles.len() == stops,
            forall|s: int|
                0 <= s < stops ==> final_footpaths@[s] == final_walk(
                    net,
                    destinations@.take(k as int),
                    s,
                ),
            views(profiles@) == seeded(net.stops, destinations@.take(k as int)),
        decreases destinations.len() - k,
    {
        let d = destinations[k];
        let walks = &timetable.footpaths[d];
        assert(destinations@.take(k + 1).drop_last() == destinations@.take(k as int));
        assert(net.footpaths[d as int] == walks@);
        let mut j: usize = 0;
        while j < walks.len()
            invariant
                j <= walks.len(),
                final_footpaths.len() == stops,
                forall|i: int| 0 <= i < walks.len() ==> walks@[i].from < stops,
                forall|s: int|
                    0 <= s < stops ==> final_footpaths@[s] == earlier(
                        final_walk(net, destinations@.take(k as int), s),
                        shortest_walk(walks@.take(j as int), s),
                    ),
            decreases walks.len() - j,
        {
            let fp = walks[j];
            assert(walks@.take(j + 1).drop_last() == walks@.take(j as int));
            let shortest = min_duration(final_footpaths[fp.from], Some(fp.duration));
            final_footpaths[fp.from] = shortest;
            j += 1;
        }
        assert(walks@.take(j as int) == walks@);
        assert(views(profiles@)[d as int] == profiles@[d as int]@);
        let ghost before = views(profiles@);
        profiles[d].push(Profile::default());
        assert(views(profiles@) == before.update(d as int, before[d as int].push(Profile::marker())));
        k += 1;
    }
    assert(destinations@.take(k as int) == destinations@);

    let mut i: usize = 0;
    while i < timetable.connections.len()
        invariant
            net == timetable@,
            net.wf(),
            stops == net.stops,
            forall|k: int| 0 <= k < destinations@.len() ==> destinations@[k] < net.stops,
            i <= timetable.connections.len(),
            final_footpaths.len() == stops,
            forall|s: int|
                0 <= s < stops ==> final_footpaths@[s] == final_walk(net, destinations@, s),
            profiles.len() == stops,
            views(profiles@) == sweep(net, destinations@, i as nat).profiles,
            arr_time_with_trip@ == sweep(net, destinations@, i as nat).aboard,
            arr_time_with_trip.len() == net.trips,
        decreases timetable.connections.len() - i,
    {
        let c = timetable.connections[i];
        assert(c == net.connections[i as int]);
        // Walking from the arrival stop to a destination.
        let t1 = match final_footpaths[c.arr_stop] {
            Some(d) => {
                proof {
                    lemma_final_walk_start(net, destinations@, c.arr_stop as int);
                }
                Some(c.arr_time + d)
            },
            None => None,
        };
        // Staying aboard the trip.
        let t2 = arr_time_with_trip[c.trip];
        // Changing at the arrival stop.
        assert(views(profiles@)[c.arr_stop as int] == profiles@[c.arr_stop as int]@);
        let t3 = arrival_time_with_stop_change(profiles[c.arr_stop].as_slice(), &c);

        if let Some(t) = min_duration(min_duration(t1, t2), t3) {
            let candidate = Profile { out_connection: Some(i), dep_time: c.dep_time, arr_time: t };
            let ghost before = views(profiles@);
            assert(before[c.dep_stop as int] == profiles@[c.dep_stop as int]@);
            if profiles[c.dep_stop].incorporate(candidate) {
                let ghost base = before.update(
                    c.dep_stop as int,
                    incorporated(before[c.dep_stop as int], candidate),
                );
                assert(views(profiles@) == base);
                let walks = &timetable.footpaths[c.dep_stop];
                assert(net.footpaths[c.dep_stop as int] == walks@);
                let mut j: usize = 0;
                while j < walks.len()
                    invariant
                        j <= walks.len(),
                        profiles.len() == stops,
                        forall|i: int| 0 <= i < walks.len() ==> walks@[i].from < stops,
                        views(profiles@) == spread(base, walks@.take(j as int), i, c.dep_time, t),
                    decreases walks.len() - j,
                {
                    let footpath = walks[j];
                    assert(walks@.take(j + 1).drop_last() == walks@.take(j as int));
                    if footpath.duration < c.dep_time {
                        let ghost so_far = views(profiles@);
                        assert(so_far[footpath.from as int] == profiles@[footpath.from as int]@);
                        profiles[footpath.from].incorporate(
                            Profile {
                                out_connection: Some(i),
                                dep_time: c.dep_time - footpath.duration,
                                arr_time: t,
                            },
                        );
                        assert(views(profiles@) == so_far.update(
                            footpath.from as int,
                            profiles@[footpath.from as int]@,
                        ));
                    }
                    j += 1;
                }
                assert(walks@.take(j as int) == walks@);
            }
            // Whoever is aboard this trip now arrives at `t`, taken or not.
            arr_time_with_trip[c.trip] = Some(t);
        }
        i += 1;
    }
    proof {
        let n = net.connections.len();
        lemma_sweep_boards(net, destinations@, n);
        assert forall|s: int, k: int|
            0 <= s < profiles.len() && 0 <= k < profiles@[s]@.len() implies boards(
            net,
            destinations@,
            s,
            #[trigger] profiles@[s]@[k],
        ) by {
            assert(views(profiles@)[s][k] == profiles@[s]@[k]);
        }
        lemma_sweep_travels(net, destinations@, n);
        assert forall|s: int, k: int|
            0 <= s < profiles.len() && 0 <= k < profiles@[s]@.len() implies travels(
            net,
            destinations@,
            n as int,
            #[trigger] profiles@[s]@[k],
        ) by {
            assert(views(profiles@)[s][k] == profiles@[s]@[k]);
        }
        if destinations@.no_duplicates() {
            lemma_sweep_frontiers(net, destinations@, n);
            assert forall|s: int| 0 <= s < profiles.len() implies is_frontier(
                #[trigger] profiles@[s]@,
            ) by {
                assert(views(profiles@)[s] == profiles@[s]@);
            }
        }
        if destinations@.no_duplicates() && net.walkless() && net.staggered() {
            lemma_sweep_strict_frontiers(net, destinations@, n);
            assert forall|s: int| 0 <= s < profiles.len() implies is_strict_frontier(
                #[trigger] profiles@[s]@,
            ) by {
                assert(views(profiles@)[s] == profiles@[s]@);
            }
            assert forall|s: int, i: int, j: int|
                0 <= s < profiles.len() && 0 <= i < profiles@[s]@.len() && 0 <= j
                    < profiles@[s]@.len() implies !dominates(
                #[trigger] profiles@[s]@[i],
                #[trigger] profiles@[s]@[j],
            ) by {
                lemma_strict_frontier_undominated(profiles@[s]@, i, j);
            }
        }
        if destinations@.no_duplicates() && net.walkless() && net.punctual() && early(net) {
            lemma_sweep_serves(net, destinations@, n);
            assert forall|legs: Seq<int>, t: int| #[trigger]
                is_journey(net, destinations@, legs, t) && legs.first() < n implies covers(
                profiles@[net.connections[legs.first()].dep_stop as int]@,
                net.connections[legs.first()].dep_time as int,
                t,
            ) by {
                crate::cover::lemma_journey_falls(net, destinations@, legs, t, 0);
                let s = net.connections[legs.first()].dep_stop as int;
                assert(views(profiles@)[s] == profiles@[s]@);
            }
        }
        if net.punctual() {
            lemma_sweep_on_time(net, destinations@, n);
            assert forall|s: int, k: int|
                0 <= s < profiles.len() && 0 <= k < profiles@[s]@.len() implies on_time(
                #[trigger] profiles@[s]@[k],
            ) by {
                assert(views(profiles@)[s][k] == profiles@[s]@[k]);
            }
        }
    }
    profiles
}

} // verus!
