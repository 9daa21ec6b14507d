use crate::algo::{rposition_leaving_from, views, Profile};
use crate::frontier::{last_leaving_from, lemma_last_leaving_from};
use crate::structures::{Connection, Network, Timetable};
use crate::sweep::TRANSFER_TIME;
use std::collections::HashSet;
use vstd::prelude::*;

verus! {

/// The profile with which a journey goes on after the first connection of
/// `p`: the last profile of the arrival stop that leaves late enough for the
/// change, if it arrives as `p` does and boards a connection of another trip
/// that stands before that of `p`. `None` where the journey ends with the
/// connection of `p`, or goes on without a change.
pub open spec fn next_leg(net: Network, profiles: Seq<Seq<Profile>>, p: Profile) -> Option<Profile> {
    match p.out_connection {
        Some(i) => if i < net.connections.len() && net.connections[i as int].arr_stop
            < profiles.len() {
            let c = net.connections[i as int];
            let list = profiles[c.arr_stop as int];
            let found = last_leaving_from(list, c.arr_time + TRANSFER_TIME + 1);
            if found >= 0 && list[found].arr_time == p.arr_time {
                match list[found].out_connection {
                    Some(j) => if j < i && net.connections[j as int].trip != c.trip {
                        Some(list[found])
                    } else {
                        None
                    },
                    None => None,
                }
            } else {
                None
            }
        } else {
            None
        },
        None => None,
    }
}

/// How far a journey that starts with `p` can still go.
pub open spec fn legs_left(p: Profile) -> nat {
    match p.out_connection {
        Some(i) => i as nat + 1,
        None => 0,
    }
}

/// The connections that a traveller boards on the journey of `p`, one for
/// each change, from the first on.
pub open spec fn journey(net: Network, profiles: Seq<Seq<Profile>>, p: Profile) -> Seq<Connection>
    decreases legs_left(p),
{
    match p.out_connection {
        Some(i) => if i < net.connections.len() {
            seq![net.connections[i as int]] + match next_leg(net, profiles, p) {
                Some(q) => journey(net, profiles, q),
                None => Seq::empty(),
            }
        } else {
            Seq::empty()
        },
        None => Seq::empty(),
    }
}

impl Profile {
    /// The connections that a traveller boards on the journey of `self`,
    /// read from the profiles that `compute` gave for `timetable`.
    pub fn route(&self, profiles: &[Vec<Profile>], timetable: &Timetable) -> (legs: Vec<Connection>)
        ensures
            legs@ == journey(timetable@, views(profiles@), *self),
    {
        let ghost net = timetable@;
        let ghost lists = views(profiles@);
        let mut legs: Vec<Connection> = Vec::new();
        let mut current = *self;
        assert(legs@ + journey(net, lists, current) == journey(net, lists, *self));
        loop
            invariant_except_break
                legs@ + journey(net, lists, current) == journey(net, lists, *self),
            invariant
                net == timetable@,
                lists == views(profiles@),
            ensures
                legs@ == journey(net, lists, *self),
            decreases legs_left(current),
        {
            let i = match current.out_connection {
                Some(i) => i,
                None => {
                    assert(legs@ + Seq::<Connection>::empty() == legs@);
                    break ;
                },
            };
            if i >= timetable.connections.len() {
                assert(legs@ + Seq::<Connection>::empty() == legs@);
                break ;
            }
            let c = timetable.connections[i];
            let ghost rest = journey(net, lists, current);
            let ghost before = legs@;
            legs.push(c);
            let mut next: Option<Profile> = None;
            if c.arr_stop < profiles.len() {
                let list = &profiles[c.arr_stop];
                assert(lists[c.arr_stop as int] == list@);
                proof {
                    lemma_last_leaving_from(list@, c.arr_time + TRANSFER_TIME + 1);
                }
                let ready = c.arr_time as u64 + TRANSFER_TIME as u64 + 1;
                if let Some(at) = rposition_leaving_from(list.as_slice(), ready) {
                    let found = list[at];
                    if found.arr_time == current.arr_time {
                        if let Some(j) = found.out_connection {
                            if j < i && timetable.connections[j].trip != c.trip {
                                next = Some(found);
                            }
                        }
                    }
                }
            }
            assert(next == next_leg(net, lists, current));
            match next {
                Some(q) => {
                    assert(before + (seq![c] + journey(net, lists, q)) == legs@ + journey(
                        net,
                        lists,
                        q,
                    ));
                    current = q;
                },
                None => {
                    assert(before + (seq![c] + Seq::<Connection>::empty()) == legs@);
                    break ;
                },
            }
        }
        legs
    }
}

/// A journey in three numbers.
#[derive(Clone, Copy, Debug)]
pub struct Summary {
    /// When the first connection leaves.
    pub departure: u32,
    /// When the last connection arrives.
    pub arrival: u32,
    /// How many trips the journey takes.
    pub transfers: usize,
}

/// The trips of `connections`.
pub open spec fn trips_of(connections: Seq<Connection>) -> Set<usize>
    decreases connections.len(),
{
    if connections.len() == 0 {
        Set::empty()
    } else {
        trips_of(connections.drop_last()).insert(connections.last().trip)
    }
}

impl Summary {
    /// The summary of the journey that boards `connections` in their order.
    pub fn from(connections: &[Connection]) -> (summary: Summary)
        requires
            connections@.len() > 0,
        ensures
            summary.departure == connections@.first().dep_time,
            summary.arrival == connections@.last().arr_time,
            summary.transfers == trips_of(connections@).len(),
    {
        broadcast use vstd::std_specs::hash::group_hash_axioms;

        let mut trips: HashSet<usize> = HashSet::new();
        let mut i: usize = 0;
        while i < connections.len()
            invariant
                i <= connections.len(),
                trips@ == trips_of(connections@.take(i as int)),
            decreases connections.len() - i,
        {
            assert(connections@.take(i + 1).drop_last() == connections@.take(i as int));
            trips.insert(connections[i].trip);
            i += 1;
        }
        assert(connections@.take(i as int) == connections@);
        Summary {
            departure: connections[0].dep_time,
            arrival: connections[connections.len() - 1].arr_time,
            transfers: trips.len(),
        }
    }
}

} // verus!
