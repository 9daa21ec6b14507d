use crate::algo::Profile;
use vstd::prelude::*;

verus! {

/// Index of the last profile of `list` that leaves at `t` or later, -1 if
/// there is none.
pub open spec fn last_leaving_from(list: Seq<Profile>, t: int) -> int
    decreases list.len(),
{
    if list.len() == 0 {
        -1
    } else if list.last().dep_time >= t {
        list.len() - 1
    } else {
        last_leaving_from(list.drop_last(), t)
    }
}

/// `last_leaving_from` is the one index in `-1..len` at which a profile
/// leaves at `t` or later while every profile behind it leaves before `t`.
pub proof fn lemma_last_leaving_from(list: Seq<Profile>, t: int)
    ensures
        -1 <= last_leaving_from(list, t) < list.len(),
        last_leaving_from(list, t) >= 0 ==> list[last_leaving_from(list, t)].dep_time >= t,
        forall|j: int| last_leaving_from(list, t) < j < list.len() ==> (#[trigger] list[j]).dep_time < t,
    decreases list.len(),
{
    if list.len() > 0 && list.last().dep_time < t {
        let front = list.drop_last();
        lemma_last_leaving_from(front, t);
        assert forall|j: int| last_leaving_from(list, t) < j < list.len() implies (#[trigger] list[j]).dep_time < t by {
            if j < front.len() {
                assert(front[j] == list[j]);
            }
        }
    }
}

/// The profiles of `list` that still arrive before `arr_time`.
pub open spec fn arriving_before(list: Seq<Profile>, arr_time: u32) -> Seq<Profile> {
    list.filter(|e: Profile| e.arr_time < arr_time)
}

/// Whether `candidate` improves on the member of `list` that leaves next at
/// or after it: it is taken when there is no such member, or when it arrives
/// strictly earlier than that member.
pub open spec fn accepts(list: Seq<Profile>, candidate: Profile) -> bool {
    let pivot = last_leaving_from(list, candidate.dep_time as int);
    pivot < 0 || candidate.arr_time < list[pivot].arr_time
}

/// `list` after `candidate` was offered to it. A rejected candidate leaves
/// the list as it was. An accepted one stands right behind the pivot, and of
/// the members behind it only those stay that arrive strictly earlier.
pub open spec fn incorporated(list: Seq<Profile>, candidate: Profile) -> Seq<Profile> {
    if accepts(list, candidate) {
        let at = last_leaving_from(list, candidate.dep_time as int) + 1;
        list.take(at).push(candidate) + arriving_before(list.skip(at), candidate.arr_time)
    } else {
        list
    }
}

/// Whether `p` is at least as good as `q` in departure and in arrival, and
/// better in one of them.
pub open spec fn dominates(p: Profile, q: Profile) -> bool {
    &&& p.arr_time <= q.arr_time
    &&& p.dep_time >= q.dep_time
    &&& (p.arr_time < q.arr_time || p.dep_time > q.dep_time)
}

/// Along `list` no profile leaves later than one before it, and each arrives
/// strictly earlier than the one before it.
pub open spec fn is_frontier(list: Seq<Profile>) -> bool {
    forall|i: int, j: int|
        0 <= i < j < list.len() ==> (#[trigger] list[i]).dep_time >= (#[trigger] list[j]).dep_time
            && list[i].arr_time > list[j].arr_time
}

/// A frontier in which no two profiles leave at the same time.
pub open spec fn is_strict_frontier(list: Seq<Profile>) -> bool {
    forall|i: int, j: int|
        0 <= i < j < list.len() ==> (#[trigger] list[i]).dep_time > (#[trigger] list[j]).dep_time
            && list[i].arr_time > list[j].arr_time
}

/// The members of `list` that leave at `dep_time`.
pub open spec fn leaving_at(list: Seq<Profile>, dep_time: u32) -> Seq<Profile> {
    list.filter(|e: Profile| e.dep_time == dep_time)
}

/// The members of `list` that `candidate` dominates.
pub open spec fn dominated_by(list: Seq<Profile>, candidate: Profile) -> Seq<Profile> {
    list.filter(|e: Profile| dominates(candidate, e))
}

/// Whether `rel` holds from each member of `list` to each member behind it.
spec fn chained(list: Seq<Profile>, rel: spec_fn(Profile, Profile) -> bool) -> bool {
    forall|i: int, j: int| 0 <= i < j < list.len() ==> rel(#[trigger] list[i], #[trigger] list[j])
}

/// How two members of a frontier stand to each other.
spec fn weakly() -> spec_fn(Profile, Profile) -> bool {
    |p: Profile, q: Profile| p.dep_time >= q.dep_time && p.arr_time > q.arr_time
}

/// How two members of a strict frontier stand to each other.
spec fn strictly() -> spec_fn(Profile, Profile) -> bool {
    |p: Profile, q: Profile| p.dep_time > q.dep_time && p.arr_time > q.arr_time
}

/// What `arriving_before` keeps: members of `list` that arrive before
/// `arr_time`, in the order in which `list` holds them.
proof fn lemma_arriving_before(list: Seq<Profile>, arr_time: u32, rel: spec_fn(Profile, Profile) -> bool)
    ensures
        arriving_before(list, arr_time).len() <= list.len(),
        forall|k: int|
            0 <= k < arriving_before(list, arr_time).len() ==> (#[trigger] arriving_before(
                list,
                arr_time,
            )[k]).arr_time < arr_time && list.contains(arriving_before(list, arr_time)[k]),
        chained(list, rel) ==> chained(arriving_before(list, arr_time), rel),
    decreases list.len(),
{
    reveal(Seq::filter);
    let kept = arriving_before(list, arr_time);
    if list.len() > 0 {
        let front = list.drop_last();
        let before = arriving_before(front, arr_time);
        lemma_arriving_before(front, arr_time, rel);
        assert forall|k: int| 0 <= k < kept.len() implies (#[trigger] kept[k]).arr_time < arr_time
            && list.contains(kept[k]) by {
            if k < before.len() {
                assert(kept[k] == before[k]);
                let at = choose|at: int| 0 <= at < front.len() && front[at] == before[k];
                assert(list[at] == kept[k]);
            } else {
                assert(list[list.len() - 1] == kept[k]);
            }
        }
        if chained(list, rel) {
            assert forall|i: int, j: int| 0 <= i < j < front.len() implies rel(
                #[trigger] front[i],
                #[trigger] front[j],
            ) by {
                assert(front[i] == list[i] && front[j] == list[j]);
            }
            assert forall|i: int, j: int| 0 <= i < j < kept.len() implies rel(
                #[trigger] kept[i],
                #[trigger] kept[j],
            ) by {
                assert(kept[i] == before[i]);
                if j < before.len() {
                    assert(kept[j] == before[j]);
                } else {
                    let at = choose|at: int| 0 <= at < front.len() && front[at] == before[i];
                    assert(list[at] == kept[i]);
                    assert(list[list.len() - 1] == kept[j]);
                }
            }
        }
    }
}

/// An accepted candidate stands in the new list, and every member of the new
/// list is the candidate or a member of the old one.
pub proof fn lemma_incorporated_members(list: Seq<Profile>, candidate: Profile)
    ensures
        accepts(list, candidate) ==> incorporated(list, candidate).contains(candidate),
        forall|k: int|
            0 <= k < incorporated(list, candidate).len() ==> (#[trigger] incorporated(
                list,
                candidate,
            )[k]) == candidate || list.contains(incorporated(list, candidate)[k]),
{
    let new = incorporated(list, candidate);
    lemma_last_leaving_from(list, candidate.dep_time as int);
    if accepts(list, candidate) {
        let at = last_leaving_from(list, candidate.dep_time as int) + 1;
        let tail = list.skip(at);
        lemma_arriving_before(tail, candidate.arr_time, weakly());
        assert(new[at] == candidate);
        assert forall|k: int| 0 <= k < new.len() implies (#[trigger] new[k]) == candidate
            || list.contains(new[k]) by {
            if k < at {
                assert(new[k] == list[k]);
            } else if k > at {
                let kept = arriving_before(tail, candidate.arr_time);
                assert(new[k] == kept[k - at - 1]);
                let from = choose|from: int| 0 <= from < tail.len() && tail[from] == kept[k - at - 1];
                assert(list[at + from] == new[k]);
            }
        }
    }
}

/// How `rel` is carried from `list` to the list with `candidate` in it.
proof fn lemma_incorporated_chained(
    list: Seq<Profile>,
    candidate: Profile,
    rel: spec_fn(Profile, Profile) -> bool,
)
    requires
        chained(list, rel),
        accepts(list, candidate),
        forall|k: int|
            0 <= k <= last_leaving_from(list, candidate.dep_time as int) ==> rel(
                #[trigger] list[k],
                candidate,
            ),
        forall|e: Profile|
            e.dep_time < candidate.dep_time && e.arr_time < candidate.arr_time ==> #[trigger] rel(
                candidate,
                e,
            ),
    ensures
        chained(incorporated(list, candidate), rel),
{
    let new = incorporated(list, candidate);
    lemma_last_leaving_from(list, candidate.dep_time as int);
    let at = last_leaving_from(list, candidate.dep_time as int) + 1;
    let tail = list.skip(at);
    let kept = arriving_before(tail, candidate.arr_time);
    assert forall|i: int, j: int| 0 <= i < j < tail.len() implies rel(
        #[trigger] tail[i],
        #[trigger] tail[j],
    ) by {
        assert(tail[i] == list[at + i] && tail[j] == list[at + j]);
    }
    lemma_arriving_before(tail, candidate.arr_time, rel);
    assert forall|i: int, j: int| 0 <= i < j < new.len() implies rel(
        #[trigger] new[i],
        #[trigger] new[j],
    ) by {
        if j < at {
            assert(new[i] == list[i] && new[j] == list[j]);
        } else if j == at {
            assert(new[i] == list[i]);
        } else {
            assert(new[j] == kept[j - at - 1]);
            let from = choose|from: int| 0 <= from < tail.len() && tail[from] == kept[j - at - 1];
            assert(list[at + from] == new[j]);
            if i < at {
                assert(new[i] == list[i]);
            } else if i > at {
                assert(new[i] == kept[i - at - 1]);
            }
        }
    }
}

/// Offering a candidate to a frontier leaves a frontier.
pub proof fn lemma_incorporated_frontier(list: Seq<Profile>, candidate: Profile)
    requires
        is_frontier(list),
    ensures
        is_frontier(incorporated(list, candidate)),
{
    if accepts(list, candidate) {
        lemma_last_leaving_from(list, candidate.dep_time as int);
        let pivot = last_leaving_from(list, candidate.dep_time as int);
        assert forall|k: int| 0 <= k <= pivot implies weakly()(#[trigger] list[k], candidate) by {
            if k < pivot {
                assert(list[k].dep_time >= list[pivot].dep_time);
            }
        }
        lemma_incorporated_chained(list, candidate, weakly());
    }
}

/// Offering a candidate to a strict frontier leaves a strict frontier,
/// except where the candidate is taken and leaves together with the pivot:
/// the pivot stays, and the candidate behind it dominates it.
pub proof fn lemma_incorporated_strict_frontier(list: Seq<Profile>, candidate: Profile)
    requires
        is_strict_frontier(list),
    ensures
        is_strict_frontier(incorporated(list, candidate)) <==> !(accepts(list, candidate)
            && leaving_at(list, candidate.dep_time).len() > 0),
{
    lemma_last_leaving_from(list, candidate.dep_time as int);
    let pivot = last_leaving_from(list, candidate.dep_time as int);
    let new = incorporated(list, candidate);
    lemma_leaving_at(list, candidate.dep_time);
    if accepts(list, candidate) {
        if pivot >= 0 && list[pivot].dep_time == candidate.dep_time {
            assert(new[pivot] == list[pivot]);
            assert(new[pivot + 1] == candidate);
        } else {
            assert forall|k: int| 0 <= k <= pivot implies strictly()(
                #[trigger] list[k],
                candidate,
            ) by {
                if k < pivot {
                    assert(list[k].dep_time >= list[pivot].dep_time);
                }
            }
            lemma_incorporated_chained(list, candidate, strictly());
        }
    }
}

/// Where some members leave at `dep_time`, one can be pointed at.
pub proof fn lemma_leaving_at_member(list: Seq<Profile>, dep_time: u32)
    requires
        leaving_at(list, dep_time).len() > 0,
    ensures
        exists|k: int| 0 <= k < list.len() && (#[trigger] list[k]).dep_time == dep_time,
{
    broadcast use vstd::seq_lib::group_filter_ensures;

    let same = |e: Profile| e.dep_time == dep_time;
    let e = leaving_at(list, dep_time)[0];
    assert(same(e));
    assert(list.filter(same).contains(e));
    list.lemma_filter_contains_rev(same, e);
    let k = choose|k: int| 0 <= k < list.len() && list[k] == e;
    assert(list[k].dep_time == dep_time);
}

/// In a list ordered by departure, a member leaves at `dep_time` exactly
/// when the pivot for `dep_time` does.
proof fn lemma_leaving_at(list: Seq<Profile>, dep_time: u32)
    requires
        is_frontier(list) || is_strict_frontier(list),
    ensures
        leaving_at(list, dep_time).len() > 0 <==> last_leaving_from(list, dep_time as int) >= 0
            && list[last_leaving_from(list, dep_time as int)].dep_time == dep_time,
{
    broadcast use vstd::seq_lib::group_filter_ensures;

    let same = |e: Profile| e.dep_time == dep_time;
    let pivot = last_leaving_from(list, dep_time as int);
    lemma_last_leaving_from(list, dep_time as int);
    if leaving_at(list, dep_time).len() > 0 {
        let e = leaving_at(list, dep_time)[0];
        assert(same(e));
        assert(list.filter(same).contains(e));
        list.lemma_filter_contains_rev(same, e);
        let k = choose|k: int| 0 <= k < list.len() && list[k] == e;
        if k < pivot {
            assert(list[k].dep_time >= list[pivot].dep_time);
        }
    }
    if pivot >= 0 && list[pivot].dep_time == dep_time {
        assert(same(list[pivot]));
        assert(list.filter(same).contains(list[pivot]));
    }
}

/// No two profiles of a frontier leave and arrive at the same times.
pub proof fn lemma_frontier_distinct(list: Seq<Profile>, i: int, j: int)
    requires
        is_frontier(list),
        0 <= i < list.len(),
        0 <= j < list.len(),
        i != j,
    ensures
        list[i].arr_time != list[j].arr_time,
{
    if i < j {
        assert(list[i].arr_time > list[j].arr_time);
    } else {
        assert(list[j].arr_time > list[i].arr_time);
    }
}

/// In a strict frontier no profile dominates another.
pub proof fn lemma_strict_frontier_undominated(list: Seq<Profile>, i: int, j: int)
    requires
        is_strict_frontier(list),
        0 <= i < list.len(),
        0 <= j < list.len(),
    ensures
        !dominates(list[i], list[j]),
{
    if i < j {
        assert(list[i].arr_time > list[j].arr_time);
    } else if j < i {
        assert(list[j].dep_time > list[i].dep_time);
    }
}

/// In a frontier a profile is dominated only by one that stands behind it
/// and leaves at the same time.
pub proof fn lemma_frontier_dominated(list: Seq<Profile>, i: int, j: int)
    requires
        is_frontier(list),
        0 <= i < list.len(),
        0 <= j < list.len(),
        dominates(list[i], list[j]),
    ensures
        j < i,
        list[i].dep_time == list[j].dep_time,
{
    if i < j {
        assert(list[i].arr_time > list[j].arr_time);
    } else if j < i {
        assert(list[j].dep_time >= list[i].dep_time);
    }
}

/// Whether `list` has a member that leaves and arrives as `p` does.
pub open spec fn holds(list: Seq<Profile>, p: Profile) -> bool {
    exists|k: int|
        0 <= k < list.len() && (#[trigger] list[k]).dep_time == p.dep_time && list[k].arr_time
            == p.arr_time
}

/// A profile that a frontier already holds, by departure and arrival, is
/// rejected, and the frontier stays as it is.
pub proof fn lemma_incorporate_present(list: Seq<Profile>, candidate: Profile)
    requires
        is_frontier(list),
        holds(list, candidate),
    ensures
        !accepts(list, candidate),
        incorporated(list, candidate) == list,
{
    let k = choose|k: int|
        0 <= k < list.len() && (#[trigger] list[k]).dep_time == candidate.dep_time
            && list[k].arr_time == candidate.arr_time;
    lemma_last_leaving_from(list, candidate.dep_time as int);
    let pivot = last_leaving_from(list, candidate.dep_time as int);
    if k < pivot {
        assert(list[k].arr_time > list[pivot].arr_time);
    }
}

/// A candidate that was offered to a frontier is rejected when it is offered
/// again.
pub proof fn lemma_incorporate_twice(list: Seq<Profile>, candidate: Profile)
    requires
        is_frontier(list),
    ensures
        incorporated(incorporated(list, candidate), candidate) == incorporated(list, candidate),
{
    let once = incorporated(list, candidate);
    lemma_incorporated_frontier(list, candidate);
    if accepts(list, candidate) {
        lemma_incorporated_members(list, candidate);
        let k = choose|k: int| 0 <= k < once.len() && once[k] == candidate;
        assert(once[k].dep_time == candidate.dep_time);
        lemma_incorporate_present(once, candidate);
    } else if accepts(once, candidate) {
        assert(once == list);
    }
}

/// Filters that agree on every member of `list` keep the same members.
proof fn lemma_filter_agree(
    list: Seq<Profile>,
    p: spec_fn(Profile) -> bool,
    q: spec_fn(Profile) -> bool,
)
    requires
        forall|k: int| 0 <= k < list.len() ==> p(#[trigger] list[k]) == q(list[k]),
    ensures
        list.filter(p) == list.filter(q),
    decreases list.len(),
{
    reveal(Seq::filter);
    if list.len() > 0 {
        let front = list.drop_last();
        assert forall|k: int| 0 <= k < front.len() implies p(#[trigger] front[k]) == q(front[k]) by {
            assert(front[k] == list[k]);
        }
        lemma_filter_agree(front, p, q);
        assert(p(list[list.len() - 1]) == q(list[list.len() - 1]));
    }
}

/// Filters that disagree on every member of `list` share its members out.
proof fn lemma_filter_split(
    list: Seq<Profile>,
    p: spec_fn(Profile) -> bool,
    q: spec_fn(Profile) -> bool,
)
    requires
        forall|k: int| 0 <= k < list.len() ==> p(#[trigger] list[k]) != q(list[k]),
    ensures
        list.filter(p).len() + list.filter(q).len() == list.len(),
    decreases list.len(),
{
    reveal(Seq::filter);
    if list.len() > 0 {
        let front = list.drop_last();
        assert forall|k: int| 0 <= k < front.len() implies p(#[trigger] front[k]) != q(front[k]) by {
            assert(front[k] == list[k]);
        }
        lemma_filter_split(front, p, q);
        assert(p(list[list.len() - 1]) != q(list[list.len() - 1]));
    }
}

/// Length of a frontier after it took a candidate: the candidate comes in,
/// and what it dominates goes out, but for the members that leave together
/// with it, which stay.
pub proof fn lemma_incorporated_len(list: Seq<Profile>, candidate: Profile)
    requires
        is_frontier(list),
        accepts(list, candidate),
    ensures
        incorporated(list, candidate).len() + dominated_by(list, candidate).len() == list.len() + 1
            + leaving_at(list, candidate.dep_time).len(),
{
    broadcast use Seq::filter_distributes_over_add;

    let kept = |e: Profile| e.arr_time < candidate.arr_time;
    let beaten = |e: Profile| dominates(candidate, e);
    let tied = |e: Profile| e.dep_time == candidate.dep_time;
    lemma_last_leaving_from(list, candidate.dep_time as int);
    let pivot = last_leaving_from(list, candidate.dep_time as int);
    let head = list.take(pivot + 1);
    let tail = list.skip(pivot + 1);
    assert(list == head + tail);
    assert(list.filter(beaten) == head.filter(beaten) + tail.filter(beaten));
    assert(list.filter(tied) == head.filter(tied) + tail.filter(tied));

    assert forall|k: int| 0 <= k < head.len() implies beaten(#[trigger] head[k]) == tied(head[k]) by {
        assert(head[k] == list[k]);
        if k < pivot {
            assert(list[k].arr_time > list[pivot].arr_time);
        }
    }
    lemma_filter_agree(head, beaten, tied);

    assert forall|k: int| 0 <= k < tail.len() implies beaten(#[trigger] tail[k]) != kept(tail[k]) by {
        assert(tail[k] == list[pivot + 1 + k]);
    }
    lemma_filter_split(tail, beaten, kept);

    let never = |e: Profile| false;
    assert forall|k: int| 0 <= k < tail.len() implies tied(#[trigger] tail[k]) == never(tail[k]) by {
        assert(tail[k] == list[pivot + 1 + k]);
    }
    lemma_filter_agree(tail, tied, never);
    lemma_filter_never(tail);
}

/// A filter that takes nothing leaves nothing.
proof fn lemma_filter_never(list: Seq<Profile>)
    ensures
        list.filter(|e: Profile| false).len() == 0,
    decreases list.len(),
{
    reveal(Seq::filter);
    if list.len() > 0 {
        lemma_filter_never(list.drop_last());
    }
}

/// A candidate that a frontier takes, and with which no member leaves
/// together, shortens the frontier by one less than the number of members
/// that it dominates.
pub proof fn lemma_incorporated_len_new(list: Seq<Profile>, candidate: Profile)
    requires
        is_frontier(list),
        accepts(list, candidate),
        forall|k: int| 0 <= k < list.len() ==> (#[trigger] list[k]).dep_time != candidate.dep_time,
    ensures
        incorporated(list, candidate).len() == list.len() - (dominated_by(list, candidate).len()
            - 1),
{
    lemma_incorporated_len(list, candidate);
    let tied = |e: Profile| e.dep_time == candidate.dep_time;
    let never = |e: Profile| false;
    assert forall|k: int| 0 <= k < list.len() implies tied(#[trigger] list[k]) == never(list[k]) by {}
    lemma_filter_agree(list, tied, never);
    lemma_filter_never(list);
}

/// A candidate that a strict frontier takes, and with which a member leaves
/// together, dominates that member, which stays: the frontier is shortened
/// by two less than the number of members that the candidate dominates.
pub proof fn lemma_incorporated_len_tied(list: Seq<Profile>, candidate: Profile)
    requires
        is_strict_frontier(list),
        accepts(list, candidate),
        exists|k: int| 0 <= k < list.len() && (#[trigger] list[k]).dep_time == candidate.dep_time,
    ensures
        dominated_by(list, candidate).len() >= 1,
        incorporated(list, candidate).len() == list.len() - (dominated_by(list, candidate).len()
            - 2),
{
    broadcast use Seq::filter_distributes_over_add;

    lemma_incorporated_len(list, candidate);
    lemma_last_leaving_from(list, candidate.dep_time as int);
    lemma_arriving_before(
        list.skip(last_leaving_from(list, candidate.dep_time as int) + 1),
        candidate.arr_time,
        strictly(),
    );
    let k = choose|k: int|
        0 <= k < list.len() && (#[trigger] list[k]).dep_time == candidate.dep_time;
    let tied = |e: Profile| e.dep_time == candidate.dep_time;
    let never = |e: Profile| false;
    let head = list.take(k);
    let tail = list.skip(k + 1);
    assert(list == head + seq![list[k]] + tail);
    assert forall|i: int| 0 <= i < head.len() implies tied(#[trigger] head[i]) == never(head[i]) by {
        assert(head[i] == list[i]);
        assert(list[i].dep_time > list[k].dep_time);
    }
    assert forall|i: int| 0 <= i < tail.len() implies tied(#[trigger] tail[i]) == never(tail[i]) by {
        assert(tail[i] == list[k + 1 + i]);
        assert(list[k].dep_time > list[k + 1 + i].dep_time);
    }
    lemma_filter_agree(head, tied, never);
    lemma_filter_agree(tail, tied, never);
    lemma_filter_never(head);
    lemma_filter_never(tail);
    reveal_with_fuel(Seq::filter, 2);
    assert(seq![list[k]].filter(tied).len() == 1) by {
        assert(seq![list[k]].drop_last() == Seq::<Profile>::empty());
        assert(tied(seq![list[k]].last()));
    }
    assert(list.filter(tied) == head.filter(tied) + seq![list[k]].filter(tied) + tail.filter(tied));
}

} // verus!
