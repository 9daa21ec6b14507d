use crate::structures::Connection;
use vstd::prelude::*;

verus! {

/// Values with an order in which any two can be compared: `leads` holds
/// between any two of them in one direction at least, and carries over.
pub trait Ranked: Sized {
    /// Whether `self` may stand before `other` in an ordered list.
    spec fn leads(&self, other: &Self) -> bool;

    /// Of any two values one may stand before the other.
    proof fn lemma_leads_either(a: &Self, b: &Self)
        ensures
            a.leads(b) || b.leads(a),
    ;

    /// What may stand before a second value may stand before all that the
    /// second may stand before.
    proof fn lemma_leads_on(a: &Self, b: &Self, c: &Self)
        requires
            a.leads(b),
            b.leads(c),
        ensures
            a.leads(c),
    ;

    /// Whether `self` may stand before `other` in an ordered list.
    fn goes_before(&self, other: &Self) -> (first: bool)
        ensures
            first == self.leads(other),
    ;
}

/// `sorted` with `x` behind every member that may stand before it.
pub open spec fn placed<T: Ranked>(sorted: Seq<T>, x: T) -> Seq<T>
    decreases sorted.len(),
{
    if sorted.len() == 0 || sorted.last().leads(&x) {
        sorted.push(x)
    } else {
        placed(sorted.drop_last(), x).push(sorted.last())
    }
}

/// The members of `list` in order. Members of which either may stand before
/// the other keep the order that they have in `list`.
pub open spec fn ordered<T: Ranked>(list: Seq<T>) -> Seq<T>
    decreases list.len(),
{
    if list.len() == 0 {
        list
    } else {
        placed(ordered(list.drop_last()), list.last())
    }
}

/// Whether each member of `list` may stand before those behind it.
pub open spec fn is_ordered<T: Ranked>(list: Seq<T>) -> bool {
    forall|i: int, j: int|
        #![trigger list[i], list[j]]
        0 <= i < j < list.len() ==> list[i].leads(&list[j])
}

/// `a` and `b` in one list: of two last members the one that may not stand
/// before the other stands last, and that of `b` if either may.
pub open spec fn merged<T: Ranked>(a: Seq<T>, b: Seq<T>) -> Seq<T>
    decreases a.len() + b.len(),
{
    if b.len() == 0 {
        a
    } else if a.len() == 0 {
        b
    } else if a.last().leads(&b.last()) {
        merged(a, b.drop_last()).push(b.last())
    } else {
        merged(a.drop_last(), b).push(a.last())
    }
}

/// Placing a value keeps the members and adds the value.
pub proof fn lemma_placed<T: Ranked>(sorted: Seq<T>, x: T)
    ensures
        placed(sorted, x).len() == sorted.len() + 1,
        placed(sorted, x).to_multiset() == sorted.to_multiset().insert(x),
        is_ordered(sorted) ==> is_ordered(placed(sorted, x)),
        forall|k: int|
            0 <= k < placed(sorted, x).len() ==> (#[trigger] placed(sorted, x)[k]) == x
                || sorted.contains(placed(sorted, x)[k]),
    decreases sorted.len(),
{
    broadcast use vstd::seq_lib::group_to_multiset_ensures;

    let out = placed(sorted, x);
    if sorted.len() == 0 || sorted.last().leads(&x) {
        assert forall|k: int| 0 <= k < out.len() implies (#[trigger] out[k]) == x
            || sorted.contains(out[k]) by {
            if k < sorted.len() {
                assert(sorted[k] == out[k]);
            }
        }
        if is_ordered(sorted) {
            assert forall|i: int, j: int|
                #![trigger out[i], out[j]]
                0 <= i < j < out.len() implies out[i].leads(&out[j]) by {
                if j == sorted.len() {
                    if i < j - 1 {
                        assert(sorted[i].leads(&sorted[sorted.len() - 1]));
                        T::lemma_leads_on(&sorted[i], &sorted[sorted.len() - 1], &x);
                    }
                } else {
                    assert(out[i] == sorted[i] && out[j] == sorted[j]);
                }
            }
        }
    } else {
        let front = sorted.drop_last();
        let last = sorted.last();
        lemma_placed(front, x);
        let inner = placed(front, x);
        assert(sorted == front.push(last));
        assert forall|k: int| 0 <= k < out.len() implies (#[trigger] out[k]) == x
            || sorted.contains(out[k]) by {
            if k < inner.len() {
                assert(out[k] == inner[k]);
                if inner[k] != x {
                    let at = choose|at: int| 0 <= at < front.len() && front[at] == inner[k];
                    assert(sorted[at] == out[k]);
                }
            } else {
                assert(sorted[sorted.len() - 1] == out[k]);
            }
        }
        if is_ordered(sorted) {
            assert forall|i: int, j: int|
                #![trigger front[i], front[j]]
                0 <= i < j < front.len() implies front[i].leads(&front[j]) by {
                assert(front[i] == sorted[i] && front[j] == sorted[j]);
            }
            T::lemma_leads_either(&last, &x);
            assert forall|i: int, j: int|
                #![trigger out[i], out[j]]
                0 <= i < j < out.len() implies out[i].leads(&out[j]) by {
                if j < inner.len() {
                    assert(out[i] == inner[i] && out[j] == inner[j]);
                } else {
                    assert(out[i] == inner[i]);
                    if inner[i] != x {
                        let at = choose|at: int| 0 <= at < front.len() && front[at] == inner[i];
                        assert(sorted[at].leads(&sorted[sorted.len() - 1]));
                    }
                }
            }
        }
    }
}

/// `ordered` orders its argument and keeps its members.
pub proof fn lemma_ordered<T: Ranked>(list: Seq<T>)
    ensures
        ordered(list).len() == list.len(),
        ordered(list).to_multiset() == list.to_multiset(),
        is_ordered(ordered(list)),
        forall|k: int| 0 <= k < list.len() ==> list.contains(#[trigger] ordered(list)[k]),
    decreases list.len(),
{
    broadcast use vstd::seq_lib::group_to_multiset_ensures;

    if list.len() > 0 {
        let front = list.drop_last();
        lemma_ordered(front);
        lemma_placed(ordered(front), list.last());
        assert(list == front.push(list.last()));
        let out = ordered(list);
        assert forall|k: int| 0 <= k < list.len() implies list.contains(#[trigger] out[k]) by {
            if out[k] == list.last() {
                assert(list[list.len() - 1] == out[k]);
            } else {
                let inner = ordered(front);
                let at = choose|at: int| 0 <= at < inner.len() && inner[at] == out[k];
                assert(front.contains(inner[at]));
                let from = choose|from: int| 0 <= from < front.len() && front[from] == inner[at];
                assert(list[from] == out[k]);
            }
        }
    }
}

/// Placing a value in the second of two lists before they are merged gives
/// what placing it after the merge gives.
proof fn lemma_merged_placed<T: Ranked>(a: Seq<T>, b: Seq<T>, x: T)
    ensures
        merged(a, placed(b, x)) == placed(merged(a, b), x),
    decreases a.len() + b.len(),
{
    let empty = Seq::<T>::empty();
    if b.len() == 0 {
        let one = placed(b, x);
        assert(one == seq![x]);
        assert(one.drop_last() == empty);
        assert(merged(a, b) == a);
        if a.len() == 0 {
            assert(merged(a, one) == one);
        } else if a.last().leads(&x) {
            assert(merged(a, one.drop_last()) == a);
            assert(merged(a, one) == merged(a, one.drop_last()).push(one.last()));
        } else {
            lemma_merged_placed(a.drop_last(), b, x);
            assert(merged(a.drop_last(), b) == a.drop_last());
            assert(merged(a, one) == merged(a.drop_last(), one).push(a.last()));
        }
    } else if a.len() == 0 {
        lemma_placed(b, x);
        assert(merged(a, b) == b);
        assert(merged(a, placed(b, x)) == placed(b, x));
    } else {
        lemma_placed(b, x);
        let after = placed(b, x);
        if a.last().leads(&b.last()) {
            let joined = merged(a, b.drop_last()).push(b.last());
            assert(merged(a, b) == joined);
            assert(joined.drop_last() == merged(a, b.drop_last()));
            if b.last().leads(&x) {
                T::lemma_leads_on(&a.last(), &b.last(), &x);
                assert(after == b.push(x));
                assert(after.drop_last() == b);
                assert(merged(a, after) == merged(a, after.drop_last()).push(after.last()));
                assert(placed(joined, x) == joined.push(x));
            } else {
                lemma_merged_placed(a, b.drop_last(), x);
                assert(after == placed(b.drop_last(), x).push(b.last()));
                assert(after.drop_last() == placed(b.drop_last(), x));
                assert(merged(a, after) == merged(a, after.drop_last()).push(after.last()));
                assert(placed(joined, x) == placed(joined.drop_last(), x).push(joined.last()));
            }
        } else {
            let joined = merged(a.drop_last(), b).push(a.last());
            assert(merged(a, b) == joined);
            assert(joined.drop_last() == merged(a.drop_last(), b));
            T::lemma_leads_either(&a.last(), &b.last());
            if a.last().leads(&x) {
                T::lemma_leads_on(&b.last(), &a.last(), &x);
                assert(after == b.push(x));
                assert(after.drop_last() == b);
                assert(merged(a, after) == merged(a, after.drop_last()).push(after.last()));
                assert(placed(joined, x) == joined.push(x));
            } else {
                lemma_merged_placed(a.drop_last(), b, x);
                assert(!a.last().leads(&after.last())) by {
                    if b.last().leads(&x) {
                        assert(after == b.push(x));
                    } else {
                        assert(after == placed(b.drop_last(), x).push(b.last()));
                    }
                }
                assert(merged(a, after) == merged(a.drop_last(), after).push(a.last()));
                assert(placed(joined, x) == placed(joined.drop_last(), x).push(joined.last()));
            }
        }
    }
}

/// Ordering two lists and merging them orders the two in a row.
pub proof fn lemma_merged_ordered<T: Ranked>(x: Seq<T>, y: Seq<T>)
    ensures
        merged(ordered(x), ordered(y)) == ordered(x + y),
    decreases y.len(),
{
    if y.len() == 0 {
        assert(x + y == x);
    } else {
        let front = y.drop_last();
        lemma_merged_ordered(x, front);
        lemma_merged_placed(ordered(x), ordered(front), y.last());
        assert((x + y).drop_last() == x + front);
    }
}

/// Merges two lists as `merged` says.
fn merge<T: Ranked>(a: Vec<T>, b: Vec<T>) -> (out: Vec<T>)
    ensures
        out@ == merged(a@, b@),
{
    let ghost all = merged(a@, b@);
    let mut a = a;
    let mut b = b;
    let mut back: Vec<T> = Vec::new();
    assert(merged(a@, b@) + back@.reverse() == all);
    // `back` takes the members from the last to the first.
    while a.len() > 0 || b.len() > 0
        invariant
            all == merged(a@, b@) + back@.reverse(),
        decreases a.len() + b.len(),
    {
        let ghost left = a@;
        let ghost right = b@;
        let ghost done = back@.reverse();
        let from_right = b.len() > 0 && (a.len() == 0 || a[a.len() - 1].goes_before(
            &b[b.len() - 1],
        ));
        if from_right {
            let x = b.pop().unwrap();
            assert(b@ == right.drop_last());
            back.push(x);
            assert(back@.reverse() == seq![x] + done);
            assert(merged(left, right) == merged(left, right.drop_last()).push(right.last()));
        } else {
            let x = a.pop().unwrap();
            assert(a@ == left.drop_last());
            back.push(x);
            assert(back@.reverse() == seq![x] + done);
            assert(merged(left, right) == merged(left.drop_last(), right).push(left.last()));
        }
    }
    assert(merged(a@, b@) + back@.reverse() == back@.reverse());
    let mut out: Vec<T> = Vec::new();
    assert(out@ + back@.reverse() == all);
    while back.len() > 0
        invariant
            out@ + back@.reverse() == all,
        decreases back.len(),
    {
        let ghost rest = back@;
        let ghost so_far = out@;
        let x = back.pop().unwrap();
        assert(rest.reverse() == seq![x] + back@.reverse());
        out.push(x);
        assert(out@ + back@.reverse() == so_far + (seq![x] + back@.reverse()));
    }
    assert(out@ + back@.reverse() == out@);
    out
}

/// The members of `list` in order; members of which either may stand before
/// the other stay in the order in which `list` holds them.
pub fn sort<T: Ranked>(list: Vec<T>) -> (out: Vec<T>)
    ensures
        out@ == ordered(list@),
        out@.len() == list@.len(),
        out@.to_multiset() == list@.to_multiset(),
        is_ordered(out@),
    decreases list@.len(),
{
    proof {
        lemma_ordered(list@);
    }
    if list.len() <= 1 {
        assert(list@ == ordered(list@)) by {
            reveal_with_fuel(ordered, 2);
            if list@.len() == 1 {
                assert(list@.drop_last() == Seq::<T>::empty());
                assert(list@ == Seq::<T>::empty().push(list@.last()));
            }
        }
        list
    } else {
        let ghost whole = list@;
        let mut left = list;
        let mid = left.len() / 2;
        let right = left.split_off(mid);
        proof {
            lemma_merged_ordered(left@, right@);
            assert(left@ + right@ == whole);
        }
        merge(sort(left), sort(right))
    }
}

impl Ranked for Connection {
    /// A connection may stand before every connection that leaves no later.
    open spec fn leads(&self, other: &Self) -> bool {
        self.dep_time >= other.dep_time
    }

    proof fn lemma_leads_either(a: &Self, b: &Self) {
    }

    proof fn lemma_leads_on(a: &Self, b: &Self, c: &Self) {
    }

    fn goes_before(&self, other: &Self) -> (first: bool) {
        self.dep_time >= other.dep_time
    }
}

/// The connections of `list` by departure, latest first. Connections that
/// leave together keep the order that they have in `list`.
pub open spec fn by_departure(list: Seq<Connection>) -> Seq<Connection> {
    ordered(list)
}

/// Whether `list` stands by departure, latest first.
pub open spec fn is_by_departure(list: Seq<Connection>) -> bool {
    forall|i: int, j: int|
        0 <= i <= j < list.len() ==> (#[trigger] list[i]).dep_time >= (#[trigger] list[j]).dep_time
}

/// `by_departure` orders its argument and keeps its members.
pub proof fn lemma_by_departure(list: Seq<Connection>)
    ensures
        by_departure(list).len() == list.len(),
        by_departure(list).to_multiset() == list.to_multiset(),
        is_by_departure(by_departure(list)),
        forall|k: int| 0 <= k < list.len() ==> list.contains(#[trigger] by_departure(list)[k]),
{
    lemma_ordered(list);
}

/// The connections of `list` by departure, latest first; connections that
/// leave together stay in the order in which `list` holds them.
pub fn sort_by_departure(list: Vec<Connection>) -> (out: Vec<Connection>)
    ensures
        out@ == by_departure(list@),
        out@.len() == list@.len(),
        out@.to_multiset() == list@.to_multiset(),
        is_by_departure(out@),
{
    proof {
        lemma_by_departure(list@);
    }
    sort(list)
}

} // verus!
