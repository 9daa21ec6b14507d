use crate::gtfs_structures::{Calendar, Route, Stop, StopTime, Trip};
use crate::sort::Ranked;
use vstd::prelude::*;
use vstd::utf8::encode_utf8;

verus! {

/// Whether `a` stands before `b` where texts are listed byte by byte: at
/// the first byte in which they differ `a` has the lower one, or `a` ends
/// there and `b` does not.
pub open spec fn text_before(a: Seq<u8>, b: Seq<u8>) -> bool
    decreases a.len(),
{
    if b.len() == 0 {
        false
    } else if a.len() == 0 {
        true
    } else if a[0] != b[0] {
        a[0] < b[0]
    } else {
        text_before(a.drop_first(), b.drop_first())
    }
}

/// No text stands before itself.
pub proof fn lemma_text_before_itself(a: Seq<u8>)
    ensures
        !text_before(a, a),
    decreases a.len(),
{
    if a.len() > 0 {
        lemma_text_before_itself(a.drop_first());
    }
}

/// Of two different texts one stands before the other.
pub proof fn lemma_text_before_either(a: Seq<u8>, b: Seq<u8>)
    ensures
        text_before(a, b) || text_before(b, a) || a == b,
    decreases a.len(),
{
    if a.len() > 0 && b.len() > 0 && a[0] == b[0] {
        lemma_text_before_either(a.drop_first(), b.drop_first());
        if a.drop_first() == b.drop_first() {
            assert(a == seq![a[0]] + a.drop_first());
            assert(b == seq![b[0]] + b.drop_first());
        }
    } else if a.len() == 0 && b.len() == 0 {
        assert(a == b);
    }
}

/// A text that stands before a second stands before all that the second
/// stands before.
pub proof fn lemma_text_before_on(a: Seq<u8>, b: Seq<u8>, c: Seq<u8>)
    requires
        text_before(a, b),
        text_before(b, c),
    ensures
        text_before(a, c),
    decreases a.len(),
{
    if a.len() > 0 && a[0] == b[0] && b[0] == c[0] {
        lemma_text_before_on(a.drop_first(), b.drop_first(), c.drop_first());
    }
}

/// Whether `a` stands before `b` where texts are listed byte by byte.
pub fn text_precedes(a: &[u8], b: &[u8]) -> (before: bool)
    ensures
        before == text_before(a@, b@),
{
    let mut i: usize = 0;
    assert(a@.skip(0) == a@ && b@.skip(0) == b@);
    while i < a.len() && i < b.len() && a[i] == b[i]
        invariant
            i <= a.len(),
            i <= b.len(),
            text_before(a@, b@) == text_before(a@.skip(i as int), b@.skip(i as int)),
        decreases a.len() - i,
    {
        assert(a@.skip(i as int).drop_first() == a@.skip(i + 1));
        assert(b@.skip(i as int).drop_first() == b@.skip(i + 1));
        i += 1;
    }
    if i >= b.len() {
        false
    } else if i >= a.len() {
        true
    } else {
        a[i] < b[i]
    }
}

impl StopTime {
    /// The bytes of the identifier of the trip.
    pub open spec fn trip_bytes(&self) -> Seq<u8> {
        encode_utf8(self.trip_id@)
    }
}

impl Ranked for StopTime {
    /// Stop times stand trip by trip, the trips by their identifiers, and
    /// within a trip in the sequence of its stops.
    open spec fn leads(&self, other: &Self) -> bool {
        text_before(self.trip_bytes(), other.trip_bytes()) || (!text_before(
            other.trip_bytes(),
            self.trip_bytes(),
        ) && self.stop_sequence <= other.stop_sequence)
    }

    proof fn lemma_leads_either(a: &Self, b: &Self) {
    }

    proof fn lemma_leads_on(a: &Self, b: &Self, c: &Self) {
        let (x, y, z) = (a.trip_bytes(), b.trip_bytes(), c.trip_bytes());
        lemma_text_before_either(x, y);
        lemma_text_before_either(y, z);
        lemma_text_before_itself(x);
        if text_before(x, y) && text_before(y, z) {
            lemma_text_before_on(x, y, z);
        }
    }

    fn goes_before(&self, other: &Self) -> (first: bool) {
        let mine = self.trip_id.as_str().as_bytes();
        let theirs = other.trip_id.as_str().as_bytes();
        if text_precedes(mine, theirs) {
            true
        } else if text_precedes(theirs, mine) {
            false
        } else {
            self.stop_sequence <= other.stop_sequence
        }
    }
}

/// Position of `id` in `ids`: the index of its first occurrence, or the
/// length of `ids` where it does not occur.
pub open spec fn index_of(ids: Seq<Seq<char>>, id: Seq<char>) -> int
    decreases ids.len(),
{
    if ids.len() == 0 || ids[0] == id {
        0
    } else {
        1 + index_of(ids.drop_first(), id)
    }
}

/// `index_of` is the first index at which `id` stands.
pub proof fn lemma_index_of(ids: Seq<Seq<char>>, id: Seq<char>)
    ensures
        0 <= index_of(ids, id) <= ids.len(),
        index_of(ids, id) < ids.len() ==> ids[index_of(ids, id)] == id,
        forall|k: int| 0 <= k < index_of(ids, id) ==> #[trigger] ids[k] != id,
    decreases ids.len(),
{
    if ids.len() > 0 && ids[0] != id {
        let rest = ids.drop_first();
        lemma_index_of(rest, id);
        assert forall|k: int| 0 <= k < index_of(ids, id) implies #[trigger] ids[k] != id by {
            if k > 0 {
                assert(rest[k - 1] == ids[k]);
            }
        }
    }
}

/// Records that are told apart by an identifier.
pub trait Keyed: Sized {
    /// The identifier.
    spec fn key(&self) -> Seq<char>;

    /// The identifier.
    fn id(&self) -> (id: &String)
        ensures
            id@ == self.key(),
    ;
}

impl Keyed for String {
    open spec fn key(&self) -> Seq<char> {
        self@
    }

    fn id(&self) -> (id: &String) {
        self
    }
}

impl Keyed for Stop {
    open spec fn key(&self) -> Seq<char> {
        self.id@
    }

    fn id(&self) -> (id: &String) {
        &self.id
    }
}

impl Keyed for Calendar {
    open spec fn key(&self) -> Seq<char> {
        self.id@
    }

    fn id(&self) -> (id: &String) {
        &self.id
    }
}

impl Keyed for Route {
    open spec fn key(&self) -> Seq<char> {
        self.id@
    }

    fn id(&self) -> (id: &String) {
        &self.id
    }
}

impl Keyed for Trip {
    open spec fn key(&self) -> Seq<char> {
        self.id@
    }

    fn id(&self) -> (id: &String) {
        &self.id
    }
}

/// The identifiers of `records`, in their order.
pub open spec fn keys<T: Keyed>(records: Seq<T>) -> Seq<Seq<char>> {
    records.map_values(|record: T| record.key())
}

/// `records` with each identifier once: a record stands where its
/// identifier was first met, and is the last that had it.
pub open spec fn latest<T: Keyed>(records: Seq<T>) -> Seq<T>
    decreases records.len(),
{
    if records.len() == 0 {
        records
    } else {
        let before = latest(records.drop_last());
        let at = index_of(keys(before), records.last().key());
        if at < before.len() {
            before.update(at, records.last())
        } else {
            before.push(records.last())
        }
    }
}

/// `latest` has no identifier twice.
pub proof fn lemma_latest<T: Keyed>(records: Seq<T>)
    ensures
        keys(latest(records)).no_duplicates(),
        latest(records).len() <= records.len(),
    decreases records.len(),
{
    if records.len() > 0 {
        let before = latest(records.drop_last());
        lemma_latest(records.drop_last());
        let key = records.last().key();
        lemma_index_of(keys(before), key);
        let at = index_of(keys(before), key);
        let after = latest(records);
        assert forall|i: int, j: int|
            0 <= i < after.len() && 0 <= j < after.len() && i != j implies keys(after)[i] != keys(
            after,
        )[j] by {
            if at < before.len() {
                assert(keys(after) == keys(before));
            } else {
                if i < before.len() && j < before.len() {
                    assert(keys(after)[i] == keys(before)[i] && keys(after)[j] == keys(before)[j]);
                } else if i < before.len() {
                    assert(keys(after)[i] == keys(before)[i]);
                } else {
                    assert(keys(after)[j] == keys(before)[j]);
                }
            }
        }
    }
}

/// Index of the first of `records` with the identifier `id`, or their
/// number.
pub fn find<T: Keyed>(records: &Vec<T>, id: &String) -> (at: usize)
    ensures
        at == index_of(keys(records@), id@),
        at <= records@.len(),
{
    let ghost ids = keys(records@);
    let mut at: usize = 0;
    proof {
        lemma_index_of(ids, id@);
        assert(ids.skip(0) == ids);
    }
    while at < records.len() && *records[at].id() != *id
        invariant
            ids == keys(records@),
            at <= records.len(),
            index_of(ids, id@) == at + index_of(ids.skip(at as int), id@),
        decreases records.len() - at,
    {
        assert(ids.skip(at as int).drop_first() == ids.skip(at + 1));
        assert(ids.skip(at as int)[0] == records@[at as int].key());
        at += 1;
    }
    assert(index_of(ids.skip(at as int), id@) == 0) by {
        if at < records.len() {
            assert(ids.skip(at as int)[0] == records@[at as int].key());
        }
    }
    at
}

/// `records` with each identifier once, as `latest` says.
pub fn keep_latest<T: Keyed>(records: Vec<T>) -> (kept: Vec<T>)
    ensures
        kept@ == latest(records@),
        keys(kept@).no_duplicates(),
{
    let ghost all = records@;
    let mut waiting = records;
    let mut turned: Vec<T> = Vec::new();
    while waiting.len() > 0
        invariant
            waiting@ + turned@.reverse() == all,
        decreases waiting.len(),
    {
        let ghost rest = waiting@;
        let ghost done = turned@.reverse();
        let record = waiting.pop().unwrap();
        turned.push(record);
        assert(turned@.reverse() == seq![record] + done);
        assert(rest == waiting@.push(record));
    }
    assert(turned@.reverse() == all);
    let mut kept: Vec<T> = Vec::new();
    let ghost mut seen: int = 0;
    assert(all.take(0) == Seq::<T>::empty());
    while turned.len() > 0
        invariant
            0 <= seen <= all.len(),
            turned@.reverse() == all.skip(seen),
            kept@ == latest(all.take(seen)),
        decreases turned.len(),
    {
        let ghost rest = turned@;
        let record = turned.pop().unwrap();
        assert(rest.reverse() == seq![record] + turned@.reverse());
        assert(all[seen] == all.skip(seen)[0]);
        assert(all.take(seen + 1).drop_last() == all.take(seen));
        assert(all.skip(seen + 1) == all.skip(seen).drop_first());
        let at = find(&kept, record.id());
        if at < kept.len() {
            kept[at] = record;
        } else {
            kept.push(record);
        }
        proof {
            seen = seen + 1;
        }
    }
    proof {
        assert(all.take(seen) == all);
        lemma_latest(all);
    }
    kept
}

} // verus!
