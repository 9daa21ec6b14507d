use vstd::prelude::*;
use vstd::string::StringSliceAdditionalSpecFns;

verus! {

/// The byte `:`, which parts the fields of a time.
pub const COLON: u8 = 0x3a;

/// Whether `b` is one of the bytes `0` to `9`.
pub open spec fn is_digit(b: u8) -> bool {
    0x30 <= b <= 0x39
}

/// The number that the decimal digits of `text` write, `None` where `text`
/// is empty or holds another byte.
pub open spec fn numeral(text: Seq<u8>) -> Option<nat>
    decreases text.len(),
{
    if text.len() == 0 || !is_digit(text.last()) {
        None
    } else if text.len() == 1 {
        Some((text.last() - 0x30) as nat)
    } else {
        match numeral(text.drop_last()) {
            Some(n) => Some(10 * n + (text.last() - 0x30) as nat),
            None => None,
        }
    }
}

/// Length of the first field of `text`: the index of its first colon, or
/// its length if it holds none.
pub open spec fn field_len(text: Seq<u8>) -> int
    decreases text.len(),
{
    if text.len() == 0 || text[0] == COLON {
        0
    } else {
        1 + field_len(text.drop_first())
    }
}

/// The seconds since midnight that `text` writes as hours, minutes and
/// seconds: three decimal numbers, parted by colons. `None` where `text` is
/// not of that form or the seconds do not fit.
pub open spec fn clock_seconds(text: Seq<u8>) -> Option<u32> {
    let hours = field_len(text);
    let rest = text.skip(hours + 1);
    let minutes = field_len(rest);
    if hours < text.len() && minutes < rest.len() {
        match (numeral(text.take(hours)), numeral(rest.take(minutes)), numeral(rest.skip(minutes + 1))) {
            (Some(h), Some(m), Some(s)) => if h * 3600 + m * 60 + s <= u32::MAX {
                Some((h * 3600 + m * 60 + s) as u32)
            } else {
                None
            },
            _ => None,
        }
    } else {
        None
    }
}

/// `field_len` is the first index at which a colon stands.
pub proof fn lemma_field_len(text: Seq<u8>)
    ensures
        0 <= field_len(text) <= text.len(),
        field_len(text) < text.len() ==> text[field_len(text)] == COLON,
        forall|k: int| 0 <= k < field_len(text) ==> #[trigger] text[k] != COLON,
    decreases text.len(),
{
    if text.len() > 0 && text[0] != COLON {
        let rest = text.drop_first();
        lemma_field_len(rest);
        assert forall|k: int| 0 <= k < field_len(text) implies #[trigger] text[k] != COLON by {
            if k > 0 {
                assert(rest[k - 1] == text[k]);
            }
        }
    }
}

/// A numeral is no smaller than the numeral that it starts with.
proof fn lemma_numeral_grows(text: Seq<u8>, k: int)
    requires
        0 < k <= text.len(),
        numeral(text) is Some,
    ensures
        numeral(text.take(k)) is Some,
        numeral(text.take(k))->0 <= numeral(text)->0,
    decreases text.len() - k,
{
    if k == text.len() {
        assert(text.take(k) == text);
    } else {
        let front = text.drop_last();
        assert(front.take(k) == text.take(k));
        lemma_numeral_grows(front, k);
    }
}

/// Index of the first colon of `bytes` at `from` or behind it, or the length
/// of `bytes`.
fn find_colon(bytes: &[u8], from: usize) -> (at: usize)
    requires
        from <= bytes@.len(),
    ensures
        at == from + field_len(bytes@.skip(from as int)),
        from <= at <= bytes@.len(),
{
    let mut at = from;
    proof {
        lemma_field_len(bytes@.skip(from as int));
    }
    while at < bytes.len() && bytes[at] != COLON
        invariant
            from <= at <= bytes@.len(),
            from + field_len(bytes@.skip(from as int)) == at + field_len(bytes@.skip(at as int)),
        decreases bytes@.len() - at,
    {
        assert(bytes@.skip(at as int).drop_first() == bytes@.skip(at + 1));
        at += 1;
    }
    assert(field_len(bytes@.skip(at as int)) == 0) by {
        if at < bytes@.len() {
            assert(bytes@.skip(at as int)[0] == bytes@[at as int]);
        }
    }
    at
}

/// The number that `bytes[from..to]` writes, if it fits.
fn parse_numeral(bytes: &[u8], from: usize, to: usize) -> (value: Option<u32>)
    requires
        from <= to <= bytes@.len(),
    ensures
        value == match numeral(bytes@.subrange(from as int, to as int)) {
            Some(n) => if n <= u32::MAX {
                Some(n as u32)
            } else {
                None
            },
            None => None,
        },
{
    let ghost text = bytes@.subrange(from as int, to as int);
    if from == to {
        return None;
    }
    let mut value: u64 = 0;
    let mut at = from;
    while at < to
        invariant
            from <= at <= to <= bytes@.len(),
            text == bytes@.subrange(from as int, to as int),
            value <= u32::MAX,
            at == from ==> value == 0,
            at > from ==> numeral(text.take(at - from)) == Some(value as nat),
        decreases to - at,
    {
        let b = bytes[at];
        assert(text[at - from] == b);
        assert(text.take(at - from + 1).drop_last() == text.take(at - from));
        if b < 0x30 || b > 0x39 {
            proof {
                if numeral(text) is Some {
                    lemma_numeral_grows(text, at - from + 1);
                }
            }
            return None;
        }
        value = 10 * value + (b - 0x30) as u64;
        if value > u32::MAX as u64 {
            proof {
                if numeral(text) is Some {
                    lemma_numeral_grows(text, at - from + 1);
                }
            }
            return None;
        }
        at += 1;
    }
    assert(text.take(to - from) == text);
    Some(value as u32)
}

/// Reads a time of day, written as hours, minutes and seconds parted by
/// colons, in seconds since midnight. Hours may pass 24.
pub fn parse_clock(bytes: &[u8]) -> (seconds: Option<u32>)
    ensures
        seconds == clock_seconds(bytes@),
{
    let first = find_colon(bytes, 0);
    assert(bytes@.skip(0) == bytes@);
    if first >= bytes.len() {
        return None;
    }
    let second = find_colon(bytes, first + 1);
    if second >= bytes.len() {
        return None;
    }
    let ghost rest = bytes@.skip(first + 1);
    assert(bytes@.take(first as int) == bytes@.subrange(0, first as int));
    assert(rest.take(second - first - 1) == bytes@.subrange(first + 1, second as int));
    assert(rest.skip(second - first) == bytes@.subrange(second + 1, bytes@.len() as int));
    let hours = parse_numeral(bytes, 0, first);
    let minutes = parse_numeral(bytes, first + 1, second);
    let secs = parse_numeral(bytes, second + 1, bytes.len());
    match (hours, minutes, secs) {
        (Some(h), Some(m), Some(s)) => {
            let total: u64 = h as u64 * 3600 + m as u64 * 60 + s as u64;
            if total <= u32::MAX as u64 {
                Some(total as u32)
            } else {
                None
            }
        },
        _ => None,
    }
}

/// Reads a time of day as `parse_clock` does.
pub fn parse_time(text: &str) -> (seconds: Option<u32>)
    ensures
        seconds == clock_seconds(text.spec_bytes()),
{
    parse_clock(text.as_bytes())
}

} // verus!
