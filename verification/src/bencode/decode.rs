//! Reading a value from bytes.

use super::decimal::{digits_end, is_digit, scan_decimal, DIGIT_NINE, DIGIT_ZERO};
use super::grammar::{
    parse_byte_string, parse_entries, parse_integer, parse_items, parse_value, DecodeError, Parsed,
    COLON, MINUS, TAG_DICTIONARY, TAG_END, TAG_INTEGER, TAG_LIST,
};
use super::value::{view_entries, view_items, Value, ValueView};
use vstd::prelude::*;
use vstd::slice::slice_to_vec;

verus! {

/// Whether reading at `pos` gave what the format says of the bytes from
/// there: the same value and the position behind it, or the same error.
spec fn reads_as(
    r: Result<(Value, usize), DecodeError>,
    pos: int,
    expected: Parsed<ValueView>,
) -> bool {
    match expected {
        Ok((v, n)) => r matches Ok((value, end)) && value@ == v && end == pos + n,
        Err(e) => r matches Err(found) && found == e,
    }
}

/// What is left of reading a list once `done` is read and `taken` bytes are
/// behind: `more` with both put in front.
spec fn after_items(done: Seq<ValueView>, taken: nat, more: Parsed<Seq<ValueView>>) -> Parsed<
    Seq<ValueView>,
> {
    match more {
        Ok((rest, n)) => Ok((done + rest, taken + n)),
        Err(e) => Err(e),
    }
}

/// What is left of reading a dictionary once `done` is read and `taken`
/// bytes are behind: `more` with both put in front.
spec fn after_entries(
    done: Seq<(Seq<u8>, ValueView)>,
    taken: nat,
    more: Parsed<Seq<(Seq<u8>, ValueView)>>,
) -> Parsed<Seq<(Seq<u8>, ValueView)>> {
    match more {
        Ok((rest, n)) => Ok((done + rest, taken + n)),
        Err(e) => Err(e),
    }
}

/// A value never takes more bytes than there are, nor none: the tests on
/// the count of bytes in `parse_items` and `parse_entries` never fail.
pub proof fn lemma_parse_bounds(s: Seq<u8>)
    ensures
        parse_value(s) matches Ok((_, n)) ==> 0 < n <= s.len(),
        parse_items(s) matches Ok((_, n)) ==> 0 < n <= s.len(),
        parse_entries(s) matches Ok((_, n)) ==> 0 < n <= s.len(),
        parse_byte_string(s) matches Ok((v, n)) ==> (0 < n <= s.len() && v is ByteString),
    decreases s.len(),
{
    if s.len() > 0 {
        if s[0] == TAG_INTEGER {
            let start: int = if s.len() > 1 && s[1] == MINUS { 2 } else { 1 };
            super::decimal::lemma_digits_end_bounds(s, start);
        }
        super::decimal::lemma_digits_end_bounds(s, 0);
        lemma_parse_bounds(s.skip(1));
        if let Ok((_, n)) = parse_value(s) {
            if 0 < n <= s.len() {
                lemma_parse_bounds(s.skip(n as int));
            }
        }
        if let Ok((_, n)) = parse_byte_string(s) {
            if 0 < n <= s.len() {
                lemma_parse_bounds(s.skip(n as int));
                if let Ok((_, m)) = parse_value(s.skip(n as int)) {
                    if 0 < m <= s.len() - n {
                        lemma_parse_bounds(s.skip((n + m) as int));
                    }
                }
            }
        }
    }
}

fn decode_integer(buf: &[u8], pos: usize) -> (r: Result<(Value, usize), DecodeError>)
    requires
        pos < buf.len(),
        buf[pos as int] == TAG_INTEGER,
    ensures
        reads_as(r, pos as int, parse_integer(buf@.skip(pos as int))),
        r matches Ok((_, end)) ==> pos < end <= buf.len(),
{
    let ghost s = buf@.skip(pos as int);
    let negative = pos + 1 < buf.len() && buf[pos + 1] == MINUS;
    let start: usize = if negative { pos + 2 } else { pos + 1 };
    let (end, magnitude) = scan_decimal(buf, start);
    proof {
        super::decimal::lemma_digits_end_bounds(buf@, start as int);
        lemma_digits_end_skip(buf@, pos as int, start - pos);
        assert(s.subrange(start - pos, end - pos) =~= buf@.subrange(start as int, end as int));
    }
    if end >= buf.len() {
        return Err(DecodeError::UnexpectedEnd);
    }
    if buf[end] != TAG_END || end == start {
        return Err(DecodeError::InvalidInteger);
    }
    match magnitude {
        None => Err(DecodeError::InvalidInteger),
        Some(m) => {
            if negative {
                if m == 0x8000_0000_0000_0000 {
                    Ok((Value::Integer(i64::MIN), end + 1))
                } else if m < 0x8000_0000_0000_0000 {
                    Ok((Value::Integer(-(m as i64)), end + 1))
                } else {
                    Err(DecodeError::InvalidInteger)
                }
            } else if m <= 0x7fff_ffff_ffff_ffff {
                Ok((Value::Integer(m as i64), end + 1))
            } else {
                Err(DecodeError::InvalidInteger)
            }
        },
    }
}

/// The digits of a part of `s` end where they end in `s`.
proof fn lemma_digits_end_skip(s: Seq<u8>, pos: int, from: int)
    requires
        0 <= pos <= s.len(),
        0 <= from <= s.len() - pos,
    ensures
        digits_end(s.skip(pos), from) == digits_end(s, pos + from) - pos,
    decreases s.len() - pos - from,
{
    if from < s.len() - pos && is_digit(s[pos + from]) {
        lemma_digits_end_skip(s, pos, from + 1);
    }
}

fn decode_byte_string(buf: &[u8], pos: usize) -> (r: Result<(Vec<u8>, usize), DecodeError>)
    requires
        pos < buf.len(),
    ensures
        match parse_byte_string(buf@.skip(pos as int)) {
            Ok((v, n)) => r matches Ok((bytes, end)) && ValueView::ByteString(bytes@) == v && end
                == pos + n,
            Err(e) => r matches Err(found) && found == e,
        },
        r matches Ok((_, end)) ==> pos < end <= buf.len(),
{
    let ghost s = buf@.skip(pos as int);
    let (end, length) = scan_decimal(buf, pos);
    proof {
        super::decimal::lemma_digits_end_bounds(buf@, pos as int);
        lemma_digits_end_skip(buf@, pos as int, 0);
        assert(s.subrange(0, end - pos) =~= buf@.subrange(pos as int, end as int));
    }
    if end >= buf.len() {
        return Err(DecodeError::UnexpectedEnd);
    }
    if buf[end] != COLON {
        return Err(DecodeError::InvalidLength);
    }
    match length {
        None => Err(DecodeError::UnexpectedEnd),
        Some(n) => {
            let left: usize = buf.len() - end - 1;
            if n > left as u64 {
                Err(DecodeError::UnexpectedEnd)
            } else {
                let n: usize = n as usize;
                let bytes = slice_to_vec(&buf[end + 1..end + 1 + n]);
                proof {
                    assert(bytes@ =~= s.subrange(end + 1 - pos, end + 1 - pos + n));
                }
                Ok((bytes, end + 1 + n))
            }
        },
    }
}

/// Reads the value that starts at `pos`, and says where it ends.
#[verifier::loop_isolation(false)]
fn decode_value(buf: &[u8], pos: usize) -> (r: Result<(Value, usize), DecodeError>)
    requires
        pos <= buf.len(),
    ensures
        reads_as(r, pos as int, parse_value(buf@.skip(pos as int))),
        r matches Ok((_, end)) ==> pos < end <= buf.len(),
    decreases buf.len() - pos,
{
    let ghost s = buf@.skip(pos as int);
    if pos >= buf.len() {
        return Err(DecodeError::UnexpectedEnd);
    }
    let tag: u8 = buf[pos];
    if tag == TAG_INTEGER {
        decode_integer(buf, pos)
    } else if tag >= DIGIT_ZERO && tag <= DIGIT_NINE {
        match decode_byte_string(buf, pos) {
            Ok((bytes, end)) => Ok((Value::ByteString(bytes), end)),
            Err(e) => Err(e),
        }
    } else if tag == TAG_LIST {
        let mut items: Vec<Value> = Vec::new();
        let mut cur: usize = pos + 1;
        proof {
            assert(view_items(items@) + Seq::<ValueView>::empty() =~= Seq::<ValueView>::empty());
            assert(s.skip(1) =~= buf@.skip(cur as int));
            assert(parse_items(s.skip(1)) == after_items(
                view_items(items@),
                0,
                parse_items(buf@.skip(cur as int)),
            )) by {
                let more = parse_items(buf@.skip(cur as int));
                if let Ok((rest, n)) = more {
                    assert(Seq::<ValueView>::empty() + rest =~= rest);
                }
            }
        }
        loop
            invariant
                pos < cur <= buf.len(),
                s == buf@.skip(pos as int),
                parse_items(s.skip(1)) == after_items(
                    view_items(items@),
                    (cur - pos - 1) as nat,
                    parse_items(buf@.skip(cur as int)),
                ),
            decreases buf.len() - cur,
        {
            let ghost here = buf@.skip(cur as int);
            if cur >= buf.len() {
                return Err(DecodeError::UnexpectedEnd);
            }
            if buf[cur] == TAG_END {
                proof {
                    assert(view_items(items@) + Seq::<ValueView>::empty() =~= view_items(items@));
                }
                return Ok((Value::List(items), cur + 1));
            }
            match decode_value(buf, cur) {
                Err(e) => {
                    return Err(e);
                },
                Ok((item, end)) => {
                    proof {
                        let done = view_items(items@);
                        assert(here.skip(end - cur) =~= buf@.skip(end as int));
                        assert(items@.push(item).drop_last() =~= items@);
                        if let Ok((rest, m)) = parse_items(buf@.skip(end as int)) {
                            assert(done + (seq![item@] + rest) =~= done.push(item@) + rest);
                        }
                    }
                    items.push(item);
                    cur = end;
                },
            }
        }
    } else if tag == TAG_DICTIONARY {
        let mut entries: Vec<(Vec<u8>, Value)> = Vec::new();
        let mut cur: usize = pos + 1;
        proof {
            assert(s.skip(1) =~= buf@.skip(cur as int));
            assert(parse_entries(s.skip(1)) == after_entries(
                view_entries(entries@),
                0,
                parse_entries(buf@.skip(cur as int)),
            )) by {
                let more = parse_entries(buf@.skip(cur as int));
                if let Ok((rest, n)) = more {
                    assert(Seq::<(Seq<u8>, ValueView)>::empty() + rest =~= rest);
                }
            }
        }
        loop
            invariant
                pos < cur <= buf.len(),
                s == buf@.skip(pos as int),
                parse_entries(s.skip(1)) == after_entries(
                    view_entries(entries@),
                    (cur - pos - 1) as nat,
                    parse_entries(buf@.skip(cur as int)),
                ),
            decreases buf.len() - cur,
        {
            let ghost here = buf@.skip(cur as int);
            if cur >= buf.len() {
                return Err(DecodeError::UnexpectedEnd);
            }
            let first: u8 = buf[cur];
            if first == TAG_END {
                proof {
                    assert(view_entries(entries@) + Seq::<(Seq<u8>, ValueView)>::empty()
                        =~= view_entries(entries@));
                }
                return Ok((Value::Dictionary(entries), cur + 1));
            }
            if first < DIGIT_ZERO || first > DIGIT_NINE {
                return Err(DecodeError::NonStringKey);
            }
            let (key, mid) = match decode_byte_string(buf, cur) {
                Err(e) => {
                    return Err(e);
                },
                Ok(found) => found,
            };
            proof {
                assert(here.skip(mid - cur) =~= buf@.skip(mid as int));
            }
            match decode_value(buf, mid) {
                Err(e) => {
                    return Err(e);
                },
                Ok((value, end)) => {
                    proof {
                        let done = view_entries(entries@);
                        assert(here.skip(end - cur) =~= buf@.skip(end as int));
                        assert(entries@.push((key, value)).drop_last() =~= entries@);
                        if let Ok((rest, m)) = parse_entries(buf@.skip(end as int)) {
                            assert(done + (seq![(key@, value@)] + rest) =~= done.push(
                                (key@, value@),
                            ) + rest);
                        }
                    }
                    entries.push((key, value));
                    cur = end;
                },
            }
        }
    } else {
        Err(DecodeError::UnknownType)
    }
}

/// Reads the value that starts at `offset` in `buffer`, and says how many
/// bytes it takes, so that what follows it can be read in turn.
///
/// Dictionaries keep their entries in the order in which they stand.
pub fn decode(buffer: &[u8], offset: usize) -> (r: Result<(Value, usize), DecodeError>)
    ensures
        offset <= buffer.len() ==> match parse_value(buffer@.skip(offset as int)) {
            Ok((v, n)) => r matches Ok((value, consumed)) && value@ == v && consumed == n,
            Err(e) => r matches Err(found) && found == e,
        },
        offset > buffer.len() ==> (r matches Err(e) && e == DecodeError::UnexpectedEnd),
        r matches Ok((_, consumed)) ==> (0 < consumed && offset + consumed <= buffer.len()),
{
    if offset > buffer.len() {
        return Err(DecodeError::UnexpectedEnd);
    }
    match decode_value(buffer, offset) {
        Ok((value, end)) => Ok((value, end - offset)),
        Err(e) => Err(e),
    }
}

} // verus!
