//! What holds of reading and writing together.

use super::canonical::{
    canonical, canonical_entries, canonical_items, encoding, entry_keys, is_canonical,
    lemma_canonical_entries, lemma_canonical_items, sort_entries,
};
use super::decimal::{
    decimal_digits, is_digit, lemma_decimal_digits_shape, lemma_decimal_value_of_digits,
    lemma_digits_end_of_run,
};
use super::grammar::{
    byte_string_notation, parse_byte_string, parse_entries, parse_integer, parse_items, parse_value,
    serialization, serialization_of_entries, serialization_of_items, COLON, MINUS, TAG_DICTIONARY,
    TAG_END, TAG_INTEGER, TAG_LIST,
};
use super::order::{
    insert_by_key, key_lt, lemma_insert_by_key_at, lemma_key_lt_irreflexive,
    lemma_sort_order_sorts, sort_order,
};
use super::value::{lookup, ValueView};
use vstd::prelude::*;

verus! {

/// A written integer, whatever follows it, reads as that integer.
pub proof fn lemma_parse_written_integer(i: i64, rest: Seq<u8>)
    ensures
        parse_integer(serialization(ValueView::Integer(i)) + rest) == Ok::<_, super::grammar::DecodeError>(
            (ValueView::Integer(i), serialization(ValueView::Integer(i)).len()),
        ),
{
    let magnitude: nat = if i < 0 { (-i) as nat } else { i as nat };
    let digits = decimal_digits(magnitude);
    let written = serialization(ValueView::Integer(i));
    let s = written + rest;
    lemma_decimal_digits_shape(magnitude);
    lemma_decimal_value_of_digits(magnitude);
    let start: int = if i < 0 { 2 } else { 1 };
    let end = start + digits.len();
    assert(s[0] == TAG_INTEGER);
    if i < 0 {
        assert(s[1] == MINUS);
    } else {
        assert(s[1] == digits[0]);
        assert(is_digit(digits[0]));
    }
    assert(s.subrange(start, end) =~= digits);
    assert(s[end] == TAG_END);
    lemma_digits_end_of_run(s, start, end);
}

/// A written byte string, whatever follows it, reads as that byte string.
pub proof fn lemma_parse_written_byte_string(bytes: Seq<u8>, rest: Seq<u8>)
    ensures
        parse_byte_string(byte_string_notation(bytes) + rest) == Ok::<_, super::grammar::DecodeError>(
            (ValueView::ByteString(bytes), byte_string_notation(bytes).len()),
        ),
        is_digit((byte_string_notation(bytes) + rest)[0]),
{
    let digits = decimal_digits(bytes.len());
    let s = byte_string_notation(bytes) + rest;
    lemma_decimal_digits_shape(bytes.len());
    lemma_decimal_value_of_digits(bytes.len());
    let end = digits.len() as int;
    assert(s[0] == digits[0]);
    assert(is_digit(digits[0]));
    assert(s.subrange(0, end) =~= digits);
    assert(s[end] == COLON);
    lemma_digits_end_of_run(s, 0, end);
    assert(s.subrange(end + 1, end + 1 + bytes.len()) =~= bytes);
}

/// What a value is written as starts with the byte that tells its kind,
/// which is never the closing `e`.
pub proof fn lemma_serialization_starts(v: ValueView)
    ensures
        serialization(v).len() > 0,
        serialization(v)[0] != TAG_END,
        v is Integer ==> serialization(v)[0] == TAG_INTEGER,
        v is ByteString ==> is_digit(serialization(v)[0]),
        v is List ==> serialization(v)[0] == TAG_LIST,
        v is Dictionary ==> serialization(v)[0] == TAG_DICTIONARY,
{
    match v {
        ValueView::ByteString(bytes) => {
            lemma_decimal_digits_shape(bytes.len());
            assert(serialization(v)[0] == decimal_digits(bytes.len())[0]);
            assert(is_digit(decimal_digits(bytes.len())[0]));
        },
        _ => {},
    }
}

/// A list is written as its first value and then the others.
pub proof fn lemma_serialization_of_items_front(items: Seq<ValueView>)
    requires
        items.len() > 0,
    ensures
        serialization_of_items(items) == serialization(items[0]) + serialization_of_items(
            items.skip(1),
        ),
    decreases items.len(),
{
    if items.len() == 1 {
        assert(items.drop_last() =~= Seq::empty());
        assert(items.skip(1) =~= Seq::empty());
        assert(serialization_of_items(items.drop_last()) =~= Seq::empty());
        assert(serialization_of_items(items.skip(1)) =~= Seq::empty());
        assert(serialization_of_items(items) =~= serialization(items[0]));
    } else {
        lemma_serialization_of_items_front(items.drop_last());
        assert(items.drop_last().skip(1) =~= items.skip(1).drop_last());
        assert(items.skip(1).last() == items.last());
        assert(serialization_of_items(items.skip(1)) == serialization_of_items(
            items.skip(1).drop_last(),
        ) + serialization(items.last()));
        assert(serialization_of_items(items) =~= serialization(items[0])
            + serialization_of_items(items.skip(1)));
    }
}

/// A dictionary is written as its first entry and then the others.
pub proof fn lemma_serialization_of_entries_front(entries: Seq<(Seq<u8>, ValueView)>)
    requires
        entries.len() > 0,
    ensures
        serialization_of_entries(entries) == byte_string_notation(entries[0].0) + serialization(
            entries[0].1,
        ) + serialization_of_entries(entries.skip(1)),
    decreases entries.len(),
{
    if entries.len() == 1 {
        assert(entries.drop_last() =~= Seq::empty());
        assert(entries.skip(1) =~= Seq::empty());
        assert(serialization_of_entries(entries.drop_last()) =~= Seq::empty());
        assert(serialization_of_entries(entries.skip(1)) =~= Seq::empty());
        assert(serialization_of_entries(entries) =~= byte_string_notation(entries[0].0)
            + serialization(entries[0].1));
    } else {
        lemma_serialization_of_entries_front(entries.drop_last());
        assert(entries.drop_last().skip(1) =~= entries.skip(1).drop_last());
        assert(entries.skip(1).last() == entries.last());
        assert(serialization_of_entries(entries.skip(1)) == serialization_of_entries(
            entries.skip(1).drop_last(),
        ) + byte_string_notation(entries.last().0) + serialization(entries.last().1));
        assert(serialization_of_entries(entries) =~= byte_string_notation(entries[0].0)
            + serialization(entries[0].1) + serialization_of_entries(entries.skip(1)));
    }
}

/// Reading inverts writing: what `v` is written as, whatever follows it,
/// reads as `v`, every dictionary with its entries in the order in which
/// `v` holds them, and takes exactly the bytes that were written.
pub proof fn lemma_parse_serialization(v: ValueView, rest: Seq<u8>)
    ensures
        parse_value(serialization(v) + rest) == Ok::<_, super::grammar::DecodeError>(
            (v, serialization(v).len()),
        ),
    decreases v, 0nat,
{
    let s = serialization(v) + rest;
    lemma_serialization_starts(v);
    assert(s[0] == serialization(v)[0]);
    match v {
        ValueView::Integer(i) => {
            lemma_parse_written_integer(i, rest);
        },
        ValueView::ByteString(bytes) => {
            lemma_parse_written_byte_string(bytes, rest);
        },
        ValueView::List(items) => {
            lemma_parse_items_serialization(items, rest);
            assert(s.skip(1) =~= serialization_of_items(items) + seq![TAG_END] + rest);
        },
        ValueView::Dictionary(entries) => {
            lemma_parse_entries_serialization(entries, rest);
            assert(s.skip(1) =~= serialization_of_entries(entries) + seq![TAG_END] + rest);
        },
    }
}

/// The written values of a list, the closing `e` and whatever follows read
/// as those values.
pub proof fn lemma_parse_items_serialization(items: Seq<ValueView>, rest: Seq<u8>)
    ensures
        parse_items(serialization_of_items(items) + seq![TAG_END] + rest) == Ok::<
            _,
            super::grammar::DecodeError,
        >((items, serialization_of_items(items).len() + 1)),
    decreases items, 1nat,
{
    let s = serialization_of_items(items) + seq![TAG_END] + rest;
    if items.len() == 0 {
        assert(s[0] == TAG_END);
        assert(items =~= Seq::empty());
    } else {
        let first = items[0];
        let others = items.skip(1);
        let tail = serialization_of_items(others) + seq![TAG_END] + rest;
        lemma_serialization_of_items_front(items);
        lemma_serialization_starts(first);
        assert(s =~= serialization(first) + tail);
        assert(s[0] == serialization(first)[0]);
        lemma_parse_serialization(first, tail);
        let n = serialization(first).len();
        assert(s.skip(n as int) =~= tail);
        lemma_parse_items_serialization(others, rest);
        assert(seq![first] + others =~= items);
    }
}

/// The written entries of a dictionary, the closing `e` and whatever
/// follows read as those entries, in the same order.
pub proof fn lemma_parse_entries_serialization(entries: Seq<(Seq<u8>, ValueView)>, rest: Seq<u8>)
    ensures
        parse_entries(serialization_of_entries(entries) + seq![TAG_END] + rest) == Ok::<
            _,
            super::grammar::DecodeError,
        >((entries, serialization_of_entries(entries).len() + 1)),
    decreases entries, 1nat,
{
    let s = serialization_of_entries(entries) + seq![TAG_END] + rest;
    if entries.len() == 0 {
        assert(s[0] == TAG_END);
        assert(entries =~= Seq::empty());
    } else {
        let key = entries[0].0;
        let value = entries[0].1;
        let others = entries.skip(1);
        let tail = serialization_of_entries(others) + seq![TAG_END] + rest;
        let after_key = serialization(value) + tail;
        let n = byte_string_notation(key).len();
        let m = serialization(value).len();
        lemma_serialization_of_entries_front(entries);
        assert(s == byte_string_notation(key) + after_key) by {
            assert(s =~= byte_string_notation(key) + after_key);
        }
        lemma_parse_written_byte_string(key, after_key);
        lemma_decimal_digits_shape(key.len());
        assert(0 < n <= s.len());
        assert(s.skip(n as int) == after_key) by {
            assert(s.skip(n as int) =~= after_key);
        }
        lemma_parse_serialization(value, tail);
        lemma_serialization_starts(value);
        assert(0 < m <= s.len() - n);
        assert(s.skip((n + m) as int) == tail) by {
            assert(s.skip((n + m) as int) =~= tail);
        }
        lemma_parse_entries_serialization(others, rest);
        assert(seq![(key, value)] + others == entries) by {
            assert(seq![(key, value)] + others =~= entries);
        }
        assert(serialization_of_entries(entries).len() + 1 == n + m + (serialization_of_entries(
            others,
        ).len() + 1));
        assert(is_digit(s[0]));
        assert(s[0] != TAG_END);
    }
}

/// Keys that already ascend are sorted as they stand.
pub proof fn lemma_sort_order_of_ascending(keys: Seq<Seq<u8>>)
    requires
        forall|i: int, j: int|
            0 <= i < j < keys.len() ==> !key_lt(#[trigger] keys[j], #[trigger] keys[i]),
    ensures
        sort_order(keys) == Seq::new(keys.len(), |i: int| i),
    decreases keys.len(),
{
    if keys.len() > 0 {
        let shorter = keys.drop_last();
        assert forall|i: int, j: int| 0 <= i < j < shorter.len() implies !key_lt(
            #[trigger] shorter[j],
            #[trigger] shorter[i],
        ) by {
            assert(shorter[i] == keys[i] && shorter[j] == keys[j]);
        }
        lemma_sort_order_of_ascending(shorter);
        let before = sort_order(shorter);
        if before.len() > 0 {
            assert(before.last() == keys.len() - 2);
        }
        assert(sort_order(keys) =~= Seq::new(keys.len(), |i: int| i));
    } else {
        assert(sort_order(keys) =~= Seq::new(keys.len(), |i: int| i));
    }
}

/// A value in canonical form is its own canonical form, so that decoding
/// what was encoded gives exactly that value back.
pub proof fn lemma_canonical_of_canonical(v: ValueView)
    requires
        is_canonical(v),
    ensures
        canonical(v) == v,
    decreases v,
{
    match v {
        ValueView::List(items) => {
            lemma_canonical_items(items);
            assert forall|i: int| 0 <= i < items.len() implies canonical_items(items)[i]
                == items[i] by {
                lemma_canonical_of_canonical(items[i]);
            }
            assert(canonical_items(items) =~= items);
        },
        ValueView::Dictionary(entries) => {
            lemma_canonical_entries(entries);
            assert forall|i: int| 0 <= i < entries.len() implies canonical_entries(entries)[i]
                == entries[i] by {
                lemma_canonical_of_canonical(entries[i].1);
            }
            assert(canonical_entries(entries) =~= entries);
            let keys = entry_keys(entries);
            assert forall|i: int, j: int| 0 <= i < j < keys.len() implies !key_lt(
                #[trigger] keys[j],
                #[trigger] keys[i],
            ) by {
                assert(keys[i] == entries[i].0 && keys[j] == entries[j].0);
            }
            lemma_sort_order_of_ascending(keys);
            assert(sort_entries(entries) =~= entries);
        },
        _ => {},
    }
}

/// The canonical form is in canonical form: every dictionary in it lists
/// its entries by ascending key.
pub proof fn lemma_canonical_is_canonical(v: ValueView)
    ensures
        is_canonical(canonical(v)),
    decreases v,
{
    match v {
        ValueView::List(items) => {
            lemma_canonical_items(items);
            assert forall|i: int| 0 <= i < items.len() implies is_canonical(
                #[trigger] canonical_items(items)[i],
            ) by {
                lemma_canonical_is_canonical(items[i]);
            }
        },
        ValueView::Dictionary(entries) => {
            let made = canonical_entries(entries);
            let keys = entry_keys(made);
            let order = sort_order(keys);
            let sorted = sort_entries(made);
            lemma_canonical_entries(entries);
            lemma_sort_order_sorts(keys);
            assert forall|i: int| 0 <= i < sorted.len() implies is_canonical(
                (#[trigger] sorted[i]).1,
            ) by {
                let at = order[i];
                assert(sorted[i] == made[at]);
                lemma_canonical_is_canonical(entries[at].1);
            }
            assert forall|i: int, j: int| 0 <= i < j < sorted.len() implies !key_lt(
                (#[trigger] sorted[j]).0,
                (#[trigger] sorted[i]).0,
            ) by {
                assert(sorted[i].0 == keys[order[i]]);
                assert(sorted[j].0 == keys[order[j]]);
            }
        },
        _ => {},
    }
}

/// Where `i` goes when it is put into `order`: behind every index whose key
/// is not greater than that of `i`.
pub open spec fn insert_position(keys: Seq<Seq<u8>>, order: Seq<int>, i: int) -> int
    decreases order.len(),
{
    if order.len() == 0 || !key_lt(keys[i], keys[order.last()]) {
        order.len() as int
    } else {
        insert_position(keys, order.drop_last(), i)
    }
}

/// Putting `i` into `order` puts it at its position and moves nothing
/// else; what stands behind it has greater keys.
pub proof fn lemma_insert_position(keys: Seq<Seq<u8>>, order: Seq<int>, i: int)
    ensures
        0 <= insert_position(keys, order, i) <= order.len(),
        forall|q: int|
            insert_position(keys, order, i) <= q < order.len() ==> key_lt(
                keys[i],
                keys[#[trigger] order[q]],
            ),
        insert_by_key(keys, order, i) == order.take(insert_position(keys, order, i)) + seq![i]
            + order.skip(insert_position(keys, order, i)),
    decreases order.len(),
{
    let at = insert_position(keys, order, i);
    if order.len() == 0 || !key_lt(keys[i], keys[order.last()]) {
    } else {
        let shorter = order.drop_last();
        lemma_insert_position(keys, shorter, i);
        assert forall|q: int| at <= q < order.len() implies key_lt(
            keys[i],
            keys[#[trigger] order[q]],
        ) by {
            if q < shorter.len() {
                assert(shorter[q] == order[q]);
            }
        }
    }
    if at > 0 && key_lt(keys[i], keys[order[at - 1]]) {
        lemma_insert_position_stops(keys, order, i);
    }
    lemma_insert_by_key_at(keys, order, i, at);
}

/// The index in front of the position of `i` has no greater key.
pub proof fn lemma_insert_position_stops(keys: Seq<Seq<u8>>, order: Seq<int>, i: int)
    ensures
        0 <= insert_position(keys, order, i) <= order.len(),
        insert_position(keys, order, i) > 0 ==> !key_lt(
            keys[i],
            keys[order[insert_position(keys, order, i) - 1]],
        ),
    decreases order.len(),
{
    if order.len() == 0 || !key_lt(keys[i], keys[order.last()]) {
    } else {
        let shorter = order.drop_last();
        lemma_insert_position_stops(keys, shorter, i);
        let at = insert_position(keys, shorter, i);
        if at > 0 {
            assert(shorter[at - 1] == order[at - 1]);
        }
    }
}

/// What a dictionary holds under a key is what its front part holds under
/// it, and else what the rest holds.
pub proof fn lemma_lookup_concat(
    front: Seq<(Seq<u8>, ValueView)>,
    rest: Seq<(Seq<u8>, ValueView)>,
    key: Seq<u8>,
)
    ensures
        lookup(front + rest, key) == match lookup(front, key) {
            Some(v) => Some(v),
            None => lookup(rest, key),
        },
    decreases front.len(),
{
    if front.len() == 0 {
        assert(front + rest =~= rest);
    } else {
        assert((front + rest)[0] == front[0]);
        assert((front + rest).skip(1) =~= front.skip(1) + rest);
        lemma_lookup_concat(front.skip(1), rest, key);
    }
}

/// A dictionary holds nothing under a key that none of its entries has.
pub proof fn lemma_lookup_absent(entries: Seq<(Seq<u8>, ValueView)>, key: Seq<u8>)
    requires
        forall|i: int| 0 <= i < entries.len() ==> (#[trigger] entries[i]).0 != key,
    ensures
        lookup(entries, key) is None,
    decreases entries.len(),
{
    if entries.len() > 0 {
        assert(entries[0].0 != key);
        assert forall|i: int| 0 <= i < entries.skip(1).len() implies (#[trigger] entries.skip(
            1,
        )[i]).0 != key by {
            assert(entries.skip(1)[i] == entries[i + 1]);
        }
        lemma_lookup_absent(entries.skip(1), key);
    }
}

/// Sorting the entries changes nothing of what the dictionary holds under
/// each key: entries of equal keys keep their order, so the first of them
/// stays the first.
pub proof fn lemma_sort_keeps_lookup(entries: Seq<(Seq<u8>, ValueView)>, key: Seq<u8>)
    ensures
        lookup(sort_entries(entries), key) == lookup(entries, key),
    decreases entries.len(),
{
    if entries.len() == 0 {
        assert(sort_entries(entries) =~= entries);
    } else {
        let n = entries.len() as int;
        let shorter = entries.drop_last();
        let last = entries.last();
        let keys = entry_keys(entries);
        let before = sort_order(entry_keys(shorter));
        let sorted_before = sort_entries(shorter);
        let sorted = sort_entries(entries);
        let at = insert_position(keys, before, n - 1);
        assert(entry_keys(shorter) =~= keys.drop_last());
        lemma_sort_order_sorts(entry_keys(shorter));
        lemma_insert_position(keys, before, n - 1);
        lemma_sort_keeps_lookup(shorter, key);
        let front = sorted_before.take(at);
        let back = sorted_before.skip(at);
        assert(sorted =~= front + seq![last] + back) by {
            assert forall|j: int| 0 <= j < n implies sorted[j] == (front + seq![last] + back)[j] by {
                if j < at {
                    assert(before[j] < n - 1);
                } else if j > at {
                    assert(before[j - 1] < n - 1);
                }
            }
        }
        assert(sorted_before =~= front + back);
        assert(entries =~= shorter + seq![last]);
        lemma_lookup_concat(front, back, key);
        lemma_lookup_concat(front + seq![last], back, key);
        lemma_lookup_concat(front, seq![last], key);
        lemma_lookup_concat(shorter, seq![last], key);
        assert(lookup(seq![last], key) == if last.0 == key {
            Some(last.1)
        } else {
            None
        }) by {
            reveal_with_fuel(lookup, 2);
            assert(seq![last].skip(1).len() == 0);
        }
        if last.0 == key {
            assert forall|i: int| 0 <= i < back.len() implies (#[trigger] back[i]).0 != key by {
                let q = at + i;
                assert(back[i] == shorter[before[q]]);
                assert(key_lt(keys[n - 1], keys[before[q]]));
                lemma_key_lt_irreflexive(key);
            }
            lemma_lookup_absent(back, key);
        }
    }
}

/// Making the values of the entries canonical changes nothing of where
/// each key is found.
pub proof fn lemma_canonical_entries_lookup(entries: Seq<(Seq<u8>, ValueView)>, key: Seq<u8>)
    ensures
        lookup(canonical_entries(entries), key) == match lookup(entries, key) {
            Some(v) => Some(canonical(v)),
            None => None,
        },
    decreases entries.len(),
{
    lemma_canonical_entries(entries);
    if entries.len() > 0 {
        lemma_canonical_entries(entries.skip(1));
        assert(canonical_entries(entries).skip(1) =~= canonical_entries(entries.skip(1)));
        lemma_canonical_entries_lookup(entries.skip(1), key);
    }
}

/// The canonical form of a dictionary holds under every key the canonical
/// form of what the dictionary holds under it: as mappings from keys to
/// values, a value and what decoding its encoding gives are the same.
pub proof fn lemma_canonical_keeps_lookup(v: ValueView, key: Seq<u8>)
    ensures
        canonical(v).get(key) == match v.get(key) {
            Some(x) => Some(canonical(x)),
            None => None,
        },
{
    if let ValueView::Dictionary(entries) = v {
        lemma_sort_keeps_lookup(canonical_entries(entries), key);
        lemma_canonical_entries_lookup(entries, key);
    }
}

/// Decoding what was encoded gives the value back in canonical form, and
/// takes every byte: `decode(encode(v)) == canonical(v)`.
pub proof fn theorem_decode_encode(v: ValueView)
    ensures
        parse_value(encoding(v)) == Ok::<_, super::grammar::DecodeError>(
            (canonical(v), encoding(v).len()),
        ),
{
    lemma_parse_serialization(canonical(v), Seq::empty());
    assert(encoding(v) + Seq::<u8>::empty() =~= encoding(v));
}

/// Decoding what was encoded gives the very same value back where every
/// dictionary in it lists its entries by ascending key:
/// `decode(encode(v)) == v`.
pub proof fn theorem_decode_encode_of_canonical(v: ValueView)
    requires
        is_canonical(v),
    ensures
        parse_value(encoding(v)) == Ok::<_, super::grammar::DecodeError>((v, encoding(v).len())),
{
    theorem_decode_encode(v);
    lemma_canonical_of_canonical(v);
}

/// Decoding what was encoded takes the encoding and no more, whatever
/// follows it in the buffer.
pub proof fn theorem_decode_encode_embedded(v: ValueView, rest: Seq<u8>)
    ensures
        parse_value(encoding(v) + rest) == Ok::<_, super::grammar::DecodeError>(
            (canonical(v), encoding(v).len()),
        ),
{
    lemma_parse_serialization(canonical(v), rest);
}

} // verus!
