//! Writing a value as bytes.

use super::canonical::{
    canonical, canonical_entries, canonical_items, encoding, entry_keys, lemma_canonical_entries,
    sort_entries,
};
use super::decimal::{decimal_digits, push_decimal};
use super::grammar::{
    byte_string_notation, serialization, serialization_of_entries, serialization_of_items, COLON,
    MINUS, TAG_DICTIONARY, TAG_END, TAG_INTEGER, TAG_LIST,
};
use super::order::{key_less, key_lt, lemma_insert_by_key_at, lemma_sort_order_sorts, sort_order};
use super::value::{lemma_view_entries, lemma_view_items, view_entries, view_items, Value};
use vstd::prelude::*;

verus! {

/// Appends a byte string: the digits of its length, `:`, and its bytes.
pub fn push_byte_string(out: &mut Vec<u8>, bytes: &[u8])
    ensures
        final(out)@ == old(out)@ + byte_string_notation(bytes@),
{
    push_decimal(out, bytes.len() as u64);
    out.push(COLON);
    let mut i: usize = 0;
    while i < bytes.len()
        invariant
            i <= bytes.len(),
            out@ == old(out)@ + decimal_digits(bytes@.len()) + seq![COLON] + bytes@.take(i as int),
        decreases bytes.len() - i,
    {
        out.push(bytes[i]);
        proof {
            assert(bytes@.take(i as int).push(bytes@[i as int]) =~= bytes@.take(i + 1));
        }
        i = i + 1;
    }
    proof {
        assert(bytes@.take(bytes.len() as int) =~= bytes@);
        assert(out@ =~= old(out)@ + byte_string_notation(bytes@));
    }
}

/// The keys of a dictionary as it is held, in place.
pub open spec fn held_keys(entries: Seq<(Vec<u8>, Value)>) -> Seq<Seq<u8>> {
    entry_keys(view_entries(entries))
}

/// The indices of the entries by ascending key; entries of equal keys stay
/// in the order in which they are held.
pub fn sorted_indices(entries: &Vec<(Vec<u8>, Value)>) -> (order: Vec<usize>)
    ensures
        order@.len() == entries@.len(),
        forall|j: int|
            0 <= j < order@.len() ==> #[trigger] order@[j] as int == sort_order(
                held_keys(entries@),
            )[j],
        forall|j: int| 0 <= j < order@.len() ==> #[trigger] order@[j] < entries@.len(),
{
    let ghost keys = held_keys(entries@);
    let mut order: Vec<usize> = Vec::new();
    let mut i: usize = 0;
    proof {
        lemma_view_entries(entries@);
        assert(keys.take(0) =~= Seq::<Seq<u8>>::empty());
    }
    while i < entries.len()
        invariant
            i <= entries.len(),
            keys == held_keys(entries@),
            keys.len() == entries@.len(),
            forall|k: int| 0 <= k < keys.len() ==> #[trigger] keys[k] == entries@[k].0@,
            order@.len() == i,
            forall|j: int|
                0 <= j < i ==> #[trigger] order@[j] as int == sort_order(keys.take(i as int))[j],
            forall|j: int| 0 <= j < i ==> #[trigger] order@[j] < i,
        decreases entries.len() - i,
    {
        let ghost before = sort_order(keys.take(i as int));
        let ghost upto = keys.take(i + 1);
        proof {
            lemma_sort_order_sorts(keys.take(i as int));
            assert(upto.drop_last() =~= keys.take(i as int));
        }
        let mut at: usize = order.len();
        while at > 0 && key_less(entries[i].0.as_slice(), entries[order[at - 1]].0.as_slice())
            invariant
                at <= order@.len(),
                order@.len() == i,
                i < entries.len(),
                before.len() == i,
                keys.len() == entries@.len(),
                upto == keys.take(i + 1),
                forall|k: int| 0 <= k < keys.len() ==> #[trigger] keys[k] == entries@[k].0@,
                forall|j: int| 0 <= j < i ==> #[trigger] order@[j] as int == before[j],
                forall|j: int| 0 <= j < i ==> #[trigger] order@[j] < i,
                forall|q: int| at <= q < i ==> key_lt(upto[i as int], upto[#[trigger] before[q]]),
            decreases at,
        {
            proof {
                assert(order@[at - 1] as int == before[at - 1]);
            }
            at = at - 1;
        }
        proof {
            if at > 0 {
                assert(order@[at - 1] as int == before[at - 1]);
            }
            lemma_insert_by_key_at(upto, before, i as int, at as int);
        }
        order.insert(at, i);
        proof {
            let after = sort_order(upto);
            assert(after == before.take(at as int) + seq![i as int] + before.skip(at as int));
            assert forall|j: int| 0 <= j < i + 1 implies #[trigger] order@[j] as int == after[j]
                && order@[j] < i + 1 by {}
        }
        i = i + 1;
    }
    proof {
        assert(keys.take(i as int) =~= keys);
    }
    order
}

/// Appends the encoding of `v` to `out`.
pub fn encode_into(v: &Value, out: &mut Vec<u8>)
    ensures
        final(out)@ == old(out)@ + encoding(v@),
    decreases v,
{
    match v {
        Value::Integer(i) => {
            out.push(TAG_INTEGER);
            if *i < 0 {
                out.push(MINUS);
                let magnitude: u64 = if *i == i64::MIN {
                    0x8000_0000_0000_0000
                } else {
                    (-*i) as u64
                };
                push_decimal(out, magnitude);
            } else {
                push_decimal(out, *i as u64);
            }
            out.push(TAG_END);
            proof {
                assert(out@ =~= old(out)@ + encoding(v@));
            }
        },
        Value::ByteString(bytes) => {
            push_byte_string(out, bytes.as_slice());
        },
        Value::List(items) => {
            let ghost models = view_items(items@);
            out.push(TAG_LIST);
            let mut k: usize = 0;
            proof {
                lemma_view_items(items@);
                assert(models.take(0) =~= Seq::empty());
            }
            while k < items.len()
                invariant
                    k <= items.len(),
                    models == view_items(items@),
                    models.len() == items@.len(),
                    forall|i: int| 0 <= i < items@.len() ==> #[trigger] models[i] == items@[i]@,
                    v == Value::List(*items),
                    out@ == old(out)@ + seq![TAG_LIST] + serialization_of_items(
                        canonical_items(models.take(k as int)),
                    ),
                decreases items.len() - k,
            {
                let ghost done = canonical_items(models.take(k as int));
                proof {
                    vstd::std_specs::vec::axiom_vec_index_decreases(*items, k as int);
                    assert(decreases_to!(*v => v->List_0));
                }
                encode_into(&items[k], out);
                proof {
                    let next = models.take(k + 1);
                    assert(next.drop_last() =~= models.take(k as int));
                    assert(canonical_items(next) == done.push(canonical(models[k as int])));
                    assert(canonical_items(next).drop_last() =~= done);
                    assert(serialization_of_items(canonical_items(next)) == serialization_of_items(
                        done,
                    ) + serialization(canonical(models[k as int])));
                }
                k = k + 1;
            }
            out.push(TAG_END);
            proof {
                assert(models.take(k as int) =~= models);
                assert(out@ =~= old(out)@ + encoding(v@));
            }
        },
        Value::Dictionary(entries) => {
            let ghost models = view_entries(entries@);
            let ghost sorted = sort_entries(canonical_entries(models));
            let order = sorted_indices(entries);
            out.push(TAG_DICTIONARY);
            let mut j: usize = 0;
            proof {
                lemma_view_entries(entries@);
                lemma_canonical_entries(models);
                assert(sorted.take(0) =~= Seq::empty());
            }
            while j < order.len()
                invariant
                    j <= order.len(),
                    order@.len() == entries@.len(),
                    models == view_entries(entries@),
                    sorted == sort_entries(canonical_entries(models)),
                    sorted.len() == entries@.len(),
                    forall|i: int| 0 <= i < order@.len() ==> #[trigger] order@[i] < entries@.len(),
                    forall|i: int|
                        0 <= i < order@.len() ==> #[trigger] sorted[i] == (
                            entries@[order@[i] as int].0@,
                            canonical(entries@[order@[i] as int].1@),
                        ),
                    v == Value::Dictionary(*entries),
                    out@ == old(out)@ + seq![TAG_DICTIONARY] + serialization_of_entries(
                        sorted.take(j as int),
                    ),
                decreases order.len() - j,
            {
                let ghost done = sorted.take(j as int);
                let at: usize = order[j];
                push_byte_string(out, entries[at].0.as_slice());
                proof {
                    vstd::std_specs::vec::axiom_vec_index_decreases(*entries, at as int);
                    assert(decreases_to!(*v => v->Dictionary_0));
                    assert(decreases_to!(entries[at as int] => entries[at as int].1));
                }
                encode_into(&entries[at].1, out);
                proof {
                    let next = sorted.take(j + 1);
                    assert(next.drop_last() =~= done);
                    assert(next.last() == sorted[j as int]);
                    assert(serialization_of_entries(next) == serialization_of_entries(done)
                        + byte_string_notation(sorted[j as int].0) + serialization(
                        sorted[j as int].1,
                    ));
                }
                j = j + 1;
            }
            out.push(TAG_END);
            proof {
                assert(sorted.take(j as int) =~= sorted);
                assert(out@ =~= old(out)@ + encoding(v@));
            }
        },
    }
}

/// Writes `v` in canonical form: every dictionary, at any depth, with its
/// entries by ascending key.
pub fn encode(v: &Value) -> (out: Vec<u8>)
    ensures
        out@ == encoding(v@),
{
    let mut out: Vec<u8> = Vec::new();
    encode_into(v, &mut out);
    out
}

} // verus!
