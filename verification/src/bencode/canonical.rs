//! The canonical form of a value, in which every dictionary lists its
//! entries by ascending key, and the encoding, which writes that form.

use super::grammar::serialization;
use super::order::{ascending, key_lt, sort_order};
use super::value::ValueView;
use vstd::prelude::*;

verus! {

/// The keys of the entries of a dictionary, in place.
pub open spec fn entry_keys(entries: Seq<(Seq<u8>, ValueView)>) -> Seq<Seq<u8>> {
    Seq::new(entries.len(), |i: int| entries[i].0)
}

/// The entries of a dictionary by ascending key; entries of equal keys stay
/// in the order in which they stood.
pub open spec fn sort_entries(entries: Seq<(Seq<u8>, ValueView)>) -> Seq<(Seq<u8>, ValueView)> {
    Seq::new(entries.len(), |j: int| entries[sort_order(entry_keys(entries))[j]])
}

/// `v` with the entries of every dictionary in it, at any depth, by
/// ascending key.
pub open spec fn canonical(v: ValueView) -> ValueView
    decreases v,
{
    match v {
        ValueView::Integer(_) => v,
        ValueView::ByteString(_) => v,
        ValueView::List(items) => ValueView::List(canonical_items(items)),
        ValueView::Dictionary(entries) => ValueView::Dictionary(
            sort_entries(canonical_entries(entries)),
        ),
    }
}

/// The canonical form of each value of a list, in place.
pub open spec fn canonical_items(items: Seq<ValueView>) -> Seq<ValueView>
    decreases items,
{
    if items.len() == 0 {
        Seq::empty()
    } else {
        canonical_items(items.drop_last()).push(canonical(items.last()))
    }
}

/// Each entry of a dictionary with its value in canonical form, in place.
pub open spec fn canonical_entries(entries: Seq<(Seq<u8>, ValueView)>) -> Seq<(Seq<u8>, ValueView)>
    decreases entries,
{
    if entries.len() == 0 {
        Seq::empty()
    } else {
        canonical_entries(entries.drop_last()).push(
            (entries.last().0, canonical(entries.last().1)),
        )
    }
}

/// The bytes that `v` is written as: its canonical form, serialized.
pub open spec fn encoding(v: ValueView) -> Seq<u8> {
    serialization(canonical(v))
}

/// Whether every dictionary in `v`, at any depth, lists its entries by
/// ascending key.
pub open spec fn is_canonical(v: ValueView) -> bool
    decreases v,
{
    match v {
        ValueView::Integer(_) => true,
        ValueView::ByteString(_) => true,
        ValueView::List(items) => forall|i: int|
            0 <= i < items.len() ==> is_canonical(#[trigger] items[i]),
        ValueView::Dictionary(entries) => {
            &&& forall|i: int| 0 <= i < entries.len() ==> is_canonical((#[trigger] entries[i]).1)
            &&& forall|i: int, j: int|
                0 <= i < j < entries.len() ==> !key_lt(
                    (#[trigger] entries[j]).0,
                    (#[trigger] entries[i]).0,
                )
        },
    }
}

/// The canonical form of a list holds the canonical form of each item.
pub proof fn lemma_canonical_items(items: Seq<ValueView>)
    ensures
        canonical_items(items).len() == items.len(),
        forall|i: int|
            0 <= i < items.len() ==> #[trigger] canonical_items(items)[i] == canonical(items[i]),
    decreases items.len(),
{
    if items.len() > 0 {
        lemma_canonical_items(items.drop_last());
    }
}

/// Making the values of the entries canonical leaves every key in place.
pub proof fn lemma_canonical_entries(entries: Seq<(Seq<u8>, ValueView)>)
    ensures
        canonical_entries(entries).len() == entries.len(),
        forall|i: int|
            0 <= i < entries.len() ==> #[trigger] canonical_entries(entries)[i] == (
                entries[i].0,
                canonical(entries[i].1),
            ),
        entry_keys(canonical_entries(entries)) == entry_keys(entries),
    decreases entries.len(),
{
    if entries.len() > 0 {
        lemma_canonical_entries(entries.drop_last());
    }
    assert(entry_keys(canonical_entries(entries)) =~= entry_keys(entries));
}

} // verus!
