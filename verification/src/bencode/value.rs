//! Bencoded values and their mathematical model.

use crate::text::same_bytes;
use vstd::prelude::*;

verus! {

/// A bencoded value.
#[derive(Debug, PartialEq, Eq)]
pub enum Value {
    Integer(i64),
    ByteString(Vec<u8>),
    List(Vec<Value>),
    /// The entries in the order in which they are held.
    Dictionary(Vec<(Vec<u8>, Value)>),
}

/// The mathematical model of a [`Value`].
pub enum ValueView {
    Integer(i64),
    ByteString(Seq<u8>),
    List(Seq<ValueView>),
    Dictionary(Seq<(Seq<u8>, ValueView)>),
}

/// The models of the values of a list, in order.
pub open spec fn view_items(items: Seq<Value>) -> Seq<ValueView>
    decreases items,
{
    if items.len() == 0 {
        Seq::empty()
    } else {
        view_items(items.drop_last()).push(items.last().view())
    }
}

/// The models of the entries of a dictionary, in order.
pub open spec fn view_entries(entries: Seq<(Vec<u8>, Value)>) -> Seq<(Seq<u8>, ValueView)>
    decreases entries,
{
    if entries.len() == 0 {
        Seq::empty()
    } else {
        view_entries(entries.drop_last()).push((entries.last().0@, entries.last().1.view()))
    }
}

/// The model of a list holds the model of each item, in place.
pub proof fn lemma_view_items(items: Seq<Value>)
    ensures
        view_items(items).len() == items.len(),
        forall|i: int| 0 <= i < items.len() ==> #[trigger] view_items(items)[i] == items[i]@,
    decreases items.len(),
{
    if items.len() > 0 {
        lemma_view_items(items.drop_last());
        assert(view_items(items) == view_items(items.drop_last()).push(items.last()@));
    } else {
        assert(view_items(items) == Seq::<ValueView>::empty());
    }
}

/// The model of a dictionary holds the model of each entry, in place.
pub proof fn lemma_view_entries(entries: Seq<(Vec<u8>, Value)>)
    ensures
        view_entries(entries).len() == entries.len(),
        forall|i: int|
            0 <= i < entries.len() ==> #[trigger] view_entries(entries)[i] == (
                entries[i].0@,
                entries[i].1@,
            ),
    decreases entries.len(),
{
    if entries.len() > 0 {
        lemma_view_entries(entries.drop_last());
        assert(view_entries(entries) == view_entries(entries.drop_last()).push(
            (entries.last().0@, entries.last().1@),
        ));
    } else {
        assert(view_entries(entries) == Seq::<(Seq<u8>, ValueView)>::empty());
    }
}

/// What a dictionary holds under `key`: the value of the first entry with
/// that key.
pub open spec fn lookup(entries: Seq<(Seq<u8>, ValueView)>, key: Seq<u8>) -> Option<ValueView>
    decreases entries.len(),
{
    if entries.len() == 0 {
        None
    } else if entries[0].0 == key {
        Some(entries[0].1)
    } else {
        lookup(entries.skip(1), key)
    }
}

impl ValueView {
    /// What this dictionary holds under `key`; `None` where it holds
    /// nothing under it, or is no dictionary.
    pub open spec fn get(self, key: Seq<u8>) -> Option<ValueView> {
        match self {
            ValueView::Dictionary(entries) => lookup(entries, key),
            _ => None,
        }
    }
}

impl View for Value {
    type V = ValueView;

    open spec fn view(&self) -> ValueView
        decreases self,
    {
        match self {
            Value::Integer(i) => ValueView::Integer(*i),
            Value::ByteString(b) => ValueView::ByteString(b@),
            Value::List(items) => ValueView::List(view_items(items@)),
            Value::Dictionary(entries) => ValueView::Dictionary(view_entries(entries@)),
        }
    }
}

impl Value {
    /// What this dictionary holds under `key`; `None` where it holds
    /// nothing under it, or is no dictionary.
    #[verifier::loop_isolation(false)]
    pub fn get(&self, key: &[u8]) -> (found: Option<&Value>)
        ensures
            match self@.get(key@) {
                Some(v) => found matches Some(value) && value@ == v,
                None => found is None,
            },
    {
        match self {
            Value::Dictionary(entries) => {
                let ghost models = view_entries(entries@);
                let mut i: usize = 0;
                proof {
                    lemma_view_entries(entries@);
                    assert(models.skip(0) =~= models);
                }
                while i < entries.len()
                    invariant
                        i <= entries.len(),
                        models == view_entries(entries@),
                        models.len() == entries@.len(),
                        forall|k: int|
                            0 <= k < entries@.len() ==> #[trigger] models[k] == (
                                entries@[k].0@,
                                entries@[k].1@,
                            ),
                        lookup(models, key@) == lookup(models.skip(i as int), key@),
                    decreases entries.len() - i,
                {
                    proof {
                        assert(models.skip(i as int)[0] == models[i as int]);
                    }
                    if same_bytes(entries[i].0.as_slice(), key) {
                        return Some(&entries[i].1);
                    }
                    proof {
                        assert(models.skip(i as int).skip(1) =~= models.skip(i + 1));
                    }
                    i = i + 1;
                }
                None
            },
            _ => None,
        }
    }
}

} // verus!
