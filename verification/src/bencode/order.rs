//! The order of dictionary keys: byte strings compared byte by byte, and the
//! order in which a canonical dictionary lists its entries.

use vstd::prelude::*;

verus! {

/// Whether `a` comes strictly before `b` in the order of raw bytes: at the
/// first place where they differ `a` has the smaller byte, or `a` ends there
/// and `b` goes on.
pub open spec fn key_lt(a: Seq<u8>, b: Seq<u8>) -> bool
    decreases a.len(),
{
    if b.len() == 0 {
        false
    } else if a.len() == 0 {
        true
    } else if a[0] != b[0] {
        a[0] < b[0]
    } else {
        key_lt(a.skip(1), b.skip(1))
    }
}

/// `i` put into `order` behind every index whose key is not greater than
/// that of `i`. `order` lists indices into `keys` by ascending key.
pub open spec fn insert_by_key(keys: Seq<Seq<u8>>, order: Seq<int>, i: int) -> Seq<int>
    decreases order.len(),
{
    if order.len() == 0 || !key_lt(keys[i], keys[order.last()]) {
        order.push(i)
    } else {
        insert_by_key(keys, order.drop_last(), i).push(order.last())
    }
}

/// The indices of `keys` by ascending key; indices of equal keys stay in
/// ascending order.
pub open spec fn sort_order(keys: Seq<Seq<u8>>) -> Seq<int>
    decreases keys.len(),
{
    if keys.len() == 0 {
        Seq::empty()
    } else {
        insert_by_key(keys, sort_order(keys.drop_last()), keys.len() - 1)
    }
}

/// Whether `order` lists indices into `keys` so that no key comes before a
/// smaller one.
pub open spec fn ascending(keys: Seq<Seq<u8>>, order: Seq<int>) -> bool {
    &&& forall|a: int| 0 <= a < order.len() ==> 0 <= #[trigger] order[a] < keys.len()
    &&& forall|a: int, b: int|
        0 <= a < b < order.len() ==> !key_lt(keys[#[trigger] order[b]], keys[#[trigger] order[a]])
}

/// Whether `order` keeps the indices of equal keys in ascending order.
pub open spec fn stable(keys: Seq<Seq<u8>>, order: Seq<int>) -> bool {
    forall|a: int, b: int|
        0 <= a < b < order.len() && keys[#[trigger] order[a]] == keys[#[trigger] order[b]]
            ==> order[a] < order[b]
}

/// Whether `order` holds `n` indices, each of the first `n` among them.
pub open spec fn permutation(order: Seq<int>, n: nat) -> bool {
    &&& order.len() == n
    &&& forall|i: int| 0 <= i < n ==> order.contains(i)
}

/// No byte string comes before itself.
pub proof fn lemma_key_lt_irreflexive(a: Seq<u8>)
    ensures
        !key_lt(a, a),
    decreases a.len(),
{
    if a.len() > 0 {
        lemma_key_lt_irreflexive(a.skip(1));
    }
}

/// Of two different byte strings one comes before the other.
pub proof fn lemma_key_lt_total(a: Seq<u8>, b: Seq<u8>)
    ensures
        a == b || key_lt(a, b) || key_lt(b, a),
        !(key_lt(a, b) && key_lt(b, a)),
    decreases a.len(),
{
    if a.len() > 0 && b.len() > 0 && a[0] == b[0] {
        lemma_key_lt_total(a.skip(1), b.skip(1));
        if a.skip(1) == b.skip(1) {
            assert(a =~= seq![a[0]] + a.skip(1));
            assert(b =~= seq![b[0]] + b.skip(1));
        }
    } else if a.len() == 0 && b.len() == 0 {
        assert(a =~= b);
    }
}

/// What comes before something that comes before `c` comes before `c`.
pub proof fn lemma_key_lt_transitive(a: Seq<u8>, b: Seq<u8>, c: Seq<u8>)
    requires
        key_lt(a, b),
        key_lt(b, c),
    ensures
        key_lt(a, c),
    decreases a.len(),
{
    if a.len() > 0 && a[0] == b[0] && b[0] == c[0] {
        lemma_key_lt_transitive(a.skip(1), b.skip(1), c.skip(1));
    }
}

/// What does not come after `b`, which does not come after `c`, does not
/// come after `c`.
pub proof fn lemma_key_le_transitive(a: Seq<u8>, b: Seq<u8>, c: Seq<u8>)
    requires
        !key_lt(b, a),
        !key_lt(c, b),
    ensures
        !key_lt(c, a),
{
    lemma_key_lt_total(a, b);
    lemma_key_lt_total(b, c);
    if key_lt(c, a) {
        if a == b {
        } else if b == c {
        } else {
            lemma_key_lt_transitive(c, a, b);
            lemma_key_lt_total(c, b);
        }
    }
}

/// Where `i` goes when it is put into `order`: before the indices from `at`
/// on, whose keys are all greater, and behind the one before `at`, whose key
/// is not.
pub proof fn lemma_insert_by_key_at(keys: Seq<Seq<u8>>, order: Seq<int>, i: int, at: int)
    requires
        0 <= at <= order.len(),
        forall|q: int| at <= q < order.len() ==> key_lt(keys[i], keys[#[trigger] order[q]]),
        at > 0 ==> !key_lt(keys[i], keys[order[at - 1]]),
    ensures
        insert_by_key(keys, order, i) == order.take(at) + seq![i] + order.skip(at),
    decreases order.len() - at,
{
    if at == order.len() {
        assert(order.take(at) + seq![i] + order.skip(at) =~= order.push(i));
    } else {
        let shorter = order.drop_last();
        assert forall|q: int| at <= q < shorter.len() implies key_lt(
            keys[i],
            keys[#[trigger] shorter[q]],
        ) by {
            assert(shorter[q] == order[q]);
        }
        lemma_insert_by_key_at(keys, shorter, i, at);
        assert((shorter.take(at) + seq![i] + shorter.skip(at)).push(order.last()) =~= order.take(at)
            + seq![i] + order.skip(at));
    }
}

/// Putting an index into an ascending, stable order of the smaller indices
/// leaves it ascending and stable, with that index added.
pub proof fn lemma_insert_by_key_keeps(keys: Seq<Seq<u8>>, order: Seq<int>, i: int)
    requires
        0 <= i < keys.len(),
        ascending(keys, order),
        stable(keys, order),
        forall|a: int| 0 <= a < order.len() ==> #[trigger] order[a] < i,
    ensures
        ascending(keys, insert_by_key(keys, order, i)),
        stable(keys, insert_by_key(keys, order, i)),
        insert_by_key(keys, order, i).len() == order.len() + 1,
        insert_by_key(keys, order, i).contains(i),
        forall|x: int| order.contains(x) ==> insert_by_key(keys, order, i).contains(x),
        forall|a: int|
            0 <= a < order.len() + 1 ==> #[trigger] insert_by_key(keys, order, i)[a] <= i,
    decreases order.len(),
{
    let result = insert_by_key(keys, order, i);
    if order.len() == 0 || !key_lt(keys[i], keys[order.last()]) {
        assert(result[order.len() as int] == i);
        assert forall|x: int| order.contains(x) implies result.contains(x) by {
            let a = choose|a: int| 0 <= a < order.len() && order[a] == x;
            assert(result[a] == x);
        }
        assert forall|a: int, b: int| 0 <= a < b < result.len() implies !key_lt(
            keys[#[trigger] result[b]],
            keys[#[trigger] result[a]],
        ) by {
            if b == order.len() {
                assert(result[a] == order[a]);
                if a < order.len() - 1 {
                    assert(!key_lt(keys[order[order.len() - 1]], keys[order[a]]));
                    lemma_key_le_transitive(keys[order[a]], keys[order.last()], keys[i]);
                }
            } else {
                assert(result[a] == order[a] && result[b] == order[b]);
            }
        }
        assert forall|a: int, b: int|
            0 <= a < b < result.len() && keys[#[trigger] result[a]] == keys[#[trigger] result[b]]
            implies result[a] < result[b] by {
            if b == order.len() {
                assert(result[a] == order[a]);
            } else {
                assert(result[a] == order[a] && result[b] == order[b]);
            }
        }
    } else {
        let shorter = order.drop_last();
        let last = order.last();
        let inner = insert_by_key(keys, shorter, i);
        assert forall|a: int| 0 <= a < shorter.len() implies 0 <= #[trigger] shorter[a] < keys.len()
            && shorter[a] < i by {
            assert(shorter[a] == order[a]);
        }
        assert forall|a: int, b: int| 0 <= a < b < shorter.len() implies !key_lt(
            keys[#[trigger] shorter[b]],
            keys[#[trigger] shorter[a]],
        ) by {
            assert(shorter[a] == order[a] && shorter[b] == order[b]);
        }
        assert forall|a: int, b: int|
            0 <= a < b < shorter.len() && keys[#[trigger] shorter[a]] == keys[#[trigger] shorter[b]]
            implies shorter[a] < shorter[b] by {
            assert(shorter[a] == order[a] && shorter[b] == order[b]);
        }
        lemma_insert_by_key_keeps(keys, shorter, i);
        assert(result == inner.push(last));
        assert(result[inner.len() as int] == last);
        assert(order[order.len() - 1] == last);
        assert(inner.contains(i));
        assert(result.contains(i)) by {
            let a = choose|a: int| 0 <= a < inner.len() && inner[a] == i;
            assert(result[a] == i);
        }
        assert forall|x: int| order.contains(x) implies result.contains(x) by {
            let a = choose|a: int| 0 <= a < order.len() && order[a] == x;
            if a == order.len() - 1 {
                assert(result[inner.len() as int] == x);
            } else {
                assert(shorter[a] == x);
                assert(shorter.contains(x));
                assert(inner.contains(x));
                let c = choose|c: int| 0 <= c < inner.len() && inner[c] == x;
                assert(result[c] == x);
            }
        }
        // Every index that `inner` holds is `i` or one of `shorter`.
        lemma_insert_by_key_members(keys, shorter, i);
        assert forall|a: int, b: int| 0 <= a < b < result.len() implies !key_lt(
            keys[#[trigger] result[b]],
            keys[#[trigger] result[a]],
        ) by {
            if b == inner.len() {
                assert(result[a] == inner[a]);
                if inner[a] == i {
                    lemma_key_lt_total(keys[i], keys[last]);
                } else {
                    assert(shorter.contains(inner[a]));
                    let c = choose|c: int| 0 <= c < shorter.len() && shorter[c] == inner[a];
                    assert(order[c] == inner[a]);
                    assert(!key_lt(keys[order[order.len() - 1]], keys[order[c]]));
                }
            } else {
                assert(result[a] == inner[a] && result[b] == inner[b]);
            }
        }
        assert forall|a: int, b: int|
            0 <= a < b < result.len() && keys[#[trigger] result[a]] == keys[#[trigger] result[b]]
            implies result[a] < result[b] by {
            if b == inner.len() {
                assert(result[a] == inner[a]);
                if inner[a] == i {
                    lemma_key_lt_irreflexive(keys[i]);
                } else {
                    assert(shorter.contains(inner[a]));
                    let c = choose|c: int| 0 <= c < shorter.len() && shorter[c] == inner[a];
                    assert(order[c] == inner[a]);
                    assert(order[c] < order[order.len() - 1]);
                }
            } else {
                assert(result[a] == inner[a] && result[b] == inner[b]);
            }
        }
        assert forall|a: int| 0 <= a < order.len() + 1 implies #[trigger] result[a] <= i by {
            if a < inner.len() {
                assert(result[a] == inner[a]);
            }
        }
    }
}

/// An order with `i` put in holds `i` and what it held before, nothing else.
pub proof fn lemma_insert_by_key_members(keys: Seq<Seq<u8>>, order: Seq<int>, i: int)
    ensures
        forall|a: int|
            0 <= a < insert_by_key(keys, order, i).len() ==> #[trigger] insert_by_key(
                keys,
                order,
                i,
            )[a] == i || order.contains(insert_by_key(keys, order, i)[a]),
    decreases order.len(),
{
    let result = insert_by_key(keys, order, i);
    if order.len() == 0 || !key_lt(keys[i], keys[order.last()]) {
        assert forall|a: int| 0 <= a < result.len() implies #[trigger] result[a] == i
            || order.contains(result[a]) by {
            if a < order.len() {
                assert(order[a] == result[a]);
            }
        }
    } else {
        let shorter = order.drop_last();
        let inner = insert_by_key(keys, shorter, i);
        lemma_insert_by_key_members(keys, shorter, i);
        assert forall|a: int| 0 <= a < result.len() implies #[trigger] result[a] == i
            || order.contains(result[a]) by {
            if a < inner.len() {
                assert(result[a] == inner[a]);
                if inner[a] != i {
                    let c = choose|c: int| 0 <= c < shorter.len() && shorter[c] == inner[a];
                    assert(order[c] == inner[a]);
                }
            } else {
                assert(order[order.len() - 1] == result[a]);
            }
        }
    }
}

/// The sorted order lists every index, by ascending key, and keeps the
/// indices of equal keys in ascending order.
pub proof fn lemma_sort_order_sorts(keys: Seq<Seq<u8>>)
    ensures
        permutation(sort_order(keys), keys.len()),
        ascending(keys, sort_order(keys)),
        stable(keys, sort_order(keys)),
    decreases keys.len(),
{
    if keys.len() > 0 {
        let shorter = keys.drop_last();
        let order = sort_order(shorter);
        lemma_sort_order_sorts(shorter);
        assert forall|a: int| 0 <= a < order.len() implies #[trigger] order[a] < keys.len() - 1 by {}
        assert(ascending(keys, order)) by {
            assert forall|a: int, b: int| 0 <= a < b < order.len() implies !key_lt(
                keys[#[trigger] order[b]],
                keys[#[trigger] order[a]],
            ) by {
                assert(shorter[order[a]] == keys[order[a]]);
                assert(shorter[order[b]] == keys[order[b]]);
            }
        }
        assert(stable(keys, order)) by {
            assert forall|a: int, b: int|
                0 <= a < b < order.len() && keys[#[trigger] order[a]] == keys[#[trigger] order[b]]
                implies order[a] < order[b] by {
                assert(shorter[order[a]] == keys[order[a]]);
                assert(shorter[order[b]] == keys[order[b]]);
            }
        }
        lemma_insert_by_key_keeps(keys, order, keys.len() - 1);
        let result = sort_order(keys);
        assert forall|i: int| 0 <= i < keys.len() implies result.contains(i) by {
            if i < keys.len() - 1 {
                assert(order.contains(i));
            }
        }
    }
}

/// Whether `a` comes strictly before `b` in the order of raw bytes.
pub fn key_less(a: &[u8], b: &[u8]) -> (r: bool)
    ensures
        r == key_lt(a@, b@),
{
    let mut i: usize = 0;
    proof {
        assert(a@.skip(0) =~= a@);
        assert(b@.skip(0) =~= b@);
    }
    loop
        invariant
            i <= a.len(),
            i <= b.len(),
            key_lt(a@, b@) == key_lt(a@.skip(i as int), b@.skip(i as int)),
        decreases a.len() - i,
    {
        if i >= b.len() {
            return false;
        }
        if i >= a.len() {
            return true;
        }
        if a[i] != b[i] {
            return a[i] < b[i];
        }
        proof {
            assert(a@.skip(i as int).skip(1) =~= a@.skip(i + 1));
            assert(b@.skip(i as int).skip(1) =~= b@.skip(i + 1));
        }
        i = i + 1;
    }
}

} // verus!
