//! What holds of the metainfo model: of the pieces, and of the content
//! identifier.

use crate::bencode::canonical::{canonical, encoding, is_canonical};
use crate::bencode::laws::{lemma_canonical_of_canonical, theorem_decode_encode};
use crate::bencode::order::key_lt;
use crate::bencode::value::{lookup, ValueView};
use crate::text::ascii;
use crate::tfile::{content_identifier, info_of, info_value, metainfo_of, parse_metainfo, InfoView};
use vstd::prelude::*;

verus! {

/// All pieces but the last have the piece length.
pub proof fn lemma_length_of_whole_pieces(info: InfoView, k: nat)
    requires
        info.valid(),
        k < info.piece_count(),
    ensures
        info.length_of_pieces(k) == k * info.piece_length,
    decreases k,
{
    if k > 0 {
        lemma_length_of_whole_pieces(info, (k - 1) as nat);
        assert((k - 1) * info.piece_length + info.piece_length == k * info.piece_length)
            by (nonlinear_arith);
    } else {
        assert(0 * info.piece_length == 0);
    }
}

/// The pieces make up the content: their lengths add up to its length.
pub proof fn lemma_pieces_cover_content(info: InfoView)
    requires
        info.valid(),
    ensures
        info.length_of_pieces(info.piece_count()) == info.length,
{
    let count = info.piece_count();
    let size = info.piece_length;
    let whole = info.length / size;
    let rest = info.length % size;
    assert(info.length == size * whole + rest) by {
        vstd::arithmetic::div_mod::lemma_fundamental_div_mod(info.length as int, size as int);
    }
    if count > 0 {
        lemma_length_of_whole_pieces(info, (count - 1) as nat);
        if rest == 0 {
            assert((whole - 1) * size + size == size * whole) by (nonlinear_arith);
        } else {
            assert(whole * size == size * whole) by (nonlinear_arith);
        }
    } else {
        assert(size * 0 == 0);
    }
}

/// Every piece is as long as the piece length at most, and no piece is
/// empty.
pub proof fn lemma_piece_length_bounds(info: InfoView, n: nat)
    requires
        info.valid(),
    ensures
        n < info.piece_count() ==> 0 < info.piece_length_at(n) <= info.piece_length,
        n >= info.piece_count() ==> info.piece_length_at(n) == 0,
{
    if n + 1 == info.piece_count() {
        vstd::arithmetic::div_mod::lemma_mod_bound(
            info.length as int,
            info.piece_length as int,
        );
    }
}

/// `entries` with the entries at `i` and after it in each other's place.
pub open spec fn swap_entries(entries: Seq<(Seq<u8>, ValueView)>, i: int) -> Seq<
    (Seq<u8>, ValueView),
> {
    entries.update(i, entries[i + 1]).update(i + 1, entries[i])
}

/// Two neighbouring entries with different keys can change places, and the
/// dictionary holds under every key what it held before.
pub proof fn lemma_lookup_swap(entries: Seq<(Seq<u8>, ValueView)>, i: int, key: Seq<u8>)
    requires
        0 <= i < entries.len() - 1,
        entries[i].0 != entries[i + 1].0,
    ensures
        lookup(swap_entries(entries, i), key) == lookup(entries, key),
    decreases i,
{
    let swapped = swap_entries(entries, i);
    reveal_with_fuel(lookup, 3);
    if i == 0 {
        assert(swapped[0] == entries[1]);
        assert(swapped.skip(1)[0] == entries[0]);
        assert(entries.skip(1)[0] == entries[1]);
        assert(swapped.skip(1).skip(1) =~= entries.skip(1).skip(1));
    } else {
        assert(swapped[0] == entries[0]);
        assert(swapped.skip(1) =~= swap_entries(entries.skip(1), i - 1));
        lemma_lookup_swap(entries.skip(1), i - 1, key);
    }
}

/// What a torrent file is depends only on what its dictionary holds under
/// each key, not on the order of the entries.
pub proof fn lemma_metainfo_ignores_order(
    first: Seq<(Seq<u8>, ValueView)>,
    second: Seq<(Seq<u8>, ValueView)>,
)
    requires
        forall|key: Seq<u8>| lookup(first, key) == lookup(second, key),
    ensures
        metainfo_of(ValueView::Dictionary(first)) == metainfo_of(ValueView::Dictionary(second)),
        info_of(ValueView::Dictionary(first)) == info_of(ValueView::Dictionary(second)),
{
}

/// With two neighbouring entries of different keys in each other's place,
/// at the top of a torrent file or in its `info` dictionary, the torrent
/// file is the same, and its content identifier with it.
pub proof fn lemma_identifier_ignores_key_order(entries: Seq<(Seq<u8>, ValueView)>, i: int)
    requires
        0 <= i < entries.len() - 1,
        entries[i].0 != entries[i + 1].0,
    ensures
        metainfo_of(ValueView::Dictionary(swap_entries(entries, i))) == metainfo_of(
            ValueView::Dictionary(entries),
        ),
        info_of(ValueView::Dictionary(swap_entries(entries, i))) == info_of(
            ValueView::Dictionary(entries),
        ),
{
    assert forall|key: Seq<u8>| lookup(swap_entries(entries, i), key) == lookup(entries, key) by {
        lemma_lookup_swap(entries, i, key);
    }
    lemma_metainfo_ignores_order(swap_entries(entries, i), entries);
}

/// The dictionary whose encoding identifies the content lists its keys in
/// ascending order: it is encoded as it stands.
pub proof fn lemma_info_value_is_canonical(info: InfoView)
    ensures
        is_canonical(info_value(info)),
        canonical(info_value(info)) == info_value(info),
{
    reveal_strlit("length");
    reveal_strlit("name");
    reveal_strlit("piece length");
    reveal_strlit("pieces");
    let length = ascii("length");
    let name = ascii("name");
    let piece_length = ascii("piece length");
    let pieces = ascii("pieces");
    assert(!key_lt(name, length));
    assert(!key_lt(piece_length, length));
    assert(!key_lt(pieces, length));
    assert(!key_lt(piece_length, name));
    assert(!key_lt(pieces, name));
    assert(!key_lt(pieces, piece_length)) by {
        reveal_with_fuel(key_lt, 8);
        assert(pieces.skip(1).skip(1).skip(1).skip(1).skip(1)[0] == pieces[5]);
        assert(piece_length.skip(1).skip(1).skip(1).skip(1).skip(1)[0] == piece_length[5]);
    }
    let entries = info_value(info)->Dictionary_0;
    assert forall|i: int| 0 <= i < entries.len() implies is_canonical((#[trigger] entries[i]).1) by {
        if i == 0 {
        } else if i == 1 {
        } else if i == 2 {
        } else {
        }
    }
    assert forall|i: int, j: int| 0 <= i < j < entries.len() implies !key_lt(
        (#[trigger] entries[j]).0,
        (#[trigger] entries[i]).0,
    ) by {
        assert(entries[0].0 == length);
        assert(entries[1].0 == name);
        assert(entries[2].0 == piece_length);
        assert(entries[3].0 == pieces);
    }
    lemma_canonical_of_canonical(info_value(info));
}

/// Two descriptions with the same encoding are the same description: what
/// the content identifier is the digest of differs wherever length, name,
/// piece length or digests differ.
pub proof fn lemma_identified_bytes_tell_descriptions_apart(a: InfoView, b: InfoView)
    requires
        a.valid(),
        b.valid(),
        encoding(info_value(a)) == encoding(info_value(b)),
    ensures
        a == b,
{
    theorem_decode_encode(info_value(a));
    theorem_decode_encode(info_value(b));
    lemma_info_value_is_canonical(a);
    lemma_info_value_is_canonical(b);
    assert(info_value(a) == info_value(b));
    let first = info_value(a)->Dictionary_0;
    let second = info_value(b)->Dictionary_0;
    assert(first[0] == second[0]);
    assert(first[1] == second[1]);
    assert(first[2] == second[2]);
    assert(first[3] == second[3]);
    vstd::utf8::encode_utf8_decode_utf8(a.name);
    vstd::utf8::encode_utf8_decode_utf8(b.name);
    assert(a.name == b.name);
    assert(a.pieces == b.pieces);
    assert(a.length == b.length);
    assert(a.piece_length == b.piece_length);
}

/// The content identifier is a function of the bytes of the torrent file:
/// the same bytes give the same torrent file, and the same identifier.
pub proof fn lemma_identifier_is_deterministic(first: Seq<u8>, second: Seq<u8>)
    requires
        first == second,
    ensures
        parse_metainfo(first) == parse_metainfo(second),
        parse_metainfo(first) matches Ok(m) ==> parse_metainfo(second) matches Ok(n)
            && content_identifier(m.info) == content_identifier(n.info),
{
}

} // verus!
