//! The metainfo model: what a torrent file says of the content it shares.

use crate::bencode::canonical::encoding;
use crate::bencode::encode::encode;
use crate::bencode::decode::decode;
use crate::bencode::grammar::{parse_value, DecodeError};
use crate::bencode::value::{lemma_view_entries, view_entries, Value, ValueView};
use crate::text::{ascii, ascii_bytes, string_from_utf8};
use crate::digest::{sha1, sha1_digest};
use vstd::prelude::*;
use vstd::slice::slice_to_vec;
use vstd::utf8::{decode_utf8, encode_utf8, valid_utf8};

verus! {

/// The length of a SHA-1 digest in bytes.
pub const DIGEST_LENGTH: usize = 20;

/// The mathematical model of a [`TorrentFileInfo`].
pub struct InfoView {
    /// The length of the content in bytes.
    pub length: nat,
    /// The name that the content is to be stored under.
    pub name: Seq<char>,
    /// The length in bytes of every piece but the last.
    pub piece_length: nat,
    /// The digests of the pieces, one after the other.
    pub pieces: Seq<u8>,
}

/// The number of pieces that content of `length` bytes falls into: as many
/// whole pieces as fit, and one more for what is left.
pub open spec fn piece_count_of(length: nat, piece_length: nat) -> nat {
    if piece_length == 0 {
        0
    } else if length % piece_length == 0 {
        length / piece_length
    } else {
        length / piece_length + 1
    }
}

impl InfoView {
    /// Whether the description is one of some content: the piece length is
    /// positive, there is one digest for each piece, and both lengths can
    /// be written as bencoded integers.
    pub open spec fn valid(self) -> bool {
        &&& 0 < self.piece_length <= i64::MAX
        &&& self.length <= i64::MAX
        &&& self.pieces.len() == self.piece_count() * DIGEST_LENGTH
    }

    /// The number of pieces.
    pub open spec fn piece_count(self) -> nat {
        piece_count_of(self.length, self.piece_length)
    }

    /// The length of piece `n`: the piece length for every piece but the
    /// last, what is left of the content for the last, and nothing for an
    /// index that is no piece's.
    pub open spec fn piece_length_at(self, n: nat) -> nat {
        if n + 1 < self.piece_count() {
            self.piece_length
        } else if n + 1 == self.piece_count() {
            if self.length % self.piece_length == 0 {
                self.piece_length
            } else {
                self.length % self.piece_length
            }
        } else {
            0
        }
    }

    /// The digest that piece `n` must have.
    pub open spec fn piece_digest(self, n: nat) -> Seq<u8> {
        self.pieces.subrange(n * DIGEST_LENGTH, n * DIGEST_LENGTH + DIGEST_LENGTH)
    }

    /// The length of the first `k` pieces together.
    pub open spec fn length_of_pieces(self, k: nat) -> nat
        decreases k,
    {
        if k == 0 {
            0
        } else {
            self.length_of_pieces((k - 1) as nat) + self.piece_length_at((k - 1) as nat)
        }
    }
}

/// The dictionary whose encoding identifies the content: `length`, `name`,
/// `piece length` and `pieces`.
pub open spec fn info_value(info: InfoView) -> ValueView {
    ValueView::Dictionary(
        seq![
            (ascii("length"), ValueView::Integer(info.length as i64)),
            (ascii("name"), ValueView::ByteString(encode_utf8(info.name))),
            (ascii("piece length"), ValueView::Integer(info.piece_length as i64)),
            (ascii("pieces"), ValueView::ByteString(info.pieces)),
        ],
    )
}

/// The content identifier: the SHA-1 digest of the canonical encoding of
/// the info dictionary.
pub open spec fn content_identifier(info: InfoView) -> Seq<u8> {
    sha1_digest(encoding(info_value(info)))
}

/// A field of a torrent file or of a tracker's reply.
#[derive(Clone, Copy, Debug, PartialEq, Eq, Structural)]
pub enum Field {
    Announce,
    Info,
    Length,
    Name,
    PieceLength,
    Pieces,
    Interval,
    Peers,
}

/// Why some bytes are no torrent file, or no tracker's reply.
#[derive(Clone, Copy, Debug, PartialEq, Eq, Structural)]
pub enum ParseError {
    /// The bytes are no bencoded value.
    MalformedInput(DecodeError),
    /// The value is no dictionary.
    NotADictionary,
    /// The dictionary holds nothing under the key of this field.
    MissingField(Field),
    /// What the dictionary holds for this field is of the wrong kind or
    /// out of range: text that is no byte string or no UTF-8, a length
    /// that is no integer, is negative or does not fit, a piece length of
    /// zero.
    InvalidField(Field),
    /// The digests are not one of 20 bytes for each piece.
    PieceDigests,
}

/// The text that `dict` holds under `key`.
pub open spec fn text_field(dict: ValueView, key: Seq<u8>, field: Field) -> Result<
    Seq<char>,
    ParseError,
> {
    match dict.get(key) {
        None => Err(ParseError::MissingField(field)),
        Some(ValueView::ByteString(bytes)) => if valid_utf8(bytes) {
            Ok(decode_utf8(bytes))
        } else {
            Err(ParseError::InvalidField(field))
        },
        Some(_) => Err(ParseError::InvalidField(field)),
    }
}

/// The bytes that `dict` holds under `key`.
pub open spec fn bytes_field(dict: ValueView, key: Seq<u8>, field: Field) -> Result<
    Seq<u8>,
    ParseError,
> {
    match dict.get(key) {
        None => Err(ParseError::MissingField(field)),
        Some(ValueView::ByteString(bytes)) => Ok(bytes),
        Some(_) => Err(ParseError::InvalidField(field)),
    }
}

/// The size that `dict` holds under `key`: an integer that is not negative
/// and fits in `usize`.
pub open spec fn size_field(dict: ValueView, key: Seq<u8>, field: Field) -> Result<
    nat,
    ParseError,
> {
    match dict.get(key) {
        None => Err(ParseError::MissingField(field)),
        Some(ValueView::Integer(i)) => if 0 <= i <= usize::MAX {
            Ok(i as nat)
        } else {
            Err(ParseError::InvalidField(field))
        },
        Some(_) => Err(ParseError::InvalidField(field)),
    }
}

/// The description with these four fields, where they make a valid one.
pub open spec fn described(length: nat, name: Seq<char>, piece_length: nat, pieces: Seq<u8>) -> Result<
    InfoView,
    ParseError,
> {
    if length > i64::MAX {
        Err(ParseError::InvalidField(Field::Length))
    } else if piece_length == 0 || piece_length > i64::MAX {
        Err(ParseError::InvalidField(Field::PieceLength))
    } else if pieces.len() != piece_count_of(length, piece_length) * DIGEST_LENGTH {
        Err(ParseError::PieceDigests)
    } else {
        Ok(InfoView { length, name, piece_length, pieces })
    }
}

/// The description that the dictionary `dict` gives under `length`, `name`,
/// `piece length` and `pieces`. The fields are looked at in this order, and
/// the first that fails says why there is none; what else `dict` holds does
/// not count.
pub open spec fn info_of(dict: ValueView) -> Result<InfoView, ParseError> {
    match size_field(dict, ascii("length"), Field::Length) {
        Err(e) => Err(e),
        Ok(length) => match text_field(dict, ascii("name"), Field::Name) {
            Err(e) => Err(e),
            Ok(name) => match size_field(dict, ascii("piece length"), Field::PieceLength) {
                Err(e) => Err(e),
                Ok(piece_length) => match bytes_field(dict, ascii("pieces"), Field::Pieces) {
                    Err(e) => Err(e),
                    Ok(pieces) => described(length, name, piece_length, pieces),
                },
            },
        },
    }
}

/// The mathematical model of a [`TorrentFile`].
pub struct MetainfoView {
    /// The URL of the tracker.
    pub announce: Seq<char>,
    /// The description of the content.
    pub info: InfoView,
}

/// The torrent file that the value `v` is: a dictionary with the tracker's
/// URL under `announce` and the description of the content, a dictionary
/// itself, under `info`.
pub open spec fn metainfo_of(v: ValueView) -> Result<MetainfoView, ParseError> {
    if !(v is Dictionary) {
        Err(ParseError::NotADictionary)
    } else {
        match text_field(v, ascii("announce"), Field::Announce) {
            Err(e) => Err(e),
            Ok(announce) => match v.get(ascii("info")) {
                None => Err(ParseError::MissingField(Field::Info)),
                Some(ValueView::Dictionary(entries)) => match info_of(
                    ValueView::Dictionary(entries),
                ) {
                    Err(e) => Err(e),
                    Ok(info) => Ok(MetainfoView { announce, info }),
                },
                Some(_) => Err(ParseError::InvalidField(Field::Info)),
            },
        }
    }
}

/// The torrent file that `bytes` start with the encoding of; what follows
/// the encoded value does not count.
pub open spec fn parse_metainfo(bytes: Seq<u8>) -> Result<MetainfoView, ParseError> {
    match parse_value(bytes) {
        Err(e) => Err(ParseError::MalformedInput(e)),
        Ok((v, _)) => metainfo_of(v),
    }
}

/// Reads the text that `dict` holds under `key`.
pub fn read_text(dict: &Value, key: &str, field: Field) -> (r: Result<String, ParseError>)
    requires
        key.is_ascii(),
    ensures
        match text_field(dict@, ascii(key), field) {
            Ok(text) => r matches Ok(s) && s@ == text,
            Err(e) => r matches Err(found) && found == e,
        },
{
    let key = ascii_bytes(key);
    match dict.get(key.as_slice()) {
        None => Err(ParseError::MissingField(field)),
        Some(Value::ByteString(bytes)) => match string_from_utf8(slice_to_vec(bytes.as_slice())) {
            Some(text) => Ok(text),
            None => Err(ParseError::InvalidField(field)),
        },
        Some(_) => Err(ParseError::InvalidField(field)),
    }
}

/// Reads the bytes that `dict` holds under `key`.
pub fn read_bytes(dict: &Value, key: &str, field: Field) -> (r: Result<Vec<u8>, ParseError>)
    requires
        key.is_ascii(),
    ensures
        match bytes_field(dict@, ascii(key), field) {
            Ok(bytes) => r matches Ok(b) && b@ == bytes,
            Err(e) => r matches Err(found) && found == e,
        },
{
    let key = ascii_bytes(key);
    match dict.get(key.as_slice()) {
        None => Err(ParseError::MissingField(field)),
        Some(Value::ByteString(bytes)) => Ok(slice_to_vec(bytes.as_slice())),
        Some(_) => Err(ParseError::InvalidField(field)),
    }
}

/// Reads the size that `dict` holds under `key`.
pub fn read_size(dict: &Value, key: &str, field: Field) -> (r: Result<usize, ParseError>)
    requires
        key.is_ascii(),
    ensures
        match size_field(dict@, ascii(key), field) {
            Ok(size) => r matches Ok(n) && n == size,
            Err(e) => r matches Err(found) && found == e,
        },
{
    let key = ascii_bytes(key);
    match dict.get(key.as_slice()) {
        None => Err(ParseError::MissingField(field)),
        Some(Value::Integer(i)) => {
            if *i < 0 || *i as u64 > usize::MAX as u64 {
                Err(ParseError::InvalidField(field))
            } else {
                Ok(*i as usize)
            }
        },
        Some(_) => Err(ParseError::InvalidField(field)),
    }
}

/// What a torrent file says of its content.
#[derive(Debug, PartialEq, Eq)]
pub struct TorrentFileInfo {
    length: usize,
    name: String,
    plength: usize,
    pieces_data: Vec<u8>,
}

impl View for TorrentFileInfo {
    type V = InfoView;

    closed spec fn view(&self) -> InfoView {
        InfoView {
            length: self.length as nat,
            name: self.name@,
            piece_length: self.plength as nat,
            pieces: self.pieces_data@,
        }
    }
}

impl TorrentFileInfo {
    #[verifier::type_invariant]
    spec fn well_formed(&self) -> bool {
        self@.valid()
    }

    /// The description with these four fields, where they make a valid
    /// one.
    pub fn new(length: usize, name: String, plength: usize, pieces_data: Vec<u8>) -> (r: Result<
        TorrentFileInfo,
        ParseError,
    >)
        ensures
            match described(length as nat, name@, plength as nat, pieces_data@) {
                Ok(info) => r matches Ok(made) && made@ == info,
                Err(e) => r matches Err(found) && found == e,
            },
    {
        if length as u64 > i64::MAX as u64 {
            return Err(ParseError::InvalidField(Field::Length));
        }
        if plength == 0 || plength as u64 > i64::MAX as u64 {
            return Err(ParseError::InvalidField(Field::PieceLength));
        }
        let whole: usize = length / plength;
        let count: usize = if length % plength == 0 {
            whole
        } else {
            proof {
                assert(whole < length) by (nonlinear_arith)
                    requires
                        whole == length / plength,
                        length % plength != 0,
                        plength > 0,
                        length >= 0,
                {
                    if plength == 1 {
                        assert(length % 1 == 0);
                    } else {
                        assert(length / plength <= length / 2);
                        assert(length > 0);
                    }
                }
            }
            whole + 1
        };
        if pieces_data.len() % DIGEST_LENGTH != 0 || pieces_data.len() / DIGEST_LENGTH != count {
            return Err(ParseError::PieceDigests);
        }
        Ok(TorrentFileInfo { length, name, plength, pieces_data })
    }

    /// The length of the content in bytes.
    pub fn length(&self) -> (length: usize)
        ensures
            length == self@.length,
    {
        self.length
    }

    /// The name that the content is to be stored under.
    pub fn name(&self) -> (name: &str)
        ensures
            name@ == self@.name,
    {
        self.name.as_str()
    }

    /// The length in bytes of every piece but the last.
    pub fn plength(&self) -> (plength: usize)
        ensures
            plength == self@.piece_length,
            plength > 0,
    {
        proof {
            use_type_invariant(self);
        }
        self.plength
    }

    /// The digests of the pieces, one after the other.
    pub fn pieces_data(&self) -> (pieces: &[u8])
        ensures
            pieces@ == self@.pieces,
    {
        self.pieces_data.as_slice()
    }

    /// The digest that piece `index` must have; `None` where `index` is no
    /// piece's.
    pub fn piece_digest(&self, index: usize) -> (digest: Option<&[u8]>)
        ensures
            index < self@.piece_count() ==> (digest matches Some(d) && d@ == self@.piece_digest(
                index as nat,
            ) && d@.len() == DIGEST_LENGTH),
            index >= self@.piece_count() ==> digest is None,
    {
        proof {
            use_type_invariant(self);
        }
        if index >= self.n_pieces() {
            None
        } else {
            assert(index * 20 + 20 <= self.pieces_data.len());
            let start: usize = index * DIGEST_LENGTH;
            Some(
                vstd::slice::slice_subrange(
                    self.pieces_data.as_slice(),
                    start,
                    start + DIGEST_LENGTH,
                ),
            )
        }
    }

    /// The digests of the pieces, one for each piece, in order.
    pub fn pieces(&self) -> (digests: Vec<&[u8]>)
        ensures
            digests@.len() == self@.piece_count(),
            forall|i: int|
                0 <= i < digests@.len() ==> (#[trigger] digests@[i])@ == self@.piece_digest(i as nat),
    {
        proof {
            use_type_invariant(self);
        }
        let count = self.n_pieces();
        let mut digests: Vec<&[u8]> = Vec::new();
        let mut i: usize = 0;
        while i < count
            invariant
                i <= count,
                count == self@.piece_count(),
                self@.pieces.len() == count * DIGEST_LENGTH,
                self.pieces_data@ == self@.pieces,
                digests@.len() == i,
                forall|k: int|
                    0 <= k < i ==> (#[trigger] digests@[k])@ == self@.piece_digest(k as nat),
            decreases count - i,
        {
            assert(i * 20 + 20 <= self.pieces_data.len());
            let start: usize = i * DIGEST_LENGTH;
            let digest = vstd::slice::slice_subrange(
                self.pieces_data.as_slice(),
                start,
                start + DIGEST_LENGTH,
            );
            digests.push(digest);
            i = i + 1;
        }
        digests
    }

    /// The content identifier, or info hash: the SHA-1 digest of the
    /// canonical encoding of the dictionary of the four fields.
    pub fn hash(&self) -> (digest: [u8; 20])
        ensures
            digest@ == content_identifier(self@),
    {
        proof {
            use_type_invariant(self);
            reveal_strlit("length");
            reveal_strlit("name");
            reveal_strlit("piece length");
            reveal_strlit("pieces");
        }
        let mut entries: Vec<(Vec<u8>, Value)> = Vec::new();
        entries.push((ascii_bytes("length"), Value::Integer(self.length as i64)));
        entries.push((ascii_bytes("name"), Value::ByteString(self.name.as_str().as_bytes_vec())));
        entries.push((ascii_bytes("piece length"), Value::Integer(self.plength as i64)));
        entries.push(
            (ascii_bytes("pieces"), Value::ByteString(slice_to_vec(self.pieces_data.as_slice()))),
        );
        let value = Value::Dictionary(entries);
        proof {
            lemma_view_entries(entries@);
            assert(value@ =~= info_value(self@)) by {
                assert(view_entries(entries@) =~= info_value(self@)->Dictionary_0);
            }
        }
        let encoded = encode(&value);
        sha1(encoded.as_slice())
    }

    /// The number of pieces.
    pub fn n_pieces(&self) -> (n: usize)
        ensures
            n == self@.piece_count(),
            self@.valid(),
    {
        proof {
            use_type_invariant(self);
        }
        self.pieces_data.len() / DIGEST_LENGTH
    }

    /// The length of piece `n`.
    pub fn nth_plength(&self, n: usize) -> (length: usize)
        ensures
            length == self@.piece_length_at(n as nat),
    {
        proof {
            use_type_invariant(self);
        }
        let n_pieces = self.n_pieces();
        if n >= n_pieces {
            0
        } else if n < n_pieces - 1 {
            self.plength
        } else {
            let rest: usize = self.length % self.plength;
            if rest == 0 {
                self.plength
            } else {
                rest
            }
        }
    }
}

/// A torrent file: where the tracker is, and what the content is.
#[derive(Debug, PartialEq, Eq)]
pub struct TorrentFile {
    /// The URL of the tracker.
    pub announce: String,
    /// The description of the content.
    pub info: TorrentFileInfo,
}

impl View for TorrentFile {
    type V = MetainfoView;

    open spec fn view(&self) -> MetainfoView {
        MetainfoView { announce: self.announce@, info: self.info@ }
    }
}

impl TorrentFile {
    /// The torrent file that the value `v` is.
    pub fn from_value(v: &Value) -> (r: Result<TorrentFile, ParseError>)
        ensures
            match metainfo_of(v@) {
                Ok(m) => r matches Ok(file) && file@ == m,
                Err(e) => r matches Err(found) && found == e,
            },
    {
        proof {
            reveal_strlit("announce");
            reveal_strlit("info");
            reveal_strlit("length");
            reveal_strlit("name");
            reveal_strlit("piece length");
            reveal_strlit("pieces");
        }
        match v {
            Value::Dictionary(_) => {},
            _ => {
                return Err(ParseError::NotADictionary);
            },
        }
        let announce = match read_text(v, "announce", Field::Announce) {
            Ok(text) => text,
            Err(e) => {
                return Err(e);
            },
        };
        let key = ascii_bytes("info");
        let dict = match v.get(key.as_slice()) {
            None => {
                return Err(ParseError::MissingField(Field::Info));
            },
            Some(found) => found,
        };
        match dict {
            Value::Dictionary(_) => {},
            _ => {
                return Err(ParseError::InvalidField(Field::Info));
            },
        }
        let length = match read_size(dict, "length", Field::Length) {
            Ok(n) => n,
            Err(e) => {
                return Err(e);
            },
        };
        let name = match read_text(dict, "name", Field::Name) {
            Ok(text) => text,
            Err(e) => {
                return Err(e);
            },
        };
        let plength = match read_size(dict, "piece length", Field::PieceLength) {
            Ok(n) => n,
            Err(e) => {
                return Err(e);
            },
        };
        let pieces = match read_bytes(dict, "pieces", Field::Pieces) {
            Ok(bytes) => bytes,
            Err(e) => {
                return Err(e);
            },
        };
        match TorrentFileInfo::new(length, name, plength, pieces) {
            Ok(info) => Ok(TorrentFile { announce, info }),
            Err(e) => Err(e),
        }
    }

    /// The torrent file that `bytes` start with the encoding of.
    pub fn from_bytes(bytes: &[u8]) -> (r: Result<TorrentFile, ParseError>)
        ensures
            match parse_metainfo(bytes@) {
                Ok(m) => r matches Ok(file) && file@ == m,
                Err(e) => r matches Err(found) && found == e,
            },
    {
        proof {
            assert(bytes@.skip(0) =~= bytes@);
        }
        match decode(bytes, 0) {
            Err(e) => Err(ParseError::MalformedInput(e)),
            Ok((value, _)) => TorrentFile::from_value(&value),
        }
    }
}

} // verus!
