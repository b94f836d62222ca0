//! The format itself: which bytes denote which value, and which bytes a
//! value is written as.

use super::decimal::{decimal_digits, decimal_value, digits_end, is_digit};
use super::value::ValueView;
use vstd::prelude::*;

verus! {

/// `i`, which opens an integer.
pub const TAG_INTEGER: u8 = 0x69;

/// `l`, which opens a list.
pub const TAG_LIST: u8 = 0x6c;

/// `d`, which opens a dictionary.
pub const TAG_DICTIONARY: u8 = 0x64;

/// `e`, which closes an integer, a list or a dictionary.
pub const TAG_END: u8 = 0x65;

/// `:`, which parts a byte string's length from its bytes.
pub const COLON: u8 = 0x3a;

/// `-`, the sign of a negative integer.
pub const MINUS: u8 = 0x2d;

/// Why some bytes denote no value.
#[derive(Clone, Copy, Debug, PartialEq, Eq, Structural)]
pub enum DecodeError {
    /// The input ends before the value does.
    UnexpectedEnd,
    /// An integer has no digits, holds something other than digits after
    /// its sign, or does not fit in 64 bits.
    InvalidInteger,
    /// Something other than a colon follows the digits of a length.
    InvalidLength,
    /// A dictionary key is no byte string.
    NonStringKey,
    /// The first byte opens no value.
    UnknownType,
}

/// A value read from the front of some bytes, and how many bytes it took.
pub type Parsed<T> = Result<(T, nat), DecodeError>;

/// Reads an integer: `i`, an optional `-`, one digit or more, `e`.
pub open spec fn parse_integer(s: Seq<u8>) -> Parsed<ValueView> {
    let negative = s.len() > 1 && s[1] == MINUS;
    let start: int = if negative { 2 } else { 1 };
    let end = digits_end(s, start);
    let magnitude = decimal_value(s.subrange(start, end));
    if end >= s.len() {
        Err(DecodeError::UnexpectedEnd)
    } else if s[end] != TAG_END || end == start {
        Err(DecodeError::InvalidInteger)
    } else if negative && magnitude <= 0x8000_0000_0000_0000 {
        Ok((ValueView::Integer((-magnitude) as i64), (end + 1) as nat))
    } else if !negative && magnitude <= 0x7fff_ffff_ffff_ffff {
        Ok((ValueView::Integer(magnitude as i64), (end + 1) as nat))
    } else {
        Err(DecodeError::InvalidInteger)
    }
}

/// Reads a byte string: the digits of its length, `:`, then that many bytes.
pub open spec fn parse_byte_string(s: Seq<u8>) -> Parsed<ValueView> {
    let end = digits_end(s, 0);
    let length = decimal_value(s.subrange(0, end));
    if end >= s.len() {
        Err(DecodeError::UnexpectedEnd)
    } else if s[end] != COLON {
        Err(DecodeError::InvalidLength)
    } else if end + 1 + length > s.len() {
        Err(DecodeError::UnexpectedEnd)
    } else {
        Ok((ValueView::ByteString(s.subrange(end + 1, end + 1 + length)), (end + 1 + length) as nat))
    }
}

/// Reads the value that `s` starts with.
pub open spec fn parse_value(s: Seq<u8>) -> Parsed<ValueView>
    decreases s.len(), 0nat,
{
    if s.len() == 0 {
        Err(DecodeError::UnexpectedEnd)
    } else if s[0] == TAG_INTEGER {
        parse_integer(s)
    } else if is_digit(s[0]) {
        parse_byte_string(s)
    } else if s[0] == TAG_LIST {
        match parse_items(s.skip(1)) {
            Ok((items, n)) => Ok((ValueView::List(items), n + 1)),
            Err(e) => Err(e),
        }
    } else if s[0] == TAG_DICTIONARY {
        match parse_entries(s.skip(1)) {
            Ok((entries, n)) => Ok((ValueView::Dictionary(entries), n + 1)),
            Err(e) => Err(e),
        }
    } else {
        Err(DecodeError::UnknownType)
    }
}

/// Reads the values of a list up to the `e` that closes it; the count of
/// bytes includes that `e`. The test on the count of bytes that a value
/// took makes the definition well-founded; it holds of every value.
pub open spec fn parse_items(s: Seq<u8>) -> Parsed<Seq<ValueView>>
    decreases s.len(), 1nat,
{
    if s.len() == 0 {
        Err(DecodeError::UnexpectedEnd)
    } else if s[0] == TAG_END {
        Ok((Seq::empty(), 1))
    } else {
        match parse_value(s) {
            Err(e) => Err(e),
            Ok((item, n)) => if 0 < n <= s.len() {
                match parse_items(s.skip(n as int)) {
                    Err(e) => Err(e),
                    Ok((rest, m)) => Ok((seq![item] + rest, n + m)),
                }
            } else {
                Err(DecodeError::UnexpectedEnd)
            },
        }
    }
}

/// Reads the entries of a dictionary, each a byte string and a value, up to
/// the `e` that closes it; the count of bytes includes that `e`. The entries
/// stay in the order in which they stand. The tests on the counts of bytes
/// make the definition well-founded; they hold of every key and value.
pub open spec fn parse_entries(s: Seq<u8>) -> Parsed<Seq<(Seq<u8>, ValueView)>>
    decreases s.len(), 1nat,
{
    if s.len() == 0 {
        Err(DecodeError::UnexpectedEnd)
    } else if s[0] == TAG_END {
        Ok((Seq::empty(), 1))
    } else if !is_digit(s[0]) {
        Err(DecodeError::NonStringKey)
    } else {
        match parse_byte_string(s) {
            Ok((ValueView::ByteString(key), n)) => if 0 < n <= s.len() {
                match parse_value(s.skip(n as int)) {
                    Err(e) => Err(e),
                    Ok((value, m)) => if 0 < m <= s.len() - n {
                        match parse_entries(s.skip((n + m) as int)) {
                            Err(e) => Err(e),
                            Ok((rest, k)) => Ok((seq![(key, value)] + rest, n + m + k)),
                        }
                    } else {
                        Err(DecodeError::UnexpectedEnd)
                    },
                }
            } else {
                Err(DecodeError::UnexpectedEnd)
            },
            Ok(_) => Err(DecodeError::NonStringKey),
            Err(e) => Err(e),
        }
    }
}

/// The notation of an integer: a `-` where it is negative, then the digits
/// of its magnitude.
pub open spec fn integer_digits(i: i64) -> Seq<u8> {
    if i < 0 {
        seq![MINUS] + decimal_digits((-i) as nat)
    } else {
        decimal_digits(i as nat)
    }
}

/// The notation of a byte string: the digits of its length, `:`, and the
/// bytes themselves.
pub open spec fn byte_string_notation(bytes: Seq<u8>) -> Seq<u8> {
    decimal_digits(bytes.len()) + seq![COLON] + bytes
}

/// The bytes that `v` is written as, every dictionary with its entries in
/// the order in which it holds them.
pub open spec fn serialization(v: ValueView) -> Seq<u8>
    decreases v,
{
    match v {
        ValueView::Integer(i) => seq![TAG_INTEGER] + integer_digits(i) + seq![TAG_END],
        ValueView::ByteString(bytes) => byte_string_notation(bytes),
        ValueView::List(items) => seq![TAG_LIST] + serialization_of_items(items) + seq![TAG_END],
        ValueView::Dictionary(entries) => seq![TAG_DICTIONARY] + serialization_of_entries(entries)
            + seq![TAG_END],
    }
}

/// The values of a list written one after the other.
pub open spec fn serialization_of_items(items: Seq<ValueView>) -> Seq<u8>
    decreases items,
{
    if items.len() == 0 {
        Seq::empty()
    } else {
        serialization_of_items(items.drop_last()) + serialization(items.last())
    }
}

/// The entries of a dictionary written one after the other, each as its key
/// and then its value.
pub open spec fn serialization_of_entries(entries: Seq<(Seq<u8>, ValueView)>) -> Seq<u8>
    decreases entries,
{
    if entries.len() == 0 {
        Seq::empty()
    } else {
        serialization_of_entries(entries.drop_last()) + byte_string_notation(entries.last().0)
            + serialization(entries.last().1)
    }
}

} // verus!
