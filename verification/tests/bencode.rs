use bittorrent::bencode::decode::decode;
use bittorrent::bencode::encode::{encode, sorted_indices};
use bittorrent::bencode::grammar::DecodeError;
use bittorrent::bencode::order::key_less;
use bittorrent::bencode::value::Value;
use std::collections::HashMap;

fn bytes(s: &str) -> Vec<u8> {
    s.as_bytes().to_vec()
}

fn text(s: &str) -> Value {
    Value::ByteString(bytes(s))
}

fn round_trip(v: &Value) -> Value {
    let encoded = encode(v);
    let (decoded, consumed) = decode(&encoded, 0).unwrap();
    assert_eq!(consumed, encoded.len());
    decoded
}

#[test]
fn decodes_byte_string() {
    assert_eq!(decode(b"4:spam", 0), Ok((text("spam"), 6)));
}

#[test]
fn decodes_negative_integer() {
    assert_eq!(decode(b"i-42e", 0), Ok((Value::Integer(-42), 5)));
}

#[test]
fn decodes_list() {
    let input = b"l4:spam4:eggse";
    assert_eq!(input.len(), 14);
    assert_eq!(
        decode(input, 0),
        Ok((Value::List(vec![text("spam"), text("eggs")]), 14))
    );
}

#[test]
fn decodes_dictionary() {
    let input = b"d3:cow3:moo4:spam4:eggse";
    assert_eq!(input.len(), 24);
    assert_eq!(
        decode(input, 0),
        Ok((
            Value::Dictionary(vec![(bytes("cow"), text("moo")), (bytes("spam"), text("eggs"))]),
            24
        ))
    );
}

#[test]
fn decode_keeps_the_order_of_entries() {
    assert_eq!(
        decode(b"d1:bi1e1:ai2ee", 0),
        Ok((
            Value::Dictionary(vec![
                (bytes("b"), Value::Integer(1)),
                (bytes("a"), Value::Integer(2))
            ]),
            14
        ))
    );
}

#[test]
fn decodes_at_an_offset_and_leaves_the_rest() {
    let input = b"xxi7e5:helloyy";
    assert_eq!(decode(input, 2), Ok((Value::Integer(7), 3)));
    assert_eq!(decode(input, 5), Ok((text("hello"), 7)));
}

#[test]
fn decodes_consecutive_values() {
    let input = b"i1ei2e3:abc";
    let (first, a) = decode(input, 0).unwrap();
    let (second, b) = decode(input, a).unwrap();
    let (third, c) = decode(input, a + b).unwrap();
    assert_eq!(first, Value::Integer(1));
    assert_eq!(second, Value::Integer(2));
    assert_eq!(third, text("abc"));
    assert_eq!(a + b + c, input.len());
}

#[test]
fn decode_beyond_the_end_fails() {
    assert_eq!(decode(b"i1e", 3), Err(DecodeError::UnexpectedEnd));
    assert_eq!(decode(b"i1e", 4), Err(DecodeError::UnexpectedEnd));
    assert_eq!(decode(b"", 0), Err(DecodeError::UnexpectedEnd));
}

#[test]
fn decodes_empty_containers_and_strings() {
    assert_eq!(decode(b"le", 0), Ok((Value::List(vec![]), 2)));
    assert_eq!(decode(b"de", 0), Ok((Value::Dictionary(vec![]), 2)));
    assert_eq!(decode(b"0:", 0), Ok((Value::ByteString(vec![]), 2)));
}

#[test]
fn decodes_integers_at_the_limits() {
    assert_eq!(
        decode(b"i9223372036854775807e", 0),
        Ok((Value::Integer(i64::MAX), 21))
    );
    assert_eq!(
        decode(b"i-9223372036854775808e", 0),
        Ok((Value::Integer(i64::MIN), 22))
    );
    assert_eq!(decode(b"i0e", 0), Ok((Value::Integer(0), 3)));
    assert_eq!(decode(b"i-0e", 0), Ok((Value::Integer(0), 4)));
    assert_eq!(decode(b"i007e", 0), Ok((Value::Integer(7), 5)));
}

#[test]
fn integer_out_of_range_is_invalid() {
    assert_eq!(
        decode(b"i9223372036854775808e", 0),
        Err(DecodeError::InvalidInteger)
    );
    assert_eq!(
        decode(b"i-9223372036854775809e", 0),
        Err(DecodeError::InvalidInteger)
    );
    assert_eq!(
        decode(b"i99999999999999999999999999999e", 0),
        Err(DecodeError::InvalidInteger)
    );
}

#[test]
fn integer_without_digits_is_invalid() {
    assert_eq!(decode(b"ie", 0), Err(DecodeError::InvalidInteger));
    assert_eq!(decode(b"i-e", 0), Err(DecodeError::InvalidInteger));
    assert_eq!(decode(b"i+5e", 0), Err(DecodeError::InvalidInteger));
    assert_eq!(decode(b"i12x4e", 0), Err(DecodeError::InvalidInteger));
    assert_eq!(decode(b"i 5e", 0), Err(DecodeError::InvalidInteger));
}

#[test]
fn unterminated_values_end_unexpectedly() {
    assert_eq!(decode(b"i", 0), Err(DecodeError::UnexpectedEnd));
    assert_eq!(decode(b"i-", 0), Err(DecodeError::UnexpectedEnd));
    assert_eq!(decode(b"i12", 0), Err(DecodeError::UnexpectedEnd));
    assert_eq!(decode(b"l4:spam", 0), Err(DecodeError::UnexpectedEnd));
    assert_eq!(decode(b"d3:cow3:moo", 0), Err(DecodeError::UnexpectedEnd));
    assert_eq!(decode(b"d3:cow", 0), Err(DecodeError::UnexpectedEnd));
    assert_eq!(decode(b"5:spam", 0), Err(DecodeError::UnexpectedEnd));
    assert_eq!(decode(b"5", 0), Err(DecodeError::UnexpectedEnd));
    assert_eq!(
        decode(b"99999999999999999999999999:a", 0),
        Err(DecodeError::UnexpectedEnd)
    );
}

#[test]
fn bad_length_prefix_is_invalid() {
    assert_eq!(decode(b"4spam", 0), Err(DecodeError::InvalidLength));
    assert_eq!(decode(b"4-:spam", 0), Err(DecodeError::InvalidLength));
}

#[test]
fn dictionary_key_must_be_a_byte_string() {
    assert_eq!(decode(b"di1e3:mooe", 0), Err(DecodeError::NonStringKey));
    assert_eq!(decode(b"dle3:mooe", 0), Err(DecodeError::NonStringKey));
    assert_eq!(decode(b"dxe", 0), Err(DecodeError::NonStringKey));
}

#[test]
fn unknown_first_byte_is_refused() {
    assert_eq!(decode(b"x", 0), Err(DecodeError::UnknownType));
    assert_eq!(decode(b"e", 0), Err(DecodeError::UnknownType));
    assert_eq!(decode(b"lxe", 0), Err(DecodeError::UnknownType));
    assert_eq!(decode(b"-5e", 0), Err(DecodeError::UnknownType));
}

#[test]
fn error_inside_a_container_is_the_containers() {
    assert_eq!(decode(b"li1ei-ee", 0), Err(DecodeError::InvalidInteger));
    assert_eq!(decode(b"d1:ai-ee", 0), Err(DecodeError::InvalidInteger));
    assert_eq!(decode(b"d1:a4spame", 0), Err(DecodeError::InvalidLength));
}

#[test]
fn long_leading_zeros_in_a_length_do_not_overflow() {
    assert_eq!(
        decode(b"000000000000000000000000000000000003:abc", 0),
        Ok((text("abc"), 40))
    );
}

#[test]
fn encodes_scalars() {
    assert_eq!(encode(&Value::Integer(0)), b"i0e");
    assert_eq!(encode(&Value::Integer(-42)), b"i-42e");
    assert_eq!(encode(&Value::Integer(1234567890)), b"i1234567890e");
    assert_eq!(encode(&Value::Integer(i64::MIN)), b"i-9223372036854775808e");
    assert_eq!(encode(&Value::Integer(i64::MAX)), b"i9223372036854775807e");
    assert_eq!(encode(&text("spam")), b"4:spam");
    assert_eq!(encode(&text("")), b"0:");
    assert_eq!(encode(&text("0123456789")), b"10:0123456789");
}

#[test]
fn encodes_containers() {
    assert_eq!(
        encode(&Value::List(vec![text("spam"), Value::Integer(3), Value::List(vec![])])),
        b"l4:spami3elee"
    );
    assert_eq!(encode(&Value::Dictionary(vec![])), b"de");
}

#[test]
fn encode_sorts_keys_by_raw_bytes() {
    let v = Value::Dictionary(vec![
        (bytes("spam"), text("eggs")),
        (bytes("cow"), text("moo")),
        (vec![0xff], Value::Integer(1)),
        (bytes("co"), Value::Integer(2)),
        (bytes(""), Value::Integer(3)),
        (bytes("Zebra"), Value::Integer(4)),
    ]);
    let mut expected = b"d0:i3e5:Zebrai4e2:coi2e3:cow3:moo4:spam4:eggs1:".to_vec();
    expected.push(0xff);
    expected.extend_from_slice(b"i1ee");
    assert_eq!(encode(&v), expected);
}

#[test]
fn encode_sorts_keys_at_every_depth() {
    let inner = Value::Dictionary(vec![
        (bytes("z"), Value::Integer(1)),
        (bytes("a"), Value::Integer(2)),
    ]);
    let v = Value::List(vec![Value::Dictionary(vec![
        (bytes("y"), inner),
        (bytes("b"), Value::Integer(3)),
    ])]);
    assert_eq!(encode(&v), b"ld1:bi3e1:yd1:ai2e1:zi1eeee");
}

#[test]
fn encode_keeps_the_order_of_equal_keys() {
    let v = Value::Dictionary(vec![
        (bytes("k"), Value::Integer(1)),
        (bytes("a"), Value::Integer(0)),
        (bytes("k"), Value::Integer(2)),
    ]);
    assert_eq!(encode(&v), b"d1:ai0e1:ki1e1:ki2ee");
}

#[test]
fn round_trip_of_scalars() {
    for i in [0i64, 1, -1, 42, -42, 1_000_000, i64::MAX, i64::MIN] {
        assert_eq!(round_trip(&Value::Integer(i)), Value::Integer(i));
    }
    assert_eq!(round_trip(&text("")), text(""));
    assert_eq!(round_trip(&text("spam")), text("spam"));
    let all: Vec<u8> = (0..=255u8).collect();
    assert_eq!(round_trip(&Value::ByteString(all.clone())), Value::ByteString(all));
}

#[test]
fn round_trip_of_nested_lists() {
    let v = Value::List(vec![
        Value::List(vec![]),
        Value::List(vec![Value::Integer(1), Value::List(vec![text("x")])]),
        text("e"),
        text("i1e"),
    ]);
    assert_eq!(round_trip(&v), v);
}

#[test]
fn round_trip_of_a_sorted_dictionary_is_the_dictionary() {
    let v = Value::Dictionary(vec![
        (bytes("a"), Value::List(vec![Value::Integer(1)])),
        (bytes("b"), Value::Dictionary(vec![(bytes("c"), text("d"))])),
    ]);
    assert_eq!(round_trip(&v), v);
}

#[test]
fn round_trip_of_an_unsorted_dictionary_is_sorted() {
    let v = Value::Dictionary(vec![
        (bytes("spam"), text("eggs")),
        (bytes("cow"), text("moo")),
    ]);
    let sorted = Value::Dictionary(vec![
        (bytes("cow"), text("moo")),
        (bytes("spam"), text("eggs")),
    ]);
    assert_eq!(round_trip(&v), sorted);
    assert_eq!(round_trip(&sorted), sorted);
    assert_eq!(round_trip(&v).get(b"cow"), v.get(b"cow"));
    assert_eq!(round_trip(&v).get(b"spam"), v.get(b"spam"));
}

#[test]
fn decode_then_encode_of_canonical_bytes_gives_the_bytes() {
    let input = b"d3:cow3:moo4:spaml1:a1:bee".to_vec();
    let (v, n) = decode(&input, 0).unwrap();
    assert_eq!(n, input.len());
    assert_eq!(encode(&v), input);
}

#[test]
fn get_finds_the_first_entry_of_a_key() {
    let v = Value::Dictionary(vec![
        (bytes("a"), Value::Integer(1)),
        (bytes("b"), Value::Integer(2)),
        (bytes("a"), Value::Integer(3)),
    ]);
    assert_eq!(v.get(b"a"), Some(&Value::Integer(1)));
    assert_eq!(v.get(b"b"), Some(&Value::Integer(2)));
    assert_eq!(v.get(b"c"), None);
    assert_eq!(v.get(b""), None);
    assert_eq!(Value::Integer(1).get(b"a"), None);
    assert_eq!(Value::List(vec![text("a")]).get(b"a"), None);
}

#[test]
fn key_order_is_by_raw_bytes() {
    assert!(key_less(b"", b"a"));
    assert!(!key_less(b"", b""));
    assert!(!key_less(b"a", b""));
    assert!(key_less(b"a", b"b"));
    assert!(!key_less(b"b", b"a"));
    assert!(key_less(b"a", b"aa"));
    assert!(!key_less(b"aa", b"a"));
    assert!(!key_less(b"abc", b"abc"));
    assert!(key_less(b"Z", b"a"));
    assert!(key_less(&[0x7f], &[0x80]));
    assert!(key_less(b"piece length", b"pieces"));
}

#[test]
fn sorted_indices_is_a_stable_sort() {
    let entries = vec![
        (bytes("b"), Value::Integer(0)),
        (bytes("a"), Value::Integer(1)),
        (bytes("c"), Value::Integer(2)),
        (bytes("a"), Value::Integer(3)),
        (bytes(""), Value::Integer(4)),
    ];
    assert_eq!(sorted_indices(&entries), vec![4, 1, 3, 0, 2]);
    assert_eq!(sorted_indices(&vec![]), Vec::<usize>::new());
}

fn as_serde(v: &Value) -> serde_bencode::value::Value {
    match v {
        Value::Integer(i) => serde_bencode::value::Value::Int(*i),
        Value::ByteString(b) => serde_bencode::value::Value::Bytes(b.clone()),
        Value::List(items) => serde_bencode::value::Value::List(items.iter().map(as_serde).collect()),
        Value::Dictionary(entries) => {
            let mut map = HashMap::new();
            for (k, v) in entries {
                map.insert(k.clone(), as_serde(v));
            }
            serde_bencode::value::Value::Dict(map)
        }
    }
}

#[test]
fn encoding_agrees_with_serde_bencode() {
    let v = Value::Dictionary(vec![
        (bytes("pieces"), Value::ByteString(vec![0, 1, 2, 255])),
        (bytes("piece length"), Value::Integer(262144)),
        (bytes("name"), text("sample.txt")),
        (bytes("length"), Value::Integer(92063)),
        (
            bytes("list"),
            Value::List(vec![
                Value::Integer(-7),
                text(""),
                Value::Dictionary(vec![(bytes("b"), Value::Integer(0)), (bytes("a"), text("x"))]),
            ]),
        ),
    ]);
    assert_eq!(encode(&v), serde_bencode::to_bytes(&as_serde(&v)).unwrap());
}

#[test]
fn decoding_agrees_with_serde_bencode() {
    let input = b"d4:listli-7e0:d1:a1:x1:bi0eee6:lengthi92063e4:name10:sample.txte";
    let (v, n) = decode(input, 0).unwrap();
    assert_eq!(n, input.len());
    let theirs: serde_bencode::value::Value = serde_bencode::from_bytes(input).unwrap();
    assert_eq!(as_serde(&v), theirs);
}
