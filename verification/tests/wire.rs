//! Wire-level behaviour: varint thresholds, primitive round trips at the
//! boundary values, string and sequence round trips, fixed-width words, and
//! the failures on truncated or malformed input.

use cereal::{DecodeError, Deserialize, Serialize};

fn roundtrip<T>(v: T) -> T
where
    T: Serialize + for<'de> Deserialize<'de>,
{
    let mut bytes = vec![];
    let n = v.serialize(&mut bytes);
    assert_eq!(n, bytes.len());
    let mut cursor: &[u8] = &bytes;
    let out = T::deserialize(&mut cursor).unwrap();
    assert!(cursor.is_empty());
    out
}

#[test]
fn manual_test() {
    let mut bytes = vec![];
    Serialize::serialize(&1337_i32, &mut bytes);
    Serialize::serialize("hello world", &mut bytes);
    let bytes = &mut bytes.as_slice();
    let first: i32 = Deserialize::deserialize(bytes).unwrap();
    let second: &str = Deserialize::deserialize(bytes).unwrap();
    assert_eq!(first, 1337);
    assert_eq!(second, "hello world");
}

#[test]
fn varint() {
    let mut bytes = vec![];
    let n = Serialize::serialize(&655957_i64, &mut bytes);
    assert_eq!(n, 3);
    let bytes = &mut &*bytes;
    let result: i64 = Deserialize::deserialize(bytes).unwrap();
    assert_eq!(result, 655957);
}

#[test]
fn varint_minimal_length_at_thresholds() {
    let cases: [(u64, usize); 8] = [
        (0, 1),
        (127, 1),
        (128, 2),
        (16383, 2),
        (16384, 3),
        (2097151, 3),
        (2097152, 4),
        (u64::MAX, 10),
    ];
    for (value, expected_len) in cases {
        let mut bytes = vec![];
        let n = value.serialize(&mut bytes);
        assert_eq!(n, expected_len);
        assert_eq!(roundtrip(value), value);
    }
}

#[test]
fn varint_exact_bytes() {
    let mut bytes = vec![];
    0_u64.serialize(&mut bytes);
    127_u64.serialize(&mut bytes);
    128_u64.serialize(&mut bytes);
    300_u64.serialize(&mut bytes);
    assert_eq!(bytes, [0x00, 0x7f, 0x80, 0x01, 0xac, 0x02]);
}

#[test]
fn zigzag_exact_bytes() {
    let mut bytes = vec![];
    0_i64.serialize(&mut bytes);
    (-1_i64).serialize(&mut bytes);
    1_i64.serialize(&mut bytes);
    (-2_i64).serialize(&mut bytes);
    assert_eq!(bytes, [0x00, 0x01, 0x02, 0x03]);
}

#[test]
fn primitive_roundtrips_at_boundaries() {
    for v in [0u8, 1, 42, u8::MAX] {
        assert_eq!(roundtrip(v), v);
    }
    for v in [0i8, -1, 42, -42, i8::MIN, i8::MAX] {
        assert_eq!(roundtrip(v), v);
    }
    for v in [0u16, 1, 1337, u16::MAX] {
        assert_eq!(roundtrip(v), v);
    }
    for v in [0i16, -1, 1337, -1337, i16::MIN, i16::MAX] {
        assert_eq!(roundtrip(v), v);
    }
    for v in [0u32, 1, 655957, u32::MAX] {
        assert_eq!(roundtrip(v), v);
    }
    for v in [0i32, -1, 655957, -655957, i32::MIN, i32::MAX] {
        assert_eq!(roundtrip(v), v);
    }
    for v in [0u64, 1, 200_000_000, u64::MAX] {
        assert_eq!(roundtrip(v), v);
    }
    for v in [0i64, -1, 200_000_000, -200_000_000, i64::MIN, i64::MAX] {
        assert_eq!(roundtrip(v), v);
    }
    assert_eq!(roundtrip(true), true);
    assert_eq!(roundtrip(false), false);
}

#[test]
fn bool_decodes_any_nonzero_as_true() {
    let mut cursor: &[u8] = &[7u8];
    assert_eq!(bool::deserialize(&mut cursor), Ok(true));
    let mut cursor: &[u8] = &[0u8];
    assert_eq!(bool::deserialize(&mut cursor), Ok(false));
}

#[test]
fn string_roundtrips() {
    assert_eq!(roundtrip(String::new()), "");
    assert_eq!(roundtrip("ascii only".to_owned()), "ascii only");
    assert_eq!(roundtrip("\u{1F980} caf\u{e9} \u{4e2d}\u{6587}".to_owned()), "\u{1F980} caf\u{e9} \u{4e2d}\u{6587}");
}

#[test]
fn string_length_prefix_width_boundary() {
    let short: String = std::iter::repeat('a').take(127).collect();
    let mut bytes = vec![];
    let n = short.serialize(&mut bytes);
    assert_eq!(n, 128);
    assert_eq!(roundtrip(short.clone()), short);

    let long: String = std::iter::repeat('a').take(128).collect();
    let mut bytes = vec![];
    let n = long.serialize(&mut bytes);
    assert_eq!(n, 130);
    assert_eq!(roundtrip(long.clone()), long);
}

#[test]
fn borrowed_string_aliases_input() {
    let mut bytes = vec![];
    "zero copy".serialize(&mut bytes);
    let mut cursor: &[u8] = &bytes;
    let s: &str = Deserialize::deserialize(&mut cursor).unwrap();
    assert_eq!(s, "zero copy");
    let content = &bytes[1..];
    assert_eq!(s.as_ptr(), content.as_ptr());
}

#[test]
fn sequence_roundtrips() {
    let empty: Vec<i32> = vec![];
    assert_eq!(roundtrip(empty), Vec::<i32>::new());
    assert_eq!(roundtrip(vec![42_i32]), vec![42_i32]);
    let nested = vec![vec![1_i32, 2], vec![], vec![3]];
    assert_eq!(roundtrip(nested.clone()), nested);
    let words = vec!["one".to_owned(), "two".to_owned()];
    assert_eq!(roundtrip(words.clone()), words);
}

#[test]
fn string_length_past_end_is_truncation() {
    let bytes: [u8; 4] = [5, b'a', b'b', b'c'];
    let mut cursor: &[u8] = &bytes;
    assert_eq!(String::deserialize(&mut cursor), Err(DecodeError::UnexpectedEndOfInput));
    assert_eq!(cursor.len(), 4);
}

#[test]
fn unterminated_varint_is_truncation() {
    let bytes: [u8; 3] = [0x80, 0x80, 0x80];
    let mut cursor: &[u8] = &bytes;
    assert_eq!(u64::deserialize(&mut cursor), Err(DecodeError::UnexpectedEndOfInput));
    let mut cursor: &[u8] = &[];
    assert_eq!(u64::deserialize(&mut cursor), Err(DecodeError::UnexpectedEndOfInput));
}

#[test]
fn varint_too_wide_for_type_is_invalid() {
    let mut bytes = vec![];
    70000_u64.serialize(&mut bytes);
    let mut cursor: &[u8] = &bytes;
    assert_eq!(u16::deserialize(&mut cursor), Err(DecodeError::InvalidEncoding));

    let mut bytes = vec![];
    5_000_000_000_u64.serialize(&mut bytes);
    let mut cursor: &[u8] = &bytes;
    assert_eq!(u32::deserialize(&mut cursor), Err(DecodeError::InvalidEncoding));

    let overflow: [u8; 11] =
        [0xff, 0xff, 0xff, 0xff, 0xff, 0xff, 0xff, 0xff, 0xff, 0xff, 0x01];
    let mut cursor: &[u8] = &overflow;
    assert_eq!(u64::deserialize(&mut cursor), Err(DecodeError::InvalidEncoding));
}

#[test]
fn invalid_utf8_is_invalid_encoding() {
    let bytes: [u8; 3] = [2, 0xff, 0xfe];
    let mut cursor: &[u8] = &bytes;
    assert_eq!(String::deserialize(&mut cursor), Err(DecodeError::InvalidEncoding));
}

#[test]
fn truncated_primitive_is_truncation() {
    let mut cursor: &[u8] = &[];
    assert_eq!(u8::deserialize(&mut cursor), Err(DecodeError::UnexpectedEndOfInput));
    let mut cursor: &[u8] = &[];
    assert_eq!(i8::deserialize(&mut cursor), Err(DecodeError::UnexpectedEndOfInput));
    let mut cursor: &[u8] = &[];
    assert_eq!(bool::deserialize(&mut cursor), Err(DecodeError::UnexpectedEndOfInput));
}

#[test]
fn sequence_count_past_end_is_truncation() {
    // A declared count of 200 elements over a two-byte buffer must fail
    // without any large allocation up front.
    let bytes: [u8; 3] = [200, 1, 1];
    let mut cursor: &[u8] = &bytes;
    assert_eq!(Vec::<u8>::deserialize(&mut cursor), Err(DecodeError::UnexpectedEndOfInput));
}

#[test]
fn overlong_varint_still_decodes() {
    // Decoding stops at the first byte with a clear high bit; zero padding
    // groups do not change the value.
    let bytes: [u8; 2] = [0x80, 0x00];
    let mut cursor: &[u8] = &bytes;
    assert_eq!(u64::deserialize(&mut cursor), Ok(0));
    assert!(cursor.is_empty());
}

#[test]
fn nested_sequence_truncated_is_truncation() {
    let mut bytes = vec![];
    vec![vec![1_i32, 2], vec![3]].serialize(&mut bytes);
    bytes.pop();
    let mut cursor: &[u8] = &bytes;
    assert_eq!(
        Vec::<Vec<i32>>::deserialize(&mut cursor),
        Err(DecodeError::UnexpectedEndOfInput)
    );
}

#[test]
fn cursor_advances_per_value() {
    let mut bytes = vec![];
    1_u8.serialize(&mut bytes);
    2_u16.serialize(&mut bytes);
    "ab".serialize(&mut bytes);
    true.serialize(&mut bytes);
    let mut cursor: &[u8] = &bytes;
    assert_eq!(u8::deserialize(&mut cursor), Ok(1));
    assert_eq!(u16::deserialize(&mut cursor), Ok(2));
    let s: &str = Deserialize::deserialize(&mut cursor).unwrap();
    assert_eq!(s, "ab");
    assert_eq!(bool::deserialize(&mut cursor), Ok(true));
    assert!(cursor.is_empty());
}

#[test]
fn fixed_width_words_roundtrip() {
    let mut bytes = vec![];
    let n = cereal::fixed::fixed32_write(&mut bytes, 1.5_f32.to_bits());
    assert_eq!(n, 4);
    let n = cereal::fixed::fixed64_write(&mut bytes, (-2.25_f64).to_bits());
    assert_eq!(n, 8);
    assert_eq!(bytes.len(), 12);
    let mut cursor: &[u8] = &bytes;
    let w32 = cereal::fixed::fixed32_read(&mut cursor).unwrap();
    assert_eq!(f32::from_bits(w32), 1.5_f32);
    let w64 = cereal::fixed::fixed64_read(&mut cursor).unwrap();
    assert_eq!(f64::from_bits(w64), -2.25_f64);
    assert!(cursor.is_empty());

    let mut cursor: &[u8] = &[1, 2, 3];
    assert_eq!(cereal::fixed::fixed32_read(&mut cursor), Err(DecodeError::UnexpectedEndOfInput));
    let mut cursor: &[u8] = &[1, 2, 3, 4, 5, 6, 7];
    assert_eq!(cereal::fixed::fixed64_read(&mut cursor), Err(DecodeError::UnexpectedEndOfInput));
}

#[test]
fn unsigned_word_sizes_roundtrip() {
    let mut bytes = vec![];
    let n = 300_usize.serialize(&mut bytes);
    assert_eq!(n, 2);
    let n = (-3_isize).serialize(&mut bytes);
    assert_eq!(n, 1);
    let mut cursor: &[u8] = &bytes;
    assert_eq!(u64::deserialize(&mut cursor), Ok(300));
    assert_eq!(i64::deserialize(&mut cursor), Ok(-3));
}
