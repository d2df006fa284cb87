use binrs::context::Context;
use binrs::decoder::{decode_from_bytes, decode_with_ctx, BufferDecoder};
use binrs::encoder::{encode_to_bytes, encode_with_ctx, BufferEncoder};
use binrs::endian::Endianness;
use binrs::error::Error;

fn big() -> Context {
    Context::new(Endianness::Big)
}

#[test]
fn u32_little_endian_bytes() {
    let bytes = encode_to_bytes(&0x01020304u32).unwrap();
    assert_eq!(bytes, vec![0x04, 0x03, 0x02, 0x01]);
}

#[test]
fn u32_big_endian_bytes() {
    let bytes = encode_with_ctx(&0x01020304u32, big()).unwrap();
    assert_eq!(bytes, vec![0x01, 0x02, 0x03, 0x04]);
}

#[test]
fn u8_round_trip() {
    let bytes = encode_to_bytes(&0xabu8).unwrap();
    assert_eq!(bytes, vec![0xab]);
    assert_eq!(decode_from_bytes::<u8>(&bytes).unwrap(), 0xab);
}

#[test]
fn i8_round_trip() {
    let bytes = encode_to_bytes(&-5i8).unwrap();
    assert_eq!(bytes, vec![0xfb]);
    assert_eq!(decode_from_bytes::<i8>(&bytes).unwrap(), -5);
}

#[test]
fn u16_round_trip_both_orders() {
    let bytes = encode_to_bytes(&0x1234u16).unwrap();
    assert_eq!(bytes, vec![0x34, 0x12]);
    assert_eq!(decode_from_bytes::<u16>(&bytes).unwrap(), 0x1234);
    let bytes = encode_with_ctx(&0x1234u16, big()).unwrap();
    assert_eq!(bytes, vec![0x12, 0x34]);
    assert_eq!(decode_with_ctx::<u16>(&bytes, big()).unwrap(), 0x1234);
}

#[test]
fn i16_round_trip() {
    let bytes = encode_to_bytes(&-2i16).unwrap();
    assert_eq!(bytes, vec![0xfe, 0xff]);
    assert_eq!(decode_from_bytes::<i16>(&bytes).unwrap(), -2);
}

#[test]
fn i32_round_trip_both_orders() {
    for v in [-123456i32, 0, 1, i32::MIN, i32::MAX] {
        let bytes = encode_to_bytes(&v).unwrap();
        assert_eq!(decode_from_bytes::<i32>(&bytes).unwrap(), v);
        let bytes = encode_with_ctx(&v, big()).unwrap();
        assert_eq!(decode_with_ctx::<i32>(&bytes, big()).unwrap(), v);
    }
}

#[test]
fn u64_round_trip() {
    let bytes = encode_to_bytes(&u64::MAX).unwrap();
    assert_eq!(bytes, vec![0xff; 8]);
    assert_eq!(decode_from_bytes::<u64>(&bytes).unwrap(), u64::MAX);
}

#[test]
fn i64_round_trip() {
    let bytes = encode_to_bytes(&i64::MIN).unwrap();
    assert_eq!(decode_from_bytes::<i64>(&bytes).unwrap(), i64::MIN);
}

#[test]
fn u128_round_trip_both_orders() {
    let v = 0x0102030405060708090a0b0c0d0e0f10u128;
    let bytes = encode_to_bytes(&v).unwrap();
    assert_eq!(bytes.len(), 16);
    assert_eq!(bytes[0], 0x10);
    assert_eq!(decode_from_bytes::<u128>(&bytes).unwrap(), v);
    let bytes = encode_with_ctx(&v, big()).unwrap();
    assert_eq!(bytes[0], 0x01);
    assert_eq!(decode_with_ctx::<u128>(&bytes, big()).unwrap(), v);
}

#[test]
fn i128_round_trip() {
    for v in [i128::MIN, -1, 0, i128::MAX] {
        let bytes = encode_to_bytes(&v).unwrap();
        assert_eq!(decode_from_bytes::<i128>(&bytes).unwrap(), v);
    }
}

#[test]
fn bool_round_trip() {
    assert_eq!(encode_to_bytes(&true).unwrap(), vec![1]);
    assert_eq!(encode_to_bytes(&false).unwrap(), vec![0]);
    assert_eq!(decode_from_bytes::<bool>(&[1]).unwrap(), true);
    assert_eq!(decode_from_bytes::<bool>(&[0]).unwrap(), false);
}

#[test]
fn bool_decode_treats_nonzero_as_true() {
    assert_eq!(decode_from_bytes::<bool>(&[7]).unwrap(), true);
}

#[test]
fn string_round_trip() {
    let s = String::from("hello");
    let bytes = encode_to_bytes(&s).unwrap();
    assert_eq!(bytes, vec![5, 0, 0, 0, b'h', b'e', b'l', b'l', b'o']);
    assert_eq!(decode_from_bytes::<String>(&bytes).unwrap(), s);
}

#[test]
fn string_round_trip_multibyte() {
    let s = String::from("h\u{e9}llo\u{1f600}");
    let bytes = encode_to_bytes(&s).unwrap();
    assert_eq!(decode_from_bytes::<String>(&bytes).unwrap(), s);
    let bytes = encode_with_ctx(&s, big()).unwrap();
    assert_eq!(decode_with_ctx::<String>(&bytes, big()).unwrap(), s);
}

#[test]
fn empty_string_round_trip() {
    let s = String::new();
    let bytes = encode_to_bytes(&s).unwrap();
    assert_eq!(bytes, vec![0, 0, 0, 0]);
    assert_eq!(decode_from_bytes::<String>(&bytes).unwrap(), s);
}

#[test]
fn str_encodes_like_string() {
    let bytes = encode_to_bytes("ab").unwrap();
    assert_eq!(bytes, vec![2, 0, 0, 0, b'a', b'b']);
}

#[test]
fn char_encodes_as_u32() {
    let bytes = encode_to_bytes(&'A').unwrap();
    assert_eq!(bytes, vec![65, 0, 0, 0]);
}

#[test]
fn usize_encodes_as_u64() {
    let bytes = encode_to_bytes(&7usize).unwrap();
    assert_eq!(bytes, vec![7, 0, 0, 0, 0, 0, 0, 0]);
}

#[test]
fn pair_round_trip_no_prefix() {
    let v = (1u8, 2u8);
    let bytes = encode_to_bytes(&v).unwrap();
    assert_eq!(bytes, vec![1, 2]);
    assert_eq!(decode_from_bytes::<(u8, u8)>(&bytes).unwrap(), v);
}

#[test]
fn triple_round_trip() {
    let v = (10u32, 20u32, 30u32);
    let bytes = encode_to_bytes(&v).unwrap();
    assert_eq!(bytes.len(), 12);
    assert_eq!(decode_from_bytes::<(u32, u32, u32)>(&bytes).unwrap(), v);
}

#[test]
fn option_round_trip() {
    let bytes = encode_to_bytes(&Option::<u16>::None).unwrap();
    assert_eq!(bytes, vec![0]);
    assert_eq!(decode_from_bytes::<Option<u16>>(&bytes).unwrap(), None);
    let bytes = encode_to_bytes(&Some(0x0605u16)).unwrap();
    assert_eq!(bytes, vec![1, 0x05, 0x06]);
    assert_eq!(decode_from_bytes::<Option<u16>>(&bytes).unwrap(), Some(0x0605));
}

#[test]
fn option_bad_tag_is_invalid_discriminant() {
    assert_eq!(
        decode_from_bytes::<Option<u8>>(&[2, 9]).unwrap_err(),
        Error::InvalidDiscriminant
    );
    assert_eq!(
        decode_from_bytes::<Option<u8>>(&[255, 9]).unwrap_err(),
        Error::InvalidDiscriminant
    );
}

#[test]
fn result_tag_polarity() {
    // Success carries tag 1, failure tag 0: the reverse of the optional's
    // absent/present convention, preserved as the format defines it.
    let v: Result<bool, String> = Ok(true);
    let bytes = encode_to_bytes(&v).unwrap();
    assert_eq!(bytes, vec![1, 1]);
    assert_eq!(decode_from_bytes::<Result<bool, String>>(&bytes).unwrap(), v);
    let v: Result<bool, String> = Err(String::from("x"));
    let bytes = encode_to_bytes(&v).unwrap();
    assert_eq!(bytes, vec![0, 1, 0, 0, 0, b'x']);
    assert_eq!(decode_from_bytes::<Result<bool, String>>(&bytes).unwrap(), v);
}

#[test]
fn result_bad_tag_is_invalid_discriminant() {
    assert_eq!(
        decode_from_bytes::<Result<bool, String>>(&[3]).unwrap_err(),
        Error::InvalidDiscriminant
    );
}

#[test]
fn vec_round_trip() {
    let v = vec![1u16, 2, 3];
    let bytes = encode_to_bytes(&v).unwrap();
    assert_eq!(bytes, vec![3, 0, 0, 0, 1, 0, 2, 0, 3, 0]);
    assert_eq!(decode_from_bytes::<Vec<u16>>(&bytes).unwrap(), v);
}

#[test]
fn empty_vec_round_trip() {
    let v: Vec<u8> = Vec::new();
    let bytes = encode_to_bytes(&v).unwrap();
    assert_eq!(bytes, vec![0, 0, 0, 0]);
    assert_eq!(decode_from_bytes::<Vec<u8>>(&bytes).unwrap(), v);
}

#[test]
fn nested_composite_round_trip() {
    let v: Vec<Option<String>> = vec![
        Some(String::from("ab")),
        None,
        Some(String::new()),
    ];
    let bytes = encode_to_bytes(&v).unwrap();
    assert_eq!(decode_from_bytes::<Vec<Option<String>>>(&bytes).unwrap(), v);
    let bytes = encode_with_ctx(&v, big()).unwrap();
    assert_eq!(decode_with_ctx::<Vec<Option<String>>>(&bytes, big()).unwrap(), v);
}

#[test]
fn u32_truncated_input() {
    assert_eq!(decode_from_bytes::<u32>(&[1, 2, 3]).unwrap_err(), Error::TruncatedInput);
    assert_eq!(decode_from_bytes::<u32>(&[]).unwrap_err(), Error::TruncatedInput);
}

#[test]
fn string_truncated_payload() {
    // Declared length 5, only 2 payload bytes remain.
    assert_eq!(
        decode_from_bytes::<String>(&[5, 0, 0, 0, b'a', b'b']).unwrap_err(),
        Error::TruncatedInput
    );
}

#[test]
fn string_invalid_utf8() {
    assert_eq!(
        decode_from_bytes::<String>(&[2, 0, 0, 0, 0xff, 0xfe]).unwrap_err(),
        Error::InvalidUtf8
    );
}

#[test]
fn nested_error_propagates_unchanged() {
    // The inner string's invalid payload surfaces from the outer vector.
    let bytes = [1, 0, 0, 0, 2, 0, 0, 0, 0xff, 0xfe];
    assert_eq!(decode_from_bytes::<Vec<String>>(&bytes).unwrap_err(), Error::InvalidUtf8);
}

#[test]
fn encoder_accumulates_typed_writes() {
    let mut encoder = BufferEncoder::new();
    encoder.encode_u8(0xaa).unwrap();
    encoder.encode_u16(0x0102).unwrap();
    encoder.encode_bool(true).unwrap();
    encoder.encode_string("a").unwrap();
    let bytes = encoder.into_bytes();
    assert_eq!(bytes, vec![0xaa, 0x02, 0x01, 1, 1, 0, 0, 0, b'a']);
}

#[test]
fn encoder_with_ctx_uses_big_endian() {
    let mut encoder = BufferEncoder::with_ctx(big());
    encoder.encode_u32(0x01020304).unwrap();
    assert_eq!(encoder.into_bytes(), vec![1, 2, 3, 4]);
}

#[test]
fn decoder_cursor_and_remaining() {
    let data = [1u8, 2, 3, 4, 5];
    let mut decoder = BufferDecoder::new(&data);
    assert_eq!(decoder.remaining(), 5);
    assert_eq!(decoder.position(), 0);
    let first = decoder.decode_bytes(2).unwrap();
    assert_eq!(first, vec![1, 2]);
    assert_eq!(decoder.position(), 2);
    assert_eq!(decoder.remaining(), 3);
    assert_eq!(decoder.decode_bytes(4).unwrap_err(), Error::TruncatedInput);
    assert_eq!(decoder.position(), 2);
}

#[test]
fn decoder_set_position_clamps() {
    let data = [1u8, 2, 3];
    let mut decoder = BufferDecoder::new(&data);
    decoder.set_position(2);
    assert_eq!(decoder.position(), 2);
    decoder.set_position(100);
    assert_eq!(decoder.position(), 3);
    decoder.set_position(0);
    assert_eq!(decoder.decode_u8().unwrap(), 1);
}

#[test]
fn decoder_typed_reads() {
    let data = [0xfb, 0x07, 0x02, 0x00];
    let mut decoder = BufferDecoder::new(&data);
    assert_eq!(decoder.decode_i8().unwrap(), -5);
    assert_eq!(decoder.decode_bool().unwrap(), true);
    assert_eq!(decoder.decode_u8().unwrap(), 2);
    assert_eq!(decoder.decode_u8().unwrap(), 0);
    assert_eq!(decoder.decode_u8().unwrap_err(), Error::TruncatedInput);
}

#[test]
fn decode_resumes_at_chosen_offset() {
    // Two values back to back; decode the second, then rewind for the first.
    let mut encoder = BufferEncoder::new();
    encoder.encode_u16(0x0a0b).unwrap();
    encoder.encode_u16(0x0c0d).unwrap();
    let bytes = encoder.into_bytes();
    let mut decoder = BufferDecoder::new(&bytes);
    decoder.set_position(2);
    assert_eq!(decoder.decode::<u16>().unwrap(), 0x0c0d);
    decoder.set_position(0);
    assert_eq!(decoder.decode::<u16>().unwrap(), 0x0a0b);
}
