use binrs::converter::ByteConvertable;
use binrs::endian::Endianness;

#[test]
fn u16_images_in_both_orders() {
    let le = <u16 as ByteConvertable>::to_le_bytes(0x0102);
    assert_eq!(le, vec![0x02, 0x01]);
    let be = <u16 as ByteConvertable>::to_be_bytes(0x0102);
    assert_eq!(be, vec![0x01, 0x02]);
    assert_eq!(<u16 as ByteConvertable>::from_le_bytes(&le), 0x0102);
    assert_eq!(<u16 as ByteConvertable>::from_be_bytes(&be), 0x0102);
}

#[test]
fn i32_two_complement_image() {
    let le = <i32 as ByteConvertable>::to_le_bytes(-1);
    assert_eq!(le, vec![0xff, 0xff, 0xff, 0xff]);
    let le = <i32 as ByteConvertable>::to_le_bytes(-2);
    assert_eq!(le, vec![0xfe, 0xff, 0xff, 0xff]);
    assert_eq!(<i32 as ByteConvertable>::from_le_bytes(&le), -2);
    let be = <i32 as ByteConvertable>::to_be_bytes(i32::MIN);
    assert_eq!(be, vec![0x80, 0x00, 0x00, 0x00]);
    assert_eq!(<i32 as ByteConvertable>::from_be_bytes(&be), i32::MIN);
}

#[test]
fn u128_width_is_sixteen() {
    let le = <u128 as ByteConvertable>::to_le_bytes(1);
    assert_eq!(le.len(), 16);
    assert_eq!(le[0], 1);
    assert_eq!(<u128 as ByteConvertable>::size(), 16);
}

#[test]
fn endianness_dispatches_to_bytes() {
    let bytes = Endianness::Little.to_bytes(0x01020304u32);
    assert_eq!(bytes, vec![4, 3, 2, 1]);
    let bytes = Endianness::Big.to_bytes(0x01020304u32);
    assert_eq!(bytes, vec![1, 2, 3, 4]);
}

#[test]
fn endianness_dispatches_from_bytes() {
    let v: u32 = Endianness::Little.from_bytes(&[4, 3, 2, 1]);
    assert_eq!(v, 0x01020304);
    let v: u32 = Endianness::Big.from_bytes(&[4, 3, 2, 1]);
    assert_eq!(v, 0x04030201);
    let v: i64 = Endianness::Big.from_bytes(&[0xff; 8]);
    assert_eq!(v, -1);
}

#[test]
fn every_width_round_trips_through_endianness() {
    let end = Endianness::Big;
    assert_eq!(end.from_bytes::<u16>(&end.to_bytes(0xbeefu16)), 0xbeef);
    assert_eq!(end.from_bytes::<i16>(&end.to_bytes(-321i16)), -321);
    assert_eq!(end.from_bytes::<u32>(&end.to_bytes(7u32)), 7);
    assert_eq!(end.from_bytes::<i32>(&end.to_bytes(-7i32)), -7);
    assert_eq!(end.from_bytes::<u64>(&end.to_bytes(u64::MAX)), u64::MAX);
    assert_eq!(end.from_bytes::<i64>(&end.to_bytes(i64::MIN)), i64::MIN);
    assert_eq!(end.from_bytes::<u128>(&end.to_bytes(u128::MAX)), u128::MAX);
    assert_eq!(end.from_bytes::<i128>(&end.to_bytes(i128::MIN)), i128::MIN);
}
