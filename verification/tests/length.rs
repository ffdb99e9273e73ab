use varint::{varint_length, Varint};

#[test]
fn varint_length_boundaries() {
    assert_eq!(varint_length(0), 1);
    assert_eq!(varint_length(127), 1);
    assert_eq!(varint_length(128), 2);
    assert_eq!(varint_length(0xFFFF_FFFF_FFFF_FFFF), 10);
}

#[test]
fn varint_length_at_every_group_boundary() {
    let mut limit: u64 = 1;
    for groups in 1..=9usize {
        limit <<= 7;
        assert_eq!(varint_length(limit - 1), groups);
        assert_eq!(varint_length(limit), groups + 1);
    }
    assert_eq!(varint_length((1 << 63) - 1), 9);
    assert_eq!(varint_length(1 << 63), 10);
}

#[test]
fn varint_length_exact_values() {
    assert_eq!(varint_length(300), 2);
    assert_eq!(varint_length(16383), 2);
    assert_eq!(varint_length(16384), 3);
    assert_eq!(varint_length(0xFFFF_FFFF), 5);
}

#[test]
fn varint_length_is_repeatable() {
    for x in [0u64, 1, 127, 128, 300, 1 << 35, u64::MAX] {
        let first = varint_length(x);
        let second = varint_length(x);
        assert_eq!(first, second);
    }
}

#[test]
fn varlen_agrees_with_varint_length() {
    assert_eq!(0u8.varlen(), 1);
    assert_eq!(127u8.varlen(), 1);
    assert_eq!(128u8.varlen(), 2);
    assert_eq!(u8::MAX.varlen(), 2);
    assert_eq!(u16::MAX.varlen(), 3);
    assert_eq!(300u32.varlen(), 2);
    assert_eq!(u32::MAX.varlen(), 5);
    assert_eq!(u64::MAX.varlen(), 10);
    assert_eq!(300usize.varlen(), varint_length(300));
    assert_eq!(usize::MAX.varlen(), varint_length(usize::MAX as u64));
}

#[test]
fn widths_of_the_target_types() {
    assert_eq!(<u8 as Varint>::bits(), 8);
    assert_eq!(<u16 as Varint>::bits(), 16);
    assert_eq!(<u32 as Varint>::bits(), 32);
    assert_eq!(<u64 as Varint>::bits(), 64);
    assert_eq!(<usize as Varint>::bits(), usize::BITS);
}

#[test]
fn widening_keeps_the_value() {
    assert_eq!(200u8.to_u64(), 200);
    assert_eq!(60000u16.to_u64(), 60000);
    assert_eq!(u32::MAX.to_u64(), 0xFFFF_FFFF);
    assert_eq!(u64::MAX.to_u64(), u64::MAX);
    assert_eq!(12345usize.to_u64(), 12345);
}

#[test]
fn narrowing_succeeds_exactly_in_range() {
    assert_eq!(<u8 as Varint>::from_u64(255), Some(255u8));
    assert_eq!(<u8 as Varint>::from_u64(256), None);
    assert_eq!(<u16 as Varint>::from_u64(65535), Some(65535u16));
    assert_eq!(<u16 as Varint>::from_u64(65536), None);
    assert_eq!(<u32 as Varint>::from_u64(0xFFFF_FFFF), Some(u32::MAX));
    assert_eq!(<u32 as Varint>::from_u64(0x1_0000_0000), None);
    assert_eq!(<u64 as Varint>::from_u64(u64::MAX), Some(u64::MAX));
    assert_eq!(<usize as Varint>::from_u64(77), Some(77usize));
    assert_eq!(
        <usize as Varint>::from_u64(usize::MAX as u64),
        Some(usize::MAX)
    );
}
