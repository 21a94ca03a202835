//! Byte order.
use analyssa::pointer::PointerSize;
use analyssa::target::Endianness;

// -----------------------------------------------------------------------
// Endianness query helpers
// -----------------------------------------------------------------------

#[test]
fn little_is_little_not_big() {
    assert!(Endianness::Little.is_little());
    assert!(!Endianness::Little.is_big());
}

#[test]
fn big_is_big_not_little() {
    assert!(Endianness::Big.is_big());
    assert!(!Endianness::Big.is_little());
}

// -----------------------------------------------------------------------
// to_native — round-trip through native byte order (host is LE on x86)
// -----------------------------------------------------------------------

#[test]
fn little_to_native_u16_is_le() {
    let value = 0x0102_u16;
    assert_eq!(Endianness::Little.to_native_u16(value), u16::from_le(value));
}

#[test]
fn big_to_native_u16_is_be() {
    let value = 0x0102_u16;
    assert_eq!(Endianness::Big.to_native_u16(value), u16::from_be(value));
}

#[test]
fn little_to_native_u32_is_le() {
    let value = 0x01020304_u32;
    assert_eq!(Endianness::Little.to_native_u32(value), u32::from_le(value));
}

#[test]
fn big_to_native_u32_is_be() {
    let value = 0x01020304_u32;
    assert_eq!(Endianness::Big.to_native_u32(value), u32::from_be(value));
}

#[test]
fn little_to_native_u64_is_le() {
    let value = 0x0102030405060708_u64;
    assert_eq!(Endianness::Little.to_native_u64(value), u64::from_le(value));
}

#[test]
fn big_to_native_u64_is_be() {
    let value = 0x0102030405060708_u64;
    assert_eq!(Endianness::Big.to_native_u64(value), u64::from_be(value));
}

#[test]
fn little_to_native_u128_is_le() {
    let value = 0x0102030405060708090a0b0c0d0e0f10_u128;
    assert_eq!(
        Endianness::Little.to_native_u128(value),
        u128::from_le(value)
    );
}

#[test]
fn big_to_native_u128_is_be() {
    let value = 0x0102030405060708090a0b0c0d0e0f10_u128;
    assert_eq!(Endianness::Big.to_native_u128(value), u128::from_be(value));
}

// -----------------------------------------------------------------------
// from_native — round-trip through native byte order
// -----------------------------------------------------------------------

#[test]
fn little_from_native_u16_is_le() {
    let value = 0x0102_u16;
    assert_eq!(Endianness::Little.from_native_u16(value), u16::to_le(value));
}

#[test]
fn big_from_native_u16_is_be() {
    let value = 0x0102_u16;
    assert_eq!(Endianness::Big.from_native_u16(value), u16::to_be(value));
}

#[test]
fn from_native_round_trips_through_to_native() {
    let value = 0xdeadbeef_u32;
    for endianness in [Endianness::Little, Endianness::Big] {
        let converted = endianness.from_native_u32(value);
        let restored = endianness.to_native_u32(converted);
        assert_eq!(restored, value, "round-trip failed for {endianness:?}");
    }
}

// -----------------------------------------------------------------------
// bytes_of_* — verify byte layout matches endianness
// -----------------------------------------------------------------------

#[test]
fn little_bytes_of_u16_match_le_byte_order() {
    assert_eq!(Endianness::Little.bytes_of_u16(0x0102), [0x02, 0x01]);
}

#[test]
fn big_bytes_of_u16_match_be_byte_order() {
    assert_eq!(Endianness::Big.bytes_of_u16(0x0102), [0x01, 0x02]);
}

#[test]
fn little_bytes_of_u32_match_le_byte_order() {
    assert_eq!(
        Endianness::Little.bytes_of_u32(0x01020304),
        [0x04, 0x03, 0x02, 0x01]
    );
}

#[test]
fn big_bytes_of_u32_match_be_byte_order() {
    assert_eq!(
        Endianness::Big.bytes_of_u32(0x01020304),
        [0x01, 0x02, 0x03, 0x04]
    );
}

#[test]
fn little_bytes_of_u64_match_le_byte_order() {
    assert_eq!(
        Endianness::Little.bytes_of_u64(0x0102030405060708),
        [0x08, 0x07, 0x06, 0x05, 0x04, 0x03, 0x02, 0x01]
    );
}

#[test]
fn big_bytes_of_u64_match_be_byte_order() {
    assert_eq!(
        Endianness::Big.bytes_of_u64(0x0102030405060708),
        [0x01, 0x02, 0x03, 0x04, 0x05, 0x06, 0x07, 0x08]
    );
}

#[test]
fn little_bytes_of_u128_match_le_byte_order() {
    let bytes = Endianness::Little.bytes_of_u128(0x0102030405060708090a0b0c0d0e0f10);
    assert_eq!(
        bytes,
        [
            0x10, 0x0f, 0x0e, 0x0d, 0x0c, 0x0b, 0x0a, 0x09, 0x08, 0x07, 0x06, 0x05, 0x04, 0x03,
            0x02, 0x01,
        ]
    );
}

#[test]
fn big_bytes_of_u128_match_be_byte_order() {
    let bytes = Endianness::Big.bytes_of_u128(0x0102030405060708090a0b0c0d0e0f10);
    assert_eq!(
        bytes,
        [
            0x01, 0x02, 0x03, 0x04, 0x05, 0x06, 0x07, 0x08, 0x09, 0x0a, 0x0b, 0x0c, 0x0d, 0x0e,
            0x0f, 0x10,
        ]
    );
}

// -----------------------------------------------------------------------
// read_u* — reading bytes back matches bytes_of_* output
// -----------------------------------------------------------------------

#[test]
fn read_u16_round_trips_with_bytes_of_u16() {
    let value = 0xabcd_u16;
    for endianness in [Endianness::Little, Endianness::Big] {
        let bytes = endianness.bytes_of_u16(value);
        let restored = endianness.read_u16(&bytes);
        assert_eq!(
            restored, value,
            "read_u16 round-trip failed for {endianness:?}"
        );
    }
}

#[test]
fn read_u32_round_trips_with_bytes_of_u32() {
    let value = 0xdeadbeef_u32;
    for endianness in [Endianness::Little, Endianness::Big] {
        let bytes = endianness.bytes_of_u32(value);
        let restored = endianness.read_u32(&bytes);
        assert_eq!(
            restored, value,
            "read_u32 round-trip failed for {endianness:?}"
        );
    }
}

#[test]
fn read_u64_round_trips_with_bytes_of_u64() {
    let value = 0xdeadbeef_cafebabe_u64;
    for endianness in [Endianness::Little, Endianness::Big] {
        let bytes = endianness.bytes_of_u64(value);
        let restored = endianness.read_u64(&bytes);
        assert_eq!(
            restored, value,
            "read_u64 round-trip failed for {endianness:?}"
        );
    }
}

#[test]
fn read_u128_round_trips_with_bytes_of_u128() {
    let value = 0xdeadbeef_cafebabe_01020304_05060708_u128;
    for endianness in [Endianness::Little, Endianness::Big] {
        let bytes = endianness.bytes_of_u128(value);
        let restored = endianness.read_u128(&bytes);
        assert_eq!(
            restored, value,
            "read_u128 round-trip failed for {endianness:?}"
        );
    }
}

// -----------------------------------------------------------------------
// bytes_of_ptr_sized — endianness × PointerSize interaction
// -----------------------------------------------------------------------

#[test]
fn bytes_of_ptr_sized_bit8_is_always_one_byte() {
    let value = 0xAB;
    for endianness in [Endianness::Little, Endianness::Big] {
        let bytes = endianness.bytes_of_ptr_sized(value, PointerSize::Bit8);
        assert_eq!(bytes, vec![0xAB], "Bit8 differs for {endianness:?}");
    }
}

#[test]
fn bytes_of_ptr_sized_bit16_depends_on_endianness() {
    let value = 0x0102;
    assert_eq!(
        Endianness::Little.bytes_of_ptr_sized(value, PointerSize::Bit16),
        vec![0x02, 0x01],
    );
    assert_eq!(
        Endianness::Big.bytes_of_ptr_sized(value, PointerSize::Bit16),
        vec![0x01, 0x02],
    );
}

#[test]
fn bytes_of_ptr_sized_bit32_depends_on_endianness() {
    let value = 0x01020304;
    assert_eq!(
        Endianness::Little.bytes_of_ptr_sized(value, PointerSize::Bit32),
        vec![0x04, 0x03, 0x02, 0x01],
    );
    assert_eq!(
        Endianness::Big.bytes_of_ptr_sized(value, PointerSize::Bit32),
        vec![0x01, 0x02, 0x03, 0x04],
    );
}

#[test]
fn bytes_of_ptr_sized_bit64_depends_on_endianness() {
    let value = 0x0102030405060708;
    assert_eq!(
        Endianness::Little.bytes_of_ptr_sized(value, PointerSize::Bit64),
        vec![0x08, 0x07, 0x06, 0x05, 0x04, 0x03, 0x02, 0x01],
    );
    assert_eq!(
        Endianness::Big.bytes_of_ptr_sized(value, PointerSize::Bit64),
        vec![0x01, 0x02, 0x03, 0x04, 0x05, 0x06, 0x07, 0x08],
    );
}

#[test]
fn bytes_of_ptr_sized_bit128_depends_on_endianness() {
    let value = 0x0102030405060708; // only 64-bit of value, zero-extended
    let le = Endianness::Little.bytes_of_ptr_sized(value, PointerSize::Bit128);
    let be = Endianness::Big.bytes_of_ptr_sized(value, PointerSize::Bit128);

    // LE: low bytes first
    assert_eq!(le[0..8], [0x08, 0x07, 0x06, 0x05, 0x04, 0x03, 0x02, 0x01]);
    assert_eq!(&le[8..16], &[0, 0, 0, 0, 0, 0, 0, 0]);

    // BE: high bytes first
    assert_eq!(&be[0..8], &[0, 0, 0, 0, 0, 0, 0, 0]);
    assert_eq!(be[8..16], [0x01, 0x02, 0x03, 0x04, 0x05, 0x06, 0x07, 0x08]);
}

// -----------------------------------------------------------------------
// read_ptr_sized — round-trip with bytes_of_ptr_sized for all combos
// -----------------------------------------------------------------------

#[test]
fn read_ptr_sized_round_trips_for_all_pointer_sizes() {
    let test_vectors: Vec<(PointerSize, u64)> = vec![
        (PointerSize::Bit8, 0xAB),
        (PointerSize::Bit16, 0xABCD),
        (PointerSize::Bit32, 0xDEAD_BEEF),
        (PointerSize::Bit64, 0xDEAD_BEEF_CAFE_BABE),
        (PointerSize::Bit128, 0xDEAD_BEEF_CAFE_BABE),
    ];

    for endianness in [Endianness::Little, Endianness::Big] {
        for (ptr_size, value) in &test_vectors {
            let bytes = endianness.bytes_of_ptr_sized(*value, *ptr_size);
            let restored = endianness.read_ptr_sized(&bytes, *ptr_size);
            assert_eq!(
                restored, *value,
                "round-trip failed for {endianness:?} × {ptr_size:?}",
            );
        }
    }
}

// -----------------------------------------------------------------------
// LE and BE produce different byte sequences for multi-byte widths
// -----------------------------------------------------------------------

#[test]
fn le_and_be_differ_for_all_multi_byte_sizes() {
    let value = 0x0102030405060708;
    for ptr_size in [
        PointerSize::Bit16,
        PointerSize::Bit32,
        PointerSize::Bit64,
        PointerSize::Bit128,
    ] {
        let le_bytes = Endianness::Little.bytes_of_ptr_sized(value, ptr_size);
        let be_bytes = Endianness::Big.bytes_of_ptr_sized(value, ptr_size);
        assert_ne!(
            le_bytes, be_bytes,
            "LE and BE should differ for {ptr_size:?}"
        );
    }
}

#[test]
fn le_and_be_agree_for_bit8() {
    let le = Endianness::Little.bytes_of_ptr_sized(0xAB, PointerSize::Bit8);
    let be = Endianness::Big.bytes_of_ptr_sized(0xAB, PointerSize::Bit8);
    assert_eq!(le, be, "Bit8 should be identical regardless of endianness");
}
