use libspecr::{Endianness, Int, List, Signedness, Size};

fn both_endians() -> [Endianness; 2] {
    [Endianness::BigEndian, Endianness::LittleEndian]
}

fn assert_bytes(actual: &List<u8>, expected: &[u8]) {
    assert_eq!(actual.len(), expected.len());
    let mut i: usize = 0;
    while i < expected.len() {
        assert_eq!(*actual.get(i), expected[i]);
        i += 1;
    }
}

fn check_encode_i32(num: i32) {
    let size = Size::from_bits(i32::BITS as u64).unwrap();
    for endian in both_endians() {
        let bytes_a = endian
            .encode(Signedness::Signed, &size, &Int::from_i128(num as i128))
            .unwrap();
        let bytes_b = match endian {
            Endianness::BigEndian => num.to_be_bytes(),
            Endianness::LittleEndian => num.to_le_bytes(),
        };
        assert_bytes(&bytes_a, &bytes_b);
    }
}

fn check_encode_i64(num: i64) {
    let size = Size::from_bits(i64::BITS as u64).unwrap();
    for endian in both_endians() {
        let bytes_a = endian
            .encode(Signedness::Signed, &size, &Int::from_i128(num as i128))
            .unwrap();
        let bytes_b = match endian {
            Endianness::BigEndian => num.to_be_bytes(),
            Endianness::LittleEndian => num.to_le_bytes(),
        };
        assert_bytes(&bytes_a, &bytes_b);
    }
}

fn check_encode_u32(num: u32) {
    let size = Size::from_bits(u32::BITS as u64).unwrap();
    for endian in both_endians() {
        let bytes_a = endian
            .encode(Signedness::Unsigned, &size, &Int::from_u128(num as u128))
            .unwrap();
        let bytes_b = match endian {
            Endianness::BigEndian => num.to_be_bytes(),
            Endianness::LittleEndian => num.to_le_bytes(),
        };
        assert_bytes(&bytes_a, &bytes_b);
    }
}

fn check_encode_u64(num: u64) {
    let size = Size::from_bits(u64::BITS as u64).unwrap();
    for endian in both_endians() {
        let bytes_a = endian
            .encode(Signedness::Unsigned, &size, &Int::from_u128(num as u128))
            .unwrap();
        let bytes_b = match endian {
            Endianness::BigEndian => num.to_be_bytes(),
            Endianness::LittleEndian => num.to_le_bytes(),
        };
        assert_bytes(&bytes_a, &bytes_b);
    }
}

#[test]
fn test_endianness_encode() {
    for num in [i32::MIN, i32::MIN + 1, -1024, -41, -2, -1, 0, 1, 2, 42, i32::MAX - 1, i32::MAX] {
        check_encode_i32(num);
    }
    for num in [i64::MIN, i64::MIN + 1, -1024, -41, -2, -1, 0, 1, 2, 42, i64::MAX - 1, i64::MAX] {
        check_encode_i64(num);
    }
    for num in [0, 1, 2, 42, u32::MAX - 1, u32::MAX] {
        check_encode_u32(num);
    }
    for num in [0, 1, 2, 42, u64::MAX - 1, u64::MAX] {
        check_encode_u64(num);
    }
}

fn check_encode_limit(signed: Signedness, bits: u64, max: Int, min: Int) {
    let size = Size::from_bits(bits).unwrap();
    for endian in both_endians() {
        assert!(endian.encode(signed, &size, &max).is_some());
        assert!(endian.encode(signed, &size, &max.plus_one()).is_none());

        assert!(endian.encode(signed, &size, &min).is_some());
        assert!(endian.encode(signed, &size, &min.minus_one()).is_none());
    }
}

#[test]
fn test_endianness_encode_limit() {
    let s = Signedness::Signed;
    let u = Signedness::Unsigned;
    check_encode_limit(u, 8, Int::from_u128(u8::MAX as u128), Int::from_u128(u8::MIN as u128));
    check_encode_limit(s, 8, Int::from_i128(i8::MAX as i128), Int::from_i128(i8::MIN as i128));
    check_encode_limit(u, 16, Int::from_u128(u16::MAX as u128), Int::from_u128(u16::MIN as u128));
    check_encode_limit(s, 16, Int::from_i128(i16::MAX as i128), Int::from_i128(i16::MIN as i128));
    check_encode_limit(u, 32, Int::from_u128(u32::MAX as u128), Int::from_u128(u32::MIN as u128));
    check_encode_limit(s, 32, Int::from_i128(i32::MAX as i128), Int::from_i128(i32::MIN as i128));
    check_encode_limit(u, 64, Int::from_u128(u64::MAX as u128), Int::from_u128(u64::MIN as u128));
    check_encode_limit(s, 64, Int::from_i128(i64::MAX as i128), Int::from_i128(i64::MIN as i128));
    check_encode_limit(u, 128, Int::from_u128(u128::MAX), Int::from_u128(u128::MIN));
    check_encode_limit(s, 128, Int::from_i128(i128::MAX), Int::from_i128(i128::MIN));
}

fn check_decode_i32(num: i32) {
    for endian in both_endians() {
        let bytes = match endian {
            Endianness::BigEndian => num.to_be_bytes(),
            Endianness::LittleEndian => num.to_le_bytes(),
        };
        let list: List<u8> = List::from_vec(bytes.to_vec());
        let decoded = endian.decode(Signedness::Signed, &list);
        assert!(decoded == Int::from_i128(num as i128));
    }
}

fn check_decode_i64(num: i64) {
    for endian in both_endians() {
        let bytes = match endian {
            Endianness::BigEndian => num.to_be_bytes(),
            Endianness::LittleEndian => num.to_le_bytes(),
        };
        let list: List<u8> = List::from_vec(bytes.to_vec());
        let decoded = endian.decode(Signedness::Signed, &list);
        assert!(decoded == Int::from_i128(num as i128));
    }
}

fn check_decode_u32(num: u32) {
    for endian in both_endians() {
        let bytes = match endian {
            Endianness::BigEndian => num.to_be_bytes(),
            Endianness::LittleEndian => num.to_le_bytes(),
        };
        let list: List<u8> = List::from_vec(bytes.to_vec());
        let decoded = endian.decode(Signedness::Unsigned, &list);
        assert!(decoded == Int::from_u128(num as u128));
    }
}

fn check_decode_u64(num: u64) {
    for endian in both_endians() {
        let bytes = match endian {
            Endianness::BigEndian => num.to_be_bytes(),
            Endianness::LittleEndian => num.to_le_bytes(),
        };
        let list: List<u8> = List::from_vec(bytes.to_vec());
        let decoded = endian.decode(Signedness::Unsigned, &list);
        assert!(decoded == Int::from_u128(num as u128));
    }
}

#[test]
fn test_endianness_decode() {
    for num in [i32::MIN, i32::MIN + 1, -1024, -41, -2, -1, 0, 1, 2, 42, i32::MAX - 1, i32::MAX] {
        check_decode_i32(num);
    }
    for num in [i64::MIN, i64::MIN + 1, -1024, -41, -2, -1, 0, 1, 2, 42, i64::MAX - 1, i64::MAX] {
        check_decode_i64(num);
    }
    for num in [0, 1, 2, 42, u32::MAX - 1, u32::MAX] {
        check_decode_u32(num);
    }
    for num in [0, 1, 2, 42, u64::MAX - 1, u64::MAX] {
        check_decode_u64(num);
    }
}

#[test]
fn four_byte_signed_minus_one() {
    let size = Size::from_bits(32).unwrap();
    let encoded = Endianness::BigEndian
        .encode(Signedness::Signed, &size, &Int::from_i128(-1))
        .unwrap();
    assert_bytes(&encoded, &[0xFF, 0xFF, 0xFF, 0xFF]);
    let decoded = Endianness::BigEndian.decode(Signedness::Signed, &encoded);
    assert!(decoded == Int::from_i128(-1));
}

#[test]
fn four_byte_unsigned_limits() {
    let size = Size::from_bits(32).unwrap();
    let encoded = Endianness::BigEndian
        .encode(Signedness::Unsigned, &size, &Int::from_u128(4294967295))
        .unwrap();
    assert_bytes(&encoded, &[0xFF, 0xFF, 0xFF, 0xFF]);
    assert!(Endianness::BigEndian
        .encode(Signedness::Unsigned, &size, &Int::from_u128(4294967296))
        .is_none());
}

#[test]
fn eight_bit_unsigned_bounds() {
    let size = Size::from_bits(8).unwrap();
    for endian in both_endians() {
        assert!(endian.encode(Signedness::Unsigned, &size, &Int::from_i128(0)).is_some());
        assert!(endian.encode(Signedness::Unsigned, &size, &Int::from_i128(255)).is_some());
        assert!(endian.encode(Signedness::Unsigned, &size, &Int::from_i128(256)).is_none());
        assert!(endian.encode(Signedness::Unsigned, &size, &Int::from_i128(-1)).is_none());
    }
}

#[test]
fn endianness_symmetry_reverses_bytes() {
    let size = Size::from_bits(32).unwrap();
    for value in [Int::from_i128(-1024), Int::from_i128(42), Int::from_i128(i32::MIN as i128)] {
        let big = Endianness::BigEndian.encode(Signedness::Signed, &size, &value).unwrap();
        let little = Endianness::LittleEndian.encode(Signedness::Signed, &size, &value).unwrap();
        assert_eq!(big.len(), little.len());
        let n = big.len();
        for i in 0..n {
            assert_eq!(*big.get(i), *little.get(n - 1 - i));
        }
    }
}

#[test]
fn round_trip_all_widths() {
    for bits in [8u64, 16, 32, 64, 128] {
        let size = Size::from_bits(bits).unwrap();
        for endian in both_endians() {
            for v in [-3i128, -1, 0, 1, 5, 127] {
                let value = Int::from_i128(v);
                let encoded = endian.encode(Signedness::Signed, &size, &value).unwrap();
                let decoded = endian.decode(Signedness::Signed, &encoded);
                assert!(decoded == value);
            }
            for v in [0u128, 1, 5, 200, 255] {
                let value = Int::from_u128(v);
                let encoded = endian.encode(Signedness::Unsigned, &size, &value).unwrap();
                let decoded = endian.decode(Signedness::Unsigned, &encoded);
                assert!(decoded == value);
            }
        }
    }
}

#[test]
fn size_construction() {
    assert!(Size::from_bits(0).is_none());
    assert!(Size::from_bits(12).is_none());
    let s = Size::from_bits(64).unwrap();
    assert_eq!(s.bytes(), 8);
    assert_eq!(s.bits(), 64);
    assert!(Size::from_bytes(0).is_none());
    let t = Size::from_bytes(16).unwrap();
    assert_eq!(t.bits(), 128);
}

#[test]
fn int_total_order() {
    let values: [i128; 9] = [-65536, -256, -255, -1, 0, 1, 255, 256, 65536];
    for (i, a) in values.iter().enumerate() {
        for (j, b) in values.iter().enumerate() {
            assert_eq!(Int::from_i128(*a).lt(&Int::from_i128(*b)), i < j);
        }
    }
    assert!(Int::from_u128(u128::MAX).lt(&Int::from_u128(u128::MAX).plus_one()));
    assert!(!Int::from_i128(7).lt(&Int::from_i128(7)));
}

#[test]
fn int_byte_shifts_and_mask() {
    let v = Int::from_u64(0x1234);
    assert!(v.shl_bytes(2) == Int::from_u64(0x12340000));
    assert!(v.shr_bytes(1) == Int::from_u64(0x12));
    assert!(v.shr_bytes(3) == Int::zero());
    assert!(v.rem_bytes(1) == Int::from_u64(0x34));
    assert!(v.rem_bytes(4) == v);
    assert!(Int::from_i128(-5).shl_bytes(1) == Int::from_i128(-1280));
    assert!(Int::zero().shl_bytes(3) == Int::zero());
}

#[test]
fn int_power_of_two() {
    assert!(Int::power_of_two(0) == Int::from_u64(1));
    assert!(Int::power_of_two(7) == Int::from_u64(128));
    assert!(Int::power_of_two(9) == Int::from_u64(512));
    assert!(Int::power_of_two(64) == Int::from_u128(u64::MAX as u128).plus_one());
    assert!(Int::power_of_two(128) == Int::from_u128(u128::MAX).plus_one());
}

#[test]
fn int_arithmetic_helpers() {
    let zero = Int::zero();
    assert!(zero == Int::from_i128(0));
    assert!(zero.minus_one() == Int::from_i128(-1));
    assert!(zero.plus_one() == Int::from_i128(1));
    assert!(Int::from_i128(-1).plus_one() == zero);
    assert!(Int::from_u64(41).plus_one() == Int::from_u64(42));
    assert!(Int::from_i64(-41).minus_one() == Int::from_i64(-42));
    assert!(Int::from_u128(255).plus_one() == Int::from_u128(256));
    assert!(Int::from_u128(256).minus_one() == Int::from_u128(255));
    assert!(Int::from_i128(7).duplicate() == Int::from_i128(7));
}
