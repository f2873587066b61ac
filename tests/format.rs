use pot::format::{
    read_atom_header, read_header, write_atom_header, write_header, Float, InnerFloat, InnerInteger,
    Integer, Kind, Special, UnknownSpecial,
};
use pot::reader::SliceReader;
use pot::Error;

fn roundtrip_integer(input: Integer, expected: Integer, expected_size: usize) {
    let mut out = Vec::new();
    assert_eq!(input.write_to(&mut out), expected_size);
    let mut reader = SliceReader::from(&out[..]);
    let (kind, bytes) = read_atom_header(&mut reader).unwrap();
    assert_eq!(
        Integer::read_from(kind, bytes as usize + 1, &mut reader).unwrap(),
        expected
    );
}

fn roundtrip_float(input: Float, expected: Float, expected_size: usize) {
    let mut out = Vec::new();
    assert_eq!(input.write_to(&mut out), expected_size);
    let mut reader = SliceReader::from(&out[..]);
    let (kind, bytes) = read_atom_header(&mut reader).unwrap();
    assert_eq!(
        Float::read_from(kind, bytes as usize + 1, &mut reader).unwrap(),
        expected
    );
}

/// The narrowest float form that holds `value` bit-exactly.
fn narrow_f64(value: f64) -> Float {
    let single = value as f32;
    let single = if f64::from(single).to_bits() == value.to_bits() {
        Some(single)
    } else {
        None
    };
    let half = single.and_then(|s| {
        let h = half::f16::from_f32(s);
        if h.to_f32().to_bits() == s.to_bits() {
            Some(h.to_bits())
        } else {
            None
        }
    });
    Float::narrowest(value.to_bits(), single.map(f32::to_bits), half)
}

#[test]
fn format_unknown_special() {
    let err = Special::try_from(u64::MAX).unwrap_err();
    assert_eq!(err, UnknownSpecial(u64::MAX));
    assert!(err.to_string().contains("unknown special"));
}

#[test]
fn header() {
    let mut out = Vec::new();
    write_header(&mut out, 1);
    let version = read_header(&mut SliceReader::from(&out[..])).unwrap();
    assert_eq!(version, 1);

    out[0] = 0;
    assert!(read_header(&mut SliceReader::from(&out[..])).is_err());
}

#[test]
fn atom_header_args() {
    let mut out = Vec::new();
    for arg in 1..=64 {
        let arg = 2_u64.saturating_pow(arg);
        write_atom_header(&mut out, Kind::Mapping, arg);
        println!("header: {out:?}");
        let (kind, read_arg) = read_atom_header(&mut SliceReader::from(&out[..])).unwrap();
        assert_eq!(kind, Kind::Mapping);
        assert_eq!(read_arg, arg);
        out.clear();
    }
}

#[test]
fn atom_kinds() {
    assert_eq!(Kind::Special, Kind::from_u8(Kind::Special as u8).unwrap());
    assert_eq!(Kind::Int, Kind::from_u8(Kind::Int as u8).unwrap());
    assert_eq!(Kind::UInt, Kind::from_u8(Kind::UInt as u8).unwrap());
    assert_eq!(Kind::Float, Kind::from_u8(Kind::Float as u8).unwrap());
    assert_eq!(Kind::Sequence, Kind::from_u8(Kind::Sequence as u8).unwrap());
    assert_eq!(Kind::Mapping, Kind::from_u8(Kind::Mapping as u8).unwrap());
    assert_eq!(Kind::Symbol, Kind::from_u8(Kind::Symbol as u8).unwrap());
    assert_eq!(Kind::Bytes, Kind::from_u8(Kind::Bytes as u8).unwrap());
    for i in 8_u8..=15 {
        assert!(Kind::from_u8(i).is_err());
    }
}

#[test]
fn zero() {
    roundtrip_integer(Integer::from(0_u64), Integer(InnerInteger::U8(0)), 2);
    roundtrip_integer(Integer::from(0_i64), Integer(InnerInteger::I8(0)), 2);
    roundtrip_float(narrow_f64(f64::from(0_f32)), Float(InnerFloat::F16(0)), 3);
    roundtrip_float(narrow_f64(0_f64), Float(InnerFloat::F16(0)), 3);
}

#[test]
fn u8_max() {
    roundtrip_integer(Integer::from(u64::from(u8::MAX)), Integer(InnerInteger::U8(u8::MAX)), 2);
}

#[test]
fn i8_max() {
    roundtrip_integer(Integer::from(i64::from(i8::MAX)), Integer(InnerInteger::I8(i8::MAX)), 2);
}

#[test]
fn i8_min() {
    roundtrip_integer(Integer::from(i64::from(i8::MIN)), Integer(InnerInteger::I8(i8::MIN)), 2);
}

#[test]
fn u16_max() {
    roundtrip_integer(Integer::from(u64::from(u16::MAX)), Integer(InnerInteger::U16(u16::MAX)), 3);
}

#[test]
fn i16_max() {
    roundtrip_integer(Integer::from(i64::from(i16::MAX)), Integer(InnerInteger::I16(i16::MAX)), 3);
}

#[test]
fn i16_min() {
    roundtrip_integer(Integer::from(i64::from(i16::MIN)), Integer(InnerInteger::I16(i16::MIN)), 3);
}

#[test]
fn u32_max() {
    roundtrip_integer(Integer::from(u64::from(u32::MAX)), Integer(InnerInteger::U32(u32::MAX)), 5);
}

#[test]
fn i32_max() {
    roundtrip_integer(Integer::from(i64::from(i32::MAX)), Integer(InnerInteger::I32(i32::MAX)), 5);
}

#[test]
fn i32_min() {
    roundtrip_integer(Integer::from(i64::from(i32::MIN)), Integer(InnerInteger::I32(i32::MIN)), 5);
}

#[test]
fn u64_max() {
    roundtrip_integer(Integer::from(u64::MAX), Integer(InnerInteger::U64(u64::MAX)), 9);
}

#[test]
fn i64_max() {
    roundtrip_integer(Integer::from(i64::MAX), Integer(InnerInteger::I64(i64::MAX)), 9);
}

#[test]
fn i64_min() {
    roundtrip_integer(Integer::from(i64::MIN), Integer(InnerInteger::I64(i64::MIN)), 9);
}

#[test]
fn u128_max() {
    roundtrip_integer(Integer::from(u128::MAX), Integer(InnerInteger::U128(u128::MAX)), 17);
}

#[test]
fn i128_max() {
    roundtrip_integer(Integer::from(i128::MAX), Integer(InnerInteger::I128(i128::MAX)), 17);
}

#[test]
fn i128_min() {
    roundtrip_integer(Integer::from(i128::MIN), Integer(InnerInteger::I128(i128::MIN)), 17);
}

#[test]
fn integer_is_zero() {
    assert!(Integer::from(0_i128).is_zero());
    assert!(!Integer::from(i8::MAX).is_zero());
    assert!(!Integer::from(i16::MAX).is_zero());
    assert!(!Integer::from(i32::MAX).is_zero());
    assert!(!Integer::from(i64::MAX).is_zero());
    assert!(!Integer::from(i128::MAX).is_zero());

    assert!(Integer::from(0_u128).is_zero());
    assert!(!Integer::from(u8::MAX).is_zero());
    assert!(!Integer::from(u16::MAX).is_zero());
    assert!(!Integer::from(u32::MAX).is_zero());
    assert!(!Integer::from(u64::MAX).is_zero());
    assert!(!Integer::from(u128::MAX).is_zero());
}

#[test]
fn integer_casts() {
    assert!(matches!(Integer::from(u8::MAX).as_i8(), Err(Error::ImpreciseCastWouldLoseData)));
    assert!(matches!(Integer::from(u16::MAX).as_i8(), Err(Error::ImpreciseCastWouldLoseData)));
    assert!(matches!(Integer::from(u32::MAX).as_i8(), Err(Error::ImpreciseCastWouldLoseData)));
    assert!(matches!(Integer::from(u64::MAX).as_i8(), Err(Error::ImpreciseCastWouldLoseData)));
    assert!(matches!(Integer::from(u128::MAX).as_i8(), Err(Error::ImpreciseCastWouldLoseData)));
    assert!(Integer::from(i8::MAX).as_i8().is_ok());
    assert!(matches!(Integer::from(i16::MAX).as_i8(), Err(Error::ImpreciseCastWouldLoseData)));
    assert!(matches!(Integer::from(i32::MAX).as_i8(), Err(Error::ImpreciseCastWouldLoseData)));
    assert!(matches!(Integer::from(i64::MAX).as_i8(), Err(Error::ImpreciseCastWouldLoseData)));
    assert!(matches!(Integer::from(i128::MAX).as_i8(), Err(Error::ImpreciseCastWouldLoseData)));
    assert!(Integer::from(i8::MAX as u8).as_i8().is_ok());
    assert!(matches!(Integer::from(i16::MAX as u16).as_i8(), Err(Error::ImpreciseCastWouldLoseData)));
    assert!(matches!(Integer::from(i32::MAX as u32).as_i8(), Err(Error::ImpreciseCastWouldLoseData)));
    assert!(matches!(Integer::from(i64::MAX as u64).as_i8(), Err(Error::ImpreciseCastWouldLoseData)));
    assert!(matches!(Integer::from(i128::MAX as u128).as_i8(), Err(Error::ImpreciseCastWouldLoseData)));
    assert!(Integer::from(i8::MIN).as_i8().is_ok());
    assert!(matches!(Integer::from(i16::MIN).as_i8(), Err(Error::ImpreciseCastWouldLoseData)));
    assert!(matches!(Integer::from(i32::MIN).as_i8(), Err(Error::ImpreciseCastWouldLoseData)));
    assert!(matches!(Integer::from(i64::MIN).as_i8(), Err(Error::ImpreciseCastWouldLoseData)));
    assert!(matches!(Integer::from(i128::MIN).as_i8(), Err(Error::ImpreciseCastWouldLoseData)));
    assert!(Integer::from(u8::MAX).as_i16().is_ok());
    assert!(matches!(Integer::from(u16::MAX).as_i16(), Err(Error::ImpreciseCastWouldLoseData)));
    assert!(matches!(Integer::from(u32::MAX).as_i16(), Err(Error::ImpreciseCastWouldLoseData)));
    assert!(matches!(Integer::from(u64::MAX).as_i16(), Err(Error::ImpreciseCastWouldLoseData)));
    assert!(matches!(Integer::from(u128::MAX).as_i16(), Err(Error::ImpreciseCastWouldLoseData)));
    assert!(Integer::from(i8::MAX).as_i16().is_ok());
    assert!(Integer::from(i16::MAX).as_i16().is_ok());
    assert!(matches!(Integer::from(i32::MAX).as_i16(), Err(Error::ImpreciseCastWouldLoseData)));
    assert!(matches!(Integer::from(i64::MAX).as_i16(), Err(Error::ImpreciseCastWouldLoseData)));
    assert!(matches!(Integer::from(i128::MAX).as_i16(), Err(Error::ImpreciseCastWouldLoseData)));
    assert!(Integer::from(i8::MAX as u8).as_i16().is_ok());
    assert!(Integer::from(i16::MAX as u16).as_i16().is_ok());
    assert!(matches!(Integer::from(i32::MAX as u32).as_i16(), Err(Error::ImpreciseCastWouldLoseData)));
    assert!(matches!(Integer::from(i64::MAX as u64).as_i16(), Err(Error::ImpreciseCastWouldLoseData)));
    assert!(matches!(Integer::from(i128::MAX as u128).as_i16(), Err(Error::ImpreciseCastWouldLoseData)));
    assert!(Integer::from(i8::MIN).as_i16().is_ok());
    assert!(Integer::from(i16::MIN).as_i16().is_ok());
    assert!(matches!(Integer::from(i32::MIN).as_i16(), Err(Error::ImpreciseCastWouldLoseData)));
    assert!(matches!(Integer::from(i64::MIN).as_i16(), Err(Error::ImpreciseCastWouldLoseData)));
    assert!(matches!(Integer::from(i128::MIN).as_i16(), Err(Error::ImpreciseCastWouldLoseData)));
    assert!(Integer::from(u8::MAX).as_i32().is_ok());
    assert!(Integer::from(u16::MAX).as_i32().is_ok());
    assert!(matches!(Integer::from(u32::MAX).as_i32(), Err(Error::ImpreciseCastWouldLoseData)));
    assert!(matches!(Integer::from(u64::MAX).as_i32(), Err(Error::ImpreciseCastWouldLoseData)));
    assert!(matches!(Integer::from(u128::MAX).as_i32(), Err(Error::ImpreciseCastWouldLoseData)));
    assert!(Integer::from(i8::MAX).as_i32().is_ok());
    assert!(Integer::from(i16::MAX).as_i32().is_ok());
    assert!(Integer::from(i32::MAX).as_i32().is_ok());
    assert!(matches!(Integer::from(i64::MAX).as_i32(), Err(Error::ImpreciseCastWouldLoseData)));
    assert!(matches!(Integer::from(i128::MAX).as_i32(), Err(Error::ImpreciseCastWouldLoseData)));
    assert!(Integer::from(i8::MAX as u8).as_i32().is_ok());
    assert!(Integer::from(i16::MAX as u16).as_i32().is_ok());
    assert!(Integer::from(i32::MAX as u32).as_i32().is_ok());
    assert!(matches!(Integer::from(i64::MAX as u64).as_i32(), Err(Error::ImpreciseCastWouldLoseData)));
    assert!(matches!(Integer::from(i128::MAX as u128).as_i32(), Err(Error::ImpreciseCastWouldLoseData)));
    assert!(Integer::from(i8::MIN).as_i32().is_ok());
    assert!(Integer::from(i16::MIN).as_i32().is_ok());
    assert!(Integer::from(i32::MIN).as_i32().is_ok());
    assert!(matches!(Integer::from(i64::MIN).as_i32(), Err(Error::ImpreciseCastWouldLoseData)));
    assert!(matches!(Integer::from(i128::MIN).as_i32(), Err(Error::ImpreciseCastWouldLoseData)));
    assert!(Integer::from(u8::MAX).as_i64().is_ok());
    assert!(Integer::from(u16::MAX).as_i64().is_ok());
    assert!(Integer::from(u32::MAX).as_i64().is_ok());
    assert!(matches!(Integer::from(u64::MAX).as_i64(), Err(Error::ImpreciseCastWouldLoseData)));
    assert!(matches!(Integer::from(u128::MAX).as_i64(), Err(Error::ImpreciseCastWouldLoseData)));
    assert!(Integer::from(i8::MAX).as_i64().is_ok());
    assert!(Integer::from(i16::MAX).as_i64().is_ok());
    assert!(Integer::from(i32::MAX).as_i64().is_ok());
    assert!(Integer::from(i64::MAX).as_i64().is_ok());
    assert!(matches!(Integer::from(i128::MAX).as_i64(), Err(Error::ImpreciseCastWouldLoseData)));
    assert!(Integer::from(i8::MAX as u8).as_i64().is_ok());
    assert!(Integer::from(i16::MAX as u16).as_i64().is_ok());
    assert!(Integer::from(i32::MAX as u32).as_i64().is_ok());
    assert!(Integer::from(i64::MAX as u64).as_i64().is_ok());
    assert!(matches!(Integer::from(i128::MAX as u128).as_i64(), Err(Error::ImpreciseCastWouldLoseData)));
    assert!(Integer::from(i8::MIN).as_i64().is_ok());
    assert!(Integer::from(i16::MIN).as_i64().is_ok());
    assert!(Integer::from(i32::MIN).as_i64().is_ok());
    assert!(Integer::from(i64::MIN).as_i64().is_ok());
    assert!(matches!(Integer::from(i128::MIN).as_i64(), Err(Error::ImpreciseCastWouldLoseData)));
    assert!(Integer::from(u8::MAX).as_i128().is_ok());
    assert!(Integer::from(u16::MAX).as_i128().is_ok());
    assert!(Integer::from(u32::MAX).as_i128().is_ok());
    assert!(Integer::from(u64::MAX).as_i128().is_ok());
    assert!(matches!(Integer::from(u128::MAX).as_i128(), Err(Error::ImpreciseCastWouldLoseData)));
    assert!(Integer::from(i8::MAX).as_i128().is_ok());
    assert!(Integer::from(i16::MAX).as_i128().is_ok());
    assert!(Integer::from(i32::MAX).as_i128().is_ok());
    assert!(Integer::from(i64::MAX).as_i128().is_ok());
    assert!(Integer::from(i128::MAX).as_i128().is_ok());
    assert!(Integer::from(i8::MAX as u8).as_i128().is_ok());
    assert!(Integer::from(i16::MAX as u16).as_i128().is_ok());
    assert!(Integer::from(i32::MAX as u32).as_i128().is_ok());
    assert!(Integer::from(i64::MAX as u64).as_i128().is_ok());
    assert!(Integer::from(i128::MAX as u128).as_i128().is_ok());
    assert!(Integer::from(i8::MIN).as_i128().is_ok());
    assert!(Integer::from(i16::MIN).as_i128().is_ok());
    assert!(Integer::from(i32::MIN).as_i128().is_ok());
    assert!(Integer::from(i64::MIN).as_i128().is_ok());
    assert!(Integer::from(i128::MIN).as_i128().is_ok());
    assert!(Integer::from(u8::MAX).as_u8().is_ok());
    assert!(matches!(Integer::from(u16::MAX).as_u8(), Err(Error::ImpreciseCastWouldLoseData)));
    assert!(matches!(Integer::from(u32::MAX).as_u8(), Err(Error::ImpreciseCastWouldLoseData)));
    assert!(matches!(Integer::from(u64::MAX).as_u8(), Err(Error::ImpreciseCastWouldLoseData)));
    assert!(matches!(Integer::from(u128::MAX).as_u8(), Err(Error::ImpreciseCastWouldLoseData)));
    assert!(Integer::from(i8::MAX).as_u8().is_ok());
    assert!(matches!(Integer::from(i16::MAX).as_u8(), Err(Error::ImpreciseCastWouldLoseData)));
    assert!(matches!(Integer::from(i32::MAX).as_u8(), Err(Error::ImpreciseCastWouldLoseData)));
    assert!(matches!(Integer::from(i64::MAX).as_u8(), Err(Error::ImpreciseCastWouldLoseData)));
    assert!(matches!(Integer::from(i128::MAX).as_u8(), Err(Error::ImpreciseCastWouldLoseData)));
    assert!(matches!(Integer::from(i8::MIN).as_u8(), Err(Error::ImpreciseCastWouldLoseData)));
    assert!(matches!(Integer::from(i16::MIN).as_u8(), Err(Error::ImpreciseCastWouldLoseData)));
    assert!(matches!(Integer::from(i32::MIN).as_u8(), Err(Error::ImpreciseCastWouldLoseData)));
    assert!(matches!(Integer::from(i64::MIN).as_u8(), Err(Error::ImpreciseCastWouldLoseData)));
    assert!(matches!(Integer::from(i128::MIN).as_u8(), Err(Error::ImpreciseCastWouldLoseData)));
    assert!(Integer::from(u8::MAX).as_u16().is_ok());
    assert!(Integer::from(u16::MAX).as_u16().is_ok());
    assert!(matches!(Integer::from(u32::MAX).as_u16(), Err(Error::ImpreciseCastWouldLoseData)));
    assert!(matches!(Integer::from(u64::MAX).as_u16(), Err(Error::ImpreciseCastWouldLoseData)));
    assert!(matches!(Integer::from(u128::MAX).as_u16(), Err(Error::ImpreciseCastWouldLoseData)));
    assert!(Integer::from(i8::MAX).as_u16().is_ok());
    assert!(Integer::from(i16::MAX).as_u16().is_ok());
    assert!(matches!(Integer::from(i32::MAX).as_u16(), Err(Error::ImpreciseCastWouldLoseData)));
    assert!(matches!(Integer::from(i64::MAX).as_u16(), Err(Error::ImpreciseCastWouldLoseData)));
    assert!(matches!(Integer::from(i128::MAX).as_u16(), Err(Error::ImpreciseCastWouldLoseData)));
    assert!(matches!(Integer::from(i8::MIN).as_u16(), Err(Error::ImpreciseCastWouldLoseData)));
    assert!(matches!(Integer::from(i16::MIN).as_u16(), Err(Error::ImpreciseCastWouldLoseData)));
    assert!(matches!(Integer::from(i32::MIN).as_u16(), Err(Error::ImpreciseCastWouldLoseData)));
    assert!(matches!(Integer::from(i64::MIN).as_u16(), Err(Error::ImpreciseCastWouldLoseData)));
    assert!(matches!(Integer::from(i128::MIN).as_u16(), Err(Error::ImpreciseCastWouldLoseData)));
    assert!(Integer::from(u8::MAX).as_u32().is_ok());
    assert!(Integer::from(u16::MAX).as_u32().is_ok());
    assert!(Integer::from(u32::MAX).as_u32().is_ok());
    assert!(matches!(Integer::from(u64::MAX).as_u32(), Err(Error::ImpreciseCastWouldLoseData)));
    assert!(matches!(Integer::from(u128::MAX).as_u32(), Err(Error::ImpreciseCastWouldLoseData)));
    assert!(Integer::from(i8::MAX).as_u32().is_ok());
    assert!(Integer::from(i16::MAX).as_u32().is_ok());
    assert!(Integer::from(i32::MAX).as_u32().is_ok());
    assert!(matches!(Integer::from(i64::MAX).as_u32(), Err(Error::ImpreciseCastWouldLoseData)));
    assert!(matches!(Integer::from(i128::MAX).as_u32(), Err(Error::ImpreciseCastWouldLoseData)));
    assert!(matches!(Integer::from(i8::MIN).as_u32(), Err(Error::ImpreciseCastWouldLoseData)));
    assert!(matches!(Integer::from(i16::MIN).as_u32(), Err(Error::ImpreciseCastWouldLoseData)));
    assert!(matches!(Integer::from(i32::MIN).as_u32(), Err(Error::ImpreciseCastWouldLoseData)));
    assert!(matches!(Integer::from(i64::MIN).as_u32(), Err(Error::ImpreciseCastWouldLoseData)));
    assert!(matches!(Integer::from(i128::MIN).as_u32(), Err(Error::ImpreciseCastWouldLoseData)));
    assert!(Integer::from(u8::MAX).as_u64().is_ok());
    assert!(Integer::from(u16::MAX).as_u64().is_ok());
    assert!(Integer::from(u32::MAX).as_u64().is_ok());
    assert!(Integer::from(u64::MAX).as_u64().is_ok());
    assert!(matches!(Integer::from(u128::MAX).as_u64(), Err(Error::ImpreciseCastWouldLoseData)));
    assert!(Integer::from(i8::MAX).as_u64().is_ok());
    assert!(Integer::from(i16::MAX).as_u64().is_ok());
    assert!(Integer::from(i32::MAX).as_u64().is_ok());
    assert!(Integer::from(i64::MAX).as_u64().is_ok());
    assert!(matches!(Integer::from(i128::MAX).as_u64(), Err(Error::ImpreciseCastWouldLoseData)));
    assert!(matches!(Integer::from(i8::MIN).as_u64(), Err(Error::ImpreciseCastWouldLoseData)));
    assert!(matches!(Integer::from(i16::MIN).as_u64(), Err(Error::ImpreciseCastWouldLoseData)));
    assert!(matches!(Integer::from(i32::MIN).as_u64(), Err(Error::ImpreciseCastWouldLoseData)));
    assert!(matches!(Integer::from(i64::MIN).as_u64(), Err(Error::ImpreciseCastWouldLoseData)));
    assert!(matches!(Integer::from(i128::MIN).as_u64(), Err(Error::ImpreciseCastWouldLoseData)));
    assert!(Integer::from(u8::MAX).as_u128().is_ok());
    assert!(Integer::from(u16::MAX).as_u128().is_ok());
    assert!(Integer::from(u32::MAX).as_u128().is_ok());
    assert!(Integer::from(u64::MAX).as_u128().is_ok());
    assert!(Integer::from(u128::MAX).as_u128().is_ok());
    assert!(Integer::from(i8::MAX).as_u128().is_ok());
    assert!(Integer::from(i16::MAX).as_u128().is_ok());
    assert!(Integer::from(i32::MAX).as_u128().is_ok());
    assert!(Integer::from(i64::MAX).as_u128().is_ok());
    assert!(Integer::from(i128::MAX).as_u128().is_ok());
    assert!(matches!(Integer::from(i8::MIN).as_u128(), Err(Error::ImpreciseCastWouldLoseData)));
    assert!(matches!(Integer::from(i16::MIN).as_u128(), Err(Error::ImpreciseCastWouldLoseData)));
    assert!(matches!(Integer::from(i32::MIN).as_u128(), Err(Error::ImpreciseCastWouldLoseData)));
    assert!(matches!(Integer::from(i64::MIN).as_u128(), Err(Error::ImpreciseCastWouldLoseData)));
    assert!(matches!(Integer::from(i128::MIN).as_u128(), Err(Error::ImpreciseCastWouldLoseData)));
}

#[test]
fn integer_as_float() {
    let f32_digits = f32::MANTISSA_DIGITS;
    let f64_digits = f64::MANTISSA_DIGITS;
    assert_eq!(
        Integer::from(-(2_i32.pow(f32_digits))).as_f32_exact().map(|v| v as f32),
        Ok(-(2_f32.powi(24)))
    );
    assert!(Integer::from(2_i32.pow(f32_digits) - 1).as_f32_exact().is_ok());
    assert!(matches!(Integer::from(i32::MIN).as_f32_exact(), Err(Error::ImpreciseCastWouldLoseData)));
    assert!(matches!(Integer::from(i32::MAX).as_f32_exact(), Err(Error::ImpreciseCastWouldLoseData)));
    assert!(Integer::from(-(2_i64.pow(f64_digits))).as_f64_exact().is_ok());
    assert!(Integer::from(2_i64.pow(f64_digits) - 1).as_f64_exact().is_ok());
    assert!(matches!(Integer::from(i64::MIN).as_f64_exact(), Err(Error::ImpreciseCastWouldLoseData)));
    assert!(matches!(Integer::from(i64::MAX).as_f64_exact(), Err(Error::ImpreciseCastWouldLoseData)));
}

#[test]
fn integer_display() {
    assert_eq!(Integer::from(i8::MAX).to_string(), "127");
    assert_eq!(Integer::from(i16::MAX).to_string(), "32767");
    assert_eq!(Integer::from(i32::MAX).to_string(), "2147483647");
    assert_eq!(Integer::from(i64::MAX).to_string(), "9223372036854775807");
    assert_eq!(
        Integer::from(i128::MAX).to_string(),
        "170141183460469231731687303715884105727"
    );
    assert_eq!(Integer::from(u8::MAX).to_string(), "255");
    assert_eq!(Integer::from(u16::MAX).to_string(), "65535");
    assert_eq!(Integer::from(u32::MAX).to_string(), "4294967295");
    assert_eq!(Integer::from(u64::MAX).to_string(), "18446744073709551615");
    assert_eq!(
        Integer::from(u128::MAX).to_string(),
        "340282366920938463463374607431768211455"
    );
    assert_eq!(Integer::from(i128::MIN).to_string(), "-170141183460469231731687303715884105728");
}

#[test]
fn float_bits_survive_the_wire() {
    let value = 0.1_f64;
    roundtrip_float(narrow_f64(value), Float(InnerFloat::F64(value.to_bits())), 9);
    roundtrip_float(narrow_f64(f64::from(0.1_f32)), Float(InnerFloat::F32(0.1_f32.to_bits())), 5);
    roundtrip_float(narrow_f64(f64::INFINITY), Float(InnerFloat::F16(0x7c00)), 3);
    let nan = f64::from_bits(0x7ff8_0000_0000_0001);
    roundtrip_float(Float(InnerFloat::F64(nan.to_bits())), Float(InnerFloat::F64(0x7ff8_0000_0000_0001)), 9);
}

#[test]
fn header_kinds_pack_into_first_byte() {
    let mut out = Vec::new();
    assert_eq!(write_atom_header(&mut out, Kind::Special, 3), 1);
    assert_eq!(out, vec![0x03]);
    out.clear();
    assert_eq!(write_atom_header(&mut out, Kind::Bytes, 5), 1);
    assert_eq!(out, vec![0xE5]);
    out.clear();
    assert_eq!(write_atom_header(&mut out, Kind::Int, 16), 2);
    assert_eq!(out, vec![0x30, 0x01]);
    out.clear();
    assert_eq!(write_atom_header(&mut out, Kind::Int, u64::MAX), 10);
    assert_eq!(out[9], 0x0f);
}

#[test]
fn over_long_header_is_refused() {
    let bytes = [0x10_u8, 0x80, 0x80, 0x80, 0x80, 0x80, 0x80, 0x80, 0x80, 0x80];
    assert!(matches!(
        read_atom_header(&mut SliceReader::from(&bytes[..])),
        Err(Error::InvalidAtomHeader)
    ));
    let short = [0x10_u8, 0x80];
    assert!(matches!(read_atom_header(&mut SliceReader::from(&short[..])), Err(Error::Eof)));
}
