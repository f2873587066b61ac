use pot::de::{DecodedStr, Deserializer, Number, SymbolList, SymbolMapRef, Visit};
use pot::format::{
    write_atom_header, write_bytes, write_header, write_named, Float, InnerFloat, Integer, Kind,
    CURRENT_VERSION,
};
use pot::ser::{Serializer, SymbolMap};
use pot::{Compatibility, Config, Error};

#[derive(PartialEq, Debug, Default, Clone)]
struct NumbersStruct {
    u8: u8,
    u16: u16,
    char: char,
    u32: u32,
    u64: u64,
    u128: u128,
    i8: i8,
    i16: i16,
    i32: i32,
    i64: i64,
    i128: i128,
    f32: f32,
    f64: f64,
}

#[derive(PartialEq, Debug)]
enum EnumVariants {
    Unit,
    Tuple(u64),
    TupleTwoArgs(u64, u64),
    Struct { arg: u64 },
}

/// The narrowest float form that holds `value` bit-exactly.
fn narrow_f64(value: f64) -> Float {
    let single = value as f32;
    let single = if f64::from(single).to_bits() == value.to_bits() {
        Some(single)
    } else {
        None
    };
    let half = single.and_then(|s| {
        let h = half::f16::from_f32(s);
        if h.to_f32().to_bits() == s.to_bits() {
            Some(h.to_bits())
        } else {
            None
        }
    });
    Float::narrowest(value.to_bits(), single.map(f32::to_bits), half)
}

fn number_to_f64(number: Number) -> f64 {
    match number {
        Number::Float(Float(InnerFloat::F16(bits))) => half::f16::from_bits(bits).to_f64(),
        Number::Float(Float(InnerFloat::F32(bits))) => f64::from(f32::from_bits(bits)),
        Number::Float(Float(InnerFloat::F64(bits))) => f64::from_bits(bits),
        Number::Integer(integer) => integer.as_f64_exact().unwrap() as f64,
    }
}

fn to_vec_with(compatibility: Compatibility, write: impl Fn(&mut Serializer)) -> Vec<u8> {
    let mut serializer = Serializer::new(compatibility);
    write(&mut serializer);
    serializer.into_parts().0
}

fn to_vec(write: impl Fn(&mut Serializer)) -> Vec<u8> {
    to_vec_with(Compatibility::Full, write)
}

fn from_slice<T>(
    bytes: &[u8],
    read: impl for<'a, 'de> Fn(&'a mut Deserializer<'de>) -> Result<T, Error>,
) -> Result<T, Error> {
    from_slice_with_budget(bytes, usize::MAX, read)
}

fn from_slice_with_budget<T>(
    bytes: &[u8],
    budget: usize,
    read: impl for<'a, 'de> Fn(&'a mut Deserializer<'de>) -> Result<T, Error>,
) -> Result<T, Error> {
    let mut deserializer = Deserializer::from_slice(bytes, budget)?;
    let value = read(&mut deserializer)?;
    if deserializer.end_of_input() {
        Ok(value)
    } else {
        Err(Error::TrailingBytes)
    }
}

fn write_numbers(s: &mut Serializer, n: &NumbersStruct) {
    s.serialize_struct(13);
    s.serialize_field("u8");
    s.serialize_u8(n.u8);
    s.serialize_field("u16");
    s.serialize_u16(n.u16);
    s.serialize_field("char");
    s.serialize_char(n.char);
    s.serialize_field("u32");
    s.serialize_u32(n.u32);
    s.serialize_field("u64");
    s.serialize_u64(n.u64);
    s.serialize_field("u128");
    s.serialize_u128(n.u128);
    s.serialize_field("i8");
    s.serialize_i8(n.i8);
    s.serialize_field("i16");
    s.serialize_i16(n.i16);
    s.serialize_field("i32");
    s.serialize_i32(n.i32);
    s.serialize_field("i64");
    s.serialize_i64(n.i64);
    s.serialize_field("i128");
    s.serialize_i128(n.i128);
    s.serialize_field("f32");
    s.serialize_float(narrow_f64(f64::from(n.f32)));
    s.serialize_field("f64");
    s.serialize_float(narrow_f64(n.f64));
}

fn read_numbers(d: &mut Deserializer<'_>) -> Result<NumbersStruct, Error> {
    let mut n = NumbersStruct::default();
    let count = d.deserialize_map()?.expect("a struct has a known length");
    for _ in 0..count {
        let key = d.deserialize_identifier()?;
        match key.as_str() {
            "u8" => n.u8 = d.deserialize_u8()?,
            "u16" => n.u16 = d.deserialize_u16()?,
            "char" => n.char = d.deserialize_char()?,
            "u32" => n.u32 = d.deserialize_u32()?,
            "u64" => n.u64 = d.deserialize_u64()?,
            "u128" => n.u128 = d.deserialize_u128()?,
            "i8" => n.i8 = d.deserialize_i8()?,
            "i16" => n.i16 = d.deserialize_i16()?,
            "i32" => n.i32 = d.deserialize_i32()?,
            "i64" => n.i64 = d.deserialize_i64()?,
            "i128" => n.i128 = d.deserialize_i128()?,
            "f32" => n.f32 = number_to_f64(d.deserialize_number()?) as f32,
            "f64" => n.f64 = number_to_f64(d.deserialize_number()?),
            other => panic!("unexpected field {other}"),
        }
    }
    Ok(n)
}

fn write_enum(s: &mut Serializer, value: &EnumVariants) {
    match value {
        EnumVariants::Unit => s.serialize_unit_variant("Unit"),
        EnumVariants::Tuple(a) => {
            s.serialize_newtype_variant("Tuple");
            s.serialize_u64(*a);
        }
        EnumVariants::TupleTwoArgs(a, b) => {
            s.serialize_tuple_variant("TupleTwoArgs", 2);
            s.serialize_u64(*a);
            s.serialize_u64(*b);
        }
        EnumVariants::Struct { arg } => {
            s.serialize_struct_variant("Struct", 1);
            s.serialize_field("arg");
            s.serialize_u64(*arg);
        }
    }
}

fn read_enum(d: &mut Deserializer<'_>) -> Result<EnumVariants, Error> {
    d.variant_start()?;
    let name = d.deserialize_identifier()?;
    match name.as_str() {
        "Unit" => {
            d.unit_variant()?;
            Ok(EnumVariants::Unit)
        }
        "Tuple" => Ok(EnumVariants::Tuple(d.deserialize_u64()?)),
        "TupleTwoArgs" => {
            assert_eq!(d.deserialize_seq()?, 2);
            Ok(EnumVariants::TupleTwoArgs(d.deserialize_u64()?, d.deserialize_u64()?))
        }
        "Struct" => {
            assert_eq!(d.deserialize_map()?, Some(1));
            assert_eq!(d.deserialize_identifier()?.as_str(), "arg");
            Ok(EnumVariants::Struct { arg: d.deserialize_u64()? })
        }
        other => panic!("unknown variant {other}"),
    }
}

fn max_numbers() -> NumbersStruct {
    NumbersStruct {
        u8: u8::MAX,
        u16: u16::MAX,
        char: char::MAX,
        u32: u32::MAX,
        u64: u64::MAX,
        u128: u128::MAX,
        i8: i8::MIN,
        i16: i16::MIN,
        i32: i32::MIN,
        i64: i64::MIN,
        i128: i128::MIN,
        f32: 1.,
        f64: 1.,
    }
}

#[test]
fn numbers() {
    for value in [NumbersStruct::default(), max_numbers()] {
        let bytes = to_vec(|s| write_numbers(s, &value));
        assert_eq!(from_slice(&bytes, read_numbers).unwrap(), value);
    }
}

fn check_u128(value: u128, expected: usize) {
    let bytes = to_vec(|s| s.serialize_u128(value));
    assert_eq!(bytes.len() - 4, expected);
    assert_eq!(from_slice(&bytes, |d| d.deserialize_u128()).unwrap(), value);
}

fn check_i128(value: i128, expected: usize) {
    let bytes = to_vec(|s| s.serialize_i128(value));
    assert_eq!(bytes.len() - 4, expected);
    assert_eq!(from_slice(&bytes, |d| d.deserialize_i128()).unwrap(), value);
}

fn check_f64(value: f64, expected: usize) {
    let bytes = to_vec(|s| s.serialize_float(narrow_f64(value)));
    assert_eq!(bytes.len() - 4, expected);
    let read = from_slice(&bytes, |d| d.deserialize_number()).unwrap();
    assert_eq!(number_to_f64(read).to_bits(), value.to_bits());
}

#[test]
fn number_packing() {
    check_u128(0_u128, 2);
    check_u128(2_u128.pow(8) - 1, 2);
    check_u128(2_u128.pow(8), 3);
    check_u128(2_u128.pow(16) - 1, 3);
    check_u128(2_u128.pow(16), 4);
    check_u128(2_u128.pow(24) - 1, 4);
    check_u128(2_u128.pow(24), 5);
    check_u128(2_u128.pow(32) - 1, 5);
    check_u128(2_u128.pow(32), 7);
    check_u128(2_u128.pow(48) - 1, 7);
    check_u128(2_u128.pow(48), 9);
    check_u128(2_u128.pow(64) - 1, 9);
    check_u128(2_u128.pow(64), 17);

    check_i128(0_i128, 2);
    check_i128(2_i128.pow(7) - 1, 2);
    check_i128(2_i128.pow(7), 3);
    check_i128(2_i128.pow(15) - 1, 3);
    check_i128(2_i128.pow(15), 4);
    check_i128(2_i128.pow(23) - 1, 4);
    check_i128(2_i128.pow(23), 5);
    check_i128(2_i128.pow(31) - 1, 5);
    check_i128(2_i128.pow(31), 7);
    check_i128(2_i128.pow(47) - 1, 7);
    check_i128(2_i128.pow(47), 9);
    check_i128(-(2_i128.pow(7)), 2);
    check_i128(-(2_i128.pow(7) + 1), 3);
    check_i128(-(2_i128.pow(15)), 3);
    check_i128(-(2_i128.pow(15) + 1), 4);
    check_i128(-(2_i128.pow(23)), 4);
    check_i128(-(2_i128.pow(23) + 1), 5);
    check_i128(-(2_i128.pow(31)), 5);
    check_i128(-(2_i128.pow(31) + 1), 7);
    check_i128(-(2_i128.pow(47)), 7);
    check_i128(-(2_i128.pow(47) + 1), 9);
    check_i128(-(2_i128.pow(63)), 9);
    check_i128(-(2_i128.pow(63) + 1), 17);

    check_f64(f64::INFINITY, 3);
    check_f64(f64::NEG_INFINITY, 3);
    check_f64(0_f64, 3);
    check_f64(-0_f64, 3);
    check_f64(0.1_f64, 9);
    check_f64(f64::from(0.1_f32), 5);
}

#[test]
fn tuples() {
    let bytes = to_vec(|s| {
        s.serialize_tuple(3);
        s.serialize_i32(1);
        s.serialize_bool(true);
        s.serialize_i32(3);
    });
    let read = from_slice(&bytes, |d| {
        assert_eq!(d.deserialize_seq()?, 3);
        Ok((d.deserialize_i32()?, d.deserialize_bool()?, d.deserialize_i32()?))
    });
    assert_eq!(read.unwrap(), (1, true, 3));
}

#[test]
fn enums() {
    for value in [
        EnumVariants::Unit,
        EnumVariants::Tuple(0),
        EnumVariants::TupleTwoArgs(1, 2),
        EnumVariants::Struct { arg: 3 },
    ] {
        let bytes = to_vec(|s| write_enum(s, &value));
        assert_eq!(from_slice(&bytes, read_enum).unwrap(), value);
    }

    let bytes = to_vec(|s| write_enum(s, &EnumVariants::Unit));
    let read = from_slice(&bytes, |d| {
        if d.deserialize_option()? {
            Ok(Some(read_enum(d)?))
        } else {
            Ok(None)
        }
    });
    assert_eq!(read.unwrap(), Some(EnumVariants::Unit));
}

#[test]
fn vectors() {
    let bytes = to_vec(|s| {
        s.serialize_seq(Some(2)).unwrap();
        s.serialize_u64(0);
        s.serialize_u64(1);
    });
    let read = from_slice(&bytes, |d| {
        let count = d.deserialize_seq()?;
        (0..count).map(|_| d.deserialize_u64()).collect::<Result<Vec<_>, _>>()
    });
    assert_eq!(read.unwrap(), vec![0_u64, 1]);

    let values = vec![NumbersStruct::default(), NumbersStruct::default()];
    let bytes = to_vec(|s| {
        s.serialize_seq(Some(values.len())).unwrap();
        for value in &values {
            write_numbers(s, value);
        }
    });
    let read = from_slice(&bytes, |d| {
        let count = d.deserialize_seq()?;
        (0..count).map(|_| read_numbers(d)).collect::<Result<Vec<_>, _>>()
    });
    assert_eq!(read.unwrap(), values);

    let mut serializer = Serializer::new(Compatibility::Full);
    assert!(matches!(serializer.serialize_seq(None), Err(Error::SequenceSizeMustBeKnown)));
}

fn read_option_u64(d: &mut Deserializer<'_>) -> Result<Option<u64>, Error> {
    if d.deserialize_option()? {
        Ok(Some(d.deserialize_u64()?))
    } else {
        Ok(None)
    }
}

#[test]
fn option() {
    let bytes = to_vec(|s| s.serialize_none());
    assert_eq!(from_slice(&bytes, read_option_u64).unwrap(), None);
    let bytes = to_vec(|s| s.serialize_u64(0));
    assert_eq!(from_slice(&bytes, read_option_u64).unwrap(), Some(0));
    let bytes = to_vec(|s| s.serialize_u64(u64::MAX));
    assert_eq!(from_slice(&bytes, read_option_u64).unwrap(), Some(u64::MAX));
}

#[test]
fn phantom() {
    let bytes = to_vec(|s| s.serialize_unit_struct());
    assert!(from_slice(&bytes, |d| d.deserialize_unit()).is_ok());
}

#[test]
fn tuple_struct() {
    let bytes = to_vec(|s| {
        s.serialize_tuple_struct(2);
        s.serialize_u32(1);
        s.serialize_u8(2);
    });
    let read = from_slice(&bytes, |d| {
        assert_eq!(d.deserialize_seq()?, 2);
        Ok((d.deserialize_u32()?, d.deserialize_u8()?))
    });
    assert_eq!(read.unwrap(), (1_u32, 2_u8));
}

#[test]
fn test_flatten() {
    let bytes = to_vec(|s| {
        let known = s.serialize_map(None);
        s.serialize_str("field");
        s.serialize_str("flat");
        s.serialize_str("Struct");
        s.serialize_map(Some(1));
        s.serialize_str("arg");
        s.serialize_u64(1);
        s.end_map(known);
    });
    let read = from_slice(&bytes, |d| {
        assert_eq!(d.deserialize_map()?, None);
        let mut field = String::new();
        let mut enumeration = None;
        while !d.next_is_dynamic_end()? {
            let key = d.deserialize_str()?;
            match key.as_str() {
                "field" => field = d.deserialize_str()?.as_str().to_string(),
                "Struct" => {
                    assert_eq!(d.deserialize_map()?, Some(1));
                    assert_eq!(d.deserialize_str()?.as_str(), "arg");
                    enumeration = Some(EnumVariants::Struct { arg: d.deserialize_u64()? });
                }
                other => panic!("unexpected key {other}"),
            }
        }
        Ok((field, enumeration))
    });
    assert_eq!(
        read.unwrap(),
        (String::from("flat"), Some(EnumVariants::Struct { arg: 1 }))
    );
}

fn send(sender: SymbolMap, value: &NumbersStruct) -> (Vec<u8>, SymbolMap) {
    let mut serializer = Serializer::new_with_symbol_map(sender, Compatibility::Full);
    write_numbers(&mut serializer, value);
    serializer.into_parts()
}

fn receive(receiver: SymbolList<'static>, bytes: &[u8]) -> SymbolList<'static> {
    let mut deserializer =
        Deserializer::from_slice_with_symbols(bytes, SymbolMapRef::persistent(receiver), usize::MAX)
            .unwrap();
    assert_eq!(read_numbers(&mut deserializer).unwrap(), NumbersStruct::default());
    assert!(deserializer.end_of_input());
    deserializer.into_symbols()
}

#[test]
fn persistent_symbols_slice() {
    let sender = SymbolMap::default();
    let receiver = SymbolList::default();

    let (bytes, sender) = send(sender, &NumbersStruct::default());
    let receiver = receive(receiver, &bytes);
    let symbol_count_after_first_send = receiver.len();
    let first_payload_len = bytes.len();

    let (bytes, _sender) = send(sender, &NumbersStruct::default());
    let receiver = receive(receiver, &bytes);
    assert_eq!(symbol_count_after_first_send, receiver.len());
    println!("First: {first_payload_len} bytes; Second: {} bytes", bytes.len());
    assert!(first_payload_len > bytes.len());
}

#[test]
fn persistent_symbols_read() {
    let sender = SymbolMap::default();
    let receiver = SymbolList::default();

    let (bytes, sender) = send(sender, &NumbersStruct::default());
    let copied: Vec<u8> = bytes.iter().copied().collect();
    let receiver = receive(receiver, &copied);
    let symbol_count_after_first_send = receiver.len();
    let first_payload_len = bytes.len();

    let (bytes, _sender) = send(sender, &NumbersStruct::default());
    let copied: Vec<u8> = bytes.iter().copied().collect();
    let receiver = receive(receiver, &copied);
    assert_eq!(symbol_count_after_first_send, receiver.len());
    println!("First: {first_payload_len} bytes; Second: {} bytes", bytes.len());
    assert!(first_payload_len > bytes.len());
}

#[test]
fn encode_true() {
    assert_eq!(to_vec(|s| s.serialize_bool(true)), vec![0x50, 0x6F, 0x74, 0x00, 0x03]);
}

#[test]
fn encode_hello() {
    assert_eq!(
        to_vec(|s| s.serialize_str("hello")),
        vec![0x50, 0x6F, 0x74, 0x00, 0xE5, 0x68, 0x65, 0x6C, 0x6C, 0x6F]
    );
}

fn write_ab(s: &mut Serializer) {
    s.serialize_struct(2);
    s.serialize_field("a");
    s.serialize_i32(0);
    s.serialize_field("b");
    s.serialize_i32(0);
}

#[test]
fn encode_struct_with_new_symbols() {
    assert_eq!(
        to_vec(write_ab),
        vec![0x50, 0x6F, 0x74, 0x00, 0xA2, 0xC2, 0x61, 0x20, 0x00, 0xC2, 0x62, 0x20, 0x00]
    );
}

#[test]
fn encode_struct_against_persistent_symbols() {
    let mut serializer = Serializer::new_with_symbol_map(SymbolMap::new(), Compatibility::Full);
    write_ab(&mut serializer);
    let (_, symbols) = serializer.into_parts();
    let mut serializer = Serializer::new_with_symbol_map(symbols, Compatibility::Full);
    write_ab(&mut serializer);
    let (bytes, symbols) = serializer.into_parts();
    assert_eq!(bytes, vec![0x50, 0x6F, 0x74, 0x00, 0xA2, 0xC1, 0x20, 0x00, 0xC3, 0x20, 0x00]);
    assert_eq!(symbols.len(), 2);
}

#[test]
fn option_of_u32() {
    let bytes = to_vec(|s| s.serialize_none());
    let read = |d: &mut Deserializer<'_>| {
        if d.deserialize_option()? {
            Ok(Some(d.deserialize_u32()?))
        } else {
            Ok(None)
        }
    };
    assert_eq!(from_slice(&bytes, read).unwrap(), None);
    let bytes = to_vec(|s| s.serialize_u32(0));
    assert!(bytes.windows(2).any(|w| w == [0x40, 0x00]));
    assert_eq!(from_slice(&bytes, read).unwrap(), Some(0));
}

#[test]
fn unit_variant_compatibility() {
    let full = to_vec_with(Compatibility::Full, |s| s.serialize_unit_variant("Unit"));
    assert_eq!(full, vec![0x50, 0x6F, 0x74, 0x00, 0x04, 0xC8, b'U', b'n', b'i', b't']);
    let v4 = to_vec_with(Compatibility::V4, |s| s.serialize_unit_variant("Unit"));
    assert_eq!(v4, vec![0x50, 0x6F, 0x74, 0x00, 0x04, 0xC8, b'U', b'n', b'i', b't', 0x01]);
    assert_eq!(from_slice(&full, read_enum).unwrap(), EnumVariants::Unit);
    assert_eq!(from_slice(&v4, read_enum).unwrap(), EnumVariants::Unit);
}

#[test]
fn repeated_symbol_is_referenced() {
    let bytes = to_vec(|s| {
        s.serialize_seq(Some(3)).unwrap();
        s.serialize_unit_variant("Unit");
        s.serialize_unit_variant("Unit");
        s.serialize_unit_variant("Unit");
    });
    assert_eq!(
        &bytes[4..],
        &[0x83, 0x04, 0xC8, b'U', b'n', b'i', b't', 0x04, 0xC1, 0x04, 0xC1]
    );
}

#[test]
fn persistent_payload_is_smaller() {
    let ephemeral = to_vec(|s| write_numbers(s, &NumbersStruct::default()));
    let (_, symbols) = send(SymbolMap::new(), &NumbersStruct::default());
    let (persistent, _) = send(symbols, &NumbersStruct::default());
    assert!(persistent.len() < ephemeral.len());
}

#[test]
fn unit_adaptations() {
    for unit in [to_vec(|s| s.serialize_unit()), to_vec(|s| s.serialize_none())] {
        assert_eq!(from_slice(&unit, |d| d.deserialize_u8()).unwrap(), 0);
        assert_eq!(from_slice(&unit, |d| d.deserialize_u16()).unwrap(), 0);
        assert_eq!(from_slice(&unit, |d| d.deserialize_u32()).unwrap(), 0);
        assert_eq!(from_slice(&unit, |d| d.deserialize_u64()).unwrap(), 0);
        assert_eq!(from_slice(&unit, |d| d.deserialize_u128()).unwrap(), 0);
        assert_eq!(from_slice(&unit, |d| d.deserialize_i8()).unwrap(), 0);
        assert_eq!(from_slice(&unit, |d| d.deserialize_i16()).unwrap(), 0);
        assert_eq!(from_slice(&unit, |d| d.deserialize_i32()).unwrap(), 0);
        assert_eq!(from_slice(&unit, |d| d.deserialize_i64()).unwrap(), 0);
        assert_eq!(from_slice(&unit, |d| d.deserialize_i128()).unwrap(), 0);
        assert!(!from_slice(&unit, |d| d.deserialize_bool()).unwrap());
        assert_eq!(from_slice(&unit, |d| d.deserialize_char()).unwrap(), '\0');
        assert_eq!(
            from_slice(&unit, |d| d.deserialize_str().map(|s| s.as_str().to_string())).unwrap(),
            ""
        );
        assert_eq!(
            from_slice(&unit, |d| d.deserialize_bytes().map(|b| b.as_slice().to_vec())).unwrap(),
            b""
        );
        assert_eq!(from_slice(&unit, |d| d.deserialize_seq()).unwrap(), 0);
        assert_eq!(from_slice(&unit, |d| d.deserialize_map()).unwrap(), Some(0));
        assert_eq!(number_to_f64(from_slice(&unit, |d| d.deserialize_number()).unwrap()), 0.0);
    }
    let unit = to_vec(|s| s.serialize_unit());
    assert!(from_slice(&unit, |d| {
        let some = d.deserialize_option()?;
        d.deserialize_unit()?;
        Ok(some)
    })
    .unwrap());
    let none = to_vec(|s| s.serialize_none());
    assert!(!from_slice(&none, |d| d.deserialize_option()).unwrap());
}

#[test]
fn incompatible_version() {
    let mut incompatible_header = Vec::new();
    write_header(&mut incompatible_header, CURRENT_VERSION + 1);
    assert!(matches!(
        from_slice(&incompatible_header, |d| d.deserialize_unit()),
        Err(Error::IncompatibleVersion)
    ));
    assert!(matches!(
        from_slice(b"Pod\0", |d| d.deserialize_unit()),
        Err(Error::NotAPot)
    ));
}

#[test]
fn invalid_char_cast() {
    let bytes = to_vec(|s| s.serialize_u32(0x11_0000));
    assert!(matches!(from_slice(&bytes, |d| d.deserialize_char()), Err(Error::InvalidUtf8)));
}

#[test]
fn bytes_to_identifier() {
    let mut valid_bytes = Vec::new();
    write_header(&mut valid_bytes, CURRENT_VERSION);
    write_named(&mut valid_bytes);
    write_bytes(&mut valid_bytes, b"Unit");
    assert_eq!(from_slice(&valid_bytes, read_enum).unwrap(), EnumVariants::Unit);

    let mut invalid_bytes = Vec::new();
    write_header(&mut invalid_bytes, CURRENT_VERSION);
    write_named(&mut invalid_bytes);
    write_bytes(&mut invalid_bytes, &0xFFFF_FFFF_u32.to_be_bytes());
    assert!(matches!(from_slice(&invalid_bytes, read_enum), Err(Error::InvalidUtf8)));
}

#[test]
fn invalid_symbol() {
    let mut valid_bytes = Vec::new();
    write_header(&mut valid_bytes, CURRENT_VERSION);
    write_atom_header(&mut valid_bytes, Kind::Symbol, 4);
    write_bytes(&mut valid_bytes, &0xFFFF_FFFF_u32.to_be_bytes());
    assert!(matches!(
        from_slice(&valid_bytes, |d| d.deserialize_any().map(|_| ())),
        Err(Error::InvalidUtf8)
    ));
}

#[test]
fn unknown_symbol_reference() {
    let mut bytes = Vec::new();
    write_header(&mut bytes, CURRENT_VERSION);
    write_atom_header(&mut bytes, Kind::Symbol, 5);
    assert!(matches!(
        from_slice(&bytes, |d| d.deserialize_identifier().map(|_| ())),
        Err(Error::UnknownSymbol(2))
    ));
}

#[test]
fn tests_unknown_special() {
    let mut invalid_bytes = Vec::new();
    write_header(&mut invalid_bytes, CURRENT_VERSION);
    write_atom_header(&mut invalid_bytes, Kind::Special, 5);
    assert!(from_slice(&invalid_bytes, |d| d.deserialize_unit()).is_err());
    let mut invalid_bytes = Vec::new();
    write_header(&mut invalid_bytes, CURRENT_VERSION);
    write_atom_header(&mut invalid_bytes, Kind::Special, 7);
    assert!(matches!(
        from_slice(&invalid_bytes, |d| d.deserialize_unit()),
        Err(Error::UnknownSpecial(7))
    ));
}

#[test]
fn invalid_numbers() {
    let mut invalid_float_byte_len = Vec::new();
    write_header(&mut invalid_float_byte_len, CURRENT_VERSION);
    write_atom_header(&mut invalid_float_byte_len, Kind::Float, 0);
    assert!(from_slice(&invalid_float_byte_len, |d| d.deserialize_number()).is_err());
    assert!(Float::read_from(
        Kind::Symbol,
        0,
        &mut pot::reader::SliceReader::from(&invalid_float_byte_len[..])
    )
    .is_err());

    let mut invalid_signed_byte_len = Vec::new();
    write_header(&mut invalid_signed_byte_len, CURRENT_VERSION);
    write_atom_header(&mut invalid_signed_byte_len, Kind::Int, 10);
    assert!(from_slice(&invalid_signed_byte_len, |d| d.deserialize_i32()).is_err());
    assert!(Integer::read_from(
        Kind::Symbol,
        0,
        &mut pot::reader::SliceReader::from(&invalid_signed_byte_len[..])
    )
    .is_err());

    let mut invalid_unsigned_byte_len = Vec::new();
    write_header(&mut invalid_unsigned_byte_len, CURRENT_VERSION);
    write_atom_header(&mut invalid_unsigned_byte_len, Kind::UInt, 10);
    assert!(from_slice(&invalid_unsigned_byte_len, |d| d.deserialize_u32()).is_err());
}

#[test]
fn unexpected_eof() {
    let mut invalid_bytes = Vec::new();
    write_header(&mut invalid_bytes, CURRENT_VERSION);
    write_atom_header(&mut invalid_bytes, Kind::Bytes, 10);
    assert!(matches!(
        from_slice(&invalid_bytes, |d| d.deserialize_bytes().map(|_| ())),
        Err(Error::Eof)
    ));
}

#[test]
fn too_big_read() {
    let mut invalid_bytes = Vec::new();
    write_header(&mut invalid_bytes, CURRENT_VERSION);
    write_atom_header(&mut invalid_bytes, Kind::Bytes, 10);
    let config = Config::default().allocation_budget(9);
    assert!(matches!(
        from_slice_with_budget(&invalid_bytes, config.allocation_budget, |d| d
            .deserialize_bytes()
            .map(|_| ())),
        Err(Error::TooManyBytesRead)
    ));
}

#[test]
fn limiting_input() {
    let bytes = to_vec(|s| {
        s.serialize_tuple(6);
        for _ in 0..6 {
            s.serialize_bytes(b"hello");
        }
    });
    let read = |d: &mut Deserializer<'_>| {
        let count = d.deserialize_seq()?;
        for _ in 0..count {
            d.deserialize_bytes()?;
        }
        Ok(())
    };
    assert!(from_slice_with_budget(&bytes, 30, read).is_ok());
    assert!(from_slice_with_budget(&bytes, 29, read).is_err());
}

#[test]
fn self_describing_reads() {
    let bytes = to_vec(|s| {
        s.serialize_seq(Some(4)).unwrap();
        s.serialize_i16(-300);
        s.serialize_str("hi");
        s.serialize_bytes(&[0xFF]);
        s.serialize_newtype_variant("V");
        s.serialize_unit();
    });
    let read = from_slice(&bytes, |d| {
        let mut seen = Vec::new();
        for _ in 0..7 {
            seen.push(match d.deserialize_any()? {
                Visit::Sequence(n) => format!("seq {n}"),
                Visit::Integer(i) => format!("int {}", i.to_string()),
                Visit::Str(DecodedStr::Borrowed(s)) => format!("str {s}"),
                Visit::Str(DecodedStr::Owned(s)) => format!("owned {s}"),
                Visit::Bytes(b) => format!("bytes {:?}", b.as_slice()),
                Visit::Named => String::from("named"),
                Visit::Unit => String::from("unit"),
                other => format!("{other:?}"),
            });
        }
        Ok(seen)
    });
    assert_eq!(
        read.unwrap(),
        vec!["seq 4", "int -300", "str hi", "bytes [255]", "named", "str V", "unit"]
            .into_iter()
            .map(String::from)
            .collect::<Vec<_>>()
    );
}

#[test]
fn trailing_bytes_are_reported() {
    let mut bytes = to_vec(|s| s.serialize_u8(1));
    bytes.push(0x01);
    assert!(matches!(from_slice(&bytes, |d| d.deserialize_u8()), Err(Error::TrailingBytes)));
}

#[test]
fn backwards_compatible() {
    let v1_canary = [
        80, 111, 116, 0, 162, 200, 110, 97, 109, 101, 232, 99, 111, 97, 108, 109, 105, 110, 101,
        196, 105, 100, 71, 239, 190, 173, 222, 208, 208, 237, 254,
    ];
    let parsed = from_slice(&v1_canary, |d| {
        let count = d.deserialize_map()?.expect("a struct has a known length");
        let mut name = String::new();
        let mut id = 0_u64;
        for _ in 0..count {
            let key = d.deserialize_identifier()?;
            match key.as_str() {
                "name" => name = d.deserialize_str()?.as_str().to_string(),
                "id" => id = d.deserialize_u64()?,
                other => panic!("unexpected field {other}"),
            }
        }
        Ok((name, id))
    });
    assert_eq!(parsed.unwrap(), (String::from("coalmine"), 0xfeed_d0d0_dead_beef));
}
