use pot::format::Integer;
use pot::ser::Serializer;
use pot::{Compatibility, Value};

fn written(value: &Value) -> Vec<u8> {
    let mut serializer = Serializer::new(Compatibility::Full);
    value.write_to(&mut serializer);
    serializer.into_parts().0[4..].to_vec()
}

#[test]
fn value_writes_its_atoms() {
    let value = Value::from_sequence(vec![
        Value::Integer(Integer::from(1_u8)),
        Value::String(String::from("hi")),
        Value::Nothing,
        Value::Mappings(vec![(Value::Bool(true), Value::Unit)]),
    ]);
    assert_eq!(
        written(&value),
        vec![0x84, 0x40, 0x01, 0xE2, b'h', b'i', 0x00, 0xA1, 0x03, 0x01]
    );
    assert_eq!(written(&Value::Bytes(vec![0xFE, 0xED])), vec![0xE2, 0xFE, 0xED]);
    assert_eq!(written(&Value::Integer(Integer::from(-1_i64))), vec![0x20, 0xFF]);
}

#[test]
fn value_accessors() {
    assert!(Value::Nothing.is_empty());
    assert!(!Value::Nothing.as_bool());
    assert!(Value::Unit.as_bool());
    assert!(!Value::Integer(Integer::from(0_u8)).as_bool());
    assert!(Value::String(String::from("x")).as_bool());
    assert!(Value::Sequence(Vec::new()).is_empty());
    assert_eq!(Value::Bytes(b"hello".to_vec()).as_str(), Some("hello"));
    assert_eq!(Value::Bytes(vec![0xFF]).as_str(), None);
    assert_eq!(Value::String(String::from("hello")).as_bytes(), Some(&b"hello"[..]));
    assert_eq!(
        Value::Integer(Integer::from(7_u8)).as_integer(),
        Some(Integer::from(7_u8))
    );
    assert_eq!(Value::Unit.as_integer(), None);
    let seq = Value::from_sequence(vec![Value::Unit]);
    assert_eq!(seq.values().len(), 1);
    assert_eq!(seq.mappings().len(), 0);
    let map = Value::from_mappings(vec![(Value::Unit, Value::Nothing)]);
    assert_eq!(map.mappings().len(), 1);
    assert_eq!(map.values().len(), 0);
}

#[test]
fn value_round_trip() {
    let value = Value::Mappings(vec![
        (
            Value::String(String::from("numbers")),
            Value::Sequence(vec![
                Value::Integer(Integer::from(-5_i32)),
                Value::Integer(Integer::from(300_u32)),
                Value::Integer(Integer::from(u128::MAX)),
            ]),
        ),
        (Value::Bytes(vec![0xFE, 0xED, 0xD0, 0xD0]), Value::Bool(false)),
        (Value::Unit, Value::Nothing),
    ]);
    let mut serializer = Serializer::new(Compatibility::Full);
    value.write_to(&mut serializer);
    let (bytes, _) = serializer.into_parts();
    let mut deserializer = pot::de::Deserializer::from_slice(&bytes, usize::MAX).unwrap();
    let read = Value::read_from(&mut deserializer).unwrap();
    assert!(deserializer.end_of_input());
    assert_eq!(written(&read), written(&value));
    assert_eq!(read.mappings().len(), 3);
    assert_eq!(read.mappings()[0].0.as_str(), Some("numbers"));
    assert_eq!(read.mappings()[0].1.values()[0].as_integer(), Some(Integer::from(-5_i8)));
}

#[test]
fn value_reads_dynamic_and_named_maps() {
    let mut serializer = Serializer::new(Compatibility::Full);
    let known = serializer.serialize_map(None);
    serializer.serialize_str("a");
    serializer.serialize_newtype_variant("V");
    serializer.serialize_u8(1);
    serializer.end_map(known);
    let (bytes, _) = serializer.into_parts();
    let mut deserializer = pot::de::Deserializer::from_slice(&bytes, usize::MAX).unwrap();
    let read = Value::read_from(&mut deserializer).unwrap();
    assert!(deserializer.end_of_input());
    let entries = read.mappings();
    assert_eq!(entries.len(), 1);
    assert_eq!(entries[0].0.as_str(), Some("a"));
    let named = entries[0].1.mappings();
    assert_eq!(named.len(), 1);
    assert_eq!(named[0].0.as_str(), Some("V"));
    assert_eq!(named[0].1.as_integer(), Some(Integer::from(1_u8)));
}

#[test]
fn value_read_respects_budget() {
    let value = Value::Bytes(vec![1, 2, 3, 4, 5]);
    let mut serializer = Serializer::new(Compatibility::Full);
    value.write_to(&mut serializer);
    let (bytes, _) = serializer.into_parts();
    let mut deserializer = pot::de::Deserializer::from_slice(&bytes, 4).unwrap();
    assert!(matches!(
        Value::read_from(&mut deserializer),
        Err(pot::Error::TooManyBytesRead)
    ));
}

#[test]
fn unit_enum_fix() {
    let write = |s: &mut Serializer| {
        s.serialize_seq(Some(2)).unwrap();
        s.serialize_unit_variant("Unit");
        s.serialize_newtype_variant("Tuple");
        s.serialize_u64(0);
    };
    let mut ambiguous = Serializer::new(Compatibility::Full);
    write(&mut ambiguous);
    let mut fixed = Serializer::new(Compatibility::V4);
    write(&mut fixed);
    let (ambiguous, _) = ambiguous.into_parts();
    let (fixed, _) = fixed.into_parts();
    assert_ne!(ambiguous, fixed);

    let mut deserializer = pot::de::Deserializer::from_slice(&fixed, usize::MAX).unwrap();
    let good_value = Value::read_from(&mut deserializer).unwrap();
    assert!(deserializer.end_of_input());
    let sequence = good_value.values();
    assert_eq!(sequence.len(), 2);
    assert_eq!(sequence[0].mappings()[0].0.as_str(), Some("Unit"));
    assert_eq!(sequence[0].mappings()[0].1, Value::Unit);
    assert_eq!(sequence[1].mappings().len(), 1);
    assert_eq!(sequence[1].mappings()[0].0.as_str(), Some("Tuple"));
    assert_eq!(sequence[1].mappings()[0].1, Value::Integer(Integer::from(0_u8)));
}
