use pot::de::SymbolList;
use pot::ser::SymbolMap;

#[test]
fn symbol_map_debug() {
    let mut map = SymbolMap::default();
    let full_source = "abcd";

    map.find_or_add(&full_source[1..2]);
    map.find_or_add(&full_source[0..1]);
    map.find_or_add(&full_source[2..3]);
    map.find_or_add(&full_source[3..4]);

    // Symbols are kept in id order, and found again by their contents.
    assert_eq!(map.get(0), Some("b"));
    assert_eq!(map.get(1), Some("a"));
    assert_eq!(map.get(2), Some("c"));
    assert_eq!(map.get(3), Some("d"));
    assert_eq!(map.get(4), None);

    let listed: Vec<String> = (0..map.len())
        .map(|i| format!("{:?}", map.get(i).unwrap()))
        .collect();
    assert_eq!(format!("{{{}}}", listed.join(", ")), r#"{"b", "a", "c", "d"}"#);
}

#[test]
fn symbols_are_deduplicated_by_contents() {
    let mut map = SymbolMap::new();
    let owned = String::from("field");
    let first = map.find_or_add("field");
    let second = map.find_or_add(&owned);
    assert!(first.new);
    assert!(!second.new);
    assert_eq!(first.id, second.id);
    assert!(map.insert("other"));
    assert!(!map.insert("other"));
    assert_eq!(map.len(), 2);
    assert!(!map.is_empty());
}

#[test]
fn symbol_list_keeps_order() {
    let source = String::from("xy");
    let mut list = SymbolList::new();
    assert!(list.is_empty());
    list.push_borrowed(&source[0..1]);
    list.push("owned");
    assert_eq!(list.len(), 2);
    assert_eq!(list.get(0).unwrap().as_str(), "x");
    assert_eq!(list.get(1).unwrap().as_str(), "owned");
    assert!(list.get(2).is_none());
    let owned = list.into_owned();
    assert_eq!(owned.get(0).unwrap().as_str(), "x");
}

#[derive(Debug, Default, PartialEq, Eq)]
struct Payload {
    a: u64,
    b: u64,
}

fn send_payload(sender: SymbolMap, payload: &Payload) -> (Vec<u8>, SymbolMap) {
    let mut serializer =
        pot::ser::Serializer::new_with_symbol_map(sender, pot::Compatibility::Full);
    serializer.serialize_struct(2);
    serializer.serialize_field("a");
    serializer.serialize_u64(payload.a);
    serializer.serialize_field("b");
    serializer.serialize_u64(payload.b);
    serializer.into_parts()
}

fn receive_payload(
    receiver: SymbolList<'static>,
    bytes: &[u8],
) -> (Payload, SymbolList<'static>) {
    let mut deserializer = pot::de::Deserializer::from_slice_with_symbols(
        bytes,
        pot::de::SymbolMapRef::persistent(receiver),
        usize::MAX,
    )
    .unwrap();
    let mut payload = Payload::default();
    let count = deserializer.deserialize_map().unwrap().unwrap();
    for _ in 0..count {
        let key = deserializer.deserialize_identifier().unwrap();
        match key.as_str() {
            "a" => payload.a = deserializer.deserialize_u64().unwrap(),
            "b" => payload.b = deserializer.deserialize_u64().unwrap(),
            other => panic!("unexpected field {other}"),
        }
    }
    assert!(deserializer.end_of_input());
    (payload, deserializer.into_symbols())
}

#[test]
fn symbol_map_serialization() {
    let sender = SymbolMap::default();
    assert!(sender.is_empty());
    let receiver = pot::de::SymbolMap::new();
    assert!(receiver.is_empty());

    // Send the first payload, populating the map.
    let (bytes, sender) = send_payload(sender, &Payload::default());
    assert_eq!(sender.len(), 2);
    let (received, receiver) = receive_payload(receiver, &bytes);
    assert_eq!(received, Payload::default());
    assert_eq!(receiver.len(), 2);

    // Serialize the maps: both write the same sequence of names.
    let mut from_sender = pot::ser::Serializer::new(pot::Compatibility::Full);
    sender.serialize_into(&mut from_sender);
    let serialized_sender = from_sender.into_parts().0;
    let mut from_receiver = pot::ser::Serializer::new(pot::Compatibility::Full);
    receiver.serialize_into(&mut from_receiver);
    let serialized_receiver = from_receiver.into_parts().0;
    assert_eq!(serialized_sender, serialized_receiver);
    assert_eq!(
        serialized_sender,
        vec![0x50, 0x6F, 0x74, 0x00, 0x82, 0xE1, 0x61, 0xE1, 0x62]
    );

    let mut deserializer =
        pot::de::Deserializer::from_slice(&serialized_sender, usize::MAX).unwrap();
    let deserialized_sender = SymbolMap::deserialize_from(&mut deserializer).unwrap();
    assert!(deserializer.end_of_input());
    let mut deserializer =
        pot::de::Deserializer::from_slice(&serialized_receiver, usize::MAX).unwrap();
    let deserialized_receiver = SymbolList::deserialize_from(&mut deserializer).unwrap();
    assert!(deserializer.end_of_input());

    // A new payload is written byte for byte the same by the original map
    // and by the one read back.
    let new_payload = Payload { a: 1, b: 2 };
    let (bytes, _) = send_payload(sender, &new_payload);
    let (from_serialized_sender, _) = send_payload(deserialized_sender, &new_payload);
    assert_eq!(bytes, from_serialized_sender);

    // Both receivers decode it.
    assert_eq!(receive_payload(receiver, &bytes).0, new_payload);
    assert_eq!(receive_payload(deserialized_receiver, &bytes).0, new_payload);
}

#[test]
fn symbol_map_read_back_deduplicates() {
    let mut list = SymbolList::new();
    list.push("x");
    list.push("y");
    list.push("x");
    let mut serializer = pot::ser::Serializer::new(pot::Compatibility::Full);
    list.serialize_into(&mut serializer);
    let bytes = serializer.into_parts().0;
    let mut deserializer = pot::de::Deserializer::from_slice(&bytes, usize::MAX).unwrap();
    let map = SymbolMap::deserialize_from(&mut deserializer).unwrap();
    assert_eq!(map.len(), 2);
    assert_eq!(map.get(0), Some("x"));
    assert_eq!(map.get(1), Some("y"));
}
