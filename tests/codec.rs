use model::codec::{decode, encode, write_call, DecodeError, EncodeError, MAX_DATAGRAM};
use model::model::Call;

fn name(s: &str) -> Call {
    Call::Name { name: s.to_string() }
}

fn round_trip(call: &Call) -> Call {
    let bytes = encode(call).expect("fits in a datagram");
    decode(&bytes).expect("decodes")
}

#[test]
fn encode_name_is_json_object() {
    let bytes = encode(&name("rakin")).unwrap();
    assert_eq!(bytes, br#"{"Name":{"name":"rakin"}}"#.to_vec());
}

#[test]
fn encode_location_is_json_object() {
    let call = Call::Location { location: "Kansas City".to_string() };
    let bytes = encode(&call).unwrap();
    assert_eq!(bytes, br#"{"Location":{"location":"Kansas City"}}"#.to_vec());
}

#[test]
fn encode_year_is_json_object() {
    let call = Call::Year { location: "Kansas City".to_string(), year: 2018 };
    let bytes = encode(&call).unwrap();
    assert_eq!(bytes, br#"{"Year":{"location":"Kansas City","year":2018}}"#.to_vec());
}

#[test]
fn encode_escapes_quotes_backslashes_and_controls() {
    let bytes = encode(&name("a\"b\\c\nd\u{1}")).unwrap();
    assert_eq!(bytes, br#"{"Name":{"name":"a\"b\\c\nd\u0001"}}"#.to_vec());
}

#[test]
fn round_trip_every_variant() {
    match round_trip(&name("rakin")) {
        Call::Name { name } => assert_eq!(name, "rakin"),
        other => panic!("wrong variant: {:?}", other),
    }
    match round_trip(&Call::Location { location: "Kansas City".to_string() }) {
        Call::Location { location } => assert_eq!(location, "Kansas City"),
        other => panic!("wrong variant: {:?}", other),
    }
    match round_trip(&Call::Year { location: "Kansas City".to_string(), year: 2018 }) {
        Call::Year { location, year } => {
            assert_eq!(location, "Kansas City");
            assert_eq!(year, 2018);
        }
        other => panic!("wrong variant: {:?}", other),
    }
}

#[test]
fn round_trip_edge_values() {
    for y in [0u16, 9, 10, 65535] {
        match round_trip(&Call::Year { location: String::new(), year: y }) {
            Call::Year { location, year } => {
                assert_eq!(location, "");
                assert_eq!(year, y);
            }
            other => panic!("wrong variant: {:?}", other),
        }
    }
    let odd = "q\"\\\u{8}\t\n\u{c}\r\u{1f}é東🦀";
    match round_trip(&name(odd)) {
        Call::Name { name } => assert_eq!(name, odd),
        other => panic!("wrong variant: {:?}", other),
    }
}

#[test]
fn decode_drops_nul_padding() {
    let mut buf = br#"{"Name":{"name":"amina"}}"#.to_vec();
    buf.resize(1024, 0);
    match decode(&buf).unwrap() {
        Call::Name { name } => assert_eq!(name, "amina"),
        other => panic!("wrong variant: {:?}", other),
    }
}

#[test]
fn decode_cut_message_is_truncated() {
    let full = encode(&Call::Year { location: "Kansas City".to_string(), year: 2018 }).unwrap();
    assert_eq!(decode(&full[..full.len() - 1]).err(), Some(DecodeError::Truncated));
    assert_eq!(decode(&full[..10]).err(), Some(DecodeError::Truncated));
    assert_eq!(decode(&full[..30]).err(), Some(DecodeError::Truncated));
    assert_eq!(decode(&[]).err(), Some(DecodeError::Truncated));
}

#[test]
fn decode_whole_call_with_trailing_byte_is_malformed() {
    assert_eq!(decode(br#"{"Name":{"name":"a"}}x"#).err(), Some(DecodeError::Malformed));
    assert_eq!(decode(br#"{"Name":{"name":"a"}}}"#).err(), Some(DecodeError::Malformed));
}

#[test]
fn decode_cut_inside_text_is_truncated() {
    let full = encode(&name("a}}b")).unwrap();
    let cut = br#"{"Name":{"name":"a}}"#;
    assert!(full.starts_with(cut));
    assert_eq!(decode(cut).err(), Some(DecodeError::Truncated));
    assert_eq!(decode(br#"{"Name":{"name":"a\u00"#).err(), Some(DecodeError::Truncated));
    assert_eq!(decode(br#"{"Name":{"name":"a""#).err(), Some(DecodeError::Truncated));
    assert_eq!(decode(br#"{"Year":{"location":"K","year":655"#).err(), Some(DecodeError::Truncated));
    assert_eq!(decode(br#"{"Year":{"location":"K","year":6553}"#).err(), Some(DecodeError::Truncated));
    assert_eq!(decode(br#"{"Year":{"location":"K","year":70000"#).err(), Some(DecodeError::Malformed));
    assert_eq!(decode(br#"{"Name":{"name":"a\q"#).err(), Some(DecodeError::Malformed));
}

#[test]
fn decode_unknown_variant_is_malformed() {
    assert_eq!(decode(br#"{"Age":{"age":3}}"#).err(), Some(DecodeError::Malformed));
    assert_eq!(decode(b"hello").err(), Some(DecodeError::Malformed));
    assert_eq!(decode(br#"{"Year":{"location":"x","year":65536}}"#).err(), Some(DecodeError::Malformed));
    assert_eq!(decode(br#"{"Year":{"location":"x","year":007}}"#).err(), Some(DecodeError::Malformed));
    assert_eq!(decode(br#"{"Name":{"name":"a"b"}}"#).err(), Some(DecodeError::Malformed));
    assert_eq!(decode(&[123, 34, 78, 97, 109, 101, 34, 58, 123, 34, 110, 97, 109, 101, 34, 58, 34, 0xff, 34, 125, 125]).err(), Some(DecodeError::Malformed));
}

#[test]
fn encode_rejects_oversized_call() {
    let long = "x".repeat(2000);
    assert_eq!(encode(&name(&long)), Err(EncodeError::TooLarge));
}

#[test]
fn encode_accepts_exactly_the_ceiling() {
    let overhead = write_call(&name("")).len();
    let fits = "x".repeat(MAX_DATAGRAM - overhead);
    assert_eq!(encode(&name(&fits)).unwrap().len(), MAX_DATAGRAM);
    let over = "x".repeat(MAX_DATAGRAM - overhead + 1);
    assert_eq!(encode(&name(&over)), Err(EncodeError::TooLarge));
}
