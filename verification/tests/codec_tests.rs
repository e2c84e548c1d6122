use osc_repeater::codec::DecodeError;
use osc_repeater::codec::OscArg;
use osc_repeater::codec::OscMessage;

fn msg(address: &str) -> OscMessage {
    OscMessage::new(address.as_bytes().to_vec())
}

fn round_trip(m: &OscMessage) -> OscMessage {
    let bytes = m.serialize();
    OscMessage::deserialize(&bytes).expect("round trip must decode")
}

#[test]
fn end_to_end_example() {
    let m = msg("/test").push_int(101);
    let bytes = m.serialize();
    assert_eq!(
        bytes,
        vec![
            0x2F, 0x74, 0x65, 0x73, 0x74, 0x00, 0x00, 0x00, 0x2C, 0x69, 0x00, 0x00, 0x00, 0x00,
            0x00, 0x65
        ]
    );
    let back = OscMessage::deserialize(&bytes).expect("example frame must decode");
    assert_eq!(back.address, b"/test".to_vec());
    assert_eq!(back.args.len(), 1);
    assert!(matches!(back.args[0], OscArg::Int(101)));
}

#[test]
fn round_trip_negative_int() {
    let back = round_trip(&msg("/neg_int").push_int(-123));
    assert_eq!(back.address, b"/neg_int".to_vec());
    assert!(matches!(back.args[0], OscArg::Int(-123)));
}

#[test]
fn round_trip_int_extremes() {
    let back = round_trip(&msg("/x").push_int(i32::MIN).push_int(i32::MAX).push_int(0));
    assert!(matches!(back.args[0], OscArg::Int(i32::MIN)));
    assert!(matches!(back.args[1], OscArg::Int(i32::MAX)));
    assert!(matches!(back.args[2], OscArg::Int(0)));
}

#[test]
fn round_trip_negative_float() {
    let bits = (-456.789f32).to_bits();
    let back = round_trip(&msg("/neg_float").push_float(bits));
    match back.args[0] {
        OscArg::Float(b) => assert_eq!(f32::from_bits(b), -456.789f32),
        _ => panic!("expected a float argument"),
    }
}

#[test]
fn round_trip_multi() {
    let back = round_trip(
        &msg("/multi")
            .push_int(42)
            .push_float(3.14f32.to_bits())
            .push_string(b"hello".to_vec()),
    );
    assert_eq!(back.address, b"/multi".to_vec());
    assert_eq!(back.args.len(), 3);
    assert!(matches!(back.args[0], OscArg::Int(42)));
    match &back.args[1] {
        OscArg::Float(b) => assert_eq!(f32::from_bits(*b), 3.14f32),
        _ => panic!("expected a float argument"),
    }
    match &back.args[2] {
        OscArg::Str(s) => assert_eq!(s, &b"hello".to_vec()),
        _ => panic!("expected a string argument"),
    }
}

#[test]
fn round_trip_bools_and_strings() {
    let mut m = msg("/flags").push_string(b"".to_vec());
    m.args.push(OscArg::Bool(true));
    m.args.push(OscArg::Bool(false));
    let m = m.push_string(b"tail".to_vec());
    let back = round_trip(&m);
    assert_eq!(back.args.len(), 4);
    assert!(matches!(&back.args[0], OscArg::Str(s) if s.is_empty()));
    assert!(matches!(back.args[1], OscArg::Bool(true)));
    assert!(matches!(back.args[2], OscArg::Bool(false)));
    assert!(matches!(&back.args[3], OscArg::Str(s) if s == &b"tail".to_vec()));
}

#[test]
fn alignment_of_sections() {
    for m in [
        msg("/a").push_int(7),
        msg("/abc").push_string(b"xy".to_vec()).push_int(1),
        msg("/abcd").push_float(1.5f32.to_bits()),
    ] {
        let bytes = m.serialize();
        assert_eq!(bytes.len() % 4, 0);
        // the type-tag introducer stands at the first 4-byte boundary
        // after the address's null terminator
        let addr_null = bytes.iter().position(|&b| b == 0).unwrap();
        let tag_offset = (addr_null + 1).div_ceil(4) * 4;
        assert_eq!(tag_offset % 4, 0);
        assert_eq!(bytes[tag_offset], b',');
    }
}

#[test]
fn bool_zero_payload() {
    let mut mt = msg("/flag");
    mt.args.push(OscArg::Bool(true));
    let mut mf = msg("/flag");
    mf.args.push(OscArg::Bool(false));
    let bt = mt.serialize();
    let bf = mf.serialize();
    assert_eq!(bt.len(), bf.len());
    let differing: Vec<usize> = (0..bt.len()).filter(|&i| bt[i] != bf[i]).collect();
    assert_eq!(differing.len(), 1);
    assert_eq!(bt[differing[0]], b'T');
    assert_eq!(bf[differing[0]], b'F');
}

#[test]
fn rejects_empty_input() {
    assert!(matches!(
        OscMessage::deserialize(&[]),
        Err(DecodeError::TooShort)
    ));
}

#[test]
fn rejects_three_bytes() {
    assert!(matches!(
        OscMessage::deserialize(&[0x2F, 0x74, 0x65]),
        Err(DecodeError::TooShort)
    ));
}

#[test]
fn rejects_unterminated_address() {
    assert!(matches!(
        OscMessage::deserialize(b"/abcdefg"),
        Err(DecodeError::BadAddress)
    ));
}

#[test]
fn rejects_empty_address() {
    assert!(matches!(
        OscMessage::deserialize(&[0x00, 0x00, 0x00, 0x00]),
        Err(DecodeError::BadAddress)
    ));
}

#[test]
fn rejects_missing_tag_intro() {
    assert!(matches!(
        OscMessage::deserialize(b"/ab\0xyzw"),
        Err(DecodeError::MissingTagIntro)
    ));
}

#[test]
fn rejects_unterminated_tags() {
    assert!(matches!(
        OscMessage::deserialize(b"/ab\0,iii"),
        Err(DecodeError::UnterminatedTags)
    ));
}

#[test]
fn rejects_truncated_int() {
    assert!(matches!(
        OscMessage::deserialize(b"/ab\0,i\0\0"),
        Err(DecodeError::TruncatedInt)
    ));
}

#[test]
fn rejects_truncated_float() {
    assert!(matches!(
        OscMessage::deserialize(b"/ab\0,f\0\0\x01\x02"),
        Err(DecodeError::TruncatedFloat)
    ));
}

#[test]
fn rejects_missing_string_bytes() {
    assert!(matches!(
        OscMessage::deserialize(b"/ab\0,s\0\0"),
        Err(DecodeError::TruncatedString)
    ));
}

#[test]
fn rejects_unterminated_string() {
    assert!(matches!(
        OscMessage::deserialize(b"/ab\0,s\0\0abcd"),
        Err(DecodeError::UnterminatedString)
    ));
}

#[test]
fn rejects_unknown_tag() {
    assert!(matches!(
        OscMessage::deserialize(b"/ab\0,x\0\0"),
        Err(DecodeError::UnknownTag(b'x'))
    ));
}

#[test]
fn decode_ignores_trailing_bytes() {
    let mut bytes = msg("/t").push_int(5).serialize();
    bytes.push(0xAB);
    let back = OscMessage::deserialize(&bytes).expect("trailing bytes are ignored");
    assert_eq!(back.address, b"/t".to_vec());
    assert!(matches!(back.args[0], OscArg::Int(5)));
}

#[test]
fn builders_accumulate_arguments() {
    let m = msg("/build")
        .push_int(1)
        .push_float(2.0f32.to_bits())
        .push_string(b"three".to_vec());
    assert_eq!(m.address, b"/build".to_vec());
    assert_eq!(m.args.len(), 3);
    assert!(matches!(m.args[0], OscArg::Int(1)));
    assert!(matches!(&m.args[2], OscArg::Str(s) if s == &b"three".to_vec()));
}
