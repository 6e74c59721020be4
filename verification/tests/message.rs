use dbc_rs::text::first_index_of;
use dbc_rs::message::{
    bit_range, check_message_builder_fields, format_message_full, format_message_header, validate_message, MessageHeader,
    SignalLayout,
};
use dbc_rs::{ByteOrder, Error, Parser};

fn layout(start_bit: u16, length: u16, byte_order: ByteOrder, mux: Option<u64>) -> SignalLayout {
    SignalLayout { start_bit, length, byte_order, multiplexer_switch_value: mux }
}

#[test]
fn bit_ranges() {
    assert_eq!(bit_range(0, 16, ByteOrder::LittleEndian), (0, 15));
    assert_eq!(bit_range(0, 8, ByteOrder::BigEndian), (0, 7));
    assert_eq!(bit_range(7, 16, ByteOrder::BigEndian), (0, 23));
    assert_eq!(bit_range(8, 1, ByteOrder::BigEndian), (15, 15));
}

#[test]
fn message_validation_rules() {
    let ok = [layout(0, 8, ByteOrder::LittleEndian, None), layout(8, 8, ByteOrder::LittleEndian, None)];
    assert_eq!(validate_message(256, "Engine", 8, "ECM", &ok), Ok(()));
    let overlap = [layout(0, 8, ByteOrder::LittleEndian, None), layout(4, 8, ByteOrder::LittleEndian, None)];
    assert_eq!(
        validate_message(256, "Engine", 8, "ECM", &overlap),
        Err(Error::Validation(Error::SIGNAL_OVERLAP))
    );
    let muxed = [layout(0, 8, ByteOrder::LittleEndian, Some(0)), layout(4, 8, ByteOrder::LittleEndian, Some(1))];
    assert_eq!(validate_message(256, "Engine", 8, "ECM", &muxed), Ok(()));
    let beyond = [layout(0, 65, ByteOrder::LittleEndian, None)];
    assert_eq!(
        validate_message(256, "Engine", 8, "ECM", &beyond),
        Err(Error::Validation(Error::SIGNAL_EXTENDS_BEYOND_MESSAGE))
    );
    assert_eq!(
        validate_message(256, "Engine", 0, "ECM", &ok),
        Err(Error::Validation(Error::MESSAGE_DLC_TOO_SMALL))
    );
    assert_eq!(
        validate_message(256, "Engine", 65, "ECM", &ok),
        Err(Error::Validation(Error::MESSAGE_DLC_TOO_LARGE))
    );
    assert_eq!(
        validate_message(0x2000_0000, "Engine", 8, "ECM", &ok),
        Err(Error::Validation(Error::MESSAGE_ID_OUT_OF_RANGE))
    );
    assert_eq!(validate_message(0x1FFF_FFFF, "Engine", 8, "ECM", &ok), Ok(()));
    assert_eq!(
        validate_message(1, " ", 8, "ECM", &ok),
        Err(Error::Validation(Error::MESSAGE_NAME_EMPTY))
    );
    assert_eq!(
        validate_message(1, "E", 8, "", &ok),
        Err(Error::Validation(Error::MESSAGE_SENDER_EMPTY))
    );
    let many = vec![layout(0, 1, ByteOrder::LittleEndian, Some(0)); 257];
    assert_eq!(
        validate_message(1, "E", 64, "ECM", &many),
        Err(Error::Validation(Error::MESSAGE_TOO_MANY_SIGNALS))
    );
}

#[test]
fn message_header_parses() {
    let mut parser = Parser::new(b"BO_ 256 EngineData : 8 ECM").unwrap();
    let h = MessageHeader::parse(&mut parser, &[]).unwrap();
    assert_eq!(h.id, 256);
    assert_eq!(h.name, "EngineData");
    assert_eq!(h.dlc, 8);
    assert_eq!(h.sender, "ECM");
    for dlc in [1u8, 8, 12, 16, 20, 24, 32, 48, 64] {
        let text = format!("BO_ 256 Test : {} ECM\n", dlc);
        let mut parser = Parser::new(text.as_bytes()).unwrap();
        assert_eq!(MessageHeader::parse(&mut parser, &[]).unwrap().dlc, dlc);
    }
}

#[test]
fn message_header_errors() {
    let cases: [(&[u8], Error); 6] = [
        (b"BU_ 256 E : 8 ECM", Error::Expected("Expected BO_ keyword")),
        (b"BO_ x E : 8 ECM", Error::Message(Error::MESSAGE_INVALID_ID)),
        (b"BO_ 256 E : 0 ECM", Error::Message(Error::MESSAGE_DLC_TOO_SMALL)),
        (b"BO_ 256 E : 65 ECM", Error::Message(Error::MESSAGE_DLC_TOO_LARGE)),
        (b"BO_ 536870912 E : 8 ECM", Error::Message(Error::MESSAGE_ID_OUT_OF_RANGE)),
        (b"BO_ 256 E : 8 ECM extra", Error::Expected("Unexpected content after message sender")),
    ];
    for (input, err) in cases {
        let mut parser = Parser::new(input).unwrap();
        assert_eq!(MessageHeader::parse(&mut parser, &[]).unwrap_err(), err);
    }
    let signals = [layout(0, 65, ByteOrder::LittleEndian, None)];
    let mut parser = Parser::new(b"BO_ 256 Test : 8 ECM").unwrap();
    assert_eq!(
        MessageHeader::parse(&mut parser, &signals).unwrap_err(),
        Error::Message(Error::SIGNAL_EXTENDS_BEYOND_MESSAGE)
    );
}

#[test]
fn message_text() {
    let header = format_message_header(256, "EngineData", 8, "ECM");
    assert_eq!(header, "BO_ 256 EngineData : 8 ECM");
    let full = format_message_full(&header, &[" SG_ A : 0|8@1+ (1,0) [0|255] \"\"".to_string()]);
    assert_eq!(full, "BO_ 256 EngineData : 8 ECM\n SG_ A : 0|8@1+ (1,0) [0|255] \"\"\n");
}

#[test]
fn message_builder_field_checks() {
    assert_eq!(check_message_builder_fields(true, true, true, true), Ok(()));
    assert_eq!(
        check_message_builder_fields(false, true, true, true),
        Err(Error::Message(Error::MESSAGE_ID_REQUIRED))
    );
    assert_eq!(
        check_message_builder_fields(true, false, false, true),
        Err(Error::Message(Error::MESSAGE_NAME_EMPTY))
    );
    assert_eq!(
        check_message_builder_fields(true, true, false, true),
        Err(Error::Message(Error::MESSAGE_DLC_REQUIRED))
    );
    assert_eq!(
        check_message_builder_fields(true, true, true, false),
        Err(Error::Message(Error::MESSAGE_SENDER_EMPTY))
    );
}

#[test]
fn first_index_of_finds_first_match() {
    let names = ["Signal1", "Signal2", "Signal1"];
    assert_eq!(first_index_of(&names, "Signal1"), Some(0));
    assert_eq!(first_index_of(&names, "Signal2"), Some(1));
    assert_eq!(first_index_of(&names, "signal1"), None);
    assert_eq!(first_index_of(&names, ""), None);
    assert_eq!(first_index_of(&[], "x"), None);
}

#[test]
fn message_header_round_trip() {
    let text = format_message_header(0x123, "EngineData", 8, "ECM");
    assert_eq!(text, "BO_ 291 EngineData : 8 ECM");
    let layouts = [layout(0, 16, ByteOrder::LittleEndian, None)];
    let mut parser = Parser::new(text.as_bytes()).unwrap();
    let h = MessageHeader::parse(&mut parser, &layouts).unwrap();
    assert_eq!(h.id, 0x123);
    assert_eq!(h.name, "EngineData");
    assert_eq!(h.dlc, 8);
    assert_eq!(h.sender, "ECM");
}
