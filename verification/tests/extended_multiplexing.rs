use dbc_rs::{validate_name, Error, ExtendedMultiplexing, ExtendedMultiplexingBuilder, Parser};

#[test]
fn test_extended_multiplexing_creation() {
    let signal_name = validate_name("Signal_A").unwrap();
    let mux_switch = validate_name("Mux1").unwrap();
    let mut ranges = Vec::new();
    ranges.push((0, 5));
    ranges.push((10, 15));

    let em = ExtendedMultiplexing::new(500, signal_name, mux_switch, ranges);
    assert_eq!(em.message_id(), 500);
    assert_eq!(em.signal_name(), "Signal_A");
    assert_eq!(em.multiplexer_switch(), "Mux1");
    assert_eq!(em.value_ranges().len(), 2);
    assert_eq!(em.value_ranges()[0], (0, 5));
    assert_eq!(em.value_ranges()[1], (10, 15));
}

#[test]
fn test_extended_multiplexing_builder_basic() {
    let ext_mux = ExtendedMultiplexingBuilder::new()
        .message_id(500)
        .signal_name("Signal_A")
        .multiplexer_switch("Mux1")
        .add_value_range(0, 5)
        .build()
        .unwrap();

    assert_eq!(ext_mux.message_id(), 500);
    assert_eq!(ext_mux.signal_name(), "Signal_A");
    assert_eq!(ext_mux.multiplexer_switch(), "Mux1");
    assert_eq!(ext_mux.value_ranges(), &[(0, 5)]);
}

#[test]
fn test_extended_multiplexing_builder_multiple_ranges() {
    let ext_mux = ExtendedMultiplexingBuilder::new()
        .message_id(500)
        .signal_name("Signal_A")
        .multiplexer_switch("Mux1")
        .add_value_range(0, 5)
        .add_value_range(10, 15)
        .add_value_range(20, 25)
        .build()
        .unwrap();

    assert_eq!(ext_mux.value_ranges().len(), 3);
    assert_eq!(ext_mux.value_ranges()[0], (0, 5));
    assert_eq!(ext_mux.value_ranges()[1], (10, 15));
    assert_eq!(ext_mux.value_ranges()[2], (20, 25));
}

#[test]
fn test_extended_multiplexing_builder_missing_message_id() {
    let result = ExtendedMultiplexingBuilder::new()
        .signal_name("Signal_A")
        .multiplexer_switch("Mux1")
        .add_value_range(0, 5)
        .build();
    assert!(result.is_err());
}

#[test]
fn test_extended_multiplexing_builder_missing_signal_name() {
    let result = ExtendedMultiplexingBuilder::new()
        .message_id(500)
        .multiplexer_switch("Mux1")
        .add_value_range(0, 5)
        .build();
    assert!(result.is_err());
}

#[test]
fn test_extended_multiplexing_builder_missing_multiplexer_switch() {
    let result = ExtendedMultiplexingBuilder::new()
        .message_id(500)
        .signal_name("Signal_A")
        .add_value_range(0, 5)
        .build();
    assert!(result.is_err());
}

#[test]
fn test_extended_multiplexing_builder_no_value_ranges() {
    let result = ExtendedMultiplexingBuilder::new()
        .message_id(500)
        .signal_name("Signal_A")
        .multiplexer_switch("Mux1")
        .build();
    assert!(result.is_err());
}

#[test]
fn extended_multiplexing_builder_error_texts() {
    let r = ExtendedMultiplexingBuilder::new().build();
    assert_eq!(r.unwrap_err(), Error::Expected("message_id is required"));
    let r = ExtendedMultiplexingBuilder::new()
        .message_id(1)
        .signal_name(&"S".repeat(65))
        .multiplexer_switch("M")
        .add_value_range(0, 1)
        .build();
    assert_eq!(r.unwrap_err(), Error::Expected(Error::MAX_NAME_SIZE_EXCEEDED));
    let mut b = ExtendedMultiplexingBuilder::new().message_id(1).signal_name("S").multiplexer_switch("M");
    for i in 0..65 {
        b = b.add_value_range(i, i);
    }
    assert_eq!(b.build().unwrap_err(), Error::Expected("too many value ranges (maximum 64)"));
}

#[test]
fn extended_multiplexing_parse_ranges() {
    let mut parser = Parser::new(b" 500 Signal_A Mux1 0-5,10-15 ;").unwrap();
    let em = ExtendedMultiplexing::parse(&mut parser).unwrap();
    assert_eq!(em.message_id(), 500);
    assert_eq!(em.signal_name(), "Signal_A");
    assert_eq!(em.multiplexer_switch(), "Mux1");
    assert_eq!(em.value_ranges(), &[(0, 5), (10, 15)]);
    assert_eq!(parser.pos(), 30);
}

#[test]
fn extended_multiplexing_parse_failures() {
    let mut parser = Parser::new(b"500 Signal_A Mux1 ;").unwrap();
    assert!(ExtendedMultiplexing::parse(&mut parser).is_none());
    let mut parser = Parser::new(b"x Signal_A Mux1 0-5;").unwrap();
    assert!(ExtendedMultiplexing::parse(&mut parser).is_none());
    let mut parser = Parser::new(b"500 Signal_A Mux1 7 ;").unwrap();
    assert!(ExtendedMultiplexing::parse(&mut parser).is_none());
    let mut parser = Parser::new(b"500 Signal_A Mux1 1 - 2 , 3-4").unwrap();
    let em = ExtendedMultiplexing::parse(&mut parser).unwrap();
    assert_eq!(em.value_ranges(), &[(1, 2), (3, 4)]);
}
