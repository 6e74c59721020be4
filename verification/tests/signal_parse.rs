use dbc_rs::signal::{decode_raw_value, format_signal_line, RawSignal};
use dbc_rs::signal_type::RawSignalType;
use dbc_rs::{ByteOrder, Error, Parser, Receivers};

/// The value of a number text, or `default` where none was written.
fn num(text: &Option<String>, default: f64) -> f64 {
    match text {
        Some(t) => t.parse::<f64>().unwrap(),
        None => default,
    }
}

fn parse_signal_line(line: &str) -> Result<RawSignal, Error> {
    let mut parser = Parser::new(line.as_bytes()).unwrap();
    RawSignal::parse(&mut parser)
}

/// A signal's physical value in `data`.
fn decode(sig: &RawSignal, data: &[u8]) -> f64 {
    let raw = decode_raw_value(sig.byte_order, sig.unsigned, sig.start_bit, sig.length, data)
        .unwrap();
    (raw as f64) * num(&sig.factor, 0.0) + num(&sig.offset, 0.0)
}

#[test]
fn signal_test_parse_valid_signal() {
    let sig = parse_signal_line(r#"SG_ RPM : 0|16@0+ (0.25,0) [0|8000] "rpm" TCM"#).unwrap();
    assert_eq!(sig.name, "RPM");
    assert_eq!(sig.start_bit, 0);
    assert_eq!(sig.length, 16);
    assert_eq!(sig.byte_order, ByteOrder::BigEndian);
    assert!(sig.unsigned);
    assert_eq!(num(&sig.factor, 0.0), 0.25);
    assert_eq!(num(&sig.offset, 0.0), 0.);
    assert_eq!(num(&sig.min, 0.0), 0.);
    assert_eq!(num(&sig.max, 0.0), 8000.);
    assert_eq!(sig.unit.as_deref(), Some("rpm"));
    let mut receivers_iter = sig.receivers.iter();
    assert_eq!(receivers_iter.next().unwrap(), "TCM");
    assert_eq!(receivers_iter.next(), None);
}

#[test]
fn signal_test_parse_signal_with_empty_unit_and_broadcast() {
    let sig = parse_signal_line(r#"SG_ ABSActive : 16|1@0+ (1,0) [0|1] "" *"#).unwrap();
    assert_eq!(sig.name, "ABSActive");
    assert_eq!(sig.start_bit, 16);
    assert_eq!(sig.length, 1);
    assert_eq!(sig.byte_order, ByteOrder::BigEndian);
    assert!(sig.unsigned);
    assert_eq!(num(&sig.factor, 0.0), 1.);
    assert_eq!(num(&sig.offset, 0.0), 0.);
    assert_eq!(num(&sig.min, 0.0), 0.);
    assert_eq!(num(&sig.max, 0.0), 1.);
    assert_eq!(sig.unit, None);
    assert_eq!(sig.receivers, Receivers::Broadcast);
}

#[test]
fn signal_test_parse_signal_with_negative_offset_and_min() {
    let sig = parse_signal_line(r#"SG_ Temperature : 16|8@0- (1,-40) [-40|215] "°C" TCM BCM"#).unwrap();
    assert_eq!(sig.name, "Temperature");
    assert_eq!(sig.start_bit, 16);
    assert_eq!(sig.length, 8);
    assert_eq!(sig.byte_order, ByteOrder::BigEndian);
    assert!(!sig.unsigned);
    assert_eq!(num(&sig.factor, 0.0), 1.);
    assert_eq!(num(&sig.offset, 0.0), -40.);
    assert_eq!(num(&sig.min, 0.0), -40.);
    assert_eq!(num(&sig.max, 0.0), 215.);
    assert_eq!(sig.unit.as_deref(), Some("°C"));
    let mut receivers_iter = sig.receivers.iter();
    assert_eq!(receivers_iter.next().unwrap(), "TCM");
    assert_eq!(receivers_iter.next().unwrap(), "BCM");
    assert_eq!(receivers_iter.next(), None);
}

#[test]
fn signal_test_parse_signal_with_percent_unit() {
    let sig = parse_signal_line(r#"SG_ ThrottlePosition : 24|8@0+ (0.392157,0) [0|100] "%" *"#).unwrap();
    assert_eq!(sig.name, "ThrottlePosition");
    assert_eq!(sig.start_bit, 24);
    assert_eq!(sig.length, 8);
    assert_eq!(sig.byte_order, ByteOrder::BigEndian);
    assert!(sig.unsigned);
    assert_eq!(num(&sig.factor, 0.0), 0.392_157);
    assert_eq!(num(&sig.offset, 0.0), 0.);
    assert_eq!(num(&sig.min, 0.0), 0.);
    assert_eq!(num(&sig.max, 0.0), 100.);
    assert_eq!(sig.unit.as_deref(), Some("%"));
    assert_eq!(sig.receivers, Receivers::Broadcast);
}

#[test]
fn signal_test_parse_signal_missing_factors_and_limits() {
    let sig = parse_signal_line(r#"SG_ Simple : 10|4@0+ ( , ) [ | ] "" *"#).unwrap();
    assert_eq!(sig.name, "Simple");
    assert_eq!(sig.start_bit, 10);
    assert_eq!(sig.length, 4);
    assert_eq!(sig.byte_order, ByteOrder::BigEndian);
    assert!(sig.unsigned);
    assert_eq!(num(&sig.factor, 0.0), 0.);
    assert_eq!(num(&sig.offset, 0.0), 0.);
    assert_eq!(num(&sig.min, 0.0), 0.);
    assert_eq!(num(&sig.max, 0.0), 0.);
    assert_eq!(sig.unit, None);
    assert_eq!(sig.receivers, Receivers::Broadcast);
}

#[test]
fn signal_test_parse_signal_missing_start_bit() {
    let err = parse_signal_line(r#"SG_ RPM : |16@0+ (0.25,0) [0|8000] "rpm" TCM"#).unwrap_err();
    match err {
        Error::Signal(msg) => assert!(msg.contains(Error::SIGNAL_PARSE_INVALID_START_BIT)),
        _ => panic!("Expected Error::Signal"),
    }
}

#[test]
fn signal_test_parse_signal_overflow() {
    let sig = parse_signal_line(r#"SG_ Test : 60|10@0+ (1,0) [0|100] "unit" *"#).unwrap();
    assert_eq!(sig.start_bit, 60);
    assert_eq!(sig.length, 10);
}

#[test]
fn signal_test_parse_signal_length_too_large() {
    let err = parse_signal_line(r#"SG_ Test : 0|513@0+ (1,0) [0|100] "unit" *"#).unwrap_err();
    match err {
        Error::Signal(msg) => assert!(msg.contains(Error::SIGNAL_LENGTH_TOO_LARGE)),
        e => panic!("Expected Error::Signal, got: {:?}", e),
    }
}

#[test]
fn signal_test_parse_signal_zero_length() {
    let err = parse_signal_line(r#"SG_ Test : 0|0@0+ (1,0) [0|100] "unit" *"#).unwrap_err();
    match err {
        Error::Signal(msg) => assert!(msg.contains(Error::SIGNAL_LENGTH_TOO_SMALL)),
        e => panic!("Expected Error::Signal, got: {:?}", e),
    }
}

#[test]
fn signal_test_parse_signal_missing_length() {
    let err = parse_signal_line(r#"SG_ RPM : 0|@0+ (0.25,0) [0|8000] "rpm" TCM"#).unwrap_err();
    match err {
        Error::Signal(msg) => assert!(msg.contains(Error::SIGNAL_PARSE_INVALID_LENGTH)),
        e => panic!("Expected Error::Signal, got: {:?}", e),
    }
}

/// The signal definition written back, its numbers as their `f64` values print.
fn to_dbc_string(sig: &RawSignal) -> String {
    let text = |t: &Option<String>| format!("{}", num(t, 0.0));
    format_signal_line(
        &sig.name,
        sig.start_bit,
        sig.length,
        sig.byte_order,
        sig.unsigned,
        &text(&sig.factor),
        &text(&sig.offset),
        &text(&sig.min),
        &text(&sig.max),
        sig.unit.as_deref(),
        &sig.receivers,
    )
}

#[test]
fn test_signal_to_dbc_string_round_trip() {
    let test_cases = [
        (
            r#"SG_ RPM : 0|16@0+ (0.25,0) [0|8000] "rpm" *"#,
            " SG_ RPM : 0|16@0+ (0.25,0) [0|8000] \"rpm\" *",
        ),
        (
            r#"SG_ Temperature : 16|8@1- (1,-40) [-40|215] "°C" TCM BCM"#,
            " SG_ Temperature : 16|8@1- (1,-40) [-40|215] \"°C\" TCM BCM",
        ),
        (
            r#"SG_ Flag : 24|1@0+ (1,0) [0|1] "" *"#,
            " SG_ Flag : 24|1@0+ (1,0) [0|1] \"\" *",
        ),
    ];
    for (input_line, expected_output) in test_cases {
        let signal = parse_signal_line(input_line).unwrap();
        let dbc_string = to_dbc_string(&signal);
        assert_eq!(dbc_string, expected_output);
        let mut parser2 = Parser::new(dbc_string.as_bytes()).unwrap();
        parser2.skip_newlines_and_spaces();
        let signal2 = RawSignal::parse(&mut parser2).unwrap();
        assert_eq!(signal.name, signal2.name);
        assert_eq!(signal.start_bit, signal2.start_bit);
        assert_eq!(signal.length, signal2.length);
        assert_eq!(signal.byte_order, signal2.byte_order);
        assert_eq!(signal.unsigned, signal2.unsigned);
        assert_eq!(num(&signal.factor, 0.0), num(&signal2.factor, 0.0));
        assert_eq!(num(&signal.offset, 0.0), num(&signal2.offset, 0.0));
        assert_eq!(num(&signal.min, 0.0), num(&signal2.min, 0.0));
        assert_eq!(num(&signal.max, 0.0), num(&signal2.max, 0.0));
        assert_eq!(signal.unit, signal2.unit);
    }
}

#[test]
fn test_decode_little_endian() {
    let signal = parse_signal_line("SG_ TestSignal : 0|16@1+ (1,0) [0|65535] \"\"").unwrap();
    let data = [0x02, 0x01, 0x00, 0x00, 0x00, 0x00, 0x00, 0x00];
    assert_eq!(decode(&signal, &data), 258.0);
}

#[test]
fn test_decode_big_endian() {
    let signal = parse_signal_line("SG_ TestSignal : 0|16@0+ (1,0) [0|65535] \"\"").unwrap();
    let data = [0x01, 0x00, 0x00, 0x00, 0x00, 0x00, 0x00, 0x00];
    let value = decode(&signal, &data);
    assert!((0.0..=65535.0).contains(&value));
}

#[test]
fn test_decode_little_endian_with_offset() {
    let signal = parse_signal_line("SG_ Temp : 0|8@1- (1,-40) [-40|215] \"\"").unwrap();
    let data = [0x5A, 0x00, 0x00, 0x00, 0x00, 0x00, 0x00, 0x00];
    assert_eq!(decode(&signal, &data), 50.0);
}

#[test]
fn test_decode_big_endian_with_factor() {
    let signal = parse_signal_line("SG_ RPM : 0|16@0+ (0.25,0) [0|8000] \"\"").unwrap();
    let data = [0x1F, 0x40, 0x00, 0x00, 0x00, 0x00, 0x00, 0x00];
    let value = decode(&signal, &data);
    assert!((0.0..=16383.75).contains(&value));
}

fn signal_type(content: &[u8]) -> RawSignalType {
    let mut parser = Parser::new(content).unwrap();
    RawSignalType::parse(&mut parser).unwrap()
}

#[test]
fn test_parse_minimal() {
    let t = signal_type(b"SignalType1 : 16;");
    assert_eq!(t.name, "SignalType1");
    assert_eq!(t.size, 16);
    assert_eq!(t.byte_order, ByteOrder::LittleEndian);
    assert!(t.unsigned);
    assert_eq!(num(&t.factor, 1.0), 1.0);
    assert_eq!(num(&t.offset, 0.0), 0.0);
}

#[test]
fn test_parse_full() {
    let t = signal_type(b"SignalType1 : 16@1+ (0.25,10) [0|8000] \"rpm\" 0 , \"GearTable\" ;");
    assert_eq!(t.name, "SignalType1");
    assert_eq!(t.size, 16);
    assert_eq!(t.byte_order, ByteOrder::LittleEndian);
    assert!(t.unsigned);
    assert_eq!(num(&t.factor, 1.0), 0.25);
    assert_eq!(num(&t.offset, 0.0), 10.0);
    assert_eq!(num(&t.min, 0.0), 0.0);
    assert_eq!(num(&t.max, 0.0), 8000.0);
    assert_eq!(t.unit.as_deref(), Some("rpm"));
    assert_eq!(t.default_value.as_ref().map(|v| v.parse::<f64>().unwrap()), Some(0.0));
    assert_eq!(t.value_table.as_deref(), Some("GearTable"));
}

#[test]
fn test_parse_big_endian_signed() {
    let t = signal_type(b"SignalType1 : 8@0- (1,-40) [-40|215] \"degC\" ;");
    assert_eq!(t.byte_order, ByteOrder::BigEndian);
    assert!(!t.unsigned);
    assert_eq!(num(&t.factor, 1.0), 1.0);
    assert_eq!(num(&t.offset, 0.0), -40.0);
    assert_eq!(num(&t.min, 0.0), -40.0);
    assert_eq!(num(&t.max, 0.0), 215.0);
    assert_eq!(t.unit.as_deref(), Some("degC"));
}
