use dbc_rs::message::{format_message_full, format_message_header, MessageHeader, SignalLayout};
use dbc_rs::signal::{format_signal_line, RawSignal};
use dbc_rs::text::first_index_of;
use dbc_rs::{Error, Parser};

fn signal(line: &[u8]) -> RawSignal {
    RawSignal::parse(&mut Parser::new(line).unwrap()).unwrap()
}

fn layouts(signals: &[RawSignal]) -> Vec<SignalLayout> {
    signals
        .iter()
        .map(|s| SignalLayout {
            start_bit: s.start_bit,
            length: s.length,
            byte_order: s.byte_order,
            multiplexer_switch_value: s.multiplexer_switch_value,
        })
        .collect()
}

fn parse_message(data: &[u8], signals: &[RawSignal]) -> Result<MessageHeader, Error> {
    let mut parser = Parser::new(data).unwrap();
    MessageHeader::parse(&mut parser, &layouts(signals))
}

fn names(signals: &[RawSignal]) -> Vec<&str> {
    signals.iter().map(|s| s.name.as_str()).collect()
}

fn find<'a>(signals: &'a [RawSignal], name: &str) -> Option<&'a RawSignal> {
    first_index_of(&names(signals), name).map(|i| &signals[i])
}

fn signal_line(s: &RawSignal) -> String {
    let text = |t: &Option<String>| t.clone().unwrap_or_else(|| "0".to_string());
    format_signal_line(
        &s.name,
        s.start_bit,
        s.length,
        s.byte_order,
        s.unsigned,
        &text(&s.factor),
        &text(&s.offset),
        &text(&s.min),
        &text(&s.max),
        s.unit.as_deref(),
        &s.receivers,
    )
}

fn header_text(h: &MessageHeader) -> String {
    format_message_header(h.id, &h.name, h.dlc, &h.sender)
}

fn full_text(h: &MessageHeader, signals: &[RawSignal]) -> String {
    let lines: Vec<String> = signals.iter().map(signal_line).collect();
    format_message_full(&header_text(h), &lines)
}

fn rpm() -> RawSignal {
    signal(b"SG_ RPM : 0|16@0+ (0.25,0) [0|8000] \"rpm\"")
}

fn temp() -> RawSignal {
    signal(b"SG_ Temp : 16|8@0- (1,-40) [-40|215] \"\xC2\xB0C\"")
}

#[test]
fn test_message_parse_valid() {
    let signals: &[RawSignal] = &[];
    let message = parse_message(b"BO_ 256 EngineData : 8 ECM", signals).unwrap();
    assert_eq!(message.id, 256);
    assert_eq!(message.name, "EngineData");
    assert_eq!(message.dlc, 8);
    assert_eq!(message.sender, "ECM");
    assert_eq!(signals.len(), 0);
}

#[test]
fn test_message_parse_invalid_id() {
    let result = parse_message(b"BO_ invalid EngineData : 8 ECM", &[]);
    assert!(matches!(result, Err(Error::Message(_))));
}

#[test]
fn test_message_parse_empty_name() {
    let result = parse_message(b"BO_ 256  : 8 ECM", &[]);
    assert!(matches!(result, Err(Error::Message(_))));
}

#[test]
fn test_message_parse_invalid_dlc() {
    let result = parse_message(b"BO_ 256 EngineData : invalid ECM", &[]);
    assert!(matches!(result, Err(Error::Message(_))));
}

#[test]
fn test_message_parse_empty_sender() {
    let result = parse_message(b"BO_ 256 EngineData : 8 ", &[]);
    assert!(matches!(result, Err(Error::Message(_))));
}

#[test]
fn test_message_parse_with_signals() {
    let signals = [rpm(), temp()];
    let message = parse_message(b"BO_ 256 EngineData : 8 ECM", &signals).unwrap();
    assert_eq!(message.id, 256);
    assert_eq!(message.name, "EngineData");
    assert_eq!(message.dlc, 8);
    assert_eq!(message.sender, "ECM");
    assert_eq!(signals.len(), 2);
}

#[test]
fn test_message_signals_iterator() {
    let signals = [rpm(), temp()];
    parse_message(b"BO_ 256 EngineData : 8 ECM", &signals).unwrap();
    let mut it = signals.iter();
    assert_eq!(it.next().unwrap().name, "RPM");
    assert_eq!(it.next().unwrap().name, "Temp");
    assert!(it.next().is_none());
}

#[test]
fn test_message_signal_count() {
    let none: &[RawSignal] = &[];
    parse_message(b"BO_ 256 EngineData : 8 ECM", none).unwrap();
    assert_eq!(none.len(), 0);
    let one = [rpm()];
    parse_message(b"BO_ 256 EngineData : 8 ECM", &one).unwrap();
    assert_eq!(one.len(), 1);
}

#[test]
fn test_message_signal_at() {
    let signals = [rpm(), temp()];
    parse_message(b"BO_ 256 EngineData : 8 ECM", &signals).unwrap();
    assert_eq!(signals.get(0).unwrap().name, "RPM");
    assert_eq!(signals.get(1).unwrap().name, "Temp");
    assert!(signals.get(2).is_none());
}

#[test]
fn test_message_find_signal() {
    let signals = [rpm(), temp()];
    parse_message(b"BO_ 256 EngineData : 8 ECM", &signals).unwrap();
    assert_eq!(find(&signals, "RPM").unwrap().name, "RPM");
    assert_eq!(find(&signals, "Temp").unwrap().name, "Temp");
    assert!(find(&signals, "Nonexistent").is_none());
}

fn boundary_signals() -> [RawSignal; 4] {
    [
        signal(b"SG_ Signal1 : 0|16@0+ (1,0) [0|65535] \"\""),
        signal(b"SG_ Signal2 : 16|16@0+ (1,0) [0|65535] \"\""),
        signal(b"SG_ Signal3 : 32|16@0+ (1,0) [0|65535] \"\""),
        signal(b"SG_ Signal4 : 48|16@0+ (1,0) [0|65535] \"\""),
    ]
}

#[test]
fn tests_test_message_multiple_signals_boundary_validation() {
    let signals = boundary_signals();
    parse_message(b"BO_ 256 EngineData : 8 ECM", &signals).unwrap();
    assert_eq!(signals.len(), 4);
}

#[test]
fn validate_test_message_multiple_signals_boundary_validation() {
    let signals = boundary_signals();
    parse_message(b"BO_ 256 EngineData : 8 ECM", &signals).unwrap();
    assert_eq!(signals.len(), 4);
}

#[test]
fn tests_test_message_big_endian_bit_range_calculation() {
    let signals = [signal(b"SG_ Signal1 : 0|8@1+ (1,0) [0|255] \"\"")];
    parse_message(b"BO_ 256 EngineData : 8 ECM", &signals).unwrap();
    assert_eq!(signals.len(), 1);
}

#[test]
fn validate_test_message_big_endian_bit_range_calculation() {
    let signals = [signal(b"SG_ Signal1 : 0|8@1+ (1,0) [0|255] \"\"")];
    parse_message(b"BO_ 256 EngineData : 8 ECM", &signals).unwrap();
    assert_eq!(signals.len(), 1);
}

#[test]
fn tests_test_message_little_endian_bit_range_calculation() {
    let signals = [signal(b"SG_ Signal1 : 0|8@0+ (1,0) [0|255] \"\"")];
    parse_message(b"BO_ 256 EngineData : 8 ECM", &signals).unwrap();
    assert_eq!(signals.len(), 1);
}

#[test]
fn validate_test_message_little_endian_bit_range_calculation() {
    let signals = [signal(b"SG_ Signal1 : 0|8@0+ (1,0) [0|255] \"\"")];
    parse_message(b"BO_ 256 EngineData : 8 ECM", &signals).unwrap();
    assert_eq!(signals.len(), 1);
}

#[test]
fn test_message_signals_is_empty() {
    let signals: &[RawSignal] = &[];
    parse_message(b"BO_ 256 EngineData : 8 ECM", signals).unwrap();
    assert!(signals.is_empty());
    assert_eq!(signals.len(), 0);
}

#[test]
fn test_message_signals_at_out_of_bounds() {
    let signals = [rpm()];
    parse_message(b"BO_ 256 EngineData : 8 ECM", &signals).unwrap();
    assert!(signals.get(0).is_some());
    assert_eq!(signals.get(0).unwrap().name, "RPM");
    assert!(signals.get(1).is_none());
    assert!(signals.get(100).is_none());
    assert!(signals.get(usize::MAX).is_none());
}

#[test]
fn test_message_signals_find_case_sensitive() {
    let signals = [rpm(), temp()];
    parse_message(b"BO_ 256 EngineData : 8 ECM", &signals).unwrap();
    assert!(find(&signals, "RPM").is_some());
    assert_eq!(find(&signals, "RPM").unwrap().name, "RPM");
    assert!(find(&signals, "rpm").is_none());
    assert!(find(&signals, "Rpm").is_none());
    assert!(find(&signals, "Temp").is_some());
    assert_eq!(find(&signals, "Temp").unwrap().name, "Temp");
    assert!(find(&signals, "Nonexistent").is_none());
    assert!(find(&signals, "").is_none());
}

#[test]
fn test_message_signals_find_empty_collection() {
    let signals: &[RawSignal] = &[];
    parse_message(b"BO_ 256 EngineData : 8 ECM", signals).unwrap();
    assert!(find(signals, "RPM").is_none());
    assert!(find(signals, "").is_none());
}

fn getters_edge_cases() {
    let message = parse_message(b"BO_ 0 A : 1 B", &[]).unwrap();
    assert_eq!(message.id, 0);
    assert_eq!(message.name, "A");
    assert_eq!(message.dlc, 1);
    assert_eq!(message.sender, "B");
}

#[test]
fn tests_test_message_getters_edge_cases() {
    getters_edge_cases();
}

#[test]
fn core_test_message_getters_edge_cases() {
    getters_edge_cases();
}

#[test]
fn test_message_signals_iterator_empty() {
    let signals: &[RawSignal] = &[];
    parse_message(b"BO_ 256 EngineData : 8 ECM", signals).unwrap();
    assert!(signals.iter().next().is_none());
}

fn three_signals() -> [RawSignal; 3] {
    [
        signal(b"SG_ Signal1 : 0|8@0+ (1,0) [0|255] \"\""),
        signal(b"SG_ Signal2 : 8|8@0+ (1,0) [0|255] \"\""),
        signal(b"SG_ Signal3 : 16|8@0+ (1,0) [0|255] \"\""),
    ]
}

#[test]
fn test_message_signals_iterator_multiple() {
    let signals = three_signals();
    parse_message(b"BO_ 256 EngineData : 8 ECM", &signals).unwrap();
    let mut it = signals.iter();
    assert_eq!(it.next().unwrap().name, "Signal1");
    assert_eq!(it.next().unwrap().name, "Signal2");
    assert_eq!(it.next().unwrap().name, "Signal3");
    assert!(it.next().is_none());
}

fn dlc_cases(dlcs: &[u8]) {
    for &dlc in dlcs {
        let data = format!("BO_ 256 EngineData : {} ECM", dlc);
        let message = parse_message(data.as_bytes(), &[]).unwrap();
        assert_eq!(message.dlc, dlc);
    }
}

#[test]
fn test_message_can_2_0a_dlc_limits() {
    dlc_cases(&[1, 2, 3, 4, 5, 6, 7, 8]);
}

#[test]
fn test_message_can_2_0b_dlc_limits() {
    dlc_cases(&[1, 2, 3, 4, 5, 6, 7, 8]);
}

#[test]
fn test_message_can_fd_dlc_limits() {
    dlc_cases(&[1, 8, 12, 16, 20, 24, 32, 48, 64]);
}

#[test]
fn test_message_to_dbc_string() {
    let message = parse_message(b"BO_ 256 EngineData : 8 ECM", &[]).unwrap();
    assert_eq!(header_text(&message), "BO_ 256 EngineData : 8 ECM");
}

#[test]
fn test_message_to_string_full() {
    let signals = [rpm(), temp()];
    let message = parse_message(b"BO_ 256 EngineData : 8 ECM", &signals).unwrap();
    let text = full_text(&message, &signals);
    assert!(text.contains("BO_ 256 EngineData : 8 ECM"));
    assert!(text.contains("SG_ RPM"));
    assert!(text.contains("SG_ Temp"));
}

#[test]
fn test_message_to_dbc_string_empty_signals() {
    let message = parse_message(b"BO_ 256 EngineData : 8 ECM", &[]).unwrap();
    assert_eq!(header_text(&message), "BO_ 256 EngineData : 8 ECM");
    assert_eq!(full_text(&message, &[]), "BO_ 256 EngineData : 8 ECM\n");
}

#[test]
fn test_message_to_dbc_string_special_characters() {
    let message =
        parse_message(b"BO_ 1234 Test_Message_With_Underscores : 4 Sender_Node", &[]).unwrap();
    assert_eq!(header_text(&message), "BO_ 1234 Test_Message_With_Underscores : 4 Sender_Node");
}

#[test]
fn test_message_to_dbc_string_extended_id() {
    let message = parse_message(b"BO_ 536870911 ExtendedID : 8 ECM", &[]).unwrap();
    assert_eq!(header_text(&message), "BO_ 536870911 ExtendedID : 8 ECM");
}

#[test]
fn test_message_to_dbc_string_dlc_edge_cases() {
    let message = parse_message(b"BO_ 256 MinDLC : 1 ECM", &[]).unwrap();
    assert_eq!(header_text(&message), "BO_ 256 MinDLC : 1 ECM");
    let message2 = parse_message(b"BO_ 257 MaxDLC : 64 ECM", &[]).unwrap();
    assert_eq!(header_text(&message2), "BO_ 257 MaxDLC : 64 ECM");
}

#[test]
fn test_message_display_trait() {
    let signals = [signal(b"SG_ RPM : 0|16@0+ (0.25,0) [0|8000] \"rpm\" *")];
    let message = parse_message(b"BO_ 256 EngineData : 8 ECM", &signals).unwrap();
    let text = full_text(&message, &signals);
    assert!(text.contains("BO_ 256 EngineData : 8 ECM"));
    assert!(text.contains("SG_ RPM"));
}

#[test]
fn test_message_to_string_full_multiple() {
    let signals = [
        signal(b"SG_ RPM : 0|16@0+ (0.25,0) [0|8000] \"rpm\" *"),
        signal(b"SG_ Temp : 16|8@0- (1,-40) [-40|215] \"\xC2\xB0C\" *"),
    ];
    let message = parse_message(b"BO_ 256 EngineData : 8 ECM", &signals).unwrap();
    let text = full_text(&message, &signals);
    assert!(text.contains("BO_ 256 EngineData : 8 ECM"));
    assert!(text.contains("SG_ RPM"));
    assert!(text.contains("SG_ Temp"));
    let lines: Vec<&str> = text.lines().collect();
    assert!(lines.len() >= 3);
}

#[test]
fn test_message_signals_iterator_collect() {
    let signals = three_signals();
    parse_message(b"BO_ 256 EngineData : 8 ECM", &signals).unwrap();
    let collected: Vec<&str> = signals.iter().map(|s| s.name.as_str()).collect();
    assert_eq!(collected, vec!["Signal1", "Signal2", "Signal3"]);
}

#[test]
fn test_signals_from_slice() {
    let signals = [
        signal(b"SG_ Signal1 : 0|8@0+ (1,0) [0|255] \"\""),
        signal(b"SG_ Signal2 : 8|8@0+ (1,0) [0|255] \"\""),
    ];
    assert_eq!(signals.len(), 2);
    assert!(!signals.is_empty());
    assert_eq!(signals.get(0).unwrap().name, "Signal1");
    assert_eq!(signals.get(1).unwrap().name, "Signal2");
}

#[test]
fn test_signals_from_signals_slice_empty() {
    let signals: &[RawSignal] = &[];
    assert_eq!(signals.len(), 0);
    assert!(signals.is_empty());
    assert!(signals.get(0).is_none());
}

#[test]
fn test_signals_from_slice_multiple() {
    let signals = three_signals();
    assert_eq!(signals.len(), 3);
    assert_eq!(signals.get(0).unwrap().name, "Signal1");
    assert_eq!(signals.get(1).unwrap().name, "Signal2");
    assert_eq!(signals.get(2).unwrap().name, "Signal3");
}

#[test]
fn test_signals_find_not_found() {
    let signals = [signal(b"SG_ Signal1 : 0|8@0+ (1,0) [0|255] \"\"")];
    assert!(find(&signals, "Nonexistent").is_none());
    assert!(find(&signals, "").is_none());
    assert!(find(&signals, "signal1").is_none());
}

#[test]
fn test_signals_find_first_match() {
    let signals = [
        signal(b"SG_ Signal1 : 0|8@0+ (1,0) [0|255] \"\""),
        signal(b"SG_ Signal1 : 8|8@0+ (1,0) [0|255] \"\""),
    ];
    let found = find(&signals, "Signal1");
    assert!(found.is_some());
    assert_eq!(found.unwrap().start_bit, 0);
}

#[test]
fn test_invalid_message_id_too_large() {
    let data = format!("BO_ {} InvalidID : 8 ECM", 0x20000000u32);
    let result = parse_message(data.as_bytes(), &[]);
    assert!(result.is_err(), "Should reject ID exceeding 29-bit limit");
}

#[test]
fn test_invalid_dlc_zero() {
    let result = parse_message(b"BO_ 256 Test : 0 ECM", &[]);
    assert!(result.is_err(), "Should reject DLC 0");
}

#[test]
fn test_invalid_dlc_too_large() {
    let result = parse_message(b"BO_ 256 Test : 65 ECM", &[]);
    assert!(result.is_err(), "Should reject DLC > 64");
}

#[test]
fn test_extended_can_id_range() {
    let standard = format!("BO_ {} Standard : 8 ECM", 0x7FF);
    let extended = format!("BO_ {} Extended : 8 ECM", 0x800);
    let messages = [
        parse_message(standard.as_bytes(), &[]).expect("Should accept standard ID"),
        parse_message(extended.as_bytes(), &[]).expect("Should accept extended ID"),
    ];
    assert_eq!(messages.len(), 2);
    assert_eq!(messages[0].id, 0x7FF);
    assert_eq!(messages[1].id, 0x800);
}
