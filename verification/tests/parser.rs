use dbc_rs::{Error, Parser, VERSION};

#[test]
fn parser_succeeds_with_non_empty_input() {
    let input = b"test";
    let result = Parser::new(input);
    assert!(result.is_ok());
    let parser = result.unwrap();
    assert_eq!(parser.remaining(), b"test");
    assert_eq!(parser.pos, 0);
}

#[test]
fn parser_fails_with_empty_input() {
    let input = b"";
    let result = Parser::new(input);
    assert!(result.is_err());
    match result.unwrap_err() {
        Error::UnexpectedEof => {}
        _ => panic!("Expected Error::UnexpectedEof"),
    }
    // Same name in the `skip_whitespace` group.
    {
        let input = b" ";
        let mut parser = Parser::new(input).unwrap();
        // Skip the only character to make position at end
        parser.pos = input.len();
        let result = parser.skip_whitespace();
        assert!(result.is_err());
        match result.unwrap_err() {
            Error::UnexpectedEof => {}
            _ => panic!("Expected Error"),
        }
    }
}

#[test]
fn parser_succeeds_with_single_byte() {
    let input = b"a";
    let result = Parser::new(input);
    assert!(result.is_ok());
}

#[test]
fn parser_succeeds_with_whitespace_only() {
    let input = b" ";
    let result = Parser::new(input);
    assert!(result.is_ok());
}

#[test]
fn parser_succeeds_with_space() {
    let input = b" test";
    let mut parser = Parser::new(input).unwrap();
    let result = parser.skip_whitespace();
    assert!(result.is_ok());
    assert_eq!(parser.remaining(), b"test");
    assert_eq!(parser.pos, 1);
}

#[test]
fn parser_fails_with_tab() {
    let input = b"\ttest";
    let mut parser = Parser::new(input).unwrap();
    let result = parser.skip_whitespace();
    assert!(result.is_err());
    match result.unwrap_err() {
        Error::Expected(msg) => assert_eq!(msg, Error::EXPECTED_WHITESPACE),
        _ => panic!("Expected Error"),
    }
    // Same name in the `take_until_quote` group.
    {
        let input = b"test\t123\"rest";
        let mut parser = Parser::new(input).unwrap();
        let result = parser.take_until_quote(false, 256);
        assert!(result.is_err());
        match result.unwrap_err() {
            Error::InvalidChar(c) => assert_eq!(c, '\t'),
            _ => panic!("Expected Error::InvalidChar"),
        }
    }
}

#[test]
fn parser_fails_with_newline() {
    let input = b"\ntest";
    let mut parser = Parser::new(input).unwrap();
    let result = parser.skip_whitespace();
    assert!(result.is_err());
    match result.unwrap_err() {
        Error::Expected(msg) => assert_eq!(msg, Error::EXPECTED_WHITESPACE),
        _ => panic!("Expected Error"),
    }
    // Same name in the `take_until_quote` group.
    {
        let input = b"test\n123\"rest";
        let mut parser = Parser::new(input).unwrap();
        let result = parser.take_until_quote(false, 256);
        assert!(result.is_err());
        match result.unwrap_err() {
            Error::InvalidChar(c) => assert_eq!(c, '\n'),
            _ => panic!("Expected Error::InvalidChar"),
        }
    }
}

#[test]
fn parser_fails_with_carriage_return() {
    let input = b"\rtest";
    let mut parser = Parser::new(input).unwrap();
    let result = parser.skip_whitespace();
    assert!(result.is_err());
    match result.unwrap_err() {
        Error::Expected(msg) => assert_eq!(msg, Error::EXPECTED_WHITESPACE),
        _ => panic!("Expected Error"),
    }
    // Same name in the `take_until_quote` group.
    {
        let input = b"test\r123\"rest";
        let mut parser = Parser::new(input).unwrap();
        let result = parser.take_until_quote(false, 256);
        assert!(result.is_err());
        match result.unwrap_err() {
            Error::InvalidChar(c) => assert_eq!(c, '\r'),
            _ => panic!("Expected Error::InvalidChar"),
        }
    }
}

#[test]
fn parser_fails_with_form_feed() {
    let input = b"\x0ctest";
    let mut parser = Parser::new(input).unwrap();
    let result = parser.skip_whitespace();
    assert!(result.is_err());
    match result.unwrap_err() {
        Error::Expected(msg) => assert_eq!(msg, Error::EXPECTED_WHITESPACE),
        _ => panic!("Expected Error"),
    }
}

#[test]
fn parser_fails_with_non_whitespace() {
    let input = b"test";
    let mut parser = Parser::new(input).unwrap();
    let result = parser.skip_whitespace();
    assert!(result.is_err());
    match result.unwrap_err() {
        Error::Expected(msg) => assert_eq!(msg, Error::EXPECTED_WHITESPACE),
        _ => panic!("Expected Error"),
    }
    // Input should remain unchanged
    assert_eq!(parser.remaining(), b"test");
    assert_eq!(parser.pos, 0);
}

#[test]
fn parser_skips_multiple_spaces() {
    let input = b"  test";
    let mut parser = Parser::new(input).unwrap();
    let result = parser.skip_whitespace();
    assert!(result.is_ok());
    assert_eq!(parser.remaining(), b"test");
    assert_eq!(parser.pos, 2);
}

#[test]
fn parser_chaining_stops_on_error() {
    let input = b" test";
    let mut parser = Parser::new(input).unwrap();
    let result = parser.skip_whitespace().and_then(|p| p.skip_whitespace());
    assert!(result.is_err());
    match result.unwrap_err() {
        Error::Expected(msg) => assert_eq!(msg, Error::EXPECTED_WHITESPACE),
        _ => panic!("Expected Error"),
    }
}

#[test]
fn parser_succeeds_with_version() {
    let input = b"VERSION";
    let mut parser = Parser::new(input).unwrap();
    let result = parser.expect(VERSION.as_bytes());
    assert!(result.is_ok());
    assert_eq!(parser.pos, 7);
    assert_eq!(parser.remaining(), b"");
}

#[test]
fn parser_fails_with_different_input() {
    let input = b"TEST";
    let mut parser = Parser::new(input).unwrap();
    let result = parser.expect(VERSION.as_bytes());
    assert!(result.is_err());
    match result.unwrap_err() {
        Error::Expected(_) => {}
        _ => panic!("Expected Error::Expected"),
    }
    // Position should remain unchanged
    assert_eq!(parser.pos, 0);
}

#[test]
fn parser_fails_with_partial_match() {
    let input = b"VERSIO";
    let mut parser = Parser::new(input).unwrap();
    let result = parser.expect(VERSION.as_bytes());
    assert!(result.is_err());
    match result.unwrap_err() {
        Error::Expected(_) => {}
        _ => panic!("Expected Error::Expected"),
    }
}

#[test]
fn parser_fails_when_remaining_input_too_short() {
    let input = b"VER";
    let mut parser = Parser::new(input).unwrap();
    let result = parser.expect(VERSION.as_bytes());
    assert!(result.is_err());
    match result.unwrap_err() {
        Error::Expected(_) => {}
        _ => panic!("Expected Error::Expected"),
    }
}

#[test]
fn parser_succeeds_and_advances_position() {
    let input = b"VERSION test";
    let mut parser = Parser::new(input).unwrap();
    let result = parser.expect(VERSION.as_bytes());
    assert!(result.is_ok());
    assert_eq!(parser.pos, 7);
    assert_eq!(parser.remaining(), b" test");
}

#[test]
fn parser_fails_when_not_at_start() {
    let input = b" VERSION";
    let mut parser = Parser::new(input).unwrap();
    parser.pos = 1; // Skip the space
    let result = parser.expect(VERSION.as_bytes());
    assert!(result.is_ok());
    assert_eq!(parser.pos, 8);
}

#[test]
fn parser_succeeds_with_quote_c_identifier_false() {
    let input = b"test\"rest";
    let mut parser = Parser::new(input).unwrap();
    let result = parser.take_until_quote(false, 256);
    assert!(result.is_ok());
    let slice = result.unwrap();
    assert_eq!(slice, b"test");
    assert_eq!(parser.pos, 5); // position after the quote
    assert_eq!(parser.remaining(), b"rest");
}

#[test]
fn parser_succeeds_with_c_identifier_true() {
    let input = b"test_123\"rest";
    let mut parser = Parser::new(input).unwrap();
    let result = parser.take_until_quote(true, 256);
    assert!(result.is_ok());
    let slice = result.unwrap();
    assert_eq!(slice, b"test_123");
    assert_eq!(parser.pos, 9); // position after the quote
}

#[test]
fn parser_succeeds_c_identifier_underscore_start() {
    let input = b"_test123\"rest";
    let mut parser = Parser::new(input).unwrap();
    let result = parser.take_until_quote(true, 256);
    assert!(result.is_ok());
    let slice = result.unwrap();
    assert_eq!(slice, b"_test123");
}

#[test]
fn parser_fails_c_identifier_starts_with_digit() {
    let input = b"123test\"rest";
    let mut parser = Parser::new(input).unwrap();
    let result = parser.take_until_quote(true, 256);
    assert!(result.is_err());
    match result.unwrap_err() {
        Error::InvalidChar(c) => assert_eq!(c, '1'),
        _ => panic!("Expected Error::InvalidChar"),
    }
}

#[test]
fn parser_fails_c_identifier_invalid_char() {
    let input = b"test-123\"rest";
    let mut parser = Parser::new(input).unwrap();
    let result = parser.take_until_quote(true, 256);
    assert!(result.is_err());
    match result.unwrap_err() {
        Error::InvalidChar(c) => assert_eq!(c, '-'),
        _ => panic!("Expected Error::InvalidChar"),
    }
}

#[test]
fn parser_succeeds_non_c_identifier_with_special_chars() {
    let input = b"test-123!@#\"rest";
    let mut parser = Parser::new(input).unwrap();
    let result = parser.take_until_quote(false, 256);
    assert!(result.is_ok());
    let slice = result.unwrap();
    assert_eq!(slice, b"test-123!@#");
}

#[test]
fn parser_fails_with_backslash() {
    let input = b"test\\123\"rest";
    let mut parser = Parser::new(input).unwrap();
    let result = parser.take_until_quote(false, 256);
    assert!(result.is_err());
    match result.unwrap_err() {
        Error::InvalidChar(c) => assert_eq!(c, '\\'),
        _ => panic!("Expected Error::InvalidChar"),
    }
}

#[test]
fn parser_fails_with_eof() {
    let input = b"test";
    let mut parser = Parser::new(input).unwrap();
    let result = parser.take_until_quote(false, 256);
    assert!(result.is_err());
    match result.unwrap_err() {
        Error::UnexpectedEof => {}
        _ => panic!("Expected Error::UnexpectedEof"),
    }
}

#[test]
fn parser_succeeds_empty_string() {
    let input = b"\"rest";
    let mut parser = Parser::new(input).unwrap();
    let result = parser.take_until_quote(false, 256);
    assert!(result.is_ok());
    let slice = result.unwrap();
    assert_eq!(slice, b"");
    assert_eq!(parser.pos, 1);
}

#[test]
fn parser_succeeds_with_printable_chars() {
    let input = b"hello world!\"rest";
    let mut parser = Parser::new(input).unwrap();
    let result = parser.take_until_quote(false, 256);
    assert!(result.is_ok());
    let slice = result.unwrap();
    assert_eq!(slice, b"hello world!");
}

#[test]
fn parser_fails_when_exceeds_max_length() {
    let input = b"a very long string that exceeds the maximum length\"rest";
    let mut parser = Parser::new(input).unwrap();
    let result = parser.take_until_quote(false, 10);
    assert!(result.is_err());
    match result.unwrap_err() {
        Error::MaxStrLength(max) => assert_eq!(max, 10),
        _ => panic!("Expected Error::MaxStrLength"),
    }
}

#[test]
fn parser_succeeds_when_at_max_length() {
    let input = b"1234567890\"rest";
    let mut parser = Parser::new(input).unwrap();
    let result = parser.take_until_quote(false, 10);
    assert!(result.is_ok());
    let slice = result.unwrap();
    assert_eq!(slice, b"1234567890");
}

#[test]
fn parser_fails_when_exceeds_max_length_c_identifier() {
    let input = b"very_long_identifier_name_that_exceeds_max\"rest";
    let mut parser = Parser::new(input).unwrap();
    let result = parser.take_until_quote(true, 20);
    assert!(result.is_err());
    match result.unwrap_err() {
        Error::MaxStrLength(max) => assert_eq!(max, 20),
        _ => panic!("Expected Error::MaxStrLength"),
    }
}

#[test]
fn core_succeeds_with_non_empty_input() {
    let input = b"test";
    let result = Parser::new(input);
    assert!(result.is_ok());
    let parser = result.unwrap();
    assert_eq!(parser.remaining(), b"test");
    assert_eq!(parser.pos, 0);
}

#[test]
fn core_fails_with_empty_input() {
    let input = b"";
    let result = Parser::new(input);
    assert!(result.is_err());
    match result.unwrap_err() {
        Error::UnexpectedEof => {}
        _ => panic!("Expected Error::UnexpectedEof"),
    }
    // Same name in the `skip_whitespace` group.
    {
        let input = b" ";
        let mut parser = Parser::new(input).unwrap();
        // Skip the only character to make position at end
        parser.pos = input.len();
        let result = parser.skip_whitespace();
        assert!(result.is_err());
        match result.unwrap_err() {
            Error::UnexpectedEof => {}
            _ => panic!("Expected Error"),
        }
    }
}

#[test]
fn core_succeeds_with_single_byte() {
    let input = b"a";
    let result = Parser::new(input);
    assert!(result.is_ok());
}

#[test]
fn core_succeeds_with_whitespace_only() {
    let input = b" ";
    let result = Parser::new(input);
    assert!(result.is_ok());
}

#[test]
fn initializes_line_to_one() {
    let input = b"test";
    let parser = Parser::new(input).unwrap();
    assert_eq!(parser.line(), 1);
}

#[test]
fn increments_on_newline() {
    let input = b"line1\nline2";
    let mut parser = Parser::new(input).unwrap();
    assert_eq!(parser.line(), 1);

    // Advance past "line1" to reach the newline
    parser.expect(b"line1").unwrap();
    assert_eq!(parser.line(), 1);

    // Now skip the newline
    parser.skip_newlines_and_spaces();
    assert_eq!(parser.line(), 2);
}

#[test]
fn increments_on_carriage_return() {
    let input = b"line1\rline2";
    let mut parser = Parser::new(input).unwrap();
    assert_eq!(parser.line(), 1);

    // Advance past "line1" to reach the carriage return
    parser.expect(b"line1").unwrap();
    assert_eq!(parser.line(), 1);

    parser.skip_newlines_and_spaces();
    assert_eq!(parser.line(), 2);
}

#[test]
fn treats_crlf_as_single_newline() {
    let input = b"line1\r\nline2";
    let mut parser = Parser::new(input).unwrap();
    assert_eq!(parser.line(), 1);

    // Advance past "line1" to reach the \r\n
    parser.expect(b"line1").unwrap();
    assert_eq!(parser.line(), 1);

    parser.skip_newlines_and_spaces();
    assert_eq!(parser.line(), 2);
}

#[test]
fn counts_multiple_newlines() {
    let input = b"line1\n\n\nline4";
    let mut parser = Parser::new(input).unwrap();
    assert_eq!(parser.line(), 1);

    // Advance past "line1" to reach the newlines
    parser.expect(b"line1").unwrap();
    assert_eq!(parser.line(), 1);

    parser.skip_newlines_and_spaces();
    assert_eq!(parser.line(), 4);
}

#[test]
fn skip_to_end_of_line_increments_line() {
    let input = b"line1\nline2";
    let mut parser = Parser::new(input).unwrap();
    assert_eq!(parser.line(), 1);

    parser.skip_to_end_of_line();
    assert_eq!(parser.line(), 2);
}

#[test]
fn expect_increments_line_when_skipping_newlines() {
    let input = b"test\nrest";
    let mut parser = Parser::new(input).unwrap();
    assert_eq!(parser.line(), 1);

    // expect will skip "test\n" which contains a newline
    parser.expect(b"test\n").unwrap();
    assert_eq!(parser.line(), 2);
}

#[test]
fn core_succeeds_with_space() {
    let input = b" test";
    let mut parser = Parser::new(input).unwrap();
    let result = parser.skip_whitespace();
    assert!(result.is_ok());
    assert_eq!(parser.remaining(), b"test");
    assert_eq!(parser.pos, 1);
}

#[test]
fn core_fails_with_tab() {
    let input = b"\ttest";
    let mut parser = Parser::new(input).unwrap();
    let result = parser.skip_whitespace();
    assert!(result.is_err());
    match result.unwrap_err() {
        Error::Expected(msg) => assert_eq!(msg, Error::EXPECTED_WHITESPACE),
        _ => panic!("Expected Error"),
    }
}

#[test]
fn core_fails_with_newline() {
    let input = b"\ntest";
    let mut parser = Parser::new(input).unwrap();
    let result = parser.skip_whitespace();
    assert!(result.is_err());
    match result.unwrap_err() {
        Error::Expected(msg) => assert_eq!(msg, Error::EXPECTED_WHITESPACE),
        _ => panic!("Expected Error"),
    }
}

#[test]
fn core_fails_with_carriage_return() {
    let input = b"\rtest";
    let mut parser = Parser::new(input).unwrap();
    let result = parser.skip_whitespace();
    assert!(result.is_err());
    match result.unwrap_err() {
        Error::Expected(msg) => assert_eq!(msg, Error::EXPECTED_WHITESPACE),
        _ => panic!("Expected Error"),
    }
}

#[test]
fn core_fails_with_form_feed() {
    let input = b"\x0ctest";
    let mut parser = Parser::new(input).unwrap();
    let result = parser.skip_whitespace();
    assert!(result.is_err());
    match result.unwrap_err() {
        Error::Expected(msg) => assert_eq!(msg, Error::EXPECTED_WHITESPACE),
        _ => panic!("Expected Error"),
    }
}

#[test]
fn core_fails_with_non_whitespace() {
    let input = b"test";
    let mut parser = Parser::new(input).unwrap();
    let result = parser.skip_whitespace();
    assert!(result.is_err());
    match result.unwrap_err() {
        Error::Expected(msg) => assert_eq!(msg, Error::EXPECTED_WHITESPACE),
        _ => panic!("Expected Error"),
    }
    // Input should remain unchanged
    assert_eq!(parser.remaining(), b"test");
    assert_eq!(parser.pos, 0);
}

#[test]
fn core_skips_multiple_spaces() {
    let input = b"  test";
    let mut parser = Parser::new(input).unwrap();
    let result = parser.skip_whitespace();
    assert!(result.is_ok());
    assert_eq!(parser.remaining(), b"test");
    assert_eq!(parser.pos, 2);
}

#[test]
fn core_chaining_stops_on_error() {
    let input = b" test";
    let mut parser = Parser::new(input).unwrap();
    let result = parser.skip_whitespace().and_then(|p| p.skip_whitespace());
    assert!(result.is_err());
    match result.unwrap_err() {
        Error::Expected(msg) => assert_eq!(msg, Error::EXPECTED_WHITESPACE),
        _ => panic!("Expected Error"),
    }
}

#[test]
fn core_succeeds_with_version() {
    let input = b"VERSION";
    let mut parser = Parser::new(input).unwrap();
    let result = parser.expect(VERSION.as_bytes());
    assert!(result.is_ok());
    assert_eq!(parser.pos, 7);
    assert_eq!(parser.remaining(), b"");
}

#[test]
fn core_fails_with_different_input() {
    let input = b"TEST";
    let mut parser = Parser::new(input).unwrap();
    let result = parser.expect(VERSION.as_bytes());
    assert!(result.is_err());
    match result.unwrap_err() {
        Error::Expected(_) => {}
        _ => panic!("Expected Error::Expected"),
    }
    // Position should remain unchanged
    assert_eq!(parser.pos, 0);
}

#[test]
fn core_fails_with_partial_match() {
    let input = b"VERSIO";
    let mut parser = Parser::new(input).unwrap();
    let result = parser.expect(VERSION.as_bytes());
    assert!(result.is_err());
    match result.unwrap_err() {
        Error::Expected(_) => {}
        _ => panic!("Expected Error::Expected"),
    }
}

#[test]
fn core_fails_when_remaining_input_too_short() {
    let input = b"VER";
    let mut parser = Parser::new(input).unwrap();
    let result = parser.expect(VERSION.as_bytes());
    assert!(result.is_err());
    match result.unwrap_err() {
        Error::Expected(_) => {}
        _ => panic!("Expected Error::Expected"),
    }
}

#[test]
fn core_succeeds_and_advances_position() {
    let input = b"VERSION test";
    let mut parser = Parser::new(input).unwrap();
    let result = parser.expect(VERSION.as_bytes());
    assert!(result.is_ok());
    assert_eq!(parser.pos, 7);
    assert_eq!(parser.remaining(), b" test");
}

#[test]
fn core_fails_when_not_at_start() {
    let input = b" VERSION";
    let mut parser = Parser::new(input).unwrap();
    parser.pos = 1; // Skip the space
    let result = parser.expect(VERSION.as_bytes());
    assert!(result.is_ok());
    assert_eq!(parser.pos, 8);
}

#[test]
fn strings_succeeds_with_quote_c_identifier_false() {
    let input = b"test\"rest";
    let mut parser = Parser::new(input).unwrap();
    let result = parser.take_until_quote(false, 256);
    assert!(result.is_ok());
    let slice = result.unwrap();
    assert_eq!(slice, b"test");
    assert_eq!(parser.pos, 5); // position after the quote
    assert_eq!(parser.remaining(), b"rest");
}

#[test]
fn strings_succeeds_with_c_identifier_true() {
    let input = b"test_123\"rest";
    let mut parser = Parser::new(input).unwrap();
    let result = parser.take_until_quote(true, 256);
    assert!(result.is_ok());
    let slice = result.unwrap();
    assert_eq!(slice, b"test_123");
    assert_eq!(parser.pos, 9); // position after the quote
}

#[test]
fn strings_succeeds_c_identifier_underscore_start() {
    let input = b"_test123\"rest";
    let mut parser = Parser::new(input).unwrap();
    let result = parser.take_until_quote(true, 256);
    assert!(result.is_ok());
    let slice = result.unwrap();
    assert_eq!(slice, b"_test123");
}

#[test]
fn strings_fails_c_identifier_starts_with_digit() {
    let input = b"123test\"rest";
    let mut parser = Parser::new(input).unwrap();
    let result = parser.take_until_quote(true, 256);
    assert!(result.is_err());
    match result.unwrap_err() {
        Error::InvalidChar(c) => assert_eq!(c, '1'),
        _ => panic!("Expected Error::InvalidChar"),
    }
}

#[test]
fn strings_fails_c_identifier_invalid_char() {
    let input = b"test-123\"rest";
    let mut parser = Parser::new(input).unwrap();
    let result = parser.take_until_quote(true, 256);
    assert!(result.is_err());
    match result.unwrap_err() {
        Error::InvalidChar(c) => assert_eq!(c, '-'),
        _ => panic!("Expected Error::InvalidChar"),
    }
}

#[test]
fn strings_succeeds_non_c_identifier_with_special_chars() {
    let input = b"test-123!@#\"rest";
    let mut parser = Parser::new(input).unwrap();
    let result = parser.take_until_quote(false, 256);
    assert!(result.is_ok());
    let slice = result.unwrap();
    assert_eq!(slice, b"test-123!@#");
}

#[test]
fn strings_fails_with_backslash() {
    let input = b"test\\123\"rest";
    let mut parser = Parser::new(input).unwrap();
    let result = parser.take_until_quote(false, 256);
    assert!(result.is_err());
    match result.unwrap_err() {
        Error::InvalidChar(c) => assert_eq!(c, '\\'),
        _ => panic!("Expected Error::InvalidChar"),
    }
}

#[test]
fn strings_fails_with_tab() {
    let input = b"test\t123\"rest";
    let mut parser = Parser::new(input).unwrap();
    let result = parser.take_until_quote(false, 256);
    assert!(result.is_err());
    match result.unwrap_err() {
        Error::InvalidChar(c) => assert_eq!(c, '\t'),
        _ => panic!("Expected Error::InvalidChar"),
    }
}

#[test]
fn strings_fails_with_newline() {
    let input = b"test\n123\"rest";
    let mut parser = Parser::new(input).unwrap();
    let result = parser.take_until_quote(false, 256);
    assert!(result.is_err());
    match result.unwrap_err() {
        Error::InvalidChar(c) => assert_eq!(c, '\n'),
        _ => panic!("Expected Error::InvalidChar"),
    }
}

#[test]
fn strings_fails_with_carriage_return() {
    let input = b"test\r123\"rest";
    let mut parser = Parser::new(input).unwrap();
    let result = parser.take_until_quote(false, 256);
    assert!(result.is_err());
    match result.unwrap_err() {
        Error::InvalidChar(c) => assert_eq!(c, '\r'),
        _ => panic!("Expected Error::InvalidChar"),
    }
}

#[test]
fn strings_fails_with_eof() {
    let input = b"test";
    let mut parser = Parser::new(input).unwrap();
    let result = parser.take_until_quote(false, 256);
    assert!(result.is_err());
    match result.unwrap_err() {
        Error::UnexpectedEof => {}
        _ => panic!("Expected Error::UnexpectedEof"),
    }
}

#[test]
fn strings_succeeds_empty_string() {
    let input = b"\"rest";
    let mut parser = Parser::new(input).unwrap();
    let result = parser.take_until_quote(false, 256);
    assert!(result.is_ok());
    let slice = result.unwrap();
    assert_eq!(slice, b"");
    assert_eq!(parser.pos, 1);
}

#[test]
fn strings_succeeds_with_printable_chars() {
    let input = b"hello world!\"rest";
    let mut parser = Parser::new(input).unwrap();
    let result = parser.take_until_quote(false, 256);
    assert!(result.is_ok());
    let slice = result.unwrap();
    assert_eq!(slice, b"hello world!");
}

#[test]
fn strings_fails_when_exceeds_max_length() {
    let input = b"a very long string that exceeds the maximum length\"rest";
    let mut parser = Parser::new(input).unwrap();
    let result = parser.take_until_quote(false, 10);
    assert!(result.is_err());
    match result.unwrap_err() {
        Error::MaxStrLength(max) => assert_eq!(max, 10),
        _ => panic!("Expected Error::MaxStrLength"),
    }
}

#[test]
fn strings_succeeds_when_at_max_length() {
    let input = b"1234567890\"rest";
    let mut parser = Parser::new(input).unwrap();
    let result = parser.take_until_quote(false, 10);
    assert!(result.is_ok());
    let slice = result.unwrap();
    assert_eq!(slice, b"1234567890");
}

#[test]
fn strings_fails_when_exceeds_max_length_c_identifier() {
    let input = b"very_long_identifier_name_that_exceeds_max\"rest";
    let mut parser = Parser::new(input).unwrap();
    let result = parser.take_until_quote(true, 20);
    assert!(result.is_err());
    match result.unwrap_err() {
        Error::MaxStrLength(max) => assert_eq!(max, 20),
        _ => panic!("Expected Error::MaxStrLength"),
    }
}


#[test]
fn line_counter_follows_line_feeds() {
    let input = b"BU_ A\n\n  X \"q\" Y\nZ";
    let mut p = Parser::new(input).unwrap();
    assert_eq!(p.line(), 1);
    p.expect(b"BU_").unwrap();
    p.skip_whitespace().unwrap();
    p.parse_identifier().unwrap();
    p.skip_newlines_and_spaces();
    assert_eq!(p.line(), 3);
    p.parse_identifier().unwrap();
    p.skip_whitespace().unwrap();
    p.expect(b"\"").unwrap();
    p.take_until_quote(false, 64).unwrap();
    p.skip_to_end_of_line();
    assert_eq!(p.line(), 4);
    let before = &input[..p.pos()];
    assert_eq!(p.line(), 1 + before.iter().filter(|&&b| b == b'\n').count());
}

#[test]
fn skip_whitespace_succeeds_exactly_at_a_space() {
    let mut p = Parser::new(b"  x").unwrap();
    assert!(p.skip_whitespace().is_ok());
    assert_eq!(p.pos(), 2);
    let mut q = Parser::new(b"\tx").unwrap();
    assert_eq!(q.skip_whitespace().err(), Some(Error::Expected(Error::EXPECTED_WHITESPACE)));
    assert_eq!(q.pos(), 0);
}
