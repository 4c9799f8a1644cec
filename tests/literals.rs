use mips_parser::error::ParseErr;
use mips_parser::literals::{binary, hexadecimal, parse_char, parse_quote_string, parse_string};
use mips_parser::span::Span;

#[test]
fn test_bin() {
    let (remain, num) = binary(Span::new("0b10000")).unwrap();
    assert_eq!("", remain.fragment());
    assert_eq!(7, remain.location_offset());
    assert_eq!(0b10000, num);

    let (remain, num) = binary(Span::new("0B10001")).unwrap();
    assert_eq!("", remain.fragment());
    assert_eq!(7, remain.location_offset());
    assert_eq!(0b10001, num);

    let (remain, num) = binary(Span::new("0b1_0_0_0_0")).unwrap();
    assert_eq!("", remain.fragment());
    assert_eq!(0b10000, num);
}

#[test]
fn test_bin_invalid_character() {
    let (remain, num) = binary(Span::new("0b1A")).unwrap();
    assert_eq!("A", remain.fragment());
    assert_eq!(3, remain.location_offset());
    assert_eq!(0b1, num);
}

#[test]
fn test_bin_invalid_prefix() {
    match binary(Span::new("0x10000")).unwrap_err() {
        ParseErr::Error(error) => assert_eq!("0x10000", error.input.fragment()),
        _ => panic!("Error expected, but not received!"),
    }
}

#[test]
fn test_bin_no_binary_literals() {
    match binary(Span::new("0b")).unwrap_err() {
        ParseErr::Error(error) => assert_eq!("", error.input.fragment()),
        _ => panic!("Error expected, but not received!"),
    }
}

#[test]
fn test_hex() {
    let (remain, num) = hexadecimal(Span::new("0x1ABCD")).unwrap();
    assert_eq!("", remain.fragment());
    assert_eq!(7, remain.location_offset());
    assert_eq!(0x1ABCD, num);

    let (remain, num) = hexadecimal(Span::new("0X2012A")).unwrap();
    assert_eq!("", remain.fragment());
    assert_eq!(7, remain.location_offset());
    assert_eq!(0x2012A, num);

    let (remain, num) = hexadecimal(Span::new("0x2_1_A_a_C")).unwrap();
    assert_eq!("", remain.fragment());
    assert_eq!(0x2_1_A_a_C, num);
}

#[test]
fn test_hex_invalid_character() {
    let (remain, num) = hexadecimal(Span::new("0x1G")).unwrap();
    assert_eq!("G", remain.fragment());
    assert_eq!(3, remain.location_offset());
    assert_eq!(0x1, num);
}

#[test]
fn test_hex_invalid_prefix() {
    match hexadecimal(Span::new("0b10000")).unwrap_err() {
        ParseErr::Error(error) => assert_eq!("0b10000", error.input.fragment()),
        _ => panic!("Error expected, but not received!"),
    }
}

#[test]
fn test_hex_no_hex_literals() {
    match hexadecimal(Span::new("0x")).unwrap_err() {
        ParseErr::Error(error) => assert_eq!("", error.input.fragment()),
        _ => panic!("Error expected, but not received!"),
    }
}

#[test]
fn test_special_char() {
    let test_cases: Vec<(&str, (u8, &str))> = vec![
        // Normal
        (r#"'A'"#, (b'A', "")),
        // Special characters
        (r#"'\n'"#, (b'\n', "")),
        (r#"'\t'"#, (b'\t', "")),
        (r#"'\r'"#, (b'\r', "")),
        (r#"'"'"#, (b'"', "")),
        (r#"'\''"#, (b'\'', "")),
        (r#"'\x00'"#, (b'\x00', "")),
        (r#"'\x01'"#, (b'\x01', "")),
        (r#"'\\'"#, (b'\\', "")),
        (r#"'\"'"#, (b'\"', "")),
        (r#"'\''"#, (b'\'', "")),
        (r#"'\0'"#, (b'\0', "")),
    ];

    for (test_case, (expected_byte, expected_remaining)) in test_cases.iter() {
        let (span, byte) = parse_char(Span::new(test_case)).unwrap();
        assert_eq!(*expected_byte, byte);
        assert_eq!(*expected_remaining, span.fragment());
    }
}

#[test]
fn test_unicode_char_literal() {
    if let ParseErr::Error(byte) = parse_char(Span::new("'§'")).unwrap_err() {
        assert_eq!("'§'", byte.input.fragment());
    } else {
        panic!("Unexpected error")
    }
}

#[test]
fn test_incomplete_char_literal() {
    match parse_char(Span::new("'a")).unwrap_err() {
        err @ ParseErr::Error(_) => panic!("Unexpected incomplete: {:?}", err),
        ParseErr::Failure(_) => {
            // Expected failure since quote is unmatched
        }
    }
}

#[test]
fn test_empty_char_literal() {
    match parse_char(Span::new("''")).unwrap_err() {
        err @ ParseErr::Error(_) => panic!("Unexpected incomplete: {:?}", err),
        ParseErr::Failure(_) => {
            // Expected failure since quote is unmatched
        }
    }
}

#[test]
fn test_multiple_char_literal() {
    if let ParseErr::Error(byte) = parse_char(Span::new("'as'")).unwrap_err() {
        assert_eq!("'as'", byte.input.fragment());
    } else {
        panic!("Unexpected error")
    }
}

#[test]
fn test_special_strings() {
    let test_cases: Vec<(&str, (&str, &str))> = vec![
        // Normal
        (r#""A""#, ("A", "")),
        // Empty
        (r#""""#, ("", "")),
        // Special characters
        (r#""\n""#, ("\n", "")),
        (r#""\t""#, ("\t", "")),
        (r#""\r""#, ("\r", "")),
        (r#""'""#, ("'", "")),
        (r#""\x01""#, ("\x01", "")),
        (r#""\x00""#, ("\x00", "")),
        (r#""\\""#, ("\\", "")),
        (r#""\"""#, ("\"", "")),
        (r#""\'""#, ("\'", "")),
        (r#""\0""#, ("\0", "")),
        // Multi-character strings
        (r#""ABC""#, ("ABC", "")),
        (r#""A\0C""#, ("A\0C", "")),
        (r#""\x123""#, ("\x123", "")),
        (r#""'''""#, ("'''", "")),
    ];

    for (test_case, (expected_byte, expected_remaining)) in test_cases.iter() {
        let (span, bytes) = parse_string(Span::new(test_case)).unwrap();
        let mut expected_vec = expected_byte.as_bytes().to_vec();
        expected_vec.push(0u8); // Add null termination
        assert_eq!(
            expected_vec, bytes,
            "Test Case: {} | expected bytes: {:?} | bytes: {:?}",
            test_case, expected_vec, bytes
        );
        assert_eq!(*expected_remaining, span.fragment());
    }
}

#[test]
fn test_unicode_string_literal() {
    if let ParseErr::Error(byte) = parse_string(Span::new(r#""§""#)).unwrap_err() {
        assert_eq!(r#""§""#, byte.input.fragment());
    } else {
        panic!("Unexpected error")
    }
}

#[test]
fn test_incomplete_string_literal() {
    match parse_string(Span::new(r#""a"#)).unwrap_err() {
        err @ ParseErr::Error(_) => panic!("Unexpected incomplete: {:?}", err),
        ParseErr::Failure(_) => {
            // Expected failure since quote is unmatched
        }
    }
}

#[test]
fn test_quote_string() {
    let cases: Vec<(&str, &str)> = vec![
        (r#""""#, ""),
        (r#""\x41""#, "A"),
        (r#""\r""#, "\r"),
        (r#""\n""#, "\n"),
        (r#""\n\r\t\\\0\"\'\x41assad""#, "\n\r\t\\\0\"\'\x41assad"),
        (r#""assad""#, "assad"),
    ];
    for (case, expected) in cases {
        let (_, actual) = parse_quote_string(Span::new(case)).unwrap();
        assert_eq!(expected.as_bytes().to_vec(), actual);
    }
}
