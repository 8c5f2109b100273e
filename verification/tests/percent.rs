use querystring::percent::{decode, encode, DecodeError};

#[test]
fn test_encode() {
    let plain = "Hello World!";
    let encoded = encode(&plain);

    assert_eq!(encoded, "Hello%20World%21");
}

#[test]
fn test_decode() {
    let encoded = "Hello%20World%21";
    let decoded = decode(&encoded).unwrap();

    assert_eq!(decoded, "Hello World!");
}

#[test]
fn encode_leaves_unreserved_text_alone() {
    let text = "ABCXYZabcxyz0189-_.~";
    assert_eq!(encode(text), text);
}

#[test]
fn encode_empty_is_empty() {
    assert_eq!(encode(""), "");
}

#[test]
fn encode_escapes_the_characters_next_to_the_unreserved_ranges() {
    assert_eq!(encode("@[`{/:"), "%40%5b%60%7b%2f%3a");
}

#[test]
fn encode_writes_lowercase_hex() {
    assert_eq!(encode("/?*\u{7f}"), "%2f%3f%2a%7f");
    assert_eq!(encode("\n"), "%0a");
    assert_eq!(encode("\0"), "%00");
}

#[test]
fn encode_escapes_percent_and_separators() {
    assert_eq!(encode("100%"), "100%25");
    assert_eq!(encode("a=b&c"), "a%3db%26c");
}

#[test]
fn encode_escapes_each_byte_of_a_multibyte_character() {
    assert_eq!(encode("\u{e9}"), "%c3%a9");
    assert_eq!(encode("\u{20ac}"), "%e2%82%ac");
    assert_eq!(encode("\u{1f600}"), "%f0%9f%98%80");
    assert_eq!(encode("a\u{e9}b"), "a%c3%a9b");
}

#[test]
fn encode_output_is_ascii() {
    let encoded = encode("na\u{ef}ve \u{4e2d}\u{6587} \u{1f600}!");
    assert!(encoded.is_ascii());
    assert!(encoded
        .chars()
        .all(|c| c.is_ascii_alphanumeric() || "-_.~%".contains(c)));
}

#[test]
fn decode_copies_plain_text() {
    assert_eq!(decode("plain-text_1.~").unwrap(), "plain-text_1.~");
    assert_eq!(decode("").unwrap(), "");
    assert_eq!(decode("a b+c").unwrap(), "a b+c");
}

#[test]
fn decode_reads_hex_digits_in_either_case() {
    assert_eq!(decode("%2f%2F%3a%3A").unwrap(), "//::");
    assert_eq!(decode("%4a%4A%6B%6b").unwrap(), "JJkk");
    assert_eq!(decode("%09").unwrap(), "\t");
    assert_eq!(decode("%a0").unwrap(), "\u{a0}");
    assert_eq!(decode("%Ff").unwrap(), "\u{ff}");
    assert_eq!(decode("%00").unwrap(), "\0");
}

#[test]
fn decode_keeps_characters_that_are_not_ascii() {
    assert_eq!(decode("\u{e9}%41\u{1f600}").unwrap(), "\u{e9}A\u{1f600}");
}

#[test]
fn decode_reads_each_escape_as_one_character() {
    assert_eq!(decode("%c3%a9").unwrap(), "\u{c3}\u{a9}");
    assert_eq!(decode(&encode("\u{e9}")).unwrap(), "\u{c3}\u{a9}");
}

#[test]
fn decode_truncated_escape() {
    assert_eq!(decode("100%"), Err(DecodeError::TruncatedEscape));
    assert_eq!(decode("100%4"), Err(DecodeError::TruncatedEscape));
    assert_eq!(decode("%"), Err(DecodeError::TruncatedEscape));
    assert_eq!(decode("%\u{e9}"), Err(DecodeError::TruncatedEscape));
}

#[test]
fn decode_invalid_hex_digits() {
    assert_eq!(
        decode("100%zz"),
        Err(DecodeError::InvalidHexDigits { first: 'z', second: 'z' })
    );
    assert_eq!(
        decode("%4g"),
        Err(DecodeError::InvalidHexDigits { first: '4', second: 'g' })
    );
    assert_eq!(
        decode("%g4"),
        Err(DecodeError::InvalidHexDigits { first: 'g', second: '4' })
    );
    assert_eq!(
        decode("%%41"),
        Err(DecodeError::InvalidHexDigits { first: '%', second: '4' })
    );
    assert_eq!(
        decode("%\u{e9}\u{e9}"),
        Err(DecodeError::InvalidHexDigits { first: '\u{e9}', second: '\u{e9}' })
    );
}

#[test]
fn decode_takes_no_sign_for_a_digit() {
    assert_eq!(
        decode("%+f"),
        Err(DecodeError::InvalidHexDigits { first: '+', second: 'f' })
    );
    assert_eq!(
        decode("%-1"),
        Err(DecodeError::InvalidHexDigits { first: '-', second: '1' })
    );
}

#[test]
fn decode_takes_no_character_just_outside_the_digit_ranges() {
    for c in ['/', ':', '@', 'G', '`', 'g'] {
        let text = format!("%{}0", c);
        assert_eq!(
            decode(&text),
            Err(DecodeError::InvalidHexDigits { first: c, second: '0' })
        );
    }
}

#[test]
fn decode_reports_the_first_bad_escape() {
    assert_eq!(
        decode("%zz%"),
        Err(DecodeError::InvalidHexDigits { first: 'z', second: 'z' })
    );
    assert_eq!(decode("%41%4"), Err(DecodeError::TruncatedEscape));
    assert_eq!(
        decode("a%4%zz"),
        Err(DecodeError::InvalidHexDigits { first: '4', second: '%' })
    );
}

#[test]
fn decode_of_encode_gives_ascii_text_back() {
    let texts = [
        "",
        "Hello World!",
        "a=b&c=d?e#f!g",
        "100% sure; 50%25",
        "\t\r\n\0\u{7f}",
        " !\"#$%&'()*+,-./0123456789:;<=>?@[\\]^_`{|}~",
    ];
    for text in texts {
        assert_eq!(decode(&encode(text)).unwrap(), text);
    }
}

#[test]
fn decode_of_encode_succeeds_on_any_text() {
    let text = "\u{e9}\u{20ac}\u{1f600} and \u{7ff}\u{800}\u{ffff}\u{10000}\u{10ffff}";
    let decoded = decode(&encode(text)).unwrap();
    let bytes: Vec<char> = text.bytes().map(|b| b as char).collect();
    assert_eq!(decoded.chars().collect::<Vec<char>>(), bytes);
}

#[test]
fn every_byte_value_round_trips_through_an_escape() {
    for b in 0..=255u8 {
        let escape = format!("%{:02x}", b);
        assert_eq!(decode(&escape).unwrap(), (b as char).to_string());
        let upper = format!("%{:02X}", b);
        assert_eq!(decode(&upper).unwrap(), (b as char).to_string());
    }
    for b in 0..128u8 {
        let c = b as char;
        let encoded = encode(&c.to_string());
        if c.is_ascii_alphanumeric() || "-_.~".contains(c) {
            assert_eq!(encoded, c.to_string());
        } else {
            assert_eq!(encoded, format!("%{:02x}", b));
        }
    }
}
