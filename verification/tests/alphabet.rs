//! Tests for the base-32 alphabet codec and the shared error type.

use chartcode::codes::CodeError;
use chartcode::codes::get_character_value;
use chartcode::codes::get_code_from_number;
use chartcode::codes::get_number_from_code;

#[test]
fn always_passes() {
    assert_eq!(2 + 2, 4);
}

/// Check the first stage of code de-coding, which is to convert the code
/// into a u128 value that represents the number (including CRC) encoded by
/// it.
#[test]
fn convert_valid_code_to_number() {
    let number_from_valid_code = get_number_from_code("RFD-CAM".to_string()).unwrap();
    let expected_number: u128 = 508659723;
    assert_eq!(expected_number, number_from_valid_code);
}

/// Try to decode a code with an invalid character (a character not in the
/// base 32 alphabet).
#[test]
fn convert_invalid_code_to_number() {
    assert_eq!(get_number_from_code("000-OOO".to_string()), None)
}

/// Check the base alphabet (that defines what number each character in a
/// code corresponds to) hasn't accidentally been tampered with. Only tests
/// a single value, but that catches most obvious issues.
#[test]
fn check_base_char_mapping() {
    assert_eq!(get_character_value('2'), Some(24))
}

/// Check the formatting of the code error object - it should contain the
/// string which was originally used to create the error message.
#[test]
fn check_error_formatting() {
    let error_message = "This is a test".to_string();
    let error = CodeError(error_message.clone());
    if !error.message().contains(&error_message) {
        panic!("The printed error message did not contain the message that was specified when creating the error.");
    }
}

/// Check the zero-padding in the code-encoding - the code that comes out
/// should be the correct length, and should decode to the same number which
/// was originally encoded.
#[test]
fn check_zero_padding() {
    let num = 50_u128;
    let encoded = get_code_from_number(num, 16);
    // Check the length
    assert_eq!(encoded.len(), 16);
    // Check decoding is successful
    let decoded = get_number_from_code(encoded.iter().collect::<String>());
    assert_eq!(decoded, Some(num));
}

/// Separators are purely cosmetic: any count and position of '-' characters
/// decodes to the same value.
#[test]
fn separators_are_ignored() {
    let plain = get_number_from_code("RFDCAM".to_string());
    let dashed = get_number_from_code("-R-F-D-C-A-M-".to_string());
    assert_eq!(plain, get_number_from_code("RFD-CAM".to_string()));
    assert_eq!(plain, dashed);
    assert_eq!(plain, Some(508659723));
}

/// The empty string encodes zero.
#[test]
fn empty_code_is_zero() {
    assert_eq!(get_number_from_code(String::new()), Some(0));
}

/// Characters that look like alphabet members but are excluded (easily
/// confused shapes) are rejected, and matching is case-sensitive.
#[test]
fn excluded_characters_are_rejected() {
    assert_eq!(get_character_value('O'), None);
    assert_eq!(get_character_value('0'), None);
    assert_eq!(get_character_value('1'), None);
    assert_eq!(get_character_value('I'), None);
    assert_eq!(get_character_value('a'), None);
    assert_eq!(get_character_value('A'), Some(0));
    assert_eq!(get_character_value('9'), Some(31));
}

/// Encoding a value and decoding the characters round-trips across the
/// whole base-32 digit range.
#[test]
fn encode_decode_round_trip() {
    let values: [u128; 6] = [0, 1, 31, 32, 1023, 1073741823];
    for v in values {
        let encoded = get_code_from_number(v, 6);
        assert_eq!(encoded.len(), 6);
        let text: String = encoded.iter().collect();
        assert_eq!(get_number_from_code(text), Some(v));
    }
}

/// A value too large for a u128 is reported as undecodable rather than
/// wrapping.
#[test]
fn oversized_value_is_rejected() {
    // 26 characters of the highest digit exceed 2^128.
    let text = "99999999999999999999999999".to_string();
    assert_eq!(get_number_from_code(text), None);
}
