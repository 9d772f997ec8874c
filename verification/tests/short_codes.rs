//! Tests for the short-code codec.

use chartcode::codes::NUM_ROWS;
use chartcode::codes::short::ShortCode;
use chartcode::optotypes::OptotypeDefinition;

/// Use this shortcode ("RFD-CAM") for testing - defined centrally to avoid
/// duplicating.
fn get_test_shortcode() -> ShortCode {
    ShortCode {
        version: 0,
        optotype_definition: OptotypeDefinition::from(1),
        start_row: 229,
        offsets: [1, 5, 6, 8],
    }
}

/// This test just makes sure the random shortcode is not panicking and that
/// it can subsequently be converted into a string.
#[test]
fn random_short_code() {
    let new_shortcode = ShortCode::generate_random(OptotypeDefinition::from(1));
    // Check serialisation
    assert_eq!(new_shortcode.to_string().len(), 7);
    // Check the optotype definition is correct
    assert_eq!(new_shortcode.optotype_definition.id, 1);
    // Check the number of rows is correct
    assert_eq!(new_shortcode.offsets.len(), NUM_ROWS - 1);
}

/// Check the parsing of a particular shortcode with known stored data.
#[test]
fn short_parse_code() {
    let parsed_shortcode = ShortCode::from_str("RFD-CAM").unwrap();
    let expected_value = get_test_shortcode();
    assert_eq!(parsed_shortcode, expected_value);
}

/// Parse an invalid code and check that it gives a CodeError.
#[test]
fn short_parse_invalid_code() {
    let parsed_shortcode = ShortCode::from_str("000-OOO");
    match parsed_shortcode {
        Ok(_) => {
            panic!("A short code containing invalid characters was obtained.");
        },
        Err(e) => {
            assert_eq!(
                e.message(),
                "Error: Failed to parse short code. It may have contained invalid characters."
                    .to_string()
            )
        },
    }
}

/// Attempt to parse a code encoding a number which is out of the range for
/// the values encoded by a shortcode.
#[test]
fn short_parse_out_of_range_code() {
    let parsed_shortcode = ShortCode::from_str("9999999");
    match parsed_shortcode {
        Ok(_) => {
            panic!("A short code encoding an out-of-range value was successfully parsed.");
        },
        Err(e) => {
            assert_eq!(
                e.message(),
                "Error: Code did not encode a number within a valid range.".to_string()
            )
        },
    }
}

/// Attempt to parse a code which was constructed to have a row offset
/// specification which is invalid for charts with four offset rows.
#[test]
fn parse_bad_offsets_code() {
    let parsed_shortcode = ShortCode::from_str("LH9-98Y");
    match parsed_shortcode {
        Ok(_) => {
            panic!("A short code encoding an out-of-range value was successfully parsed.");
        },
        Err(e) => {
            assert_eq!(
                e.message(),
                "Error: The row offsets number appeared to be invalid.".to_string()
            )
        },
    }
}

/// Attempt to parse a code with an invalid CRC.
#[test]
fn short_parse_invalid_crc() {
    let parsed_shortcode = ShortCode::from_str("RFD-CAL");
    match parsed_shortcode {
        Ok(_) => {
            panic!("A short code encoding an out-of-range value was successfully parsed.");
        },
        Err(e) => {
            assert_eq!(
                e.message(),
                "Error: The short code was entered incorrectly (CRC mismatch. Code contained CRC 10, but the calculated value was 11).".to_string()
            )
        },
    }
}

/// Check the CRC calculation for an example shortcode with a known CRC
/// value of 11. This CRC value is used to decrease the chance of codes
/// getting changed by accident when they're read out over the phone and
/// then typed in at the other end.
#[test]
fn short_check_crc() {
    let parsed_shortcode = get_test_shortcode();
    assert_eq!(parsed_shortcode.get_crc(), 11);
}

#[test]
fn check_numerical_representation() {
    let expected_value: u32 = 508659723;
    let actual_value = get_test_shortcode().get_numerical_representation();
    assert_eq!(actual_value, expected_value);
}

/// Make sure that serialisation is working for shortcodes - i.e. the
/// encoded information can be converted back into a shortcode that encodes
/// the information.
#[test]
fn short_check_serialisation() {
    let expected_value = "RFD-CAM".to_string();
    let serialised_code = get_test_shortcode().to_string();
    assert_eq!(serialised_code, expected_value);
}

/// The intermediate field body of the test code, without its checksum.
#[test]
fn check_numerical_representation_without_crc() {
    assert_eq!(
        get_test_shortcode().get_numerical_representation_without_crc(),
        508659723 / 64
    );
}

/// Round trip: a randomly generated short code re-parses to itself, and its
/// offsets never repeat a value.
#[test]
fn random_short_code_round_trips() {
    for _ in 0..200 {
        let code = ShortCode::generate_random(OptotypeDefinition::from(1));
        for i in 0..4 {
            assert!(code.offsets[i] <= 9);
            for j in 0..i {
                assert_ne!(code.offsets[i], code.offsets[j]);
            }
        }
        let text = code.to_string();
        let reparsed = ShortCode::from_str(&text).unwrap();
        assert_eq!(reparsed, code);
    }
}

/// Round trip for the aukland definition as well.
#[test]
fn aukland_short_code_round_trips() {
    let code = ShortCode {
        version: 0,
        optotype_definition: OptotypeDefinition::from(0),
        start_row: 77,
        offsets: [3, 0, 9, 4],
    };
    let text = code.to_string();
    assert_eq!(ShortCode::from_str(&text).unwrap(), code);
}

/// Rendering is always six zero-padded characters with the dash after the
/// third, even for codes whose value fills few base-32 digits, and such
/// codes still round-trip.
#[test]
fn small_value_code_is_zero_padded() {
    let code = ShortCode {
        version: 0,
        optotype_definition: OptotypeDefinition::from(0),
        start_row: 0,
        offsets: [0, 0, 0, 0],
    };
    // The field body is zero, so only the checksum bits carry a value.
    let text = code.to_string();
    assert_eq!(text.len(), 7);
    assert!(text.starts_with("AAA-A"));
    assert_eq!(text.chars().nth(3), Some('-'));
    assert_eq!(ShortCode::from_str(&text).unwrap(), code);
}

/// A code of valid characters whose value exceeds every supported width is
/// classed as out of range, not as invalid characters.
#[test]
fn short_parse_huge_valid_code() {
    let text = "99999999999999999999999999".to_string();
    match ShortCode::from_str(&text) {
        Ok(_) => {
            panic!("A short code encoding an out-of-range value was successfully parsed.");
        },
        Err(e) => {
            assert_eq!(
                e.message(),
                "Error: Code did not encode a number within a valid range.".to_string()
            )
        },
    }
}
