//! Tests for the optotype catalog and the chart arrangement deriver.

use chartcode::codes::short::ShortCode;
use chartcode::optotypes::DEFAULT_OPTOTYPES;
use chartcode::optotypes::OptotypeArrangement;
use chartcode::optotypes::OptotypeDefinition;
use chartcode::optotypes::OptotypeRow;

/// Use this shortcode ("RFD-CAM") for testing - defined centrally to avoid
/// duplicating.
fn get_test_shortcode() -> ShortCode {
    ShortCode {
        version: 0,
        optotype_definition: OptotypeDefinition::from(1),
        start_row: 229,
        offsets: [1, 5, 6, 8],
    }
}

fn get_known_arrangement() -> OptotypeArrangement {
    OptotypeArrangement {
        rows: vec![
            OptotypeRow { text_size: 5, optotypes: vec![7, 8] },
            OptotypeRow { text_size: 4, optotypes: vec![5, 6, 3, 9] },
            OptotypeRow { text_size: 3, optotypes: vec![4, 5, 2, 8] },
            OptotypeRow { text_size: 2, optotypes: vec![0, 1, 8, 4] },
            OptotypeRow { text_size: 1, optotypes: vec![9, 0, 7, 3] },
        ],
        code: "RFD-CAM".to_string(),
        optotype_definition: OptotypeDefinition::from(1),
    }
}

#[test]
fn check_arrangement() {
    let obtained_arrangement = OptotypeArrangement::from_short_code(get_test_shortcode());
    let known_arrangement = get_known_arrangement();
    assert_eq!(known_arrangement, obtained_arrangement);
}

/// Check the fallback into default optotypes, when the optotype ID is not
/// given.
#[test]
fn check_fallback() {
    assert_eq!(OptotypeDefinition::from(50), OptotypeDefinition::from(DEFAULT_OPTOTYPES));
}

/// Check the debug trait on OptotypeDefinitions.
#[test]
fn optotypes_check_debug() {
    println!("{:?}", OptotypeDefinition::from(50));
}

/// Check the PartialEq trait on OptotypeRows, which is required to check if
/// two rows are the same.
#[test]
fn check_compare_optotype_row() {
    let row_one = OptotypeRow { text_size: 1, optotypes: vec![1, 2, 3] };
    let row_two = OptotypeRow { text_size: 1, optotypes: vec![1, 2, 3] };
    if row_one != row_two {
        panic!("Two identical rows did not appear to be the same when compared.");
    }
}

/// Deriving the arrangement twice from the same code gives identical
/// output.
#[test]
fn arrangement_is_deterministic() {
    let first = OptotypeArrangement::from_short_code(get_test_shortcode());
    let second = OptotypeArrangement::from_short_code(get_test_shortcode());
    assert_eq!(first, second);
}

/// No row of a derived arrangement repeats an optotype.
#[test]
fn arrangement_rows_have_no_duplicates() {
    let arrangement = OptotypeArrangement::from_short_code(get_test_shortcode());
    for row in &arrangement.rows {
        let mut seen = row.optotypes.clone();
        seen.sort();
        seen.dedup();
        assert_eq!(seen.len(), row.optotypes.len());
    }
}

/// The start-row selector covers exactly the values whose scaled position
/// falls within the 5040 valid bottom-row tuples: 251 is the largest
/// usable selector.
#[test]
fn start_row_boundary() {
    let mut in_range = get_test_shortcode();
    in_range.start_row = 251;
    assert!(OptotypeArrangement::can_derive(&in_range));
    let mut out_of_range = get_test_shortcode();
    out_of_range.start_row = 252;
    assert!(!OptotypeArrangement::can_derive(&out_of_range));
}

/// The arrangement derived from the smallest selector takes the first
/// duplicate-free tuple, reversed: digits 3,2,1,0 read as [3,2,1,0] once
/// reversed from the tuple (0,1,2,3).
#[test]
fn smallest_selector_arrangement() {
    let mut code = get_test_shortcode();
    code.start_row = 0;
    let arrangement = OptotypeArrangement::from_short_code(code);
    // Candidate 123 is the first of 0..9999 whose four base-10 digits
    // (3,2,1,0 from least significant) are pairwise distinct.
    assert_eq!(arrangement.rows[4].optotypes, vec![0, 1, 2, 3]);
}

/// A derived arrangement and the code it came from agree: re-parsing the
/// embedded code text gives back the original short code.
#[test]
fn arrangement_code_round_trips() {
    let arrangement = OptotypeArrangement::from_short_code(get_test_shortcode());
    let reparsed = ShortCode::from_str(&arrangement.code).unwrap();
    assert_eq!(reparsed, get_test_shortcode());
}
