//! Tests for the structural element parser and the query validator.

use tle_plot::fetcher::is_query_valid;
use tle_plot::tle::parse_tles;
use tle_plot::tle::ParseError;

const ISS_NAME: &str = "ISS (ZARYA)";
const ISS_LINE1: &str = "1 25544U 98067A   25260.12361477  .00008550  00000-0  15572-3 0  9997";
const ISS_LINE2: &str = "2 25544  51.6329 211.3907 0004353 348.5756  11.5133 15.50345634529426";

#[test]
fn test_is_query_valid_with_invalid() {
    let response = "Invalid query: something went wrong";
    assert!(!is_query_valid(response));
}

#[test]
fn test_is_query_valid_with_valid() {
    let response = "ISS (ZARYA)\n1 25544U 98067A   24357.51782407  .00017360  00000-0  31284-3 0  9992";
    assert!(is_query_valid(response));
}

#[test]
fn test_is_query_valid_on_bare_notice() {
    assert!(!is_query_valid("Invalid query"));
    assert!(is_query_valid("Invalid quer"));
    assert!(is_query_valid(""));
}

#[test]
fn test_parse_named_record() {
    let input = format!("{}\n{}\n{}\n", ISS_NAME, ISS_LINE1, ISS_LINE2);
    let tles = parse_tles(&input).expect("well-formed three-line input must parse");
    assert_eq!(tles.len(), 1);
    assert_eq!(tles[0].name.as_deref(), Some(ISS_NAME));
    assert_eq!(tles[0].line1, ISS_LINE1);
    assert_eq!(tles[0].line2, ISS_LINE2);
}

#[test]
fn test_parse_unnamed_record() {
    let input = format!("{}\n{}\n", ISS_LINE1, ISS_LINE2);
    let tles = parse_tles(&input).expect("well-formed two-line input must parse");
    assert_eq!(tles.len(), 1);
    assert!(tles[0].name.is_none());
    assert_eq!(tles[0].line1, ISS_LINE1);
    assert_eq!(tles[0].line2, ISS_LINE2);
}

#[test]
fn test_parse_leading_line2_fails() {
    let input = format!("{}\n", ISS_LINE2);
    let err = parse_tles(&input).expect_err("a group may not start with line 2");
    assert_eq!(err, ParseError::UnexpectedLine2);
    assert_eq!(
        err.message(),
        "TLE group started with line 2, missing line 1"
    );
}

#[test]
fn test_parse_name_without_line1_fails() {
    let input = "ISS (ZARYA)\nnot an element line\n";
    let err = parse_tles(input).expect_err("a name line must be followed by line 1");
    assert_eq!(err, ParseError::MissingLine1);
    assert_eq!(err.message(), "Missing or invalid line 1 after name");
}

#[test]
fn test_parse_name_at_end_of_input_fails() {
    let err = parse_tles("ISS (ZARYA)\n").expect_err("a lone name line must fail");
    assert_eq!(err, ParseError::MissingLine1);
}

#[test]
fn test_parse_missing_line2_fails() {
    let input = format!("{}\n", ISS_LINE1);
    let err = parse_tles(&input).expect_err("line 1 must be followed by line 2");
    assert_eq!(err, ParseError::MissingLine2);
    assert_eq!(err.message(), "Missing or invalid line 2");
}

#[test]
fn test_parse_trims_and_skips_blank_lines() {
    let input = format!(
        "\n   \n  {}  \r\n{}\r\n\t\n{}\r\n\n",
        ISS_NAME, ISS_LINE1, ISS_LINE2
    );
    let tles = parse_tles(&input).expect("padding and blank lines must be ignored");
    assert_eq!(tles.len(), 1);
    assert_eq!(tles[0].name.as_deref(), Some(ISS_NAME));
    assert_eq!(tles[0].line1, ISS_LINE1);
    assert_eq!(tles[0].line2, ISS_LINE2);
}

#[test]
fn test_parse_trims_unicode_whitespace() {
    let input = format!(
        "\u{00A0}{}\u{00A0}\n{}\n\u{3000}\u{2003}\n{}\n",
        ISS_NAME, ISS_LINE1, ISS_LINE2
    );
    let tles = parse_tles(&input).expect("non-ASCII padding and blank lines must be ignored");
    assert_eq!(tles.len(), 1);
    assert_eq!(tles[0].name.as_deref(), Some(ISS_NAME));
    assert_eq!(tles[0].line1, ISS_LINE1);
    assert_eq!(tles[0].line2, ISS_LINE2);
}

#[test]
fn test_parse_empty_input_yields_no_records() {
    let tles = parse_tles("").expect("an empty input is not an error");
    assert!(tles.is_empty());
}

#[test]
fn test_parse_two_records_in_order() {
    let input = format!(
        "A\n{}\n{}\n{}\n{}\n",
        ISS_LINE1, ISS_LINE2, ISS_LINE1, ISS_LINE2
    );
    let tles = parse_tles(&input).expect("two consecutive records must parse");
    assert_eq!(tles.len(), 2);
    assert_eq!(tles[0].name.as_deref(), Some("A"));
    assert!(tles[1].name.is_none());
}
