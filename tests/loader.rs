use game_of_life::loader::{parse_state, ParseError};

#[test]
fn parses_rows_row_major() {
    let (cells, size) = parse_state(b"X-\n-X\nXX").unwrap();
    assert_eq!(size, (2, 3));
    assert_eq!(cells, vec![true, false, false, true, true, true]);
}

#[test]
fn final_newline_opens_no_row() {
    let (cells, size) = parse_state(b"-X-\n").unwrap();
    assert_eq!(size, (3, 1));
    assert_eq!(cells, vec![false, true, false]);
}

#[test]
fn carriage_returns_before_newlines_are_dropped() {
    let (cells, size) = parse_state(b"X-\r\n-X\r\n").unwrap();
    assert_eq!(size, (2, 2));
    assert_eq!(cells, vec![true, false, false, true]);
}

#[test]
fn empty_text_is_an_empty_pattern() {
    let (cells, size) = parse_state(b"").unwrap();
    assert_eq!(size, (0, 0));
    assert!(cells.is_empty());
}

#[test]
fn invalid_character_is_reported_with_its_place() {
    assert_eq!(
        parse_state(b"X-\n-a\n").err(),
        Some(ParseError::InvalidCharacter { line: 1, column: 1 })
    );
    assert_eq!(
        parse_state(b"XX\nX").err(),
        Some(ParseError::NonUniformRow { line: 1 })
    );
}

#[test]
fn non_uniform_rows_are_refused() {
    assert_eq!(
        parse_state(b"XXX\nXXX\nXX\n").err(),
        Some(ParseError::NonUniformRow { line: 2 })
    );
    assert_eq!(
        parse_state(b"\nX\n").err(),
        Some(ParseError::NonUniformRow { line: 1 })
    );
}

#[test]
fn first_error_wins() {
    assert_eq!(
        parse_state(b"XX\nX\nXz").err(),
        Some(ParseError::NonUniformRow { line: 1 })
    );
    assert_eq!(
        parse_state(b"XX\nXXq").err(),
        Some(ParseError::InvalidCharacter { line: 1, column: 2 })
    );
}
