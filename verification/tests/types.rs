use json_tree::parser::tokenize::{chars_of, text_of};
use json_tree::types::{ParseError, Position, Range};

#[test]
fn position_new_sets_each_field() {
    let pos = Position::new(3, 4, 50);
    assert_eq!(pos.line, 3);
    assert_eq!(pos.char, 4);
    assert_eq!(pos.idx, 50);
}

#[test]
fn position_default_is_the_origin() {
    assert_eq!(Position::default(), Position::new(0, 0, 0));
}

#[test]
fn position_add_is_field_wise() {
    let sum = Position::new(1, 2, 3) + Position::new(10, 20, 30);
    assert_eq!(sum, Position::new(11, 22, 33));
    let next = Position::new(5, 7, 90) + Position::new(0, 1, 1);
    assert_eq!(next, Position::new(5, 8, 91));
}

#[test]
fn range_new_keeps_both_ends() {
    let start = Position::new(0, 1, 1);
    let end = Position::new(2, 0, 9);
    let range = Range::new(start, end);
    assert_eq!(range.start, start);
    assert_eq!(range.end, end);
}

#[test]
fn every_error_has_its_message() {
    assert_eq!(ParseError::InvalidType.message(), "Found invalid type");
    assert_eq!(ParseError::MissingArrayBrace.message(), "Missing array brace");
    assert_eq!(ParseError::MissingObjectBrace.message(), "Missing object brace");
    assert_eq!(ParseError::FileNotFound.message(), "File not found");
    assert_eq!(ParseError::Error.message(), "Could not parse json");
}

#[test]
fn text_and_characters_convert_both_ways() {
    let chars = chars_of("a\u{e9}\n\"");
    assert_eq!(chars, vec!['a', '\u{e9}', '\n', '"']);
    assert_eq!(text_of(&chars), "a\u{e9}\n\"");
    assert_eq!(text_of(&Vec::new()), "");
    assert_eq!(chars_of("").len(), 0);
}
