use json_tree::parser::tokenize::{tokenize, tokenize_chars, TokenType};
use json_tree::types::{ParseError, Position, Range};

fn approx_eq_ulps(a: f64, b: f64, ulps: i64) -> bool {
    if a == b {
        return true;
    }
    let ai = a.to_bits() as i64;
    let bi = b.to_bits() as i64;
    (ai - bi).abs() <= ulps
}

fn float_of(text: &str) -> f64 {
    text.parse::<f64>().unwrap()
}

fn equal_position(pos1: &Position, pos2: &Position) {
    assert_eq!(
        pos1.idx, pos2.idx,
        "Position not equal. (Idx should be: '{}' is: '{}')",
        pos1.idx, pos2.idx
    );
    assert_eq!(
        pos1.line, pos2.line,
        "Position not equal. (Line should be: '{}' is: '{}')",
        pos1.line, pos2.line
    );
    assert_eq!(
        pos1.char, pos2.char,
        "Position not equal. (Char should be: '{}' is: '{}')",
        pos1.char, pos2.char
    );
}

fn equal_range(range1: &Range, range2: &Range) {
    equal_position(&range1.start, &range2.start);
    equal_position(&range1.end, &range2.end);
}

fn equal_token_tuple(token1: &TokenType, token2: &TokenType) {
    match (token1, token2) {
        (TokenType::String(r1, v1), TokenType::String(r2, v2)) => {
            equal_range(r1, r2);
            assert_eq!(v1, v2, "String not equal. ('{}' != '{}')", v1, v2);
        }
        (TokenType::Bool(r1, v1), TokenType::Bool(r2, v2)) => {
            equal_range(r1, r2);
            assert_eq!(v1, v2, "Bool not equal. ('{}' != '{}')", v1, v2);
        }
        (TokenType::Float(r1, v1), TokenType::Float(r2, v2)) => {
            equal_range(r1, r2);
            assert!(
                approx_eq_ulps(float_of(v1), float_of(v2), 2),
                "Float not equal. ('{}' != '{}')",
                v1,
                v2
            );
        }
        (TokenType::Int(r1, v1), TokenType::Int(r2, v2)) => {
            equal_range(r1, r2);
            assert_eq!(v1, v2, "Int not equal. ('{}' != '{}')", v1, v2);
        }
        (TokenType::Comment(r1, v1), TokenType::Comment(r2, v2)) => {
            equal_range(r1, r2);
            assert_eq!(v1, v2, "Comment not equal. ('{}' != '{}')", v1, v2);
        }
        _ => panic!("Token token '{:?}' does not match '{:?}'", token1, token2),
    }
}

fn equal_token_single(token1: &TokenType, token2: &TokenType) {
    match (token1, token2) {
        (TokenType::ObjectOpen(r1), TokenType::ObjectOpen(r2))
        | (TokenType::ObjectClose(r1), TokenType::ObjectClose(r2))
        | (TokenType::ArrayOpen(r1), TokenType::ArrayOpen(r2))
        | (TokenType::ArrayClose(r1), TokenType::ArrayClose(r2))
        | (TokenType::Null(r1), TokenType::Null(r2)) => equal_range(r1, r2),
        (TokenType::Colon, TokenType::Colon) | (TokenType::Comma, TokenType::Comma) => {}
        _ => panic!(
            "Token token type '{:?}' does not match '{:?}'",
            token1, token2
        ),
    }
}

fn span(start: usize, end: usize) -> Range {
    Range::new(Position::new(0, start, start), Position::new(0, end, end))
}

#[test]
fn test_tokenize() {
    let primitives = "{ \"string\": \"value\", \"null\": null, \"bool1\": false, \"bool2\": true, \"int\": 1, \"float\": 1.0, \"array\": [] }";
    match tokenize(primitives) {
        Ok(tokens) => {
            equal_token_single(
                tokens.get(0).unwrap(),
                &TokenType::ObjectOpen(Range::new(
                    Position::new(0, 0, 0),
                    Position::new(0, 1, 1),
                )),
            );

            equal_token_tuple(
                tokens.get(1).unwrap(),
                &TokenType::String(
                    Range::new(Position::new(0, 3, 3), Position::new(0, 9, 9)),
                    "string".to_owned(),
                ),
            );

            equal_token_tuple(
                tokens.get(3).unwrap(),
                &TokenType::String(
                    Range::new(Position::new(0, 13, 13), Position::new(0, 18, 18)),
                    "value".to_owned(),
                ),
            );

            equal_token_tuple(
                tokens.get(5).unwrap(),
                &TokenType::String(
                    Range::new(Position::new(0, 22, 22), Position::new(0, 26, 26)),
                    "null".to_owned(),
                ),
            );

            equal_token_single(
                tokens.get(7).unwrap(),
                &TokenType::Null(Range::new(
                    Position::new(0, 29, 29),
                    Position::new(0, 33, 33),
                )),
            );

            equal_token_tuple(
                tokens.get(9).unwrap(),
                &TokenType::String(
                    Range::new(Position::new(0, 36, 36), Position::new(0, 41, 41)),
                    "bool1".to_owned(),
                ),
            );

            equal_token_tuple(
                tokens.get(11).unwrap(),
                &TokenType::Bool(
                    Range::new(Position::new(0, 44, 44), Position::new(0, 49, 49)),
                    false,
                ),
            );

            equal_token_tuple(
                tokens.get(13).unwrap(),
                &TokenType::String(
                    Range::new(Position::new(0, 52, 52), Position::new(0, 57, 57)),
                    "bool2".to_owned(),
                ),
            );

            equal_token_tuple(
                tokens.get(15).unwrap(),
                &TokenType::Bool(
                    Range::new(Position::new(0, 60, 60), Position::new(0, 64, 64)),
                    true,
                ),
            );

            equal_token_tuple(
                tokens.get(17).unwrap(),
                &TokenType::String(
                    Range::new(Position::new(0, 67, 67), Position::new(0, 70, 70)),
                    "int".to_owned(),
                ),
            );

            equal_token_tuple(
                tokens.get(19).unwrap(),
                &TokenType::Int(
                    Range::new(Position::new(0, 73, 73), Position::new(0, 74, 74)),
                    1,
                ),
            );

            equal_token_tuple(
                tokens.get(21).unwrap(),
                &TokenType::String(
                    Range::new(Position::new(0, 77, 77), Position::new(0, 82, 82)),
                    "float".to_owned(),
                ),
            );

            equal_token_tuple(
                tokens.get(23).unwrap(),
                &TokenType::Float(
                    Range::new(Position::new(0, 85, 85), Position::new(0, 88, 88)),
                    "1.0".to_owned(),
                ),
            );
            match tokens.get(23).unwrap() {
                TokenType::Float(_, text) => assert!(approx_eq_ulps(float_of(text), 1.0, 2)),
                other => panic!("Token '{:?}' is not a float", other),
            }

            equal_token_single(
                tokens.get(27).unwrap(),
                &TokenType::ArrayOpen(Range::new(
                    Position::new(0, 99, 99),
                    Position::new(0, 100, 100),
                )),
            );

            equal_token_single(
                tokens.get(28).unwrap(),
                &TokenType::ArrayClose(Range::new(
                    Position::new(0, 100, 100),
                    Position::new(0, 101, 101),
                )),
            );

            equal_token_single(
                tokens.get(29).unwrap(),
                &TokenType::ObjectClose(Range::new(
                    Position::new(0, 102, 102),
                    Position::new(0, 103, 103),
                )),
            );
        }
        _ => panic!("Could not tokenize json."),
    }
}

#[test]
fn tokenize_counts_every_token() {
    let primitives = "{ \"string\": \"value\", \"null\": null, \"bool1\": false, \"bool2\": true, \"int\": 1, \"float\": 1.0, \"array\": [] }";
    let tokens = tokenize(primitives).unwrap();
    assert_eq!(tokens.len(), 30);
    equal_token_single(&tokens[2], &TokenType::Colon);
    equal_token_single(&tokens[4], &TokenType::Comma);
    equal_token_single(&tokens[20], &TokenType::Comma);
}

#[test]
fn structural_characters_are_one_wide() {
    let tokens = tokenize("{}[],:").unwrap();
    assert_eq!(tokens.len(), 6);
    equal_token_single(&tokens[0], &TokenType::ObjectOpen(span(0, 1)));
    equal_token_single(&tokens[1], &TokenType::ObjectClose(span(1, 2)));
    equal_token_single(&tokens[2], &TokenType::ArrayOpen(span(2, 3)));
    equal_token_single(&tokens[3], &TokenType::ArrayClose(span(3, 4)));
    equal_token_single(&tokens[4], &TokenType::Comma);
    equal_token_single(&tokens[5], &TokenType::Colon);
}

#[test]
fn empty_text_has_no_tokens() {
    assert_eq!(tokenize("").unwrap().len(), 0);
    assert_eq!(tokenize("  \t \n \n").unwrap().len(), 0);
}

#[test]
fn newline_starts_a_line_and_still_counts() {
    let tokens = tokenize("{\n  \"a\": 1\n}").unwrap();
    assert_eq!(tokens.len(), 5);
    equal_token_single(&tokens[0], &TokenType::ObjectOpen(span(0, 1)));
    equal_token_tuple(
        &tokens[1],
        &TokenType::String(
            Range::new(Position::new(1, 3, 5), Position::new(1, 4, 6)),
            "a".to_owned(),
        ),
    );
    // The number ends at the first character that is neither a digit nor a
    // point, which here is the newline.
    equal_token_tuple(
        &tokens[3],
        &TokenType::Int(
            Range::new(Position::new(1, 7, 9), Position::new(1, 8, 10)),
            1,
        ),
    );
    equal_token_single(
        &tokens[4],
        &TokenType::ObjectClose(Range::new(
            Position::new(2, 0, 11),
            Position::new(2, 1, 12),
        )),
    );
}

#[test]
fn range_offsets_slice_the_text() {
    let text = "{ \"key\": [true, null, 12, 3.5] } // done\n";
    let chars: Vec<char> = text.chars().collect();
    let tokens = tokenize(text).unwrap();
    let mut seen = 0;
    for token in tokens.iter() {
        let (range, expected) = match token {
            TokenType::String(r, s) => (*r, s.clone()),
            TokenType::Float(r, s) => (*r, s.clone()),
            TokenType::Int(r, v) => (*r, v.to_string()),
            TokenType::Bool(r, v) => (*r, v.to_string()),
            TokenType::Null(r) => (*r, "null".to_owned()),
            TokenType::ObjectOpen(r) => (*r, "{".to_owned()),
            TokenType::ObjectClose(r) => (*r, "}".to_owned()),
            TokenType::ArrayOpen(r) => (*r, "[".to_owned()),
            TokenType::ArrayClose(r) => (*r, "]".to_owned()),
            TokenType::Comment(r, s) => (*r, s.clone()),
            TokenType::Comma | TokenType::Colon => continue,
        };
        let slice: String = chars[range.start.idx..range.end.idx].iter().collect();
        assert_eq!(slice, expected);
        seen += 1;
    }
    assert_eq!(seen, 10);
}

#[test]
fn string_keeps_escapes_verbatim() {
    let tokens = tokenize("\"a\\\"b\\\\\" ").unwrap();
    assert_eq!(tokens.len(), 1);
    equal_token_tuple(
        &tokens[0],
        &TokenType::String(span(1, 7), "a\\\"b\\\\".to_owned()),
    );
}

#[test]
fn string_may_hold_structural_characters() {
    let tokens = tokenize("\"{[//]}\":").unwrap();
    assert_eq!(tokens.len(), 2);
    equal_token_tuple(&tokens[0], &TokenType::String(span(1, 7), "{[//]}".to_owned()));
    equal_token_single(&tokens[1], &TokenType::Colon);
}

#[test]
fn empty_string_is_a_token() {
    let tokens = tokenize("\"\"").unwrap();
    assert_eq!(tokens.len(), 1);
    equal_token_tuple(&tokens[0], &TokenType::String(span(1, 1), "".to_owned()));
}

#[test]
fn number_terminator_is_a_token_of_its_own() {
    let tokens = tokenize("[12,7]").unwrap();
    assert_eq!(tokens.len(), 5);
    equal_token_tuple(&tokens[1], &TokenType::Int(span(1, 3), 12));
    equal_token_single(&tokens[2], &TokenType::Comma);
    equal_token_tuple(&tokens[3], &TokenType::Int(span(4, 5), 7));
    equal_token_single(&tokens[4], &TokenType::ArrayClose(span(5, 6)));
}

#[test]
fn integer_limits() {
    let tokens = tokenize("9223372036854775807 ").unwrap();
    equal_token_tuple(&tokens[0], &TokenType::Int(span(0, 19), i64::MAX));
    let tokens = tokenize("9223372036854775808 ").unwrap();
    equal_token_tuple(
        &tokens[0],
        &TokenType::Float(span(0, 19), "9223372036854775808".to_owned()),
    );
    let tokens = tokenize("0007 ").unwrap();
    equal_token_tuple(&tokens[0], &TokenType::Int(span(0, 4), 7));
    let tokens = tokenize("99999999999999999999999999 ").unwrap();
    match &tokens[0] {
        TokenType::Float(_, text) => assert_eq!(float_of(text), 1e26),
        other => panic!("Token '{:?}' is not a float", other),
    }
}

#[test]
fn float_keeps_its_text() {
    let tokens = tokenize("3.25,1. ").unwrap();
    assert_eq!(tokens.len(), 3);
    equal_token_tuple(&tokens[0], &TokenType::Float(span(0, 4), "3.25".to_owned()));
    match &tokens[0] {
        TokenType::Float(_, text) => assert_eq!(float_of(text), 3.25),
        other => panic!("Token '{:?}' is not a float", other),
    }
    equal_token_tuple(&tokens[2], &TokenType::Float(span(5, 7), "1.".to_owned()));
}

#[test]
fn number_with_two_points_is_invalid() {
    assert_eq!(tokenize("{\"a\": 1.2.3}").unwrap_err(), ParseError::InvalidType);
    assert_eq!(tokenize("1.2.3 ").unwrap_err(), ParseError::InvalidType);
    assert_eq!(tokenize("1..2,").unwrap_err(), ParseError::InvalidType);
}

#[test]
fn literal_ends_at_the_next_character() {
    let tokens = tokenize("true,false]null}").unwrap();
    assert_eq!(tokens.len(), 6);
    equal_token_tuple(&tokens[0], &TokenType::Bool(span(0, 4), true));
    equal_token_single(&tokens[1], &TokenType::Comma);
    equal_token_tuple(&tokens[2], &TokenType::Bool(span(5, 10), false));
    equal_token_single(&tokens[3], &TokenType::ArrayClose(span(10, 11)));
    equal_token_single(&tokens[4], &TokenType::Null(span(11, 15)));
    equal_token_single(&tokens[5], &TokenType::ObjectClose(span(15, 16)));
}

#[test]
fn literal_with_a_wrong_letter_is_invalid() {
    assert_eq!(tokenize("tx, ").unwrap_err(), ParseError::InvalidType);
    assert_eq!(tokenize("{\"a\": trye}").unwrap_err(), ParseError::InvalidType);
    assert_eq!(tokenize("fals, ").unwrap_err(), ParseError::InvalidType);
    assert_eq!(tokenize("nil  ").unwrap_err(), ParseError::InvalidType);
}

#[test]
fn complete_literal_ends_whatever_follows() {
    let tokens = tokenize("nulll truex ").unwrap();
    assert_eq!(tokens.len(), 2);
    equal_token_single(&tokens[0], &TokenType::Null(span(0, 4)));
    equal_token_tuple(&tokens[1], &TokenType::Bool(span(6, 10), true));
}

#[test]
fn pending_token_at_the_end_is_dropped() {
    assert_eq!(tokenize("12").unwrap().len(), 0);
    assert_eq!(tokenize("true").unwrap().len(), 0);
    assert_eq!(tokenize("\"abc").unwrap().len(), 0);
    assert_eq!(tokenize("// trailing").unwrap().len(), 0);
    assert_eq!(tokenize("1.2.3").unwrap().len(), 0);
}

#[test]
fn comment_runs_to_the_end_of_the_line() {
    let tokens = tokenize("{ // a {comment}\n}").unwrap();
    assert_eq!(tokens.len(), 3);
    equal_token_tuple(
        &tokens[1],
        &TokenType::Comment(
            Range::new(Position::new(0, 4, 4), Position::new(0, 16, 16)),
            " a {comment}".to_owned(),
        ),
    );
    equal_token_single(
        &tokens[2],
        &TokenType::ObjectClose(Range::new(
            Position::new(1, 0, 17),
            Position::new(1, 1, 18),
        )),
    );
}

#[test]
fn empty_comment_is_a_token() {
    let tokens = tokenize("//\n").unwrap();
    assert_eq!(tokens.len(), 1);
    equal_token_tuple(&tokens[0], &TokenType::Comment(span(2, 2), "".to_owned()));
}

#[test]
fn single_slash_is_passed_over() {
    let tokens = tokenize("/ {/\n/}").unwrap();
    assert_eq!(tokens.len(), 2);
    equal_token_single(&tokens[0], &TokenType::ObjectOpen(span(2, 3)));
    let tokens = tokenize("/\"a\"/1,").unwrap();
    assert_eq!(tokens.len(), 3);
    equal_token_tuple(&tokens[0], &TokenType::String(span(2, 3), "a".to_owned()));
    equal_token_tuple(&tokens[1], &TokenType::Int(span(5, 6), 1));
}

#[test]
fn comment_text_may_hold_letters_of_literals() {
    let tokens = tokenize("// this is not true\n{}").unwrap();
    assert_eq!(tokens.len(), 3);
    equal_token_tuple(
        &tokens[0],
        &TokenType::Comment(span(2, 19), " this is not true".to_owned()),
    );
}

#[test]
fn tokenize_chars_agrees_with_tokenize() {
    let text = "{ \"a\": [1, 2.5, true] } // x\n";
    let chars: Vec<char> = text.chars().collect();
    let from_chars = tokenize_chars(&chars).unwrap();
    let from_text = tokenize(text).unwrap();
    assert_eq!(format!("{:?}", from_chars), format!("{:?}", from_text));
    assert_eq!(from_text.len(), 12);
}

#[test]
fn offsets_count_characters_not_bytes() {
    let tokens = tokenize("\"h\u{e9}\u{4e16}\" 1 ").unwrap();
    assert_eq!(tokens.len(), 2);
    equal_token_tuple(&tokens[0], &TokenType::String(span(1, 4), "h\u{e9}\u{4e16}".to_owned()));
    equal_token_tuple(&tokens[1], &TokenType::Int(span(6, 7), 1));
}

fn range_of(token: &TokenType) -> Option<Range> {
    match token {
        TokenType::String(r, _)
        | TokenType::Float(r, _)
        | TokenType::Int(r, _)
        | TokenType::Bool(r, _)
        | TokenType::Null(r)
        | TokenType::ObjectOpen(r)
        | TokenType::ObjectClose(r)
        | TokenType::ArrayOpen(r)
        | TokenType::ArrayClose(r)
        | TokenType::Comment(r, _) => Some(*r),
        TokenType::Comma | TokenType::Colon => None,
    }
}

#[test]
fn tokens_come_in_the_order_of_the_text() {
    let text = "{ // head\n  \"a\": [1,\n 2.5,true],\n\n  \"b\": \"x\ny\" // tail\n}";
    let tokens = tokenize(text).unwrap();
    let ranges: Vec<Range> = tokens.iter().filter_map(range_of).collect();
    assert_eq!(ranges.len(), 12);
    for range in ranges.iter() {
        assert!(range.start.idx <= range.end.idx);
        assert!(range.start.line <= range.end.line);
    }
    for pair in ranges.windows(2) {
        assert!(pair[0].end.idx <= pair[1].start.idx);
        assert!(pair[0].end.line <= pair[1].start.line);
    }
    assert_eq!(ranges[11].end.line, 6);
    assert_eq!(ranges[11].end.idx, text.chars().count());
}

#[test]
fn newline_inside_a_string_is_kept() {
    let tokens = tokenize("\"x\ny\"").unwrap();
    assert_eq!(tokens.len(), 1);
    equal_token_tuple(
        &tokens[0],
        &TokenType::String(
            Range::new(Position::new(0, 1, 1), Position::new(1, 1, 4)),
            "x\ny".to_owned(),
        ),
    );
    // A newline behind a backslash is kept like any other character.
    let tokens = tokenize("\"a\\\n\" ").unwrap();
    equal_token_tuple(
        &tokens[0],
        &TokenType::String(
            Range::new(Position::new(0, 1, 1), Position::new(1, 0, 4)),
            "a\\\n".to_owned(),
        ),
    );
}

#[test]
fn newline_ends_a_number() {
    let tokens = tokenize("[1\n]").unwrap();
    assert_eq!(tokens.len(), 3);
    equal_token_tuple(
        &tokens[1],
        &TokenType::Int(
            Range::new(Position::new(0, 1, 1), Position::new(0, 2, 2)),
            1,
        ),
    );
    equal_token_single(
        &tokens[2],
        &TokenType::ArrayClose(Range::new(
            Position::new(1, 0, 3),
            Position::new(1, 1, 4),
        )),
    );
    // Digits on two lines are two numbers.
    let tokens = tokenize("1\n2,").unwrap();
    assert_eq!(tokens.len(), 3);
    equal_token_tuple(&tokens[0], &TokenType::Int(span(0, 1), 1));
    equal_token_tuple(
        &tokens[1],
        &TokenType::Int(
            Range::new(Position::new(1, 0, 2), Position::new(1, 1, 3)),
            2,
        ),
    );
    equal_token_single(&tokens[2], &TokenType::Comma);
    assert_eq!(tokenize("1.2.3\n").unwrap_err(), ParseError::InvalidType);
    let tokens = tokenize("2.5\n").unwrap();
    equal_token_tuple(&tokens[0], &TokenType::Float(span(0, 3), "2.5".to_owned()));
}

#[test]
fn newline_ends_a_complete_literal_and_breaks_an_incomplete_one() {
    let tokens = tokenize("true\nnull\nfalse\n").unwrap();
    assert_eq!(tokens.len(), 3);
    equal_token_tuple(&tokens[0], &TokenType::Bool(span(0, 4), true));
    equal_token_single(
        &tokens[1],
        &TokenType::Null(Range::new(Position::new(1, 0, 5), Position::new(1, 4, 9))),
    );
    equal_token_tuple(
        &tokens[2],
        &TokenType::Bool(
            Range::new(Position::new(2, 0, 10), Position::new(2, 5, 15)),
            false,
        ),
    );
    assert_eq!(tokenize("tr\nue,").unwrap_err(), ParseError::InvalidType);
    assert_eq!(tokenize("nu\nll ").unwrap_err(), ParseError::InvalidType);
    // The broken word is only found out by the character behind the newline.
    assert_eq!(tokenize("tr\n").unwrap().len(), 0);
}
