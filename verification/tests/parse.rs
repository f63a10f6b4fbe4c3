use json_tree::parse_json;
use json_tree::parser::parse::{parse_json as parse_tokens, pre_calculate_positions};
use json_tree::parser::tokenize::{tokenize, TokenType};
use json_tree::strip_comments;
use json_tree::tree::{Entry, EntryType, PathType, Tree};
use json_tree::types::{ParseError, Position, Range};

const NESTED: &str = "{\"a\":{},\"b\":{\"c\":[true,{\"e\":42}]}}";

fn error_of(text: &str) -> ParseError {
    match parse_json(text) {
        Ok(tree) => panic!("'{}' should not parse, but gives {:?}", text, tree),
        Err(e) => e,
    }
}

fn int_of(entry: &Entry) -> i64 {
    match entry.entry_type {
        EntryType::Int(val) => val,
        _ => panic!("Should be number"),
    }
}

fn indices_of(tree: &Tree, found: &[&Entry]) -> Vec<usize> {
    found
        .iter()
        .map(|entry| {
            tree.entries
                .iter()
                .position(|other| std::ptr::eq(other, *entry))
                .unwrap()
        })
        .collect()
}

#[test]
fn test_parse() {
    let json = "// hello\n { \n // this is a test\n \"a\": {}, \"b\": { \"c\": [true, { \"e\": 42 } ] } } // bli \n// bla";
    match parse_json(json) {
        Ok(tree) => {
            let res = tree.value_at(&[PathType::Object("a")]);
            let entry = res.get(0).unwrap();
            match (*(*entry)).entry_type {
                EntryType::JSONObject(_) => println!("Correct entry"),
                _ => panic!("Should be object"),
            }

            let res = tree.value_at(&[
                PathType::Object("b"),
                PathType::Object("c"),
                PathType::Array(1),
                PathType::Object("e"),
            ]);
            let entry = res.get(0).unwrap();
            match (*(*entry)).entry_type {
                EntryType::Int(val) => assert_eq!(42, val),
                _ => panic!("Should be number"),
            }

            let res = tree.value_at(&[
                PathType::Wildcard,
                PathType::Object("c"),
                PathType::Array(0),
            ]);
            let entry = res.get(0).unwrap();
            match (*(*entry)).entry_type {
                EntryType::Bool(val) => assert_eq!(true, val),
                _ => panic!("Should be bool"),
            }

            let res = tree.value_at(&[
                PathType::RecursiveWildcard,
                PathType::Array(1),
                PathType::Object("e"),
            ]);
            let entry = res.get(0).unwrap();
            match (*(*entry)).entry_type {
                EntryType::Int(val) => assert_eq!(42, val),
                _ => panic!("Should be number"),
            }

            let res = tree.value_at(&[
                PathType::Wildcard,
                PathType::Object("c"),
                PathType::Array(1),
                PathType::Object("e"),
            ]);
            let entry = res.get(0).unwrap();
            match (*(*entry)).entry_type {
                EntryType::Int(val) => assert_eq!(42, val),
                _ => panic!("Should be number"),
            }
        }
        Err(_) => panic!("Could not parse json."),
    }
}

#[test]
fn key_of_empty_object_yields_one_object_without_keys() {
    let tree = parse_json(NESTED).unwrap();
    let res = tree.value_at(&[PathType::Object("a")]);
    assert_eq!(res.len(), 1);
    match &res[0].entry_type {
        EntryType::JSONObject(members) => assert_eq!(members.len(), 0),
        _ => panic!("Should be object"),
    }
    assert_eq!(tree.keys_at(&[PathType::Object("a")]).len(), 0);
}

#[test]
fn keys_and_indices_lead_to_the_nested_number() {
    let tree = parse_json(NESTED).unwrap();
    let res = tree.value_at(&[
        PathType::Object("b"),
        PathType::Object("c"),
        PathType::Array(1),
        PathType::Object("e"),
    ]);
    assert_eq!(res.len(), 1);
    assert_eq!(int_of(res[0]), 42);
}

#[test]
fn wildcard_expands_to_both_members() {
    let tree = parse_json(NESTED).unwrap();
    let both = tree.value_at(&[PathType::Wildcard]);
    assert_eq!(indices_of(&tree, &both), vec![0, 5]);
    let res = tree.value_at(&[
        PathType::Wildcard,
        PathType::Object("c"),
        PathType::Array(0),
    ]);
    assert_eq!(res.len(), 1);
    match res[0].entry_type {
        EntryType::Bool(val) => assert_eq!(true, val),
        _ => panic!("Should be bool"),
    }
}

#[test]
fn recursive_wildcard_finds_the_number_at_depth() {
    let tree = parse_json(NESTED).unwrap();
    let res = tree.value_at(&[
        PathType::RecursiveWildcard,
        PathType::Array(1),
        PathType::Object("e"),
    ]);
    assert_eq!(res.len(), 1);
    assert_eq!(int_of(res[0]), 42);
}

#[test]
fn recursive_wildcard_keeps_candidates_and_goes_parts_first() {
    let tree = parse_json(NESTED).unwrap();
    assert_eq!(tree.entries.len(), 7);
    let all = tree.value_at(&[PathType::RecursiveWildcard]);
    assert_eq!(indices_of(&tree, &all), vec![6, 0, 5, 4, 1, 3, 2]);
    let below_b = tree.value_at(&[PathType::Object("b"), PathType::RecursiveWildcard]);
    assert_eq!(indices_of(&tree, &below_b), vec![5, 4, 1, 3, 2]);
    let twice = tree.value_at(&[PathType::Object("b"), PathType::Wildcard, PathType::Wildcard]);
    assert_eq!(indices_of(&tree, &twice), vec![1, 3]);
}

#[test]
fn empty_path_gives_the_root() {
    let tree = parse_json(NESTED).unwrap();
    let res = tree.value_at(&[]);
    assert_eq!(indices_of(&tree, &res), vec![6]);
    assert!(res[0].key.is_none());
    match &res[0].entry_type {
        EntryType::JSONObject(members) => {
            assert_eq!(members.len(), 2);
            assert_eq!(members[0].name, "a");
            assert_eq!((members[0].key, members[0].value), (0, 0));
            assert_eq!(members[1].name, "b");
            assert_eq!((members[1].key, members[1].value), (1, 5));
        }
        _ => panic!("Should be object"),
    }
}

#[test]
fn path_that_matches_nothing_gives_nothing() {
    let tree = parse_json(NESTED).unwrap();
    assert_eq!(tree.value_at(&[PathType::Object("zzz")]).len(), 0);
    assert_eq!(tree.value_at(&[PathType::Array(0)]).len(), 0);
    assert_eq!(
        tree.value_at(&[PathType::Object("b"), PathType::Object("c"), PathType::Array(2)])
            .len(),
        0
    );
    assert_eq!(
        tree.value_at(&[PathType::Object("a"), PathType::Wildcard])
            .len(),
        0
    );
    assert_eq!(
        tree.value_at(&[PathType::Object("b"), PathType::Object("c"), PathType::Object("e")])
            .len(),
        0
    );
}

#[test]
fn query_on_an_empty_tree_gives_nothing() {
    let tree = Tree { entries: vec![], keys: vec![] };
    assert_eq!(tree.value_at(&[]).len(), 0);
    assert_eq!(tree.value_at(&[PathType::RecursiveWildcard]).len(), 0);
    assert_eq!(tree.keys_at(&[]).len(), 0);
}

#[test]
fn keys_at_lists_the_keys_of_each_object() {
    let tree = parse_json(NESTED).unwrap();
    let root_keys = tree.keys_at(&[]);
    let names: Vec<&str> = root_keys.iter().map(|key| key.name.as_str()).collect();
    assert_eq!(names, vec!["a", "b"]);
    assert_eq!(root_keys[0].range.start.idx, 2);
    assert_eq!(root_keys[0].range.end.idx, 3);
    assert_eq!(root_keys[1].range.start.idx, 9);
    let below: Vec<String> = tree
        .keys_at(&[PathType::RecursiveWildcard])
        .iter()
        .map(|key| key.name.clone())
        .collect();
    assert_eq!(below, vec!["a", "b", "c", "e"]);
    assert_eq!(
        tree.keys_at(&[PathType::Object("b"), PathType::Object("c")])
            .len(),
        0
    );
}

#[test]
fn entries_carry_their_source_ranges() {
    let tree = parse_json("{\n  \"n\": null,\n  \"list\": [ 1.5 ]\n}").unwrap();
    assert_eq!(tree.entries.len(), 4);
    let root = tree.entries.last().unwrap();
    assert_eq!(root.range.start.idx, 0);
    assert_eq!(root.range.start.line, 0);
    assert_eq!(root.range.end.idx, 34);
    assert_eq!(root.range.end.line, 3);
    assert_eq!(root.range.end.char, 1);
    let null = &tree.entries[0];
    assert!(matches!(null.entry_type, EntryType::Null));
    assert_eq!(null.key, Some(0));
    assert_eq!((null.range.start.line, null.range.start.char), (1, 7));
    assert_eq!((null.range.start.idx, null.range.end.idx), (9, 13));
    let float = &tree.entries[1];
    match &float.entry_type {
        EntryType::Float(text) => assert_eq!(text.parse::<f64>().unwrap(), 1.5),
        _ => panic!("Should be float"),
    }
    assert!(float.key.is_none());
    let list = &tree.entries[2];
    match &list.entry_type {
        EntryType::JSONArray(items) => assert_eq!(items, &vec![1]),
        _ => panic!("Should be array"),
    }
    assert_eq!((list.range.start.idx, list.range.end.idx), (25, 32));
}

#[test]
fn children_come_before_their_parent_and_root_is_last() {
    let tree = parse_json(NESTED).unwrap();
    for (i, entry) in tree.entries.iter().enumerate() {
        match &entry.entry_type {
            EntryType::JSONObject(members) => {
                for member in members {
                    assert!(member.value < i);
                    assert!(member.key < tree.keys.len());
                }
            }
            EntryType::JSONArray(items) => {
                for item in items {
                    assert!(*item < i);
                }
            }
            _ => {}
        }
    }
    assert!(matches!(
        tree.entries.last().unwrap().entry_type,
        EntryType::JSONObject(_)
    ));
}

#[test]
fn document_that_is_no_object_is_rejected() {
    assert_eq!(error_of("[1,2,3]"), ParseError::MissingObjectBrace);
    assert_eq!(error_of("\"x\""), ParseError::MissingObjectBrace);
    assert_eq!(error_of(""), ParseError::MissingObjectBrace);
    assert_eq!(error_of("12 "), ParseError::MissingObjectBrace);
    assert_eq!(error_of("}{"), ParseError::MissingObjectBrace);
}

#[test]
fn unterminated_nested_object_is_rejected() {
    assert_eq!(error_of("{\"k\": {\"x\": 1"), ParseError::MissingObjectBrace);
    assert_eq!(error_of("{\"k\": {\"x\": 1}"), ParseError::MissingObjectBrace);
    assert_eq!(error_of("{"), ParseError::MissingObjectBrace);
    // The first brace has its closer; the third has none.
    assert_eq!(error_of("{\"k\": 1} {\"x\": 1,"), ParseError::MissingObjectBrace);
}

#[test]
fn unterminated_array_is_rejected() {
    assert_eq!(error_of("{\"a\": [1, 2}"), ParseError::MissingArrayBrace);
    assert_eq!(error_of("{\"a\": [[1, 2]}"), ParseError::MissingArrayBrace);
}

#[test]
fn first_failure_is_the_one_reported() {
    assert_eq!(error_of("{\"a\": {\"b\": [ }}"), ParseError::MissingArrayBrace);
    assert_eq!(error_of("{\"a\": [ {\"b\": [ } ]}"), ParseError::MissingArrayBrace);
}

#[test]
fn malformed_number_fails_the_parse() {
    assert_eq!(error_of("{\"a\": 1.2.3}"), ParseError::InvalidType);
    assert_eq!(error_of("{\"a\": trux}"), ParseError::InvalidType);
}

#[test]
fn value_without_any_key_is_an_error() {
    assert_eq!(error_of("{ : \"x\" }"), ParseError::Error);
    assert_eq!(error_of("{ {} }"), ParseError::Error);
    assert_eq!(error_of("{ [1] }"), ParseError::Error);
}

#[test]
fn primitive_without_any_key_is_passed_over() {
    let tree = parse_json("{ 5, true, null }").unwrap();
    assert_eq!(tree.entries.len(), 1);
    assert_eq!(tree.keys.len(), 0);
    match &tree.entries[0].entry_type {
        EntryType::JSONObject(members) => assert_eq!(members.len(), 0),
        _ => panic!("Should be object"),
    }
}

#[test]
fn later_member_of_the_same_name_replaces_the_earlier() {
    let tree = parse_json("{\"a\": 1, \"b\": 2, \"a\": 3}").unwrap();
    assert_eq!(tree.entries.len(), 4);
    assert_eq!(tree.keys.len(), 3);
    let res = tree.value_at(&[PathType::Object("a")]);
    assert_eq!(res.len(), 1);
    assert_eq!(int_of(res[0]), 3);
    assert_eq!(res[0].key, Some(2));
    let all = tree.value_at(&[PathType::Wildcard]);
    assert_eq!(indices_of(&tree, &all), vec![2, 1]);
    let keys = tree.keys_at(&[]);
    assert_eq!(keys.len(), 2);
    assert_eq!(keys[0].range.start.idx, 18);
    assert_eq!(keys[1].name, "b");
}

#[test]
fn grammar_is_lenient() {
    // Two keys in a row: the second is the one in use.
    let tree = parse_json("{\"a\" \"b\": 1}").unwrap();
    assert_eq!(tree.keys.len(), 2);
    assert_eq!(int_of(tree.value_at(&[PathType::Object("b")])[0]), 1);
    assert_eq!(tree.value_at(&[PathType::Object("a")]).len(), 0);
    // A value where a key was expected is stored under the key in use.
    let tree = parse_json("{\"a\": 1, 2}").unwrap();
    assert_eq!(int_of(tree.value_at(&[PathType::Object("a")])[0]), 2);
    // Without a comma the next string is still a value.
    let tree = parse_json("{\"a\": {} \"b\"}").unwrap();
    let res = tree.value_at(&[PathType::Object("a")]);
    match &res[0].entry_type {
        EntryType::String(text) => assert_eq!(text, "b"),
        _ => panic!("Should be string"),
    }
    // Commas in an array are not needed.
    let tree = parse_json("{\"a\": [1 2 : 3]}").unwrap();
    assert_eq!(tree.value_at(&[PathType::Object("a"), PathType::Wildcard]).len(), 3);
}

#[test]
fn comments_do_not_change_what_is_built() {
    let plain = "{\"a\":{},\"b\":[1,2]}";
    let noted = "// head\n{\"a\": // first member\n{},\"b\":[1 // one\n ,2]} // tail";
    let plain_tree = parse_json(plain).unwrap();
    let noted_tree = parse_json(noted).unwrap();
    assert_eq!(plain_tree.entries.len(), noted_tree.entries.len());
    assert_eq!(plain_tree.keys.len(), 2);
    assert_eq!(noted_tree.keys.len(), 2);
    let steps = [PathType::RecursiveWildcard];
    let a = plain_tree.value_at(&steps);
    let b = noted_tree.value_at(&steps);
    assert_eq!(indices_of(&plain_tree, &a), indices_of(&noted_tree, &b));
    assert_eq!(indices_of(&plain_tree, &a), vec![4, 0, 3, 1, 2]);
    for (x, y) in plain_tree.entries.iter().zip(noted_tree.entries.iter()) {
        assert_eq!(x.key, y.key);
        assert_eq!(
            std::mem::discriminant(&x.entry_type),
            std::mem::discriminant(&y.entry_type)
        );
    }
}

#[test]
fn comment_that_is_blanked_out_leaves_the_same_tree() {
    let noted = "{ // one\n \"a\": [ // two\n 1, 2 ] }";
    let blank = "{       \n \"a\": [       \n 1, 2 ] }";
    let noted_tree = parse_json(noted).unwrap();
    let blank_tree = parse_json(blank).unwrap();
    assert_eq!(format!("{:?}", noted_tree), format!("{:?}", blank_tree));
    assert_eq!(noted_tree.entries.len(), 4);
}

#[test]
fn strip_comments_keeps_every_other_token() {
    let tokens = tokenize("{ // one\n \"a\": 1 // two\n }").unwrap();
    assert_eq!(tokens.len(), 7);
    let kept = strip_comments(tokens);
    assert_eq!(kept.len(), 5);
    assert!(matches!(kept[0], TokenType::ObjectOpen(_)));
    assert!(matches!(kept[1], TokenType::String(_, _)));
    assert!(matches!(kept[2], TokenType::Colon));
    assert!(matches!(kept[3], TokenType::Int(_, 1)));
    assert!(matches!(kept[4], TokenType::ObjectClose(_)));
    let tree = parse_tokens(&kept).unwrap();
    assert_eq!(tree.entries.len(), 2);
}

#[test]
fn builder_passes_over_comments_between_tokens() {
    let tokens = tokenize("{ \"a\": // note\n 1 }").unwrap();
    assert_eq!(tokens.len(), 6);
    let tree = parse_tokens(&tokens).unwrap();
    assert_eq!(int_of(tree.value_at(&[PathType::Object("a")])[0]), 1);
}

#[test]
fn brackets_are_paired_by_kind() {
    let tokens = tokenize("{ [ { } ] } ] [").unwrap();
    let pairs = pre_calculate_positions(&tokens);
    assert_eq!(pairs.len(), 3);
    assert_eq!(pairs.get(&0), Some(&5));
    assert_eq!(pairs.get(&1), Some(&4));
    assert_eq!(pairs.get(&2), Some(&3));
    assert_eq!(pairs.get(&7), None);
    // Braces and square brackets do not see each other.
    let tokens = tokenize("{ [ } ]").unwrap();
    let pairs = pre_calculate_positions(&tokens);
    assert_eq!(pairs.get(&0), Some(&2));
    assert_eq!(pairs.get(&1), Some(&3));
}

#[test]
fn crossing_brackets_do_not_stop_the_builder() {
    let tree = parse_json("{ \"k\": [ { ] } }").unwrap();
    assert_eq!(tree.entries.len(), 3);
    let res = tree.value_at(&[PathType::Object("k"), PathType::Array(0)]);
    assert_eq!(res.len(), 1);
    match &res[0].entry_type {
        EntryType::JSONObject(members) => assert_eq!(members.len(), 0),
        _ => panic!("Should be object"),
    }
}

#[test]
fn root_range_falls_back_to_the_origin() {
    // The first brace has a closer, but the last token is not a brace.
    let tree = parse_json("{ \"a\": 1 } ,").unwrap();
    let root = tree.entries.last().unwrap();
    assert_eq!(root.range.start.idx, 0);
    let origin = Position::new(0, 0, 0);
    assert_eq!(root.range.end, origin);
    assert_eq!(Range::new(origin, origin), Range { start: origin, end: origin });
    // The closer of the first brace is passed over like any stray token.
    assert_eq!(tree.value_at(&[PathType::Object("a")]).len(), 1);
}

#[test]
fn tree_made_by_hand_is_read_as_far_as_it_points_back() {
    let origin = Position::new(0, 0, 0);
    let range = Range::new(origin, origin);
    let tree = Tree {
        entries: vec![
            Entry { key: None, range, entry_type: EntryType::Int(7) },
            Entry { key: None, range, entry_type: EntryType::JSONArray(vec![0, 1, 9, 0]) },
        ],
        keys: vec![],
    };
    let res = tree.value_at(&[PathType::Wildcard]);
    assert_eq!(indices_of(&tree, &res), vec![0, 0]);
    let res = tree.value_at(&[PathType::RecursiveWildcard]);
    assert_eq!(indices_of(&tree, &res), vec![1, 0, 0]);
    assert_eq!(tree.value_at(&[PathType::Array(1)]).len(), 0);
    assert_eq!(int_of(tree.value_at(&[PathType::Array(3)])[0]), 7);
}

fn without_ranges(tree: &Tree) -> (Vec<String>, Vec<String>) {
    let entries = tree
        .entries
        .iter()
        .map(|entry| format!("{:?} {:?}", entry.key, entry.entry_type))
        .collect();
    let keys = tree.keys.iter().map(|key| key.name.clone()).collect();
    (entries, keys)
}

#[test]
fn comment_line_changes_nothing_but_ranges() {
    let before = "{\"a\": [1, 2.5, \"x\"],\n ";
    let after = "\"b\": {\"c\": null, \"d\": true}}";
    let plain = format!("{}{}", before, after);
    let noted = format!("{}// a note with \"quotes\" and {{braces}}\n{}", before, after);
    let plain_tree = parse_json(&plain).unwrap();
    let noted_tree = parse_json(&noted).unwrap();
    assert_eq!(without_ranges(&plain_tree), without_ranges(&noted_tree));
    assert_eq!(plain_tree.entries.len(), 8);
    assert_eq!(plain_tree.keys.len(), 4);
    let paths: Vec<Vec<PathType>> = vec![
        vec![],
        vec![PathType::Wildcard],
        vec![PathType::RecursiveWildcard],
        vec![PathType::Object("b"), PathType::Wildcard],
        vec![PathType::Object("a"), PathType::Array(1)],
        vec![PathType::RecursiveWildcard, PathType::Object("d")],
    ];
    let expected: Vec<Vec<usize>> = vec![
        vec![7],
        vec![3, 6],
        vec![7, 3, 6, 0, 1, 2, 4, 5],
        vec![4, 5],
        vec![1],
        vec![5],
    ];
    for (path, indices) in paths.iter().zip(expected.iter()) {
        let a = plain_tree.value_at(path);
        let b = noted_tree.value_at(path);
        assert_eq!(&indices_of(&plain_tree, &a), indices);
        assert_eq!(&indices_of(&noted_tree, &b), indices);
        let plain_keys: Vec<&str> =
            plain_tree.keys_at(path).iter().map(|k| k.name.as_str()).collect();
        let noted_keys: Vec<&str> =
            noted_tree.keys_at(path).iter().map(|k| k.name.as_str()).collect();
        assert_eq!(plain_keys, noted_keys);
    }
    // The ranges behind the comment do change.
    let b = plain_tree.value_at(&[PathType::Object("b")])[0].range;
    let shifted = noted_tree.value_at(&[PathType::Object("b")])[0].range;
    assert_eq!(b.start.line + 1, shifted.start.line);
    assert_eq!(b.start.idx + 37, shifted.start.idx);
}

#[test]
fn entry_ranges_slice_the_text() {
    let text = "// head\n{ \"name\": \"x y\", \"n\": [1, 22.5, null], // note\n  \"o\": { \"t\": true } }\n";
    let chars: Vec<char> = text.chars().collect();
    let slice = |range: Range| -> String { chars[range.start.idx..range.end.idx].iter().collect() };
    let tree = parse_json(text).unwrap();
    assert_eq!(tree.entries.len(), 8);
    for entry in tree.entries.iter() {
        let found = slice(entry.range);
        match &entry.entry_type {
            EntryType::JSONObject(_) => {
                assert!(found.starts_with('{') && found.ends_with('}'));
            }
            EntryType::JSONArray(_) => {
                assert_eq!(found, "[1, 22.5, null]");
            }
            EntryType::String(s) => assert_eq!(&found, s),
            EntryType::Float(s) => assert_eq!(&found, s),
            EntryType::Int(v) => assert_eq!(found, v.to_string()),
            EntryType::Bool(v) => assert_eq!(found, v.to_string()),
            EntryType::Null => assert_eq!(found, "null"),
        }
    }
    assert_eq!(tree.keys.len(), 4);
    for key in tree.keys.iter() {
        assert_eq!(slice(key.range), key.name);
        assert_eq!(chars[key.range.start.idx - 1], '"');
        assert_eq!(chars[key.range.end.idx], '"');
    }
    let root = tree.entries.last().unwrap();
    assert_eq!(slice(root.range), text[8..text.len() - 1]);
    assert_eq!((root.range.start.line, root.range.end.line), (1, 2));
}

fn written(tree: &Tree, index: usize) -> String {
    match &tree.entries[index].entry_type {
        EntryType::JSONObject(members) => {
            let fields: Vec<String> = members
                .iter()
                .map(|m| format!("\"{}\":{}", m.name, written(tree, m.value)))
                .collect();
            format!("{{{}}}", fields.join(","))
        }
        EntryType::JSONArray(items) => {
            let elements: Vec<String> = items.iter().map(|i| written(tree, *i)).collect();
            format!("[{}]", elements.join(","))
        }
        EntryType::String(text) => format!("\"{}\"", text),
        EntryType::Float(text) => text.clone(),
        EntryType::Int(value) => value.to_string(),
        EntryType::Bool(value) => value.to_string(),
        EntryType::Null => "null".to_owned(),
    }
}

#[test]
fn tree_stands_for_the_document() {
    let compact = "{\"a\":{},\"b\":{\"c\":[true,{\"e\":42},[],\"x\\\"y\"],\"d\":1.25},\"n\":null,\"f\":false}";
    let tree = parse_json(compact).unwrap();
    assert_eq!(written(&tree, tree.entries.len() - 1), compact);
    let spaced = "{ \"a\" : { } ,\n \"b\" : { \"c\" : [ true , { \"e\" : 42 } , [ ] , \"x\\\"y\" ] ,\n\t\"d\" : 1.25 } , // note\n \"n\" : null , \"f\" : false }\n";
    let tree = parse_json(spaced).unwrap();
    assert_eq!(written(&tree, tree.entries.len() - 1), compact);
}

#[test]
fn comment_at_the_end_needs_no_newline() {
    let plain = parse_json("{\"a\": 1}").unwrap();
    let noted = parse_json("{\"a\": 1}// done").unwrap();
    assert_eq!(format!("{:?}", plain), format!("{:?}", noted));
}
