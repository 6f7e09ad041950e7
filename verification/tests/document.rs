use cuebasic::from_str;
use cuebasic::lex;
use cuebasic::merge;
use cuebasic::merge_reporting;
use cuebasic::Discarded;
use cuebasic::parse;
use cuebasic::parse::ParseErrorKind;
use cuebasic::Error;
use cuebasic::Integer;
use cuebasic::Json;
use cuebasic::MergeError;
use cuebasic::Path;
use cuebasic::PathSegment;
use cuebasic::PathTarget;
use cuebasic::Value;

fn to_json(value: &serde_json::Value) -> Json {
    match value {
        serde_json::Value::Null => Json::Null,
        serde_json::Value::Bool(b) => Json::Bool(*b),
        serde_json::Value::Number(n) => Json::Number(n.to_string()),
        serde_json::Value::String(s) => Json::String(s.clone()),
        serde_json::Value::Array(items) => Json::Array(items.iter().map(to_json).collect()),
        serde_json::Value::Object(members) => {
            Json::Object(members.iter().map(|(k, v)| (k.clone(), to_json(v))).collect())
        }
    }
}

fn json_object(members: Vec<(&str, serde_json::Value)>) -> serde_json::Value {
    let mut map = serde_json::Map::new();
    for (key, value) in members {
        map.insert(key.to_string(), value);
    }
    serde_json::Value::Object(map)
}

fn whole(text: &str) -> Integer {
    cuebasic::decode::from_decimal(text).unwrap()
}

fn key(name: &str) -> PathSegment {
    PathSegment::Object(name.to_string())
}

fn strictly(source: &str) -> Result<Value, Error> {
    let tokens = lex(source).map_err(Error::Lex)?;
    let entries = parse(tokens).map_err(Error::Parse)?;
    merge(entries, true).map_err(Error::Merge)
}

fn leniently(source: &str) -> Result<Value, Error> {
    let tokens = lex(source).map_err(Error::Lex)?;
    let entries = parse(tokens).map_err(Error::Parse)?;
    merge(entries, false).map_err(Error::Merge)
}

fn entries(source: &str) -> Vec<(Path, PathTarget)> {
    parse(lex(source).unwrap()).unwrap()
}

#[test]
fn empty() {
    let first = json_object(vec![("", serde_json::Value::String(String::new()))]);
    assert!(from_str("'':''").unwrap().eq_json(&to_json(&first)));
    let second = json_object(vec![("", serde_json::Value::Number(2.into()))]);
    assert!(from_str("''\n:2\n").unwrap().eq_json(&to_json(&second)));
}

#[test]
fn empty_key_values() {
    assert_eq!(
        from_str("'':''").unwrap(),
        Value::Object(vec![(String::new(), Value::String(String::new()))])
    );
    assert_eq!(
        from_str("''\n:2\n").unwrap(),
        Value::Object(vec![(String::new(), Value::Int(whole("2")))])
    );
}

#[test]
fn same_value_twice_is_one_member() {
    let value = strictly("a: 1\na: 1\n").unwrap();
    assert_eq!(value, Value::Object(vec![("a".to_string(), Value::Int(whole("1")))]));
    assert_eq!(value.to_text(), "{\"a\":1}");
}

#[test]
fn same_root_value_twice() {
    assert_eq!(strictly("5\n5\n").unwrap(), Value::Int(whole("5")));
}

#[test]
fn strict_merge_refuses_two_values() {
    match strictly("a: 1\na: 2\n") {
        Err(Error::Merge(MergeError::ValueConflict { path, old, new })) => {
            assert_eq!(path, Path(vec![key("a")]));
            assert_eq!(old, Value::Int(whole("1")));
            assert_eq!(new, Value::Int(whole("2")));
        }
        other => panic!("{other:?}"),
    }
}

#[test]
fn lenient_merge_keeps_the_last_value() {
    let value = leniently("a: 1\na: 2\n").unwrap();
    assert_eq!(value, Value::Object(vec![("a".to_string(), Value::Int(whole("2")))]));
}

#[test]
fn from_str_is_strict() {
    match from_str("a: 1\na: 2\n") {
        Err(Error::Merge(MergeError::ValueConflict { path, old, new })) => {
            assert_eq!(path, Path(vec![key("a")]));
            assert_eq!(old, Value::Int(whole("1")));
            assert_eq!(new, Value::Int(whole("2")));
        }
        other => panic!("{other:?}"),
    }
    assert!(matches!(
        from_str("a: 1\na: b: 2\n"),
        Err(Error::Merge(MergeError::StructuralConflict { .. }))
    ));
    assert_eq!(from_str("a: 1\na: 1\n").unwrap(), strictly("a: 1\n").unwrap());
}

#[test]
fn lenient_merge_reports_what_it_threw_away() {
    let source = "a: 1\na: 2\nb: {c: 1}\nb: [true]\nd: 'x'\nd: 'x'\na: 3\n";
    let (value, discarded) = merge_reporting(entries(source), false).unwrap();
    assert_eq!(value.to_text(), "{\"a\":3,\"b\":[true],\"d\":\"x\"}");
    assert_eq!(
        discarded,
        vec![
            Discarded {
                path: Path(vec![key("a")]),
                old: Value::Int(whole("1")),
                new: Value::Int(whole("2")),
            },
            Discarded {
                path: Path(vec![key("b")]),
                old: Value::Object(vec![("c".to_string(), Value::Int(whole("1")))]),
                new: Value::Array(vec![]),
            },
            Discarded {
                path: Path(vec![key("a")]),
                old: Value::Int(whole("2")),
                new: Value::Int(whole("3")),
            },
        ]
    );
}

#[test]
fn lenient_merge_reports_a_discarded_root() {
    let (value, discarded) = merge_reporting(entries("5\na: 1\n"), false).unwrap();
    assert_eq!(value.to_text(), "{\"a\":1}");
    assert_eq!(
        discarded,
        vec![Discarded {
            path: Path(vec![]),
            old: Value::Int(whole("5")),
            new: Value::Object(vec![]),
        }]
    );
}

#[test]
fn strict_merge_reports_nothing() {
    let (value, discarded) = merge_reporting(entries("a: 1\na: 1\nb: [2]\n"), true).unwrap();
    assert_eq!(value.to_text(), "{\"a\":1,\"b\":[2]}");
    assert!(discarded.is_empty());
    assert!(merge_reporting(entries("a: 1\na: 2\n"), true).is_err());
    let (same, nothing) = merge_reporting(entries("a: 1\na: 1\nb: [2]\n"), false).unwrap();
    assert_eq!(same, value);
    assert!(nothing.is_empty());
}

#[test]
fn prefix_of_a_path() {
    let path = Path(vec![key("a"), PathSegment::Array(1), key("b")]);
    assert_eq!(path.prefix(0), Path(vec![]));
    assert_eq!(path.prefix(2), Path(vec![key("a"), PathSegment::Array(1)]));
    assert_eq!(path.prefix(3), path);
    assert_eq!(path.prefix(9), path);
}

#[test]
fn empty_containers() {
    assert_eq!(strictly("a: {}").unwrap().to_text(), "{\"a\":{}}");
    assert_eq!(strictly("a: []").unwrap().to_text(), "{\"a\":[]}");
    assert_eq!(
        strictly("a: {}").unwrap(),
        Value::Object(vec![("a".to_string(), Value::Object(vec![]))])
    );
    assert_eq!(
        strictly("a: []").unwrap(),
        Value::Object(vec![("a".to_string(), Value::Array(vec![]))])
    );
    assert_eq!(entries("a: {}"), vec![(Path(vec![key("a")]), PathTarget::EmptyObject)]);
    assert_eq!(entries("a: []"), vec![(Path(vec![key("a")]), PathTarget::EmptyArray)]);
}

#[test]
fn empty_document_is_the_empty_object() {
    assert_eq!(entries(""), vec![(Path(vec![]), PathTarget::EmptyObject)]);
    assert_eq!(strictly("").unwrap(), Value::Object(vec![]));
    assert_eq!(strictly("// nothing\n").unwrap().to_text(), "{}");
}

#[test]
fn array_indices_advance_by_commas() {
    assert_eq!(
        entries("a: [1,2,3]"),
        vec![
            (Path(vec![key("a"), PathSegment::Array(0)]), PathTarget::Int(whole("1"))),
            (Path(vec![key("a"), PathSegment::Array(1)]), PathTarget::Int(whole("2"))),
            (Path(vec![key("a"), PathSegment::Array(2)]), PathTarget::Int(whole("3"))),
        ]
    );
    assert_eq!(strictly("a: [1,2,3]").unwrap().to_text(), "{\"a\":[1,2,3]}");
}

#[test]
fn quoteless_and_quoted_keys_are_the_same_step() {
    assert_eq!(entries("foo: 1"), entries("\"foo\": 1"));
    assert_eq!(entries("foo: 1"), entries("'foo': 1"));
    assert_eq!(entries("foo: 1"), vec![(Path(vec![key("foo")]), PathTarget::Int(whole("1")))]);
}

#[test]
fn nested_scopes_give_full_paths() {
    let source = "a: {\n  b: 1\n  c: [true, null]\n}\nd: 'x'\n";
    assert_eq!(
        entries(source),
        vec![
            (Path(vec![key("a"), key("b")]), PathTarget::Int(whole("1"))),
            (Path(vec![key("a"), key("c"), PathSegment::Array(0)]), PathTarget::Bool(true)),
            (Path(vec![key("a"), key("c"), PathSegment::Array(1)]), PathTarget::Null),
            (Path(vec![key("d")]), PathTarget::String("x".to_string())),
        ]
    );
    assert_eq!(
        strictly(source).unwrap().to_text(),
        "{\"a\":{\"b\":1,\"c\":[true,null]},\"d\":\"x\"}"
    );
}

#[test]
fn keys_chain_without_braces() {
    assert_eq!(strictly("a: b: c: 1\n").unwrap().to_text(), "{\"a\":{\"b\":{\"c\":1}}}");
}

#[test]
fn objects_show_their_keys_in_order() {
    assert_eq!(strictly("b: 1\na: 2\nab: 3\n").unwrap().to_text(), "{\"a\":2,\"ab\":3,\"b\":1}");
}

#[test]
fn comment_ends_a_statement() {
    assert_eq!(strictly("a: 1 // one\nb: 2\n").unwrap().to_text(), "{\"a\":1,\"b\":2}");
}

#[test]
fn key_may_stand_on_the_line_before_its_colon() {
    assert_eq!(strictly("a\n: 1\n").unwrap().to_text(), "{\"a\":1}");
}

#[test]
fn null_is_taken_for_nothing_on_the_way() {
    assert_eq!(strictly("a: null\na: b: 1\n").unwrap().to_text(), "{\"a\":{\"b\":1}}");
}

#[test]
fn null_at_the_end_of_a_path_is_a_value() {
    assert!(matches!(
        strictly("a: null\na: 1\n"),
        Err(Error::Merge(MergeError::ValueConflict { .. }))
    ));
}

#[test]
fn strict_merge_refuses_a_scalar_on_the_way() {
    match strictly("a: 1\na: b: 2\n") {
        Err(Error::Merge(MergeError::StructuralConflict { path, depth, found })) => {
            assert_eq!(path, Path(vec![key("a"), key("b")]));
            assert_eq!(depth, 1);
            assert_eq!(found, Value::Int(whole("1")));
        }
        other => panic!("{other:?}"),
    }
    match strictly("a: 1\na: [2]\n") {
        Err(Error::Merge(MergeError::StructuralConflict { depth, .. })) => assert_eq!(depth, 1),
        other => panic!("{other:?}"),
    }
}

#[test]
fn lenient_merge_replaces_a_scalar_on_the_way() {
    assert_eq!(leniently("a: 1\na: b: 2\n").unwrap().to_text(), "{\"a\":{\"b\":2}}");
    assert_eq!(leniently("a: {b: 1}\na: [2]\n").unwrap().to_text(), "{\"a\":[2]}");
}

#[test]
fn index_beyond_the_end_is_an_error() {
    match leniently("a: [1,,2]") {
        Err(Error::Merge(MergeError::IndexOutOfBounds { path, depth, len })) => {
            assert_eq!(path, Path(vec![key("a"), PathSegment::Array(2)]));
            assert_eq!(depth, 1);
            assert_eq!(len, 1);
        }
        other => panic!("{other:?}"),
    }
}

#[test]
fn set_leaves_the_tree_alone_where_it_fails() {
    let mut tree = strictly("a: 1\n").unwrap();
    let path = Path(vec![key("a")]);
    assert!(tree.set(&path, Value::Int(whole("2")), true).is_err());
    assert_eq!(tree.to_text(), "{\"a\":1}");
    assert!(tree.set(&path, Value::Int(whole("2")), false).is_ok());
    assert_eq!(tree.to_text(), "{\"a\":2}");
    assert!(tree.set(&Path(vec![key("b"), PathSegment::Array(0)]), Value::Null, true).is_ok());
    assert_eq!(tree.to_text(), "{\"a\":2,\"b\":[null]}");
}

#[test]
fn set_at_the_root() {
    let mut tree = Value::Null;
    assert!(tree.set(&Path(vec![]), Value::Bool(true), true).is_ok());
    assert_eq!(tree, Value::Bool(true));
    assert!(tree.set(&Path(vec![]), Value::Bool(true), true).is_ok());
    assert!(tree.set(&Path(vec![]), Value::Bool(false), true).is_err());
    assert_eq!(tree, Value::Bool(true));
    assert!(tree.set(&Path(vec![]), Value::Bool(false), false).is_ok());
    assert_eq!(tree, Value::Bool(false));
}

#[test]
fn reference_is_kept_by_the_parser_and_dropped_by_the_merge() {
    let found = entries("a: \"x\".\"y\"\nb: 1\n");
    assert_eq!(
        found,
        vec![
            (Path(vec![key("a")]), PathTarget::Reference(Path(vec![key("x"), key("y")]))),
            (Path(vec![key("b")]), PathTarget::Int(whole("1"))),
        ]
    );
    assert_eq!(found[0].1.to_text(), "\"x\".\"y\"");
    assert_eq!(strictly("a: \"x\".\"y\"\nb: 1\n").unwrap().to_text(), "{\"b\":1}");
}

fn parse_error(source: &str) -> (usize, ParseErrorKind) {
    match parse(lex(source).unwrap()) {
        Err(e) => (e.at, e.kind),
        Ok(found) => panic!("{found:?}"),
    }
}

#[test]
fn parse_errors() {
    assert_eq!(parse_error("1 2"), (1, ParseErrorKind::TwoValues));
    assert_eq!(parse_error("1: 2"), (1, ParseErrorKind::BadKey));
    assert_eq!(parse_error(": 2"), (0, ParseErrorKind::BadKey));
    assert_eq!(parse_error("a: b\n"), (4, ParseErrorKind::BadValue));
    assert_eq!(parse_error("a: b, c"), (3, ParseErrorKind::BadValue));
    assert_eq!(parse_error("a . b"), (1, ParseErrorKind::BadReference));
    assert_eq!(parse_error("a: 'x' . 1\n"), (6, ParseErrorKind::BadReference));
    assert_eq!(parse_error("'x' . 'y': 1"), (3, ParseErrorKind::BadReference));
    assert_eq!(parse_error("}"), (0, ParseErrorKind::Unbalanced));
    assert_eq!(parse_error("a: [1}"), (4, ParseErrorKind::Unbalanced));
    assert_eq!(parse_error("a: {b: 1]"), (6, ParseErrorKind::Unbalanced));
    assert_eq!(parse_error("a: {"), (3, ParseErrorKind::Unclosed));
    assert_eq!(parse_error("a: [,]"), (4, ParseErrorKind::MissingItem));
}

#[test]
fn paths_and_targets_as_text() {
    let path = Path(vec![key("a"), PathSegment::Array(12), key("b c")]);
    assert_eq!(path.to_text(), "a/12/b c");
    assert_eq!(Path(vec![]).to_text(), "");
    assert_eq!(PathTarget::Null.to_text(), "null");
    assert_eq!(PathTarget::Bool(false).to_text(), "false");
    assert_eq!(PathTarget::Int(whole("-12")).to_text(), "-12");
    assert_eq!(PathTarget::String("x y".to_string()).to_text(), "\"x y\"");
    assert_eq!(PathTarget::EmptyArray.to_text(), "[]");
    assert_eq!(PathTarget::EmptyObject.to_text(), "{}");
}

#[test]
fn strings_are_shown_as_they_are() {
    assert_eq!(strictly("a: 'say \"hi\"'\n").unwrap().to_text(), "{\"a\":\"say \"hi\"\"}");
    assert_eq!(strictly("a: \"b\\\"c\"\n").unwrap().to_text(), "{\"a\":\"b\\\"c\"}");
}

#[test]
fn from_str_names_the_pass_that_failed() {
    assert!(matches!(from_str("a: é"), Err(Error::Lex(_))));
    assert!(matches!(from_str("1 2"), Err(Error::Parse(_))));
    assert!(matches!(from_str("a: [1,,2]"), Err(Error::Merge(_))));
}

#[test]
fn values_compare_by_what_they_hold() {
    let one = strictly("a: [1, 2.50, 'x']\nb: {c: null}\n").unwrap();
    let other = strictly("b: c: null\na: [0x1, 25e-1, \"x\"]\n").unwrap();
    assert!(one.equals(&other));
    assert_eq!(one, other);
    assert!(one.duplicate().equals(&one));
    assert!(!one.equals(&strictly("a: [1, 2.5, 'x']\nb: {c: false}\n").unwrap()));
    assert!(!one.equals(&strictly("a: [1, 2.5]\nb: {c: null}\n").unwrap()));
}
