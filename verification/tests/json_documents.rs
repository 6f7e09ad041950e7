use cuebasic::lex;
use cuebasic::merge;
use cuebasic::parse;
use cuebasic::Json;
use cuebasic::Value;

fn to_json(value: &serde_json::Value) -> Json {
    match value {
        serde_json::Value::Null => Json::Null,
        serde_json::Value::Bool(b) => Json::Bool(*b),
        serde_json::Value::Number(n) => Json::Number(n.to_string()),
        serde_json::Value::String(s) => Json::String(s.clone()),
        serde_json::Value::Array(items) => Json::Array(items.iter().map(to_json).collect()),
        serde_json::Value::Object(members) => {
            Json::Object(members.iter().map(|(k, v)| (k.clone(), to_json(v))).collect())
        }
    }
}

fn strictly(source: &str) -> Value {
    merge(parse(lex(source).unwrap()).unwrap(), true).unwrap()
}

fn reads_as_json(text: &str) {
    let document: serde_json::Value = serde_json::from_str(text).unwrap();
    let source = document.to_string();
    assert!(!source.contains('\\'));
    assert_eq!(to_json(&document).to_text(), source);
    let tree = strictly(&source);
    assert!(tree.eq_json(&to_json(&document)), "{source} read as {}", tree.to_text());
    assert_eq!(cuebasic::from_str(&source).unwrap(), tree);
}

#[test]
fn json_scalars() {
    reads_as_json("null");
    reads_as_json("true");
    reads_as_json("false");
    reads_as_json("0");
    reads_as_json("-0");
    reads_as_json("-12");
    reads_as_json("18446744073709551615");
    reads_as_json("1.5");
    reads_as_json("-0.001");
    reads_as_json("1e300");
    reads_as_json("1.25e-7");
    reads_as_json("100000.0");
    reads_as_json("\"\"");
    reads_as_json("\"it's\"");
    reads_as_json("\"a: [1, 2] // é\"");
}

#[test]
fn json_containers() {
    reads_as_json("{}");
    reads_as_json("[]");
    reads_as_json("[[]]");
    reads_as_json("[[],[]]");
    reads_as_json("[{}]");
    reads_as_json("{\"a\":{}}");
    reads_as_json("{\"a\":[]}");
    reads_as_json("[1,2,3]");
    reads_as_json("[[1],[2,[3,4]],[]]");
    reads_as_json("{\"b\":1,\"a\":{\"d\":[true,null],\"c\":\"x\"},\"\":0.5}");
    reads_as_json("[{\"a\":1,\"b\":2},{\"a\":3},{}]");
    reads_as_json("{\"a\":[{\"b\":[{\"c\":[]}]}]}");
}

#[test]
fn json_that_differs() {
    let tree = strictly("{\"a\":1,\"b\":[1,2]}");
    let same = to_json(&serde_json::from_str("{\"b\":[1,2],\"a\":1}").unwrap());
    assert!(tree.eq_json(&same));
    for other in [
        "{\"a\":1}",
        "{\"a\":1,\"b\":[1,2],\"c\":null}",
        "{\"a\":1,\"b\":[1,3]}",
        "{\"a\":1,\"b\":[1]}",
        "{\"a\":1.0,\"b\":[1,2]}",
        "{\"a\":\"1\",\"b\":[1,2]}",
        "{\"a\":1,\"c\":[1,2]}",
        "[1,2]",
        "null",
    ] {
        let other = to_json(&serde_json::from_str(other).unwrap());
        assert!(!tree.eq_json(&other));
    }
    let twice = Json::Object(vec![
        ("a".to_string(), Json::Number("1".to_string())),
        ("a".to_string(), Json::Number("1".to_string())),
    ]);
    assert!(!tree.eq_json(&twice));
}

#[test]
fn json_numbers_are_held_to_their_value() {
    let tree = strictly("a: 1.50\nb: 1_000\nc: 1e2\n");
    let document = Json::Object(vec![
        ("c".to_string(), Json::Number("100.0".to_string())),
        ("b".to_string(), Json::Number("1000".to_string())),
        ("a".to_string(), Json::Number("15e-1".to_string())),
    ]);
    assert!(tree.eq_json(&document));
}
