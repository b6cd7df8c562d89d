use scon::calendar::epoch_days_to_ymd;
use scon::json::{json_escape, tape_to_json_string};
use scon::tape::{Node, Tape, TapeDecoder};
use scon::tree::{php_index_key, tape_tree, TreeNode};
use scon::{SconMap, Value};

fn key(k: &str) -> Node {
    Node::Key(k.to_string())
}

#[test]
fn tape_of_a_flat_object() {
    let mut d = TapeDecoder::new();
    let t = d.decode("a: 1\nb: x").unwrap();
    assert_eq!(
        t.nodes,
        vec![Node::Object(2), key("a"), Node::Integer(1), key("b"), Node::String("x".to_string())]
    );
    assert_eq!(t.len(), 5);
    assert!(!t.is_empty());
}

#[test]
fn tape_of_arrays() {
    let mut d = TapeDecoder::new();
    let t = d.decode("t[2]: 1, 2\nrows[2]{a,b}:\n 1, x\n 2, y").unwrap();
    assert_eq!(
        t.nodes,
        vec![
            Node::Object(2),
            key("t"),
            Node::Array(2),
            Node::Integer(1),
            Node::Integer(2),
            key("rows"),
            Node::Array(2),
            Node::Object(2),
            key("a"),
            Node::Integer(1),
            key("b"),
            Node::String("x".to_string()),
            Node::Object(2),
            key("a"),
            Node::Integer(2),
            key("b"),
            Node::String("y".to_string()),
        ]
    );
}

#[test]
fn tape_of_nested_object_and_primitives() {
    let mut d = TapeDecoder::new();
    let t = d.decode("o:\n  k: true\n  f: 0.5\nn: null").unwrap();
    assert_eq!(
        t.nodes,
        vec![
            Node::Object(2),
            key("o"),
            Node::Object(2),
            key("k"),
            Node::Bool(true),
            key("f"),
            Node::Float("0.5".to_string()),
            key("n"),
            Node::Null,
        ]
    );
}

#[test]
fn tape_of_minified_text_keeps_shape_only() {
    let mut d = TapeDecoder::default();
    let t = d.decode("a: 1;b: 2").unwrap();
    // the minified path goes through the owned decoder and keeps no key or string text
    assert_eq!(t.nodes, vec![Node::Object(2), key(""), Node::Integer(1), key(""), Node::Integer(2)]);
}

#[test]
fn tape_decoder_reports_errors() {
    let mut d = TapeDecoder::new();
    assert_eq!(d.decode("\"a\" : 1").err(), Some("Missing colon after key".to_string()));
}

#[test]
fn tape_of_empty_text_is_an_empty_object() {
    let mut d = TapeDecoder::new();
    let t = d.decode("").unwrap();
    assert_eq!(t.nodes, vec![Node::Object(0)]);
}

#[test]
fn json_of_a_tape() {
    let mut d = TapeDecoder::new();
    let t = d.decode("a: 1\nb: \"q\\\"t\"\nc[2]: true, null\nd: 2.5").unwrap();
    let mut buf = String::new();
    let mut pos = 0usize;
    tape_to_json_string(&t.nodes, &mut pos, &mut buf);
    // a quoted string stays as written between its quotes, escapes included
    assert_eq!(buf, "{\"a\":1,\"b\":\"q\\\\\\\"t\",\"c\":[true,null],\"d\":2.5}");
    assert_eq!(pos, t.nodes.len());
}

#[test]
fn json_of_a_truncated_tape_fills_with_null() {
    let nodes = vec![Node::Array(2), Node::Integer(1)];
    let mut buf = String::new();
    let mut pos = 0usize;
    tape_to_json_string(&nodes, &mut pos, &mut buf);
    assert_eq!(buf, "[1,null]");
}

#[test]
fn json_escape_of_control_characters() {
    let mut buf = String::new();
    json_escape("a\"b\\c\nd\re\tf\u{8}g\u{c}h\u{1}i\u{1f}", &mut buf);
    assert_eq!(buf, "a\\\"b\\\\c\\nd\\re\\tf\\bg\\fh\\u0001i\\u001f");
}

#[test]
fn tree_of_a_tape() {
    let t = Tape {
        nodes: vec![
            Node::Object(2),
            key("a"),
            Node::Array(2),
            Node::Integer(1),
            Node::Float("1.5".to_string()),
            key("b"),
            Node::String("s".to_string()),
        ],
    };
    let mut pos = 0usize;
    let tree = tape_tree(&t.nodes, &mut pos);
    assert_eq!(
        tree,
        TreeNode::Object(vec![
            ("a".to_string(), TreeNode::Array(vec![TreeNode::Integer(1), TreeNode::Float("1.5".to_string())])),
            ("b".to_string(), TreeNode::String("s".to_string())),
        ])
    );
    assert_eq!(pos, 7);
}

#[test]
fn tree_of_a_stray_key_is_null() {
    let nodes = vec![key("a")];
    let mut pos = 0usize;
    assert_eq!(tape_tree(&nodes, &mut pos), TreeNode::Null);
    assert_eq!(pos, 1);
}

#[test]
fn php_index_keys() {
    assert_eq!(php_index_key("0"), Some(0));
    assert_eq!(php_index_key("42"), Some(42));
    assert_eq!(php_index_key("18446744073709551615"), Some(u64::MAX));
    assert_eq!(php_index_key("18446744073709551616"), None);
    assert_eq!(php_index_key("+7"), Some(7));
    assert_eq!(php_index_key("-1"), None);
    assert_eq!(php_index_key("a1"), None);
    assert_eq!(php_index_key(""), None);
}

#[test]
fn calendar_dates() {
    assert_eq!(epoch_days_to_ymd(0), (1970, 1, 1));
    assert_eq!(epoch_days_to_ymd(19723), (2024, 1, 1));
    assert_eq!(epoch_days_to_ymd(11016), (2000, 2, 29));
    assert_eq!(epoch_days_to_ymd(-1), (1969, 12, 31));
    assert_eq!(epoch_days_to_ymd(-719468), (0, 3, 1));
}

#[test]
fn scon_map_keeps_insertion_order_and_replaces_in_place() {
    let mut m = SconMap::new();
    assert!(m.is_empty());
    m.insert("b".to_string(), Value::Integer(1));
    m.insert("a".to_string(), Value::Integer(2));
    m.insert("b".to_string(), Value::Integer(3));
    assert_eq!(m.len(), 2);
    assert_eq!(m.index_of("b"), Some(0));
    assert_eq!(m.index_of("a"), Some(1));
    assert_eq!(m.index_of("c"), None);
    assert_eq!(m.get("b"), Some(&Value::Integer(3)));
    assert_eq!(m.get("zz"), None);
    assert_eq!(m.entry(1).0, "a");
}

#[test]
fn primitives_are_not_containers() {
    assert!(Value::Null.is_primitive());
    assert!(Value::Float("1.0".to_string()).is_primitive());
    assert!(!Value::Array(vec![]).is_primitive());
    assert!(!Value::Object(SconMap::new()).is_primitive());
}

#[test]
fn decoded_tapes_are_never_empty() {
    let mut d = TapeDecoder::new();
    let t = d.decode("").unwrap();
    assert_eq!(t.nodes, vec![Node::Object(0)]);
    assert_eq!(t.len(), 1);
    assert!(!t.is_empty());
    let u = d.decode("a: 1").unwrap();
    assert!(!u.is_empty());
}
