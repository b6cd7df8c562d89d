use scon::encoder::{escape_string, is_valid_unquoted_key};
use scon::parsed_quoting;
use scon::php_encoder::{PhpKey, PhpValue, ZvalEncoder};
use scon::script_encoder::JsEncoder;
use scon::{encode, encode_to, encode_with_indent, Encoder, SconMap, Value};

fn s(t: &str) -> Value {
    Value::String(t.to_string())
}

fn obj(entries: Vec<(&str, Value)>) -> Value {
    let mut m = SconMap::new();
    for (k, v) in entries {
        m.insert(k.to_string(), v);
    }
    Value::Object(m)
}

#[test]
fn encodes_flat_object() {
    let v = obj(vec![("name", s("Alice")), ("age", Value::Integer(30))]);
    assert_eq!(encode(&v), "name: Alice\nage: 30");
}

#[test]
fn encodes_every_primitive() {
    let v = obj(vec![
        ("n", Value::Null),
        ("t", Value::Bool(true)),
        ("f", Value::Bool(false)),
        ("i", Value::Integer(-42)),
        ("x", Value::Float("1.5".to_string())),
    ]);
    assert_eq!(encode(&v), "n: null\nt: true\nf: false\ni: -42\nx: 1.5");
}

#[test]
fn encodes_nested_object() {
    let v = obj(vec![("a", obj(vec![("b", Value::Integer(1)), ("c", s("x"))]))]);
    assert_eq!(encode(&v), "a:\n b: 1\n c: x");
}

#[test]
fn encodes_empty_containers() {
    assert_eq!(encode(&obj(vec![])), "{}");
    assert_eq!(encode(&Value::Array(vec![])), "[]");
    let v = obj(vec![("o", obj(vec![])), ("a", Value::Array(vec![]))]);
    assert_eq!(encode(&v), "o: {}\na: []");
}

#[test]
fn encodes_top_level_primitive() {
    assert_eq!(encode(&Value::Integer(7)), "7");
    assert_eq!(encode(&s("hello")), "hello");
    assert_eq!(encode(&Value::Null), "null");
}

#[test]
fn encodes_inline_array() {
    let v = obj(vec![("tags", Value::Array(vec![s("x"), s("y"), Value::Integer(3)]))]);
    assert_eq!(encode(&v), "tags[3]: x, y, 3");
    let top = Value::Array(vec![Value::Integer(1), Value::Integer(2)]);
    assert_eq!(encode(&top), "[2]: 1, 2");
}

#[test]
fn encodes_tabular_array() {
    let v = obj(vec![(
        "users",
        Value::Array(vec![
            obj(vec![("id", Value::Integer(1)), ("name", s("Alice"))]),
            obj(vec![("id", Value::Integer(2)), ("name", s("Bob"))]),
        ]),
    )]);
    assert_eq!(encode(&v), "users[2]{id,name}:\n 1, Alice\n 2, Bob");
}

#[test]
fn tabular_rows_follow_the_first_row_key_order() {
    let v = Value::Array(vec![
        obj(vec![("a", Value::Integer(1)), ("b", Value::Integer(2))]),
        obj(vec![("b", Value::Integer(4)), ("a", Value::Integer(3))]),
    ]);
    assert_eq!(encode(&v), "[2]{a,b}:\n 1, 2\n 3, 4");
}

#[test]
fn encodes_expanded_array() {
    let v = obj(vec![(
        "items",
        Value::Array(vec![
            Value::Integer(1),
            obj(vec![("a", Value::Integer(1)), ("b", s("x"))]),
            Value::Array(vec![Value::Integer(5), Value::Integer(6)]),
            obj(vec![]),
            Value::Array(vec![]),
        ]),
    )]);
    assert_eq!(
        encode(&v),
        "items[5]:\n - 1\n - a: 1\n  b: x\n - [2]: 5, 6\n - {}\n - []"
    );
}

#[test]
fn encodes_list_item_whose_first_field_is_an_object() {
    let v = Value::Array(vec![
        Value::Integer(0),
        obj(vec![("o", obj(vec![("k", Value::Integer(1))])), ("z", Value::Integer(2))]),
    ]);
    assert_eq!(encode(&v), "[2]:\n - 0\n - o:\n   k: 1\n  z: 2");
}

#[test]
fn quotes_values_that_would_read_back_otherwise() {
    let v = obj(vec![
        ("a", s("true")),
        ("b", s("12abc")),
        ("c", s("a b")),
        ("d", s("")),
        ("e", s("x;y")),
        ("f", s("say \"hi\"")),
        ("g", s("a,b")),
    ]);
    assert_eq!(
        encode(&v),
        "a: \"true\"\nb: \"12abc\"\nc: \"a b\"\nd: \"\"\ne: \"x\\;y\"\nf: \"say \\\"hi\\\"\"\ng: \"a,b\""
    );
}

#[test]
fn quotes_keys_that_need_it() {
    let v = obj(vec![("a b", Value::Integer(1)), ("#c", Value::Integer(2)), ("", Value::Integer(3))]);
    assert_eq!(encode(&v), "\"a b\": 1\n\"#c\": 2\n\"\": 3");
}

#[test]
fn escape_string_escapes_the_six_characters() {
    let mut buf = String::from(">");
    escape_string("a\\b\"c\nd\re\tf;g", &mut buf);
    assert_eq!(buf, ">a\\\\b\\\"c\\nd\\re\\tf\\;g");
}

#[test]
fn unquoted_key_rules() {
    assert!(is_valid_unquoted_key("name"));
    assert!(is_valid_unquoted_key("a-b_c.d"));
    assert!(!is_valid_unquoted_key(""));
    assert!(!is_valid_unquoted_key("#x"));
    assert!(!is_valid_unquoted_key("a,b"));
    assert!(!is_valid_unquoted_key("a:b"));
    assert!(!is_valid_unquoted_key("a[0]"));
}

#[test]
fn encode_with_indent_uses_the_indent() {
    let v = obj(vec![("a", obj(vec![("b", Value::Integer(1))]))]);
    assert_eq!(encode_with_indent(&v, 2), "a:\n  b: 1");
    assert_eq!(encode_with_indent(&v, 0), "a:\n b: 1");
}

#[test]
fn encode_to_appends() {
    let mut buf = String::from("x: 0\n");
    encode_to(&obj(vec![("y", Value::Integer(1))]), &mut buf);
    assert_eq!(buf, "x: 0\ny: 1");
}

#[test]
fn encoder_with_delimiter() {
    let v = obj(vec![("t", Value::Array(vec![Value::Integer(1), s("a|b")]))]);
    let e = Encoder::new().with_delimiter('|');
    assert_eq!(e.encode(&v), "t[2]: 1| \"a|b\"");
}

#[test]
fn encoder_builders_combine() {
    let v = obj(vec![(
        "rows",
        Value::Array(vec![
            obj(vec![("a", Value::Integer(1)), ("b", Value::Integer(2))]),
            obj(vec![("a", Value::Integer(3)), ("b", Value::Integer(4))]),
        ]),
    )]);
    let e = Encoder::new().with_indent(4).with_delimiter('|');
    assert_eq!(e.encode(&v), "rows[2]{a|b}:\n    1| 2\n    3| 4");
}

#[test]
fn parsed_quoting_encoder_quotes_only_what_reads_as_another_value() {
    let e = parsed_quoting::Encoder::new();
    let v = obj(vec![
        ("a", s("12abc")),
        ("b", s("12")),
        ("c", s("-x")),
        ("d", s("1.5")),
        ("e", s("true")),
    ]);
    assert_eq!(e.encode(&v), "a: 12abc\nb: \"12\"\nc: -x\nd: \"1.5\"\ne: \"true\"");
}

#[test]
fn parsed_quoting_encoder_builders() {
    let e = parsed_quoting::Encoder::new().with_indent(2).with_delimiter('|');
    let v = obj(vec![("a", obj(vec![("t", Value::Array(vec![Value::Integer(1), Value::Integer(2)]))]))]);
    assert_eq!(e.encode(&v), "a:\n  t[2]: 1| 2");
}

#[test]
fn script_encoder_writes_objects_and_arrays() {
    let v = obj(vec![
        ("name", s("x")),
        ("list", Value::Array(vec![Value::Integer(1), Value::Integer(2)])),
        ("sub", obj(vec![("k", Value::Bool(true))])),
    ]);
    assert_eq!(JsEncoder::new(1).encode(&v), "name: x\nlist[2]: 1, 2\nsub:\n k: true");
}

#[test]
fn script_encoder_list_item_first_field_array() {
    let v = Value::Array(vec![
        Value::Integer(1),
        obj(vec![("deps", Value::Array(vec![s("a"), s("b")])), ("n", Value::Integer(2))]),
    ]);
    let out = JsEncoder::new(2).encode(&v);
    assert!(out.starts_with("[2]:\n  - 1\n  - deps[2]: a, b"));
}

fn php_obj(entries: Vec<(&str, PhpValue)>) -> PhpValue {
    PhpValue::Array(entries.into_iter().map(|(k, v)| (PhpKey::Name(k.to_string()), v)).collect())
}

fn php_list(items: Vec<PhpValue>) -> PhpValue {
    PhpValue::Array(items.into_iter().enumerate().map(|(i, v)| (PhpKey::Index(i as i64), v)).collect())
}

#[test]
fn php_encoder_writes_assoc_arrays_as_objects() {
    let v = php_obj(vec![("a", PhpValue::Long(1)), ("b", PhpValue::Str("x".to_string())), ("c", PhpValue::Null)]);
    assert_eq!(ZvalEncoder::new(1).encode(&v), "a: 1\nb: x\nc: null");
}

#[test]
fn php_encoder_writes_sequential_arrays_as_lists() {
    let v = php_list(vec![PhpValue::Long(1), PhpValue::Long(2)]);
    assert_eq!(ZvalEncoder::new(1).encode(&v), "[2]: 1, 2");
    let w = php_obj(vec![("tags", php_list(vec![PhpValue::Str("a".to_string()), PhpValue::Bool(false)]))]);
    assert_eq!(ZvalEncoder::new(1).encode(&w), "tags[2]: a, false");
}

#[test]
fn php_encoder_non_sequential_integer_keys_are_object_keys() {
    let v = PhpValue::Array(vec![(PhpKey::Index(1), PhpValue::Long(5)), (PhpKey::Index(0), PhpValue::Long(6))]);
    assert_eq!(ZvalEncoder::new(1).encode(&v), "1: 5\n0: 6");
}

#[test]
fn php_encoder_empty_and_tabular() {
    assert_eq!(ZvalEncoder::new(1).encode(&PhpValue::Array(vec![])), "[]");
    let rows = php_list(vec![
        php_obj(vec![("id", PhpValue::Long(1)), ("ok", PhpValue::Bool(true))]),
        php_obj(vec![("id", PhpValue::Long(2)), ("ok", PhpValue::Bool(false))]),
    ]);
    assert_eq!(ZvalEncoder::new(2).encode(&rows), "[2]{id,ok}:\n  1, true\n  2, false");
    assert_eq!(ZvalEncoder::new(1).encode(&PhpValue::Other), "null");
    assert_eq!(ZvalEncoder::new(1).encode(&PhpValue::Double("0.25".to_string())), "0.25");
}

#[test]
fn default_encoder_is_the_new_encoder() {
    let v = obj(vec![("a", Value::Integer(1)), ("b", Value::Array(vec![s("x"), s("y")]))]);
    assert_eq!(Encoder::default().encode(&v), Encoder::new().encode(&v));
}
