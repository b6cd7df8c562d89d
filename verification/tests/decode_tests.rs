use scon::decoder::Decoder;
use scon::{decode, encode, SconMap, Value};

fn s(t: &str) -> Value {
    Value::String(t.to_string())
}

fn obj(entries: Vec<(&str, Value)>) -> Value {
    let mut m = SconMap::new();
    for (k, v) in entries {
        m.insert(k.to_string(), v);
    }
    Value::Object(m)
}

#[test]
fn decodes_flat_object() {
    let v = decode("name: Alice\nage: 30").unwrap();
    assert_eq!(v, obj(vec![("name", s("Alice")), ("age", Value::Integer(30))]));
}

#[test]
fn decodes_primitives() {
    let v = decode("a: null\nb: true\nc: false\nd: -7\ne: 2.5\nf: \"x y\"\ng: 1e3\nh: 12abc").unwrap();
    assert_eq!(
        v,
        obj(vec![
            ("a", Value::Null),
            ("b", Value::Bool(true)),
            ("c", Value::Bool(false)),
            ("d", Value::Integer(-7)),
            ("e", Value::Float("2.5".to_string())),
            ("f", s("x y")),
            ("g", Value::Float("1e3".to_string())),
            ("h", s("12abc")),
        ])
    );
}

#[test]
fn decodes_integer_limits() {
    let v = decode("a: 9223372036854775807\nb: -9223372036854775808\nc: 9223372036854775808").unwrap();
    assert_eq!(
        v,
        obj(vec![
            ("a", Value::Integer(i64::MAX)),
            ("b", Value::Integer(i64::MIN)),
            ("c", Value::Float("9223372036854775808".to_string())),
        ])
    );
}

#[test]
fn decodes_nested_object() {
    let v = decode("a:\n  b: 1\n  c:\n    d: x\ne: 2").unwrap();
    assert_eq!(
        v,
        obj(vec![
            ("a", obj(vec![("b", Value::Integer(1)), ("c", obj(vec![("d", s("x"))]))])),
            ("e", Value::Integer(2)),
        ])
    );
}

#[test]
fn decodes_inline_array_and_inline_containers() {
    let v = decode("tags[3]: x, y, 3\ne: []\no: {}\ni: {k: 1, \"q\": [a, b]}").unwrap();
    assert_eq!(
        v,
        obj(vec![
            ("tags", Value::Array(vec![s("x"), s("y"), Value::Integer(3)])),
            ("e", Value::Array(vec![])),
            ("o", obj(vec![])),
            ("i", obj(vec![("k", Value::Integer(1)), ("q", Value::Array(vec![s("a"), s("b")]))])),
        ])
    );
}

#[test]
fn decodes_tabular_array() {
    let v = decode("users[3]{id, name, role}:\n 1, Alice, admin\n 2, Bob, editor\n 3, Carol, viewer").unwrap();
    let row = |id: i64, name: &str, role: &str| {
        obj(vec![("id", Value::Integer(id)), ("name", s(name)), ("role", s(role))])
    };
    assert_eq!(
        v,
        obj(vec![(
            "users",
            Value::Array(vec![row(1, "Alice", "admin"), row(2, "Bob", "editor"), row(3, "Carol", "viewer")])
        )])
    );
}

#[test]
fn tabular_rows_missing_fields_are_null() {
    let v = decode("[2]{a,b}:\n 1\n 2, 3").unwrap();
    assert_eq!(
        v,
        Value::Array(vec![
            obj(vec![("a", Value::Integer(1)), ("b", Value::Null)]),
            obj(vec![("a", Value::Integer(2)), ("b", Value::Integer(3))]),
        ])
    );
}

#[test]
fn decodes_expanded_array() {
    let v = decode("items[4]:\n - 1\n - a: 1\n  b: x\n - [2]: 5, 6\n - hello").unwrap();
    assert_eq!(
        v,
        obj(vec![(
            "items",
            Value::Array(vec![
                Value::Integer(1),
                obj(vec![("a", Value::Integer(1)), ("b", s("x"))]),
                Value::Array(vec![Value::Integer(5), Value::Integer(6)]),
                s("hello"),
            ])
        )])
    );
}

#[test]
fn decodes_list_without_header() {
    let v = decode("k:\n - 1\n - 2").unwrap();
    assert_eq!(v, obj(vec![("k", Value::Array(vec![Value::Integer(1), Value::Integer(2)]))]));
}

#[test]
fn decodes_pipe_and_tab_delimiters() {
    let v = decode("a[2|]: x|y\nb[2\t]: 1\t2").unwrap();
    assert_eq!(
        v,
        obj(vec![
            ("a", Value::Array(vec![s("x"), s("y")])),
            ("b", Value::Array(vec![Value::Integer(1), Value::Integer(2)])),
        ])
    );
}

#[test]
fn skips_comments_and_directives() {
    let v = decode("# note\n@@ dedup\na: 1\n\n@use x\nb: 2").unwrap();
    assert_eq!(v, obj(vec![("a", Value::Integer(1)), ("b", Value::Integer(2))]));
}

#[test]
fn decodes_empty_and_single_values() {
    assert_eq!(decode("").unwrap(), obj(vec![]));
    assert_eq!(decode("{}").unwrap(), obj(vec![]));
    assert_eq!(decode("42").unwrap(), Value::Integer(42));
    assert_eq!(decode("hello").unwrap(), s("hello"));
    assert_eq!(decode("[0]:").unwrap(), Value::Array(vec![]));
}

#[test]
fn later_duplicate_key_replaces_value_in_place() {
    let v = decode("a: 1\nb: 2\na: 3").unwrap();
    assert_eq!(v, obj(vec![("a", Value::Integer(3)), ("b", Value::Integer(2))]));
}

#[test]
fn decodes_quoted_keys_and_escapes() {
    let v = decode("\"a b\": \"x\\ny\\;z\\\"\"").unwrap();
    assert_eq!(v, obj(vec![("a b", s("x\ny;z\""))]));
}

#[test]
fn decodes_minified_text() {
    let v = decode("a: 1;b:;c: 2;;d: x").unwrap();
    assert_eq!(
        v,
        obj(vec![("a", Value::Integer(1)), ("b", obj(vec![("c", Value::Integer(2))])), ("d", s("x"))])
    );
}

#[test]
fn minified_quoted_semicolon_is_text() {
    let v = decode("a: \"x;y\";b: 2").unwrap();
    assert_eq!(v, obj(vec![("a", s("x;y")), ("b", Value::Integer(2))]));
}

#[test]
fn missing_colon_after_quoted_key_is_an_error() {
    assert_eq!(decode("\"a\" : 1"), Err("Missing colon after key".to_string()));
}

#[test]
fn unterminated_quoted_key_is_an_error() {
    assert_eq!(decode("items[1]:\n - \"abc: 1"), Err("Unterminated quoted key".to_string()));
}

#[test]
fn decoder_with_indent_counts_its_own_spaces() {
    let mut d = Decoder::new().with_indent(2);
    let v = d.decode("a:\n  b: 1\n  c: 2").unwrap();
    assert_eq!(v, obj(vec![("a", obj(vec![("b", Value::Integer(1)), ("c", Value::Integer(2))]))]));
}

#[test]
fn decoder_detects_indent() {
    let mut d = Decoder::new();
    let v = d.decode("a:\n    b: 1").unwrap();
    assert_eq!(v, obj(vec![("a", obj(vec![("b", Value::Integer(1))]))]));
}

#[test]
fn round_trip_of_a_document() {
    let v = obj(vec![
        ("name", s("svc")),
        ("port", Value::Integer(8080)),
        ("ratio", Value::Float("0.5".to_string())),
        ("on", Value::Bool(true)),
        ("none", Value::Null),
        ("quoted", s("a: b")),
        ("tags", Value::Array(vec![s("x"), s("y")])),
        (
            "rows",
            Value::Array(vec![
                obj(vec![("id", Value::Integer(1)), ("v", s("p"))]),
                obj(vec![("id", Value::Integer(2)), ("v", s("q"))]),
            ]),
        ),
        ("nested", obj(vec![("deep", obj(vec![("k", s("v"))]))])),
        (
            "mixed",
            Value::Array(vec![Value::Integer(1), obj(vec![("a", Value::Integer(1)), ("b", Value::Integer(2))])]),
        ),
    ]);
    let text = encode(&v);
    assert_eq!(decode(&text).unwrap(), v);
}

#[test]
fn round_trip_of_lists_of_objects() {
    let v = obj(vec![(
        "jobs",
        Value::Array(vec![
            obj(vec![
                ("s", s("first key may be s")),
                ("tags", Value::Array(vec![s("a"), s("b")])),
                (
                    "steps",
                    Value::Array(vec![
                        obj(vec![("id", Value::Integer(1))]),
                        obj(vec![("id", Value::Integer(2))]),
                    ]),
                ),
            ]),
            obj(vec![
                ("list", Value::Array(vec![Value::Integer(1), Value::Integer(2)])),
                ("more", Value::Array(vec![Value::Null, obj(vec![("x", Value::Bool(false))])])),
                ("inner", obj(vec![("k", s("v"))])),
            ]),
            Value::Integer(7),
            Value::Array(vec![]),
            obj(vec![]),
            Value::Array(vec![s("p"), s("q")]),
        ]),
    )]);
    let text = encode(&v);
    assert_eq!(decode(&text).unwrap(), v);
}

#[test]
fn round_trip_of_a_top_level_list() {
    let v = Value::Array(vec![
        obj(vec![("a", Value::Integer(1)), ("b", obj(vec![("c", s("d"))]))]),
        s("plain"),
    ]);
    let text = encode(&v);
    assert_eq!(decode(&text).unwrap(), v);
}

#[test]
fn inline_items_with_a_colon_read_back() {
    let v = obj(vec![("t", Value::Array(vec![s("a"), s("b:c")]))]);
    let text = encode(&v);
    assert_eq!(text, "t[2]: a, \"b:c\"");
    assert_eq!(decode(&text).unwrap(), v);
    assert_eq!(encode(&decode(&text).unwrap()), text);
}

#[test]
fn line_breaks_in_strings_are_quoted_and_read_back() {
    let v = obj(vec![("k", s("a\nb")), ("m", s("x\ry"))]);
    let text = encode(&v);
    assert_eq!(text, "k: \"a\\nb\"\nm: \"x\\ry\"");
    assert_eq!(decode(&text).unwrap(), v);
}

#[test]
fn escapes_after_non_ascii_characters_read_back() {
    let v = obj(vec![("k", s("é;")), ("é;\"", s("ü\\x"))]);
    let text = encode(&v);
    assert_eq!(decode(&text).unwrap(), v);
}


#[test]
fn kept_indent_does_not_change_later_results() {
    let mut d = Decoder::new();
    let _ = d.decode("a:\n    b: 1").unwrap();
    let text = "x: 1\ny: 2";
    assert_eq!(d.decode(text), Decoder::new().decode(text));
}

#[test]
fn keys_with_an_open_bracket_read_back() {
    let v = obj(vec![
        ("a[", Value::Integer(1)),
        ("b[", obj(vec![("c", Value::Integer(2))])),
        ("d[", s("x]")),
        ("e[", Value::Array(vec![])),
    ]);
    let text = encode(&v);
    assert_eq!(decode(&text).unwrap(), v);
}

#[test]
fn reencoding_a_decoded_document_gives_the_same_text() {
    let v = obj(vec![
        ("name", s("svc")),
        ("tags", Value::Array(vec![s("a"), s("b:c")])),
        ("rows", Value::Array(vec![obj(vec![("id", Value::Integer(1))]), obj(vec![("id", Value::Integer(2))])])),
        ("list", Value::Array(vec![obj(vec![("k", s("x"))]), Value::Integer(3)])),
    ]);
    let text = encode(&v);
    assert_eq!(encode(&decode(&text).unwrap()), text);
}

#[test]
fn a_first_field_object_of_a_list_item_does_not_read_back() {
    // The entries of such an object are written two levels below the `- `
    // line; the decoder reads the first field's object from the lines one
    // level below it, which are the item's other entries.
    let v = obj(vec![(
        "items",
        Value::Array(vec![obj(vec![("a", obj(vec![("b", Value::Integer(1))])), ("c", Value::Integer(2))])]),
    )]);
    let text = encode(&v);
    let back = obj(vec![(
        "items",
        Value::Array(vec![obj(vec![("a", obj(vec![("c", Value::Integer(2))])), ("c", Value::Integer(2))])]),
    )]);
    assert_eq!(decode(&text).unwrap(), back);
}

#[test]
fn table_rows_with_keys_in_another_order_read_back() {
    let v = obj(vec![(
        "rows",
        Value::Array(vec![
            obj(vec![("a", Value::Integer(1)), ("b", Value::Integer(2))]),
            obj(vec![("b", Value::Integer(3)), ("a", Value::Integer(4))]),
        ]),
    )]);
    let text = encode(&v);
    assert_eq!(text, "rows[2]{a,b}:\n 1, 2\n 4, 3");
    assert_eq!(decode(&text).unwrap(), v);
}

#[test]
fn top_level_parts_cover_the_text() {
    let t: Vec<char> = "a,[b,c],\"d,e\"".chars().collect();
    let parts = scon::syntax::split_top_level(&t, ',');
    assert_eq!(parts, vec![(0, 1), (2, 7), (8, 13)]);
}
