use json_repair_rs::{
    loads, repair_json, repair_json_with_options, to_json_string, JsonValue, Number, Object,
    RepairOptions,
};

fn text(t: &str) -> JsonValue {
    JsonValue::String(t.to_string())
}

fn integer(n: u64) -> JsonValue {
    JsonValue::Number(Number::PosInt(n))
}

fn list(items: Vec<JsonValue>) -> JsonValue {
    JsonValue::Array(items)
}

fn object(entries: Vec<(&str, JsonValue)>) -> JsonValue {
    let mut members = Object::new();
    for (key, value) in entries {
        members.insert(key.to_string(), value);
    }
    JsonValue::Object(members)
}

#[test]
fn repairs_valid_json_with_python_style_spacing() {
    assert_eq!(
        repair_json(r#"{"name":"John","age":30,"city":"New York"}"#).expect("repair"),
        r#"{"name": "John", "age": 30, "city": "New York"}"#
    );
    assert_eq!(
        repair_json(r#"{"key":"value☺"}"#).expect("repair"),
        r#"{"key": "value\u263a"}"#
    );
}

#[test]
fn repairs_objects_with_bare_keys_values_and_missing_delimiters() {
    assert_eq!(
        loads("{name: John, age: 30, city: New York").expect("loads"),
        object(vec![("name", text("John")), ("age", integer(30)), ("city", text("New York"))])
    );
    assert_eq!(
        repair_json("{'key': 'string', 'key2': false, \"key3\": null, \"key4\": unquoted}")
            .expect("repair"),
        r#"{"key": "string", "key2": false, "key3": null, "key4": "unquoted"}"#
    );
    assert_eq!(
        repair_json(r#"{"key": , "key2": "value2"}"#).expect("repair"),
        r#"{"key": "", "key2": "value2"}"#
    );
}

#[test]
fn repairs_arrays_comments_and_ellipsis() {
    assert_eq!(repair_json("[1, 2, 3,").expect("repair"), "[1, 2, 3]");
    assert_eq!(repair_json("[1, 2, 3, ...]").expect("repair"), "[1, 2, 3]");
    assert_eq!(
        repair_json(r#"{ "key": { "key2": "value2" // comment }, "key3": "value3" }"#)
            .expect("repair"),
        r#"{"key": {"key2": "value2"}, "key3": "value3"}"#
    );
    assert_eq!(
        repair_json(r#"[ "key":"value" ]"#).expect("repair"),
        r#"[{"key": "value"}]"#
    );
}

#[test]
fn repairs_arrays_with_missing_separators() {
    assert_eq!(loads("[1 2 3]").expect("loads"), list(vec![integer(1), integer(2), integer(3)]));
    assert_eq!(
        loads("[true false null]").expect("loads"),
        list(vec![JsonValue::Bool(true), JsonValue::Bool(false), JsonValue::Null])
    );
    assert_eq!(
        loads(r#"["a" "b" "c"]"#).expect("loads"),
        list(vec![text("a"), text("b"), text("c")])
    );
    assert_eq!(loads("[1 foo bar]").expect("loads"), list(vec![integer(1), text("foo bar")]));
    assert_eq!(loads("[New York]").expect("loads"), list(vec![text("New York")]));
    assert_eq!(
        loads("[10-20 abc]").expect("loads"),
        list(vec![text("10-20"), text("abc")])
    );
}

#[test]
fn repairs_quoted_object_values_with_missing_separator() {
    assert_eq!(
        loads(r#"{"a": "x" "b": "y"}"#).expect("loads"),
        object(vec![("a", text("x")), ("b", text("y"))])
    );
}

#[test]
fn repairs_numbers_and_python_literals() {
    assert_eq!(
        loads(r#"{"value": 82_461_110}"#).expect("loads"),
        object(vec![("value", integer(82461110))])
    );
    assert_eq!(
        loads(r#"{"key": .25}"#).expect("loads"),
        object(vec![("key", JsonValue::Number(Number::Float("0.25".to_string())))])
    );
    assert_eq!(
        loads(r#"{"key": 1/3}"#).expect("loads"),
        object(vec![("key", text("1/3"))])
    );
    assert_eq!(
        loads(r#"{"key": True, "n": None}"#).expect("loads"),
        object(vec![("key", JsonValue::Bool(true)), ("n", JsonValue::Null)])
    );
}

#[test]
fn repairs_parenthesized_values_and_fenced_json() {
    assert_eq!(loads("(1, 2)").expect("loads"), list(vec![integer(1), integer(2)]));
    assert_eq!(loads("(1)").expect("loads"), integer(1));
    assert_eq!(
        repair_json("Based on this: ```json { 'a': 'b' } ```").expect("repair"),
        r#"{"a": "b"}"#
    );
}

#[test]
fn supports_options_for_ascii_and_strict_duplicates() {
    let options = RepairOptions {
        ensure_ascii: false,
        ..RepairOptions::default()
    };
    assert_eq!(
        repair_json_with_options("{'test_chinese_ascii':'统一码'}", options).expect("repair"),
        r#"{"test_chinese_ascii": "统一码"}"#
    );

    let strict = RepairOptions {
        strict: true,
        skip_json_loads: false,
        ensure_ascii: true,
    };
    assert!(repair_json_with_options(r#"{"a": 1, "a": 2}"#, strict).is_err());
}

#[test]
fn treats_non_ascii_bare_tokens_as_strings_without_panicking() {
    assert_eq!(
        loads("{value: 统一码}").expect("loads"),
        object(vec![("value", text("统一码"))])
    );
}

#[test]
fn serializes_values_with_ascii_control() {
    assert_eq!(
        to_json_string(&object(vec![("emoji", text("☺"))]), true),
        r#"{"emoji": "\u263a"}"#
    );
    assert_eq!(
        to_json_string(&object(vec![("emoji", text("☺"))]), false),
        r#"{"emoji": "☺"}"#
    );
}

#[test]
fn repairs_upstream_representative_cases() {
    assert_eq!(
        repair_json(r#"{"key": """#).expect("repair"),
        r#"{"key": ""}"#
    );
    assert_eq!(
        repair_json(r#"{"employees":["John", "Anna","#).expect("repair"),
        r#"{"employees": ["John", "Anna"]}"#
    );
    assert_eq!(
        repair_json(r#"{"key1": {"key2": [1, 2, 3"#).expect("repair"),
        r#"{"key1": {"key2": [1, 2, 3]}}"#
    );
    assert_eq!(
        repair_json("{key:value,key2:value2}").expect("repair"),
        r#"{"key": "value", "key2": "value2"}"#
    );
    assert_eq!(
        repair_json("{'item1', 'item2', 'item3'}").expect("repair"),
        r#"["item1", "item2", "item3"]"#
    );
}

#[test]
fn repairs_markdown_and_prose_wrappers() {
    let raw = r#"
    **Decision**: bla, bla (some clarification):

    ```json
    {
      "key": "value"
    }
    ```
    "#;
    assert_eq!(repair_json(raw).expect("repair"), r#"{"key": "value"}"#);
}

#[test]
fn loads_repaired_values_for_programmatic_use() {
    assert_eq!(
        loads(r#"[{"key":"value"},{"key2": False,}]"#).expect("loads"),
        list(vec![
            object(vec![("key", text("value"))]),
            object(vec![("key2", JsonValue::Bool(false))]),
        ])
    );
}
