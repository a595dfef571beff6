use json_repair_rs::strict::strict_loads;
use json_repair_rs::{
    loads, loads_given, loads_with_options, repair_json, repair_json_with_options, JsonValue,
    Number, Object, RepairError, RepairOptions,
};

fn repaired(input: &str) -> String {
    let options = RepairOptions { skip_json_loads: true, strict: false, ensure_ascii: true };
    repair_json_with_options(input, options).expect("repair")
}

fn strict_options() -> RepairOptions {
    RepairOptions { strict: true, ..RepairOptions::default() }
}

fn refusal(input: &str) -> String {
    match repair_json_with_options(input, strict_options()) {
        Err(RepairError::Strict(reason)) => reason,
        other => panic!("{:?}", other),
    }
}

fn is_empty(input: &str) -> bool {
    matches!(repair_json(input), Err(RepairError::Empty))
}

#[test]
fn default_options_take_the_fast_path_leniently_and_in_ascii() {
    let options = RepairOptions::default();
    assert!(!options.skip_json_loads);
    assert!(!options.strict);
    assert!(options.ensure_ascii);
}

#[test]
fn documented_examples() {
    assert_eq!(
        repair_json("{name: 'Ada', ok: tru}").expect("repair"),
        r#"{"name": "Ada", "ok": true}"#
    );
    let one = JsonValue::Number(Number::PosInt(1));
    let two = JsonValue::Number(Number::PosInt(2));
    assert_eq!(loads("[1, 2, ...]").expect("loads"), JsonValue::Array(vec![one, two]));
    assert_eq!(
        repair_json("{name: 'Ada', skills: ['math' 'logic']}").expect("repair"),
        r#"{"name": "Ada", "skills": ["math", "logic"]}"#
    );
}

#[test]
fn prose_alone_has_no_value() {
    assert!(is_empty("not json"));
    assert!(is_empty("hello"));
    assert!(is_empty("# only a comment"));
    assert_eq!(
        RepairError::Empty.message(),
        "input did not contain a recoverable JSON value"
    );
}

#[test]
fn blank_text_has_no_value() {
    assert!(is_empty(""));
    assert!(is_empty(" \t\r\n\u{a0}\u{2003}\u{3000}"));
    assert!(matches!(
        repair_json_with_options("  ", strict_options()),
        Err(RepairError::Empty)
    ));
}

#[test]
fn the_empty_string_outside_any_value_stands_for_nothing() {
    assert!(matches!(
        loads_given(None, "\"\"", false),
        Err(RepairError::Empty)
    ));
    assert_eq!(repair_json("\"\"").expect("repair"), "\"\"");
}

#[test]
fn words_that_end_the_text_after_a_value_are_a_value() {
    assert_eq!(repaired("[] zzz"), r#"[[], "zzz"]"#);
    assert_eq!(repaired("{\"a\": 1} Hope this helps!"), r#"[{"a": 1}, "Hope this helps!"]"#);
    assert_eq!(refusal("[] zzz"), "multiple top-level JSON values found");
}

#[test]
fn prose_before_a_value_is_passed_over() {
    assert_eq!(repaired("Here you go: {\"a\": 1}"), r#"{"a": 1}"#);
    assert_eq!(repaired("(a note) {x: 1}"), r#"{"x": 1}"#);
    assert_eq!(repaired("```json\n[1]\n```"), "[1]");
}

#[test]
fn words_outside_any_value_can_be_literals() {
    assert_eq!(repaired("tru"), "true");
    assert_eq!(repaired("None"), "null");
    assert_eq!(repaired("Fals"), "false");
    assert_eq!(repaired("_5"), "5");
}

#[test]
fn objects_that_share_a_key_or_are_empty_become_one() {
    assert_eq!(repaired("{\"a\": 1}{\"a\": 2, \"b\": 3}"), r#"{"a": 2, "b": 3}"#);
    assert_eq!(repaired("{\"a\": 1}{}"), r#"{"a": 1}"#);
    assert_eq!(repaired("{}{\"a\": 1}"), r#"{"a": 1}"#);
    assert_eq!(repaired("{\"a\": 1}{\"b\": 2}"), r#"[{"a": 1}, {"b": 2}]"#);
}

#[test]
fn equal_neighbours_outside_any_value_become_one() {
    assert_eq!(repaired("[1][1]"), "[1]");
    assert_eq!(repaired("[1][2]"), "[[1], [2]]");
    assert_eq!(repaired("[{a: 1, b: 0.0}][{b: -0.0, a: 1}]"), r#"[{"b": -0.0, "a": 1}]"#);
    assert_eq!(repaired("[1][1.0]"), "[[1], [1.0]]");
}

#[test]
fn strict_mode_refuses_repeated_keys() {
    assert_eq!(refusal("{a: 1, a: 2}"), "duplicate key `a` found");
    assert_eq!(refusal("[{x: {a: 1, \"a\": 1}}]"), "duplicate key `a` found");
    assert_eq!(repaired("{a: 1, b: 2, a: 3}"), r#"{"a": 3, "b": 2}"#);
    match repair_json_with_options("{a: 1, a: 2}", strict_options()) {
        Err(error) => assert_eq!(
            error.message(),
            "strict repair rejected input: duplicate key `a` found"
        ),
        Ok(text) => panic!("{}", text),
    }
}

#[test]
fn strict_mode_refuses_several_values() {
    assert_eq!(refusal("[1][2]"), "multiple top-level JSON values found");
    assert_eq!(refusal("{\"a\": 1}{\"b\": 2}"), "multiple top-level JSON values found");
    assert_eq!(refusal("{\"a\": 1}{\"a\": 2}"), "multiple top-level JSON values found");
    assert_eq!(refusal("[1][1]"), "multiple top-level JSON values found");
}

#[test]
fn strict_mode_repairs_the_rest_alike() {
    for input in ["{a: 1, b: [2 3]", "```json\n{'k': tru}\n```", "(1, 2)", "{'x', 'y'}"] {
        assert_eq!(
            repair_json_with_options(input, strict_options()).expect("strict"),
            repaired(input)
        );
    }
}

#[test]
fn valid_json_takes_the_fast_path() {
    let input = "{\"a\": \"x \", \"a\": [1, 2.50, -0]}";
    assert_eq!(repair_json(input).expect("repair"), r#"{"a": [1, 2.5, -0.0]}"#);
    assert_eq!(repair_json("\"x \"").expect("repair"), "\"x \"");
    assert_eq!(repaired("\"x \""), "\"x\"");
    let value = loads_given(Some(JsonValue::Null), "[1]", true).expect("given");
    assert_eq!(value, JsonValue::Null);
}

#[test]
fn strict_mode_takes_valid_json_as_it_is() {
    for input in [
        "{\"a\": \"x]y\"}",
        "[\"a \", \"b}c\", {\"k\": \"`\", \"l\": [\" \"]}]",
        " {\"a\":{\"b\":1},\"b\":{\"a\":-0.5}} ",
        "\"\\ud83d\\ude00 \\\"\"",
        "18446744073709551616",
        "\"\"",
    ] {
        let strict = loads_with_options(input, strict_options()).expect("strict");
        assert_eq!(strict, loads(input).expect("loads"));
        assert_eq!(strict, strict_loads(input).expect("document"));
    }
    assert_eq!(
        repair_json_with_options("{\"a\": \"x]y\"}", strict_options()).expect("strict"),
        r#"{"a": "x]y"}"#
    );
    let skip = RepairOptions { skip_json_loads: true, ..strict_options() };
    assert!(matches!(
        repair_json_with_options("{\"a\": \"x]y\"}", skip),
        Err(RepairError::Strict(_))
    ));
}

#[test]
fn strict_mode_refuses_valid_json_that_repeats_a_key() {
    assert_eq!(refusal("{\"a\": \"x]y\", \"a\": 1}"), "duplicate key `a` found");
    assert_eq!(
        refusal("[{\"k\": {\"b\": 1, \"\\u0062\": 2}, \"k\": 3}]"),
        "duplicate key `b` found"
    );
    assert_eq!(refusal("{\"\": 1e9, \"\": -0}"), "duplicate key `` found");
    assert_eq!(
        repair_json("{\"a\": \"x]y\", \"b\": 0, \"a\": 1}").expect("repair"),
        r#"{"a": 1, "b": 0}"#
    );
}

#[test]
fn the_fast_path_can_be_skipped() {
    let skip = RepairOptions { skip_json_loads: true, ..RepairOptions::default() };
    let value = loads_with_options("[\"a \"]", skip).expect("loads");
    assert_eq!(value, JsonValue::Array(vec![JsonValue::String("a".to_string())]));
}

#[test]
fn sets_become_arrays() {
    assert_eq!(repaired("{'a', 'b'}"), r#"["a", "b"]"#);
    assert_eq!(repaired("{a}"), r#"["a"]"#);
    assert_eq!(repaired("{'a', 'b': 1}"), r#"["a", "b", "1"]"#);
    assert_eq!(repaired("{a, b: c}"), r#"["a", "b", "c"]"#);
}

#[test]
fn members_in_arrays_become_objects() {
    assert_eq!(repaired("[a: 1, b: 2]"), r#"[{"a": 1}, {"b": 2}]"#);
    assert_eq!(repaired("[\"k\": 1 \"l\": 2]"), r#"[{"k": 1}, {"l": 2}]"#);
}

#[test]
fn containers_close_where_they_must() {
    assert_eq!(repaired("[1, 2}"), "[1, 2]");
    assert_eq!(repaired("[1, 2)"), "[1, 2]");
    assert_eq!(repaired("{a: [1, 2}"), r#"{"a": [1, 2]}"#);
    assert_eq!(repaired("{a: (1, 2)}"), r#"{"a": [1, 2]}"#);
    assert_eq!(repaired("{"), "{}");
    assert_eq!(repaired("["), "[]");
}

#[test]
fn missing_parts_are_filled_in() {
    assert_eq!(repaired("{: 1}"), r#"{"": 1}"#);
    assert_eq!(repaired("{a: 1 b: 2}"), r#"{"a": 1, "b": 2}"#);
    assert_eq!(repaired("[\"a\", , \"b\"]"), r#"["a", "b"]"#);
    assert_eq!(repaired("[...]"), "[]");
}

#[test]
fn strings_keep_quotes_that_do_not_close_them() {
    assert_eq!(
        repaired("{\"a\": \"he said \"hi\" to me\"}"),
        r#"{"a": "he said \"hi\" to me"}"#
    );
    assert_eq!(repaired("'a' 'b'"), r#""a' 'b""#);
    assert_eq!(repaired("{“a”: “b”}"), r#"{"a": "b"}"#);
    assert_eq!(repaired("{\\\"a\\\": \\\"b\\\"}"), r#"{"a": "b"}"#);
}

#[test]
fn escapes_in_strings() {
    assert_eq!(
        repaired(r#"{"a": "b\u263a\x41\n\q\b\f\r\t.\\/"}"#),
        r#"{"a": "b\u263aA\nq\b\f\r\t.\\/"}"#
    );
    assert_eq!(repaired(r#"{"a": "b\ud83d"}"#), r#"{"a": "b\\"}"#);
    assert_eq!(repaired(r#"{"a": "b\u12"}"#), r#"{"a": "b\\12"}"#);
}

#[test]
fn comments_are_passed_over() {
    assert_eq!(repaired("{a: 1/*x*/, b: 2 // y\n}"), r#"{"a": 1, "b": 2}"#);
    assert_eq!(repaired("[1, # one\n 2]"), "[1, 2]");
    assert_eq!(repaired("/* [1] */ [2]"), "[2]");
}

#[test]
fn numbers_are_completed_or_kept_as_text() {
    assert_eq!(
        repaired("[1., -0.5, 3e, 1e400, 2.5e1, 007, -0, 1.5e300]"),
        r#"[1, -0.5, 3, "1e400", 25.0, 7, 0, 1.5e+300]"#
    );
    assert_eq!(
        repaired("[18446744073709551615, 18446744073709551616]"),
        r#"[18446744073709551615, "18446744073709551616"]"#
    );
    assert_eq!(
        repaired("[-9223372036854775808, -9223372036854775809]"),
        r#"[-9223372036854775808, "-9223372036854775809"]"#
    );
}

#[test]
fn bare_words_hold_any_letters() {
    assert_eq!(repaired("{a: ä, b: Ⅷ}"), r#"{"a": "\u00e4", "b": "\u2167"}"#);
    assert_eq!(repaired("{a: ٣}"), r#"{"a": ""}"#);
    assert_eq!(repaired("{a: 1 ٣: 2}"), r#"{"a": 1, "\u0663": 2}"#);
}

#[test]
fn whitespace_is_that_of_unicode() {
    assert_eq!(repaired("{\u{2028}a\u{85}:\u{1680}1\u{205f}}"), r#"{"a": 1}"#);
    assert_eq!(repaired("{\u{200b}a: 1}"), r#"{"\u200ba": 1}"#);
}

#[test]
fn a_repaired_text_is_kept_by_another_repair() {
    for input in [
        "{name: 'Ada', ok: tru, n: [1 2 .5], s: \"☺\\n😀\"}",
        "[-3, 18446744073709551615, {a: {b: {}}}, []]",
        "[\"a\", None, \"\\u0001\"]",
    ] {
        let once = repair_json(input).expect("once");
        assert_eq!(repair_json(&once).expect("twice"), once);
        assert_eq!(loads(&once).expect("loads"), loads(input).expect("loads"));
        let plain = RepairOptions { ensure_ascii: false, ..RepairOptions::default() };
        let unescaped = repair_json_with_options(input, plain).expect("plain");
        assert_eq!(loads(&unescaped).expect("loads"), loads(input).expect("loads"));
        assert_eq!(repair_json(&unescaped).expect("again"), once);
    }
}

#[test]
fn deep_texts_are_repaired_where_the_fast_path_gives_up() {
    let deep = format!("{}1{}", "[".repeat(200), "]".repeat(200));
    assert_eq!(repair_json(&deep).expect("repair"), deep);
}

#[test]
fn later_members_take_the_place_of_earlier_ones() {
    let mut object = Object::new();
    object.insert("a".to_string(), JsonValue::Bool(true));
    object.insert("b".to_string(), JsonValue::Null);
    object.insert("a".to_string(), JsonValue::Bool(false));
    assert_eq!(object.entries.len(), 2);
    assert_eq!(object.entries[0].0, "a");
    assert_eq!(object.entries[0].1, JsonValue::Bool(false));
    assert!(object.contains_key(&"b".to_string()));
    assert!(!object.contains_key(&"c".to_string()));
    assert!(!object.is_empty());
}
