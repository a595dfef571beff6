use json_repair_rs::keys::find_repeated_key;
use json_repair_rs::number::{read_numeral, value_from_bare_token, value_from_number, Numeral};
use json_repair_rs::reader::read_json;
use json_repair_rs::strict::strict_loads;
use json_repair_rs::{to_json_string, JsonValue, Number, Object};

fn chars(t: &str) -> Vec<char> {
    t.chars().collect()
}

fn text(t: &str) -> JsonValue {
    JsonValue::String(t.to_string())
}

fn float(t: &str) -> JsonValue {
    JsonValue::Number(Number::Float(t.to_string()))
}

fn object(entries: Vec<(&str, JsonValue)>) -> JsonValue {
    let mut members = Object::new();
    for (key, value) in entries {
        members.insert(key.to_string(), value);
    }
    JsonValue::Object(members)
}

#[test]
fn tokens_are_read_as_numerals() {
    assert!(matches!(read_numeral(&chars("1_000")), Numeral::Integer(Number::PosInt(1000))));
    assert!(matches!(read_numeral(&chars("-7")), Numeral::Integer(Number::NegInt(-7))));
    assert!(matches!(read_numeral(&chars("+7")), Numeral::Integer(Number::PosInt(7))));
    match read_numeral(&chars(".25")) {
        Numeral::Decimal(t) => assert_eq!(t, "0.25"),
        _ => panic!("no decimal"),
    }
    match read_numeral(&chars("3e")) {
        Numeral::Integer(Number::PosInt(n)) => assert_eq!(n, 3),
        _ => panic!("no integer"),
    }
    for t in ["", "1/3", "10-20", "0x1", "1.2.3", "-", "1 2"] {
        assert!(matches!(read_numeral(&chars(t)), Numeral::Not));
    }
}

#[test]
fn bare_tokens_have_values() {
    assert_eq!(value_from_bare_token(&chars(" `TRUE.` ")), JsonValue::Bool(true));
    assert_eq!(value_from_bare_token(&chars("`TRUE`.x")), text("TRUE`.x"));
    assert_eq!(value_from_bare_token(&chars("Nul")), JsonValue::Null);
    assert_eq!(value_from_bare_token(&chars("f..")), JsonValue::Bool(false));
    assert_eq!(value_from_bare_token(&chars("1.50")), float("1.5"));
    assert_eq!(value_from_bare_token(&chars("1e-7")), text("1e-7"));
    assert_eq!(value_from_bare_token(&chars("1E7")), float("10000000.0"));
    assert_eq!(value_from_bare_token(&chars("...")), text(""));
    assert_eq!(value_from_bare_token(&chars("yes")), text("yes"));
}

#[test]
fn a_token_takes_the_number_that_it_is_given() {
    let seven = JsonValue::Number(Number::PosInt(7));
    assert_eq!(value_from_number(&chars("x"), Some(Number::PosInt(7))), seven);
    assert_eq!(value_from_number(&chars(" 7 "), None), text("7"));
    assert_eq!(
        value_from_number(&chars("none"), Some(Number::PosInt(7))),
        JsonValue::Null
    );
}

#[test]
fn strict_reading_gives_whole_documents() {
    let value = strict_loads(" {\"b\": [1, 1E3], \"a\": \"\\ud83d\\ude00\", \"b\": null} ");
    assert_eq!(
        to_json_string(&value.expect("document"), false),
        "{\"b\": null, \"a\": \"😀\"}"
    );
    let value = strict_loads("[1, -2, 2.50, 1E3, 18446744073709551616, true, {}]");
    assert_eq!(
        to_json_string(&value.expect("document"), false),
        "[1, -2, 2.5, 1000.0, 1.8446744073709552e+19, true, {}]"
    );
    for t in ["", "{a: 1}", "[1,]", "nul", "01", "\"\t\"", "1e999"] {
        assert!(strict_loads(t).is_none());
    }
}

#[test]
fn the_standard_reading_keeps_every_member() {
    let value = read_json(" {\"a\": [1, -0, 2.50], \"a\": {\"b\": null, \"b\": true}}\t");
    match value.as_ref().expect("json") {
        JsonValue::Object(object) => assert_eq!(object.entries.len(), 2),
        other => panic!("{:?}", other),
    }
    assert_eq!(
        to_json_string(value.as_ref().expect("json"), true),
        "{\"a\": [1, -0, 2.50], \"a\": {\"b\": null, \"b\": true}}"
    );
    assert_eq!(find_repeated_key(&value.expect("json")), Some("b".to_string()));
    let value = read_json("{\"a\": {\"b\": 1}, \"b\": [{\"a\": 2}]}").expect("json");
    assert_eq!(find_repeated_key(&value), None);
    assert_eq!(
        read_json("\"\\\"\\\\\\/\\b\\f\\n\\r\\t\\u00e9\\uD83D\\uDE00\"").expect("json"),
        text("\"\\/\u{8}\u{c}\n\r\té😀")
    );
}

#[test]
fn the_standard_reading_and_the_strict_reading_refuse_alike() {
    for t in [
        "", " ", "\u{a0}", "{a: 1}", "[1,]", "nul", "nullx", "01", "-", "-01", "1.", ".5", "1e",
        "+1", "[1 2]", "{\"a\" 1}", "{\"a\": 1,}", "\"\t\"", "\"\\x41\"", "\"\\ud83d\"",
        "\"\\ud83d\\u0041\"", "\"\\ude00\"", "\"\\u12\"", "\"a", "[", "{", "1 2", "\u{feff}1",
    ] {
        assert!(read_json(t).is_none(), "{:?}", t);
        assert!(strict_loads(t).is_none(), "{:?}", t);
    }
    for t in [
        "0", "-1", "0.5", "0e1", "1E+05", "[]", "{}", " [ ] ", "{ }", "[true,false , null]",
        "{\"a\" : 1 ,\n\"b\":\"\\/\"}", "\"\u{7f}\u{2028}\"", "-9223372036854775808",
        "18446744073709551615", "[[[[{\"a\":[{}]}]]]]",
    ] {
        let read = read_json(t).expect("json");
        let strict = strict_loads(t).expect("document");
        match (&read, &strict) {
            (JsonValue::Number(Number::Float(_)), JsonValue::Number(Number::Float(_))) => {}
            _ => assert_eq!(read, strict),
        }
    }
}

#[test]
fn texts_are_escaped() {
    assert_eq!(
        to_json_string(&text("\"\\\n\r\t\u{8}\u{c}\u{1}\u{1f}/\u{7f}é😀"), true),
        "\"\\\"\\\\\\n\\r\\t\\b\\f\\u0001\\u001f/\u{7f}\\u00e9\\ud83d\\ude00\""
    );
    assert_eq!(to_json_string(&text("é😀\u{0}"), false), "\"é😀\\u0000\"");
}

#[test]
fn escaped_texts_are_ascii() {
    let value = object(vec![("ключ", text("值")), ("k", float("0.5"))]);
    assert!(to_json_string(&value, true).is_ascii());
    assert!(!to_json_string(&value, false).is_ascii());
}

#[test]
fn values_are_written_with_spaces() {
    let value = object(vec![
        ("a", JsonValue::Array(vec![JsonValue::Null, JsonValue::Bool(false)])),
        ("b", object(vec![])),
        ("c", JsonValue::Number(Number::NegInt(i64::MIN))),
        ("d", JsonValue::Number(Number::PosInt(u64::MAX))),
        ("e", JsonValue::Number(Number::PosInt(0))),
    ]);
    assert_eq!(
        to_json_string(&value, true),
        "{\"a\": [null, false], \"b\": {}, \"c\": -9223372036854775808, \
         \"d\": 18446744073709551615, \"e\": 0}"
    );
}

#[test]
fn written_values_are_read_back() {
    let value = object(vec![
        ("a\"b", JsonValue::Array(vec![text("\u{2028}\\"), float("0.1"), float("-1e-9")])),
        ("", object(vec![("x", JsonValue::Number(Number::NegInt(-1)))])),
    ]);
    for ensure_ascii in [true, false] {
        let written = to_json_string(&value, ensure_ascii);
        assert_eq!(strict_loads(&written).expect("document"), value);
    }
}

#[test]
fn clones_are_equal() {
    let value = object(vec![
        ("b", JsonValue::Array(vec![text("é"), float("0.5"), JsonValue::Bool(true)])),
        ("a", object(vec![("x", JsonValue::Number(Number::NegInt(-1)))])),
    ]);
    let copy = value.clone();
    assert_eq!(copy, value);
    assert_eq!(to_json_string(&copy, true), to_json_string(&value, true));
    match (&value, &copy) {
        (JsonValue::Object(a), JsonValue::Object(b)) => {
            assert_eq!(a.clone().entries.len(), b.entries.len());
            assert_eq!(a.clone().entries[0].0, "b");
        }
        _ => panic!("no objects"),
    }
    assert_eq!(JsonValue::Number(Number::PosInt(3).clone()), JsonValue::Number(Number::PosInt(3)));
}

#[test]
fn equality_ignores_the_order_of_members() {
    let a = object(vec![("x", float("0.0")), ("y", text("t"))]);
    let b = object(vec![("y", text("t")), ("x", float("-0.0"))]);
    assert_eq!(a, b);
    assert_eq!(b, a);
    assert_eq!(a, a);
    assert_ne!(a, object(vec![("x", float("0.0"))]));
    assert_ne!(float("1.0"), JsonValue::Number(Number::PosInt(1)));
    assert_ne!(
        JsonValue::Array(vec![text("a"), text("b")]),
        JsonValue::Array(vec![text("b"), text("a")])
    );
}
