use opencode_model_config::json::{JsonMap, JsonNumber, JsonValue};
use opencode_model_config::util::{
    bool_at, nested_list_str, nested_num, nested_str, num_at, parse_number_text, set_num_opt,
    set_str, str_at,
};

fn s(x: &str) -> JsonValue {
    JsonValue::Str(x.to_string())
}

fn num(n: JsonNumber) -> JsonValue {
    JsonValue::Number(n)
}

fn obj(entries: Vec<(&str, JsonValue)>) -> JsonValue {
    let mut m = JsonMap::new();
    for (k, v) in entries {
        m.insert(k.to_string(), v);
    }
    JsonValue::Object(m)
}

fn keys(m: &JsonMap) -> Vec<String> {
    m.entries.iter().map(|e| e.0.clone()).collect()
}

#[test]
fn insert_keeps_place_of_existing_key() {
    let mut m = JsonMap::new();
    m.insert("a".to_string(), s("1"));
    m.insert("b".to_string(), s("2"));
    m.insert("a".to_string(), s("3"));
    assert_eq!(keys(&m), vec!["a".to_string(), "b".to_string()]);
    assert_eq!(m.get("a"), Some(&s("3")));
}

#[test]
fn remove_keeps_order_of_other_keys() {
    let mut m = JsonMap::new();
    m.insert("a".to_string(), s("1"));
    m.insert("b".to_string(), s("2"));
    m.insert("c".to_string(), s("3"));
    m.remove("a");
    assert_eq!(keys(&m), vec!["b".to_string(), "c".to_string()]);
    assert_eq!(m.get("a"), None);
    m.remove("zzz");
    assert_eq!(keys(&m), vec!["b".to_string(), "c".to_string()]);
    m.entries.push(("b".to_string(), s("4")));
    m.remove("b");
    assert_eq!(keys(&m), vec!["c".to_string()]);
}

#[test]
fn field_readers_default_when_missing_or_other_type() {
    let v = obj(vec![
        ("name", s("x")),
        ("flag", JsonValue::Bool(true)),
        ("count", num(JsonNumber::NegInt(-5))),
        ("ratio", num(JsonNumber::Float("0.25".to_string()))),
    ]);
    assert_eq!(str_at(&v, "name"), "x");
    assert_eq!(str_at(&v, "flag"), "");
    assert_eq!(str_at(&v, "missing"), "");
    assert!(bool_at(&v, "flag"));
    assert!(!bool_at(&v, "name"));
    assert_eq!(num_at(&v, "count"), "-5");
    assert_eq!(num_at(&v, "ratio"), "0.25");
    assert_eq!(num_at(&v, "name"), "");
    assert_eq!(str_at(&JsonValue::Null, "name"), "");
}

#[test]
fn nested_readers_follow_the_path() {
    let v = obj(vec![
        ("options", obj(vec![("baseURL", s("https://x")), ("timeout", num(JsonNumber::PosInt(9)))])),
        ("modalities", obj(vec![("input", JsonValue::Array(vec![s("a"), num(JsonNumber::PosInt(1)), s("b")]))])),
    ]);
    assert_eq!(nested_str(&v, &["options", "baseURL"]), "https://x");
    assert_eq!(nested_str(&v, &["options", "missing"]), "");
    assert_eq!(nested_str(&v, &["nope", "baseURL"]), "");
    assert_eq!(nested_num(&v, &["options", "timeout"]), "9");
    assert_eq!(nested_list_str(&v, &["modalities", "input"]), "a, b");
    assert_eq!(nested_list_str(&v, &["modalities", "output"]), "");
}

#[test]
fn parse_number_text_cases() {
    assert_eq!(parse_number_text("42"), Some(num(JsonNumber::PosInt(42))));
    assert_eq!(parse_number_text(" -3 "), Some(num(JsonNumber::NegInt(-3))));
    assert_eq!(parse_number_text("0.7"), Some(num(JsonNumber::Float("0.7".to_string()))));
    assert_eq!(parse_number_text("007"), Some(num(JsonNumber::Float("007".to_string()))));
    assert_eq!(parse_number_text("1e5"), Some(num(JsonNumber::Float("1e5".to_string()))));
    assert_eq!(
        parse_number_text("99999999999999999999"),
        Some(num(JsonNumber::Float("99999999999999999999".to_string())))
    );
    assert_eq!(parse_number_text("abc"), None);
    assert_eq!(parse_number_text("NaN"), Some(JsonValue::Null));
    assert_eq!(parse_number_text("inf"), Some(JsonValue::Null));
    assert_eq!(parse_number_text("-Infinity"), Some(JsonValue::Null));
    assert_eq!(parse_number_text("1e400"), Some(JsonValue::Null));
    assert_eq!(parse_number_text("-1e400"), Some(JsonValue::Null));
    assert_eq!(parse_number_text("1.797693134862315808e308"), Some(JsonValue::Null));
    assert_eq!(
        parse_number_text("1.7976931348623158e308"),
        Some(num(JsonNumber::Float("1.7976931348623158e308".to_string())))
    );
    assert_eq!(parse_number_text("1e-400"), Some(num(JsonNumber::Float("1e-400".to_string()))));
    assert_eq!(
        parse_number_text("0e99999999999999999999999999999999999999"),
        Some(num(JsonNumber::Float("0e99999999999999999999999999999999999999".to_string())))
    );
    assert_eq!(parse_number_text("1e99999999999999999999999999999999999999"), Some(JsonValue::Null));
    assert_eq!(parse_number_text("  "), None);
    assert_eq!(parse_number_text(""), None);
}

#[test]
fn set_str_and_set_num_opt_write_or_remove() {
    let mut m = JsonMap::new();
    set_str(&mut m, "k", "v");
    assert_eq!(m.get("k"), Some(&s("v")));
    set_str(&mut m, "k", "");
    assert_eq!(m.get("k"), None);
    set_num_opt(&mut m, "n", " 12 ");
    assert_eq!(m.get("n"), Some(&num(JsonNumber::PosInt(12))));
    set_num_opt(&mut m, "n", "twelve");
    assert_eq!(m.get("n"), None);
    set_num_opt(&mut m, "n", "1.5");
    assert_eq!(m.get("n"), Some(&num(JsonNumber::Float("1.5".to_string()))));
    set_num_opt(&mut m, "n", "");
    assert_eq!(m.get("n"), None);
    set_num_opt(&mut m, "n", "NaN");
    assert_eq!(m.get("n"), Some(&JsonValue::Null));
}
