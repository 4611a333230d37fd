use serde_json::Value;

use swindon::json::{JsonMap, JsonValue};
use swindon::lattice::{Delta, Values};
use swindon::lattice_json::{room_from_members, strings_of, LatticeDataError};
use swindon::map::KeySet;

fn convert(v: Value) -> JsonValue {
    match v {
        Value::Null => JsonValue::Null,
        Value::Bool(b) => JsonValue::Bool(b),
        Value::Number(n) => {
            if let Some(u) = n.as_u64() {
                JsonValue::PosInt(u)
            } else if let Some(i) = n.as_i64() {
                JsonValue::NegInt(i)
            } else {
                JsonValue::Float(n.to_string())
            }
        }
        Value::String(s) => JsonValue::Str(s),
        Value::Array(a) => JsonValue::Array(a.into_iter().map(convert).collect()),
        Value::Object(o) => {
            let mut m = JsonMap::new();
            for (k, v) in o {
                m.insert(k, convert(v));
            }
            JsonValue::Object(m)
        }
    }
}

fn object(text: &str) -> JsonMap {
    match convert(serde_json::from_str(text).unwrap()) {
        JsonValue::Object(m) => m,
        _ => panic!("not an object"),
    }
}

fn room(text: &str) -> Result<Values, LatticeDataError> {
    room_from_members(&object(text).entries)
}

#[test]
fn decode_delta() {
    let val = r#"{"shared": {"room_1": {"last_message_counter": 125}},
        "private": {"user:1": {"room_1": {
            "last_seen_set": ["123", "124"]
        }}}}"#;

    let delta = Delta::from_json(&object(val)).unwrap();
    assert_eq!(delta.shared.len(), 1);
    assert_eq!(delta.private.len(), 1);
    assert!(delta.shared.contains_key(&"room_1".to_string()));
}

#[test]
fn decode_values() {
    let val = r#"{"last_message_counter": 123}"#;
    let val = room(val).unwrap();
    assert_eq!(val.sizes().0, 1);
    assert_eq!(val.sizes().1, 0);

    let key = "last_message".to_string();
    assert!(val.counter(&key).is_some());
    assert_eq!(val.counter(&key).unwrap(), 123u64);
}

#[test]
fn decode_set() {
    let set = match convert(serde_json::from_str(r#"["123", "123", "abc"]"#).unwrap()) {
        JsonValue::Array(a) => strings_of(&a).unwrap(),
        _ => panic!("not an array"),
    };
    assert_eq!(set.len(), 2);
}

#[test]
fn room_refusals() {
    assert!(matches!(room(r#"{"x": 1}"#), Err(LatticeDataError::UnsupportedKey(ref k)) if k == "x"));
    assert!(matches!(room(r#"{"x_counter": -1}"#),
        Err(LatticeDataError::BadCounter(ref k)) if k == "x_counter"));
    assert!(matches!(room(r#"{"x_counter": "1"}"#), Err(LatticeDataError::BadCounter(_))));
    assert!(matches!(room(r#"{"x_set": [1]}"#), Err(LatticeDataError::BadSet(ref k)) if k == "x_set"));
    assert!(matches!(room(r#"{"x_set": {}}"#), Err(LatticeDataError::BadSet(_))));
    assert!(room(r#"{}"#).unwrap().is_empty());
}

#[test]
fn delta_refusals_and_defaults() {
    let d = Delta::from_json(&object(r#"{"shared": null, "other": 5}"#)).unwrap();
    assert!(d.shared.is_empty() && d.private.is_empty());
    assert!(matches!(Delta::from_json(&object(r#"{"shared": []}"#)),
        Err(LatticeDataError::NotAnObject(ref k)) if k == "shared"));
    assert!(matches!(Delta::from_json(&object(r#"{"private": {"s": 1}}"#)),
        Err(LatticeDataError::NotAnObject(ref k)) if k == "s"));
    assert!(matches!(Delta::from_json(&object(r#"{"shared": {"r": {"bad": 1}}}"#)),
        Err(LatticeDataError::UnsupportedKey(ref k)) if k == "bad"));
}

#[test]
fn room_members_read_back() {
    let mut v = Values::new();
    v.set_counter("last".to_string(), 7);
    let mut items = KeySet::new();
    items.insert("a".to_string());
    items.insert("b".to_string());
    v.set_items("seen".to_string(), items);
    let members = v.to_members();
    let names: Vec<&str> = members.iter().map(|(k, _)| k.as_str()).collect();
    assert_eq!(names, vec!["last_counter", "seen_set"]);
    let back = room_from_members(&members).unwrap();
    assert_eq!(back.counter(&"last".to_string()), Some(7));
    assert_eq!(back.sizes(), (1, 1));
}
