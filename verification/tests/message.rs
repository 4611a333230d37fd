use serde_json::Value;
use swindon::json::{JsonValue, JsonMap};
use swindon::message::RequestError;

fn s(v: &str) -> JsonValue {
    JsonValue::Str(v.to_string())
}

#[test]
fn valid_method() {
    assert!(swindon::message::valid_method("some-method"));
    assert!(swindon::message::valid_method("123.456.789"));

    assert!(!swindon::message::valid_method(""));
    assert!(!swindon::message::valid_method("bad/method"));
    assert!(!swindon::message::valid_method("another bad method"));
    assert!(!swindon::message::valid_method("tangle.auth"));
    assert!(!swindon::message::valid_method("swindon.auth"));
    assert!(!swindon::message::valid_method("   tangle.auth"));
    assert!(!swindon::message::valid_method("   bad.method   "));
}

#[test]
fn valid_method_rejects_non_ascii_letters() {
    assert!(!swindon::message::valid_method("méthode"));
    assert!(swindon::message::valid_method("tangle"));
    assert!(swindon::message::valid_method("x.tangle.auth"));
}

#[test]
fn valid_request_id() {
    let mut meta = JsonMap::new();
    meta.insert("request_id".into(), s("abc"));
    assert!(swindon::message::valid_request_id(&meta));
    meta.insert(
        "request_id".into(),
        s("aaaaaaaaaaaaaaaaaaaaaaaaaaaaaaaaaaaa"),
    );
    assert!(swindon::message::valid_request_id(&meta));
    meta.insert("request_id".into(), s("abc-123_def"));
    assert!(swindon::message::valid_request_id(&meta));

    meta.clear();
    assert!(!swindon::message::valid_request_id(&meta));
    meta.insert("request_id".into(), JsonValue::Null);
    assert!(!swindon::message::valid_request_id(&meta));
    meta.insert("request_id".into(), JsonValue::Array(vec![]));
    assert!(!swindon::message::valid_request_id(&meta));
    meta.insert("request_id".into(), JsonValue::Object(JsonMap::new()));
    assert!(!swindon::message::valid_request_id(&meta));
    meta.insert("request_id".into(), JsonValue::Str("".into()));
    assert!(!swindon::message::valid_request_id(&meta));
    meta.insert("request_id".into(), JsonValue::Str("i n v a l i d".into()));
    assert!(!swindon::message::valid_request_id(&meta));
    meta.insert(
        "request_id".into(),
        s("aaaaaaaaaaaaaaaaaaaaaaaaaaaaaaaaaaaaA"),
    );
    assert!(!swindon::message::valid_request_id(&meta));
    meta.insert("request_id".into(), JsonValue::NegInt(-1));
    assert!(!swindon::message::valid_request_id(&meta));
    meta.insert("request_id".into(), JsonValue::Float("1.1".into()));
    assert!(!swindon::message::valid_request_id(&meta));
}

#[test]
fn request_id_numbers_and_upper_case() {
    let mut meta = JsonMap::new();
    meta.insert("request_id".into(), JsonValue::PosInt(0));
    assert!(swindon::message::valid_request_id(&meta));
    meta.insert("request_id".into(), s("ABC"));
    assert!(!swindon::message::valid_request_id(&meta));
    meta.insert("request_id".into(), s("ä"));
    assert!(!swindon::message::valid_request_id(&meta));
}

#[test]
fn get_active() {
    let mut meta = JsonMap::new();

    assert!(swindon::message::get_active(&meta).is_none());

    meta.insert("active".into(), s(""));
    assert!(swindon::message::get_active(&meta).is_none());

    meta.insert("active".into(), JsonValue::Bool(true));
    assert!(swindon::message::get_active(&meta).is_none());

    meta.insert("active".into(), JsonValue::PosInt(123));
    assert_eq!(swindon::message::get_active(&meta).unwrap(), 123u64);

    meta.insert("active".into(), JsonValue::NegInt(-123));
    assert!(swindon::message::get_active(&meta).is_none());

    meta.insert("active".into(), JsonValue::Float("123.0".into()));
    assert!(swindon::message::get_active(&meta).is_none());

    meta.insert("active".into(), JsonValue::PosInt(123));
    assert_eq!(swindon::message::get_active(&meta).unwrap(), 123u64);
}

fn convert(v: Value) -> JsonValue {
    match v {
        Value::Null => JsonValue::Null,
        Value::Bool(b) => JsonValue::Bool(b),
        Value::Number(n) => {
            if let Some(u) = n.as_u64() {
                JsonValue::PosInt(u)
            } else if let Some(i) = n.as_i64() {
                JsonValue::NegInt(i)
            } else {
                JsonValue::Float(n.to_string())
            }
        }
        Value::String(s) => JsonValue::Str(s),
        Value::Array(a) => JsonValue::Array(a.into_iter().map(convert).collect()),
        Value::Object(o) => {
            let mut m = JsonMap::new();
            for (k, v) in o {
                m.insert(k, convert(v));
            }
            JsonValue::Object(m)
        }
    }
}

fn decode(text: &str) -> Result<swindon::message::Request, String> {
    let v: serde_json::Value = serde_json::from_str(text).map_err(|e| e.to_string())?;
    swindon::message::decode_message(convert(v)).map_err(|e| format!("{:?}", e))
}

#[test]
fn decode_message_errors() {
    let cases: Vec<(&str, Result<(), &str>)> = vec![
        ("", Err("EOF while parsing a value")),
        ("[invalid json", Err("expected value at line 1")),
    ];
    for (text, expected) in cases {
        let err = decode(text).err().unwrap();
        assert!(err.starts_with(expected.unwrap_err()), "{}: {}", text, err);
    }
    let shape = |text: &str| {
        let v: serde_json::Value = serde_json::from_str(text).unwrap();
        swindon::message::decode_message(convert(v)).err().unwrap()
    };
    assert_eq!(shape("{}"), RequestError::NotAnArray);
    assert_eq!(shape("[]"), RequestError::Length(0));
    assert_eq!(shape("[1, 2, 3, 4, 5]"), RequestError::Method);
    assert_eq!(shape("[1, 2, 3, 4]"), RequestError::Method);
    assert_eq!(shape("[null, null, null, 4]"), RequestError::Method);
    assert_eq!(shape("[\"1\", 2, 3, 4]"), RequestError::Meta);
    assert_eq!(shape("[\"1\", {}, 3, 4]"), RequestError::Args);
    assert_eq!(shape("[\"1\", {}, [], 4]"), RequestError::Kwargs);
    assert_eq!(shape("[\"1\", {}, [], {}, 5]"), RequestError::Length(5));
    assert_eq!(shape("[\"1\", {}]"), RequestError::Length(2));
}

#[test]
fn decode_message() {
    let res = decode(r#"
        ["some.method", {"request_id": "123"}, ["Hello"], {"world!": "!"}]
        "#).unwrap();
    let swindon::message::Request(method, meta, args, kwargs) = res;
    assert_eq!(method, "some.method".to_string());
    match meta.get("request_id").unwrap() {
        &JsonValue::Str(ref s) => assert_eq!(s, &"123".to_string()),
        _ => unreachable!(),
    }
    assert_eq!(args.len(), 1);
    match kwargs.get("world!").unwrap() {
        &JsonValue::Str(ref s) => assert_eq!(s, &"!".to_string()),
        _ => unreachable!(),
    }
}

#[test]
fn request_id_is_lower_case() {
    let mut meta = JsonMap::new();
    meta.insert("request_id".into(), s("ABC"));
    assert!(!swindon::message::valid_request_id(&meta));
    meta.insert("request_id".into(), s("abC-1"));
    assert!(!swindon::message::valid_request_id(&meta));
    meta.insert("request_id".into(), s("abc-1"));
    assert!(swindon::message::valid_request_id(&meta));
}
