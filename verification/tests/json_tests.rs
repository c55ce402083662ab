use value_table::json_tree::{JsonNumber, JsonValue};
use value_table::table::Table;
use value_table::value::Value;

fn pair(key: &str, value: Value) -> (String, Value) {
    (key.to_string(), value)
}

fn member(key: &str, value: JsonValue) -> (String, JsonValue) {
    (key.to_string(), value)
}

fn number(n: &serde_json::Number) -> JsonNumber {
    JsonNumber::classify(
        n.is_f64(),
        n.as_f64().map(f64::to_bits),
        n.is_u64(),
        n.as_u64(),
        n.as_i64(),
    )
    .unwrap()
}

fn tree(v: &serde_json::Value) -> JsonValue {
    match v {
        serde_json::Value::Null => JsonValue::Null,
        serde_json::Value::Bool(b) => JsonValue::Bool(*b),
        serde_json::Value::Number(n) => JsonValue::Number(number(n)),
        serde_json::Value::String(s) => JsonValue::String(s.clone()),
        serde_json::Value::Array(a) => JsonValue::Array(a.iter().map(tree).collect()),
        serde_json::Value::Object(o) => {
            JsonValue::Object(o.iter().map(|(k, v)| (k.clone(), tree(v))).collect())
        }
    }
}

fn native(j: &JsonValue) -> serde_json::Value {
    match j {
        JsonValue::Null => serde_json::Value::Null,
        JsonValue::Bool(b) => serde_json::Value::Bool(*b),
        JsonValue::Number(JsonNumber::PosInt(u)) => serde_json::Value::Number((*u).into()),
        JsonValue::Number(JsonNumber::NegInt(i)) => serde_json::Value::Number((*i).into()),
        JsonValue::Number(JsonNumber::Float(bits)) => {
            serde_json::Value::Number(serde_json::Number::from_f64(f64::from_bits(*bits)).unwrap())
        }
        JsonValue::String(s) => serde_json::Value::String(s.clone()),
        JsonValue::Array(a) => serde_json::Value::Array(a.iter().map(native).collect()),
        JsonValue::Object(o) => {
            serde_json::Value::Object(o.iter().map(|(k, v)| (k.clone(), native(v))).collect())
        }
    }
}

#[test]
fn json_object_imports_to_table_and_exports_back() {
    let text = r#"{"x": true, "y": {"z": 1}}"#;
    let parsed: serde_json::Value = serde_json::from_str(text).unwrap();
    let table = Table::from_json(tree(&parsed)).unwrap();
    assert_eq!(table.len(), 2);
    assert_eq!(table.get("x"), Some(&Value::Bool(true)));
    assert_eq!(
        table.get("y"),
        Some(&Value::Table(Table::new(vec![pair("z", Value::UInt(1))])))
    );
    assert!(Value::Table(table.clone()).json_exportable());
    let back = native(&table.to_json());
    assert_eq!(back, parsed);
}

#[test]
fn json_import_of_each_kind() {
    assert_eq!(Value::from_json(JsonValue::Null), Value::Null);
    assert_eq!(Value::from_json(JsonValue::Bool(false)), Value::Bool(false));
    assert_eq!(
        Value::from_json(JsonValue::String("s".to_string())),
        Value::String("s".to_string())
    );
    assert_eq!(
        Value::from_json(JsonValue::Array(vec![JsonValue::Null, JsonValue::Bool(true)])),
        Value::Array(vec![Value::Null, Value::Bool(true)])
    );
    assert_eq!(
        Value::from_json(JsonValue::Object(vec![])),
        Value::Table(Table::with_capacity(0))
    );
}

#[test]
fn json_numbers_are_classified_float_first_then_unsigned_then_signed() {
    let parsed: serde_json::Value =
        serde_json::from_str("[1.0, 1, -1, 18446744073709551615, 0, -9223372036854775808, 2.5e3]").unwrap();
    assert_eq!(
        Value::from_json(tree(&parsed)),
        Value::Array(vec![
            Value::Float(1.0f64.to_bits()),
            Value::UInt(1),
            Value::Int(-1),
            Value::UInt(u64::MAX),
            Value::UInt(0),
            Value::Int(i64::MIN),
            Value::Float(2500.0f64.to_bits()),
        ])
    );
}

#[test]
fn json_later_member_wins() {
    let doc = JsonValue::Object(vec![
        member("k", JsonValue::Bool(false)),
        member("k", JsonValue::Bool(true)),
    ]);
    let table = Table::from_json(doc).unwrap();
    assert_eq!(table.len(), 1);
    assert_eq!(table.get("k"), Some(&Value::Bool(true)));
}

#[test]
fn json_from_json_of_a_non_object_is_none() {
    assert_eq!(Table::from_json(JsonValue::Array(vec![])), None);
    assert_eq!(Table::from_json(JsonValue::Null), None);
    assert_eq!(Table::from_json(JsonValue::Number(JsonNumber::PosInt(1))), None);
}

#[test]
fn json_export_of_each_kind() {
    assert_eq!(Value::Null.to_json(), JsonValue::Null);
    assert_eq!(Value::Bool(true).to_json(), JsonValue::Bool(true));
    assert_eq!(Value::UInt(7).to_json(), JsonValue::Number(JsonNumber::PosInt(7)));
    assert_eq!(Value::Int(-7).to_json(), JsonValue::Number(JsonNumber::NegInt(-7)));
    assert_eq!(Value::Int(7).to_json(), JsonValue::Number(JsonNumber::PosInt(7)));
    assert_eq!(Value::Int(0).to_json(), JsonValue::Number(JsonNumber::PosInt(0)));
    assert_eq!(
        Value::Float(0.25f64.to_bits()).to_json(),
        JsonValue::Number(JsonNumber::Float(0.25f64.to_bits()))
    );
    assert_eq!(
        Value::String("s".to_string()).to_json(),
        JsonValue::String("s".to_string())
    );
    assert_eq!(
        Value::Array(vec![Value::Null, Value::UInt(1)]).to_json(),
        JsonValue::Array(vec![JsonValue::Null, JsonValue::Number(JsonNumber::PosInt(1))])
    );
    let table = Table::new(vec![pair("b", Value::Null), pair("a", Value::Bool(true))]);
    assert_eq!(
        table.to_json(),
        JsonValue::Object(vec![member("b", JsonValue::Null), member("a", JsonValue::Bool(true))])
    );
}

#[test]
fn json_round_trip_gives_the_value_again() {
    let value = Value::Table(Table::new(vec![
        pair("null", Value::Null),
        pair("neg", Value::Int(-12)),
        pair("pos", Value::UInt(u64::MAX)),
        pair("float", Value::Float((-0.0f64).to_bits())),
        pair("text", Value::String("a\"b".to_string())),
        pair("flag", Value::Bool(false)),
        pair(
            "list",
            Value::Array(vec![
                Value::Array(vec![]),
                Value::Table(Table::new(vec![pair("deep", Value::Float(1e300f64.to_bits()))])),
            ]),
        ),
    ]));
    assert!(value.json_exportable());
    let exported = value.to_json();
    assert_eq!(Value::from_json(exported), value);
    let through_text = serde_json::to_string(&native(&value.to_json())).unwrap();
    let parsed: serde_json::Value = serde_json::from_str(&through_text).unwrap();
    assert_eq!(Value::import_json(&tree(&parsed)), value);
}

#[test]
fn json_signed_integer_that_is_not_negative_comes_back_unsigned() {
    assert_eq!(Value::from_json(Value::Int(5).to_json()), Value::UInt(5));
}

#[test]
fn json_cannot_hold_nan_or_infinity() {
    assert!(!Value::Float(f64::NAN.to_bits()).json_exportable());
    assert!(!Value::Float(f64::INFINITY.to_bits()).json_exportable());
    assert!(!Value::Float(f64::NEG_INFINITY.to_bits()).json_exportable());
    assert!(Value::Float(f64::MAX.to_bits()).json_exportable());
    assert!(Value::Null.json_exportable());
    let nested = Value::Table(Table::new(vec![pair(
        "a",
        Value::Array(vec![Value::UInt(1), Value::Float(f64::NAN.to_bits())]),
    )]));
    assert!(!nested.json_exportable());
    let fine = Value::Table(Table::new(vec![pair(
        "a",
        Value::Array(vec![Value::UInt(1), Value::Float(2.0f64.to_bits())]),
    )]));
    assert!(fine.json_exportable());
}

#[test]
fn json_checked_export_signals_what_json_cannot_hold() {
    assert_eq!(Value::UInt(1).checked_to_json(), Some(JsonValue::Number(JsonNumber::PosInt(1))));
    assert_eq!(Value::Float(f64::NAN.to_bits()).checked_to_json(), None);
    let nested = Value::Array(vec![Value::Table(Table::new(vec![pair(
        "x",
        Value::Float(f64::NEG_INFINITY.to_bits()),
    )]))]);
    assert_eq!(nested.checked_to_json(), None);
    let fine = Value::Array(vec![Value::Table(Table::new(vec![pair(
        "x",
        Value::Float((-1.0f64).to_bits()),
    )]))]);
    assert_eq!(
        fine.checked_to_json(),
        Some(JsonValue::Array(vec![JsonValue::Object(vec![member(
            "x",
            JsonValue::Number(JsonNumber::Float((-1.0f64).to_bits()))
        )])]))
    );
}

#[test]
fn json_document_round_trip_gives_the_document_again() {
    let text = r#"{"a": [1, -2, 3.5, null, "s", true], "b": {"c": {}, "d": []}}"#;
    let parsed: serde_json::Value = serde_json::from_str(text).unwrap();
    let document = tree(&parsed);
    assert_eq!(Value::import_json(&document).to_json(), document);
}

#[test]
fn json_number_is_a_float_first_then_unsigned_then_signed() {
    let bits = 1.5f64.to_bits();
    assert_eq!(
        JsonNumber::classify(true, Some(bits), true, Some(1), Some(1)),
        Some(JsonNumber::Float(bits))
    );
    assert_eq!(
        JsonNumber::classify(false, Some(bits), true, Some(7), Some(7)),
        Some(JsonNumber::PosInt(7))
    );
    assert_eq!(
        JsonNumber::classify(false, Some(bits), false, None, Some(-7)),
        Some(JsonNumber::NegInt(-7))
    );
    assert_eq!(
        JsonNumber::classify(false, None, true, Some(u64::MAX), None),
        Some(JsonNumber::PosInt(u64::MAX))
    );
    assert_eq!(JsonNumber::classify(true, None, true, Some(1), Some(1)), None);
    assert_eq!(JsonNumber::classify(false, Some(bits), true, None, Some(1)), None);
    assert_eq!(JsonNumber::classify(false, Some(bits), false, Some(1), None), None);
}

#[test]
fn json_signed_number_that_is_not_negative_imports_unsigned() {
    assert_eq!(
        Value::from_json(JsonValue::Number(JsonNumber::NegInt(5))),
        Value::UInt(5)
    );
    assert_eq!(
        Value::from_json(JsonValue::Number(JsonNumber::NegInt(0))),
        Value::UInt(0)
    );
    assert_eq!(
        Value::from_json(JsonValue::Number(JsonNumber::NegInt(-5))),
        Value::Int(-5)
    );
}
