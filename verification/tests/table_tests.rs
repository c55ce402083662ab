use value_table::table::Table;
use value_table::value::{floats_equal, is_finite_float, is_nan_float, is_zero_float, Value};

fn pair(key: &str, value: Value) -> (String, Value) {
    (key.to_string(), value)
}

#[test]
fn with_capacity_is_empty() {
    let table = Table::with_capacity(16);
    assert_eq!(table.len(), 0);
    assert!(table.entries().is_empty());
    assert_eq!(table.get("a"), None);
}

#[test]
fn default_value_is_null_and_default_table_is_empty() {
    assert_eq!(Value::default(), Value::Null);
    assert_eq!(Table::default().len(), 0);
    assert_eq!(Table::default(), Table::with_capacity(3));
}

#[test]
fn new_holds_every_pair() {
    let table = Table::new(vec![pair("a", Value::Int(1)), pair("b", Value::Bool(true))]);
    assert_eq!(table.len(), 2);
    assert_eq!(table.get("a"), Some(&Value::Int(1)));
    assert_eq!(table.get("b"), Some(&Value::Bool(true)));
    assert_eq!(table.get("c"), None);
}

#[test]
fn new_keeps_the_later_of_two_pairs_with_one_key() {
    let table = Table::new(vec![
        pair("a", Value::Int(1)),
        pair("b", Value::Int(2)),
        pair("a", Value::Int(3)),
    ]);
    assert_eq!(table.len(), 2);
    assert_eq!(table.get("a"), Some(&Value::Int(3)));
    assert_eq!(table.get("b"), Some(&Value::Int(2)));
    let keys: Vec<&str> = table.entries().iter().map(|e| e.0.as_str()).collect();
    assert_eq!(keys, vec!["a", "b"]);
}

#[test]
fn insert_replaces_in_place_and_appends_new_keys() {
    let mut table = Table::with_capacity(0);
    table.insert("x".to_string(), Value::UInt(1));
    table.insert("y".to_string(), Value::UInt(2));
    table.insert("x".to_string(), Value::UInt(3));
    assert_eq!(table.len(), 2);
    assert_eq!(table.entries()[0], pair("x", Value::UInt(3)));
    assert_eq!(table.entries()[1], pair("y", Value::UInt(2)));
}

#[test]
fn table_equals_itself_under_key_reordering() {
    let one = Table::new(vec![pair("a", Value::Int(1)), pair("b", Value::Bool(true))]);
    let other = Table::new(vec![pair("b", Value::Bool(true)), pair("a", Value::Int(1))]);
    assert_eq!(one, other);
    assert_eq!(other, one);
    assert_eq!(Value::Table(one), Value::Table(other));
}

#[test]
fn tables_with_other_values_or_keys_differ() {
    let one = Table::new(vec![pair("a", Value::Int(1)), pair("b", Value::Bool(true))]);
    let value = Table::new(vec![pair("a", Value::Int(2)), pair("b", Value::Bool(true))]);
    let key = Table::new(vec![pair("a", Value::Int(1)), pair("c", Value::Bool(true))]);
    let fewer = Table::new(vec![pair("a", Value::Int(1))]);
    assert_ne!(one, value);
    assert_ne!(one, key);
    assert_ne!(one, fewer);
    assert_ne!(fewer, one);
}

#[test]
fn arrays_compare_in_order() {
    let one = Value::Array(vec![Value::Int(1), Value::Int(2)]);
    let same = Value::Array(vec![Value::Int(1), Value::Int(2)]);
    let swapped = Value::Array(vec![Value::Int(2), Value::Int(1)]);
    let longer = Value::Array(vec![Value::Int(1), Value::Int(2), Value::Null]);
    assert_eq!(one, same);
    assert_ne!(one, swapped);
    assert_ne!(one, longer);
}

#[test]
fn signed_and_unsigned_are_different_kinds() {
    assert_ne!(Value::Int(1), Value::UInt(1));
    assert_ne!(Value::Null, Value::Bool(false));
    assert_eq!(Value::String("a".to_string()), Value::String("a".to_string()));
    assert_ne!(Value::String("a".to_string()), Value::String("b".to_string()));
}

#[test]
fn floats_compare_as_floats() {
    let nan = f64::NAN.to_bits();
    assert_ne!(Value::Float(nan), Value::Float(nan));
    assert_eq!(Value::Float(0.0f64.to_bits()), Value::Float((-0.0f64).to_bits()));
    assert_eq!(Value::Float(1.5f64.to_bits()), Value::Float(1.5f64.to_bits()));
    assert_ne!(Value::Float(1.5f64.to_bits()), Value::Float(2.5f64.to_bits()));
    assert_eq!(
        Value::Float(f64::INFINITY.to_bits()),
        Value::Float(f64::INFINITY.to_bits())
    );
}

#[test]
fn float_predicates_agree_with_the_floats() {
    let samples = [
        0.0f64,
        -0.0,
        1.0,
        -1.5,
        f64::MIN_POSITIVE,
        f64::MAX,
        f64::MIN,
        f64::INFINITY,
        f64::NEG_INFINITY,
        f64::NAN,
        -f64::NAN,
        5e-324,
    ];
    for a in samples {
        assert_eq!(is_finite_float(a.to_bits()), a.is_finite());
        assert_eq!(is_nan_float(a.to_bits()), a.is_nan());
        assert_eq!(is_zero_float(a.to_bits()), a == 0.0);
        for b in samples {
            assert_eq!(floats_equal(a.to_bits(), b.to_bits()), a == b);
        }
    }
}

#[test]
fn from_gives_the_table_of_a_table_value_only() {
    let table = Table::new(vec![pair("a", Value::Int(1))]);
    assert_eq!(Table::from(Value::Table(table.clone())), Some(table));
    assert_eq!(Table::from(Value::Array(vec![])), None);
    assert_eq!(Table::from(Value::Null), None);
}

#[test]
fn clone_is_equal_and_independent() {
    let inner = Table::new(vec![pair("z", Value::UInt(1))]);
    let table = Table::new(vec![
        pair("x", Value::Array(vec![Value::Bool(true), Value::String("s".to_string())])),
        pair("y", Value::Table(inner)),
    ]);
    let mut copy = table.clone();
    assert_eq!(copy, table);
    copy.insert("x".to_string(), Value::Null);
    assert_ne!(copy, table);
    assert_eq!(table.get("x").cloned(), Some(Value::Array(vec![Value::Bool(true), Value::String("s".to_string())])));
}

#[test]
fn from_integer_splits_by_sign() {
    assert_eq!(Value::from_integer(0), Value::UInt(0));
    assert_eq!(Value::from_integer(5), Value::UInt(5));
    assert_eq!(Value::from_integer(i64::MAX), Value::UInt(i64::MAX as u64));
    assert_eq!(Value::from_integer(-1), Value::Int(-1));
    assert_eq!(Value::from_integer(i64::MIN), Value::Int(i64::MIN));
}

#[test]
fn remove_takes_the_entry_out_and_keeps_the_order() {
    let mut table = Table::new(vec![
        pair("a", Value::Int(1)),
        pair("b", Value::Int(2)),
        pair("c", Value::Int(3)),
    ]);
    assert_eq!(table.remove("b"), Some(Value::Int(2)));
    assert_eq!(table.len(), 2);
    assert_eq!(table.entries()[0], pair("a", Value::Int(1)));
    assert_eq!(table.entries()[1], pair("c", Value::Int(3)));
    assert_eq!(table.remove("b"), None);
    assert_eq!(table.remove("missing"), None);
    assert_eq!(table.len(), 2);
    assert_eq!(table.remove("a"), Some(Value::Int(1)));
    assert_eq!(table.remove("c"), Some(Value::Int(3)));
    assert_eq!(table, Table::with_capacity(0));
}
