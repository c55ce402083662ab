use value_table::table::{Error, Table};
use value_table::value::Value;
use value_table::yaml_tree::YamlNode;
use yaml_rust::Yaml;

fn pair(key: &str, value: Value) -> (String, Value) {
    (key.to_string(), value)
}

fn entry(key: &str, value: YamlNode) -> (Yaml, YamlNode) {
    (Yaml::String(key.to_string()), value)
}

fn unsupported(result: Result<Value, value_table::value::Error>) -> &'static str {
    match result {
        Err(value_table::value::Error::UnsupportedType(name)) => name,
        other => panic!("unexpected: {:?}", other),
    }
}

fn invalid(result: Result<Value, value_table::value::Error>) -> String {
    match result {
        Err(value_table::value::Error::InvalidValue(text)) => text,
        other => panic!("unexpected: {:?}", other),
    }
}

#[test]
fn yaml_import_of_each_kind() {
    assert_eq!(Value::from_yaml(YamlNode::Null).unwrap(), Value::Null);
    assert_eq!(Value::from_yaml(YamlNode::Boolean(true)).unwrap(), Value::Bool(true));
    assert_eq!(Value::from_yaml(YamlNode::Integer(5)).unwrap(), Value::UInt(5));
    assert_eq!(Value::from_yaml(YamlNode::Integer(-5)).unwrap(), Value::Int(-5));
    assert_eq!(
        Value::from_yaml(YamlNode::Real(1.25f64.to_bits())).unwrap(),
        Value::Float(1.25f64.to_bits())
    );
    assert_eq!(
        Value::from_yaml(YamlNode::String("s".to_string())).unwrap(),
        Value::String("s".to_string())
    );
    assert_eq!(
        Value::from_yaml(YamlNode::Array(vec![YamlNode::Null, YamlNode::Integer(1)])).unwrap(),
        Value::Array(vec![Value::Null, Value::UInt(1)])
    );
    assert_eq!(
        Value::from_yaml(YamlNode::Hash(vec![
            entry("a", YamlNode::Integer(1)),
            entry("b", YamlNode::Hash(vec![])),
            entry("a", YamlNode::Integer(2)),
        ]))
        .unwrap(),
        Value::Table(Table::new(vec![
            pair("a", Value::UInt(2)),
            pair("b", Value::Table(Table::with_capacity(0))),
        ]))
    );
}

#[test]
fn yaml_alias_is_refused_wherever_it_is() {
    assert_eq!(unsupported(Value::from_yaml(YamlNode::Alias(0))), "alias");
    let in_array = YamlNode::Array(vec![YamlNode::Integer(1), YamlNode::Alias(7)]);
    assert_eq!(unsupported(Value::from_yaml(in_array)), "alias");
    let in_hash = YamlNode::Hash(vec![
        entry("a", YamlNode::Null),
        entry("b", YamlNode::Array(vec![YamlNode::Hash(vec![entry("c", YamlNode::Alias(1))])])),
    ]);
    assert_eq!(unsupported(Value::from_yaml(in_hash)), "alias");
}

#[test]
fn yaml_bad_value_is_invalid() {
    assert_eq!(invalid(Value::from_yaml(YamlNode::BadValue)), "BadValue");
    let nested = YamlNode::Array(vec![YamlNode::Hash(vec![entry("a", YamlNode::BadValue)])]);
    assert_eq!(invalid(Value::from_yaml(nested)), "BadValue");
}

#[test]
fn yaml_key_that_is_not_a_string_is_invalid() {
    let doc = YamlNode::Hash(vec![
        entry("fine", YamlNode::Integer(1)),
        (Yaml::Integer(1), YamlNode::Integer(2)),
        entry("later", YamlNode::Integer(3)),
    ]);
    assert_eq!(invalid(Value::from_yaml(doc)), "Integer(1)");
    let array_key = YamlNode::Hash(vec![(
        Yaml::Array(vec![Yaml::String("a".to_string()), Yaml::Null]),
        YamlNode::Null,
    )]);
    assert_eq!(invalid(Value::from_yaml(array_key)), "Array([String(\"a\"), Null])");
    let real_key = YamlNode::Hash(vec![(Yaml::Real("1.50".to_string()), YamlNode::Null)]);
    assert_eq!(invalid(Value::from_yaml(real_key)), "Real(\"1.50\")");
}

#[test]
fn yaml_sibling_mapping_is_not_imported_beside_a_bad_key() {
    let good = YamlNode::Hash(vec![entry("x", YamlNode::Integer(1))]);
    let bad = YamlNode::Hash(vec![(Yaml::Boolean(true), YamlNode::Integer(1))]);
    let doc = YamlNode::Hash(vec![entry("good", good), entry("bad", bad)]);
    match Table::from_yaml(doc) {
        Err(Error::ValueError(value_table::value::Error::InvalidValue(text))) => {
            assert_eq!(text, "Boolean(true)")
        }
        other => panic!("unexpected: {:?}", other),
    }
}

#[test]
fn yaml_first_failure_in_document_order_decides() {
    let alias_first = YamlNode::Array(vec![YamlNode::Alias(1), YamlNode::BadValue]);
    assert_eq!(unsupported(Value::from_yaml(alias_first)), "alias");
    let bad_first = YamlNode::Array(vec![YamlNode::BadValue, YamlNode::Alias(1)]);
    assert_eq!(invalid(Value::from_yaml(bad_first)), "BadValue");
    let key_before_value = YamlNode::Hash(vec![(Yaml::Null, YamlNode::Alias(1))]);
    assert_eq!(invalid(Value::from_yaml(key_before_value)), "Null");
    let value_before_next_key = YamlNode::Hash(vec![
        entry("a", YamlNode::Alias(1)),
        (Yaml::Null, YamlNode::Null),
    ]);
    assert_eq!(unsupported(Value::from_yaml(value_before_next_key)), "alias");
}

#[test]
fn yaml_from_yaml_wants_a_table() {
    let table = Table::from_yaml(YamlNode::Hash(vec![entry("a", YamlNode::Boolean(false))])).unwrap();
    assert_eq!(table, Table::new(vec![pair("a", Value::Bool(false))]));
    match Table::from_yaml(YamlNode::Integer(1)) {
        Err(Error::ValueError(value_table::value::Error::InvalidValue(text))) => {
            assert_eq!(text, "Not a table")
        }
        other => panic!("unexpected: {:?}", other),
    }
    match Table::from_yaml(YamlNode::Alias(3)) {
        Err(Error::ValueError(value_table::value::Error::UnsupportedType(name))) => {
            assert_eq!(name, "alias")
        }
        other => panic!("unexpected: {:?}", other),
    }
}

#[test]
fn yaml_export_of_each_kind() {
    assert_eq!(Value::Null.to_yaml(), YamlNode::Null);
    assert_eq!(Value::Bool(true).to_yaml(), YamlNode::Boolean(true));
    assert_eq!(Value::Int(-3).to_yaml(), YamlNode::Integer(-3));
    assert_eq!(Value::UInt(3).to_yaml(), YamlNode::Integer(3));
    assert_eq!(Value::UInt(u64::MAX).to_yaml(), YamlNode::Integer(-1));
    assert_eq!(
        Value::Float(f64::NAN.to_bits()).to_yaml(),
        YamlNode::Real(f64::NAN.to_bits())
    );
    assert_eq!(
        Value::String("s".to_string()).to_yaml(),
        YamlNode::String("s".to_string())
    );
    assert_eq!(
        Value::Array(vec![Value::Null]).to_yaml(),
        YamlNode::Array(vec![YamlNode::Null])
    );
    let table = Table::new(vec![pair("b", Value::Null), pair("a", Value::UInt(1))]);
    assert_eq!(
        table.to_yaml(),
        YamlNode::Hash(vec![entry("b", YamlNode::Null), entry("a", YamlNode::Integer(1))])
    );
}

#[test]
fn yaml_exported_table_imports_again() {
    let value = Value::Table(Table::new(vec![
        pair("a", Value::Array(vec![Value::Null, Value::Int(-1), Value::UInt(1)])),
        pair("b", Value::Table(Table::new(vec![pair("c", Value::Float(2.5f64.to_bits()))]))),
    ]));
    assert_eq!(Value::from_yaml(value.to_yaml()).unwrap(), value);
}

fn tree(node: &Yaml) -> YamlNode {
    match node {
        Yaml::Real(text) => match text.parse::<f64>() {
            Ok(float) => YamlNode::Real(float.to_bits()),
            Err(_) => YamlNode::BadReal(text.clone()),
        },
        Yaml::Integer(i) => YamlNode::Integer(*i),
        Yaml::String(s) => YamlNode::String(s.clone()),
        Yaml::Boolean(b) => YamlNode::Boolean(*b),
        Yaml::Array(items) => YamlNode::Array(items.iter().map(tree).collect()),
        Yaml::Hash(entries) => {
            YamlNode::Hash(entries.iter().map(|(key, value)| (key.clone(), tree(value))).collect())
        }
        Yaml::Alias(id) => YamlNode::Alias(*id),
        Yaml::Null => YamlNode::Null,
        Yaml::BadValue => YamlNode::BadValue,
    }
}

#[test]
fn yaml_document_from_the_parser_imports() {
    let text = "name: demo\ncount: 3\nbelow: -3\nratio: 2.5\nflags: [true, ~]\nnested:\n  inner: text\n";
    let documents = yaml_rust::YamlLoader::load_from_str(text).unwrap();
    let table = Table::from_yaml(tree(&documents[0])).unwrap();
    assert_eq!(
        table,
        Table::new(vec![
            pair("name", Value::String("demo".to_string())),
            pair("count", Value::UInt(3)),
            pair("below", Value::Int(-3)),
            pair("ratio", Value::Float(2.5f64.to_bits())),
            pair("flags", Value::Array(vec![Value::Bool(true), Value::Null])),
            pair(
                "nested",
                Value::Table(Table::new(vec![pair("inner", Value::String("text".to_string()))]))
            ),
        ])
    );
}

#[test]
fn yaml_document_from_the_parser_with_a_key_that_is_no_string() {
    let documents = yaml_rust::YamlLoader::load_from_str("fine: 1\n2: two\n").unwrap();
    match Table::from_yaml(tree(&documents[0])) {
        Err(Error::ValueError(value_table::value::Error::InvalidValue(text))) => {
            assert_eq!(text, "Integer(2)")
        }
        other => panic!("unexpected: {:?}", other),
    }
}

#[test]
fn yaml_real_whose_text_is_no_float_is_invalid() {
    assert_eq!(
        invalid(Value::from_yaml(YamlNode::BadReal(".inf".to_string()))),
        "Real(\".inf\")"
    );
    let documents = yaml_rust::YamlLoader::load_from_str("a: 1.5\nb: .inf\n").unwrap();
    assert_eq!(invalid(Value::from_yaml(tree(&documents[0]))), "Real(\".inf\")");
    let bad_first = YamlNode::Array(vec![YamlNode::BadValue, YamlNode::BadReal(".nan".to_string())]);
    assert_eq!(invalid(Value::from_yaml(bad_first)), "BadValue");
    let real_first = YamlNode::Array(vec![YamlNode::BadReal(".nan".to_string()), YamlNode::Alias(1)]);
    assert_eq!(invalid(Value::from_yaml(real_first)), "Real(\".nan\")");
}
