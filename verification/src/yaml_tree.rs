//! YAML: the tree of a YAML document, and the rules between it and the
//! canonical value.
use vstd::prelude::*;
use crate::table::{
    collected, distinct_keys, holds_entry, lemma_collected_same, lemma_with_entry_distinct, lemma_with_entry_from,
    with_entry, Table,
};
use crate::value::{Data, Error, Failure, Value};

verus! {

/// `yaml_rust::Yaml`, a node as the YAML parser gives it. Nothing is known
/// of what a node holds but what the functions below say.
#[verifier::external_type_specification]
#[verifier::external_body]
pub struct ExYaml(yaml_rust::Yaml);

/// What `yaml_rust::Yaml::as_str` gives for the node: the string of a
/// string node, nothing for a node of any other kind.
pub uninterp spec fn yaml_text(node: yaml_rust::Yaml) -> Option<Seq<char>>;

/// The text that the `Debug` of `yaml_rust::Yaml` writes for the node.
pub uninterp spec fn yaml_rendering(node: yaml_rust::Yaml) -> Seq<char>;

/// The node `yaml_rust::Yaml::String` of the text.
pub uninterp spec fn string_node(text: Seq<char>) -> yaml_rust::Yaml;

/// Calls `yaml_rust::Yaml::as_str`, which gives the string of a
/// `Yaml::String` node and nothing for a node of any other kind.
#[verifier::external_body]
fn yaml_as_str<'a>(node: &'a yaml_rust::Yaml) -> (text: Option<&'a str>)
    ensures
        match text {
            Some(s) => yaml_text(*node) == Some(s@),
            None => yaml_text(*node).is_none(),
        },
{
    node.as_str()
}

/// Formats a `yaml_rust::Yaml` node with its derived `Debug`. The text
/// depends on the node alone, so it is named after the node.
#[verifier::external_body]
fn yaml_debug(node: &yaml_rust::Yaml) -> (text: String)
    ensures
        text@ == yaml_rendering(*node),
{
    format!("{:?}", node)
}

/// Formats `yaml_rust::Yaml::BadValue` with its derived `Debug`, which
/// writes the name of a variant without fields.
#[verifier::external_body]
fn bad_value_debug() -> (text: String)
    ensures
        text@ == "BadValue"@,
{
    format!("{:?}", yaml_rust::Yaml::BadValue)
}

/// Makes a `yaml_rust::Yaml::String` node of the string; `as_str` gives
/// the string back.
#[verifier::external_body]
fn yaml_string(text: String) -> (node: yaml_rust::Yaml)
    ensures
        node == string_node(text@),
        yaml_text(node) == Some(text@),
{
    yaml_rust::Yaml::String(text)
}

/// The node `yaml_rust::Yaml::Real` of the text.
pub uninterp spec fn real_node(text: Seq<char>) -> yaml_rust::Yaml;

/// Makes a `yaml_rust::Yaml::Real` node of the text.
#[verifier::external_body]
fn yaml_real(text: String) -> (node: yaml_rust::Yaml)
    ensures
        node == real_node(text@),
{
    yaml_rust::Yaml::Real(text)
}

/// A YAML document. A real is held by the bits of the float that its text
/// denotes, or as a bad real, with its text, where the text denotes no
/// float. A hash is the list of its entries, and the key of an entry is
/// the YAML node as the parser gave it.
#[derive(Debug, PartialEq)]
pub enum YamlNode {
    Real(u64),
    BadReal(String),
    Integer(i64),
    String(String),
    Boolean(bool),
    Array(Vec<YamlNode>),
    Hash(Vec<(yaml_rust::Yaml, YamlNode)>),
    Alias(usize),
    Null,
    BadValue,
}

/// The model of a [`YamlNode`].
pub enum YamlData {
    Real(u64),
    BadReal(Seq<char>),
    Integer(i64),
    String(Seq<char>),
    Boolean(bool),
    Array(Seq<YamlData>),
    Hash(Seq<(yaml_rust::Yaml, YamlData)>),
    Alias(usize),
    Null,
    BadValue,
}

impl View for YamlNode {
    type V = YamlData;

    open spec fn view(&self) -> YamlData
        decreases self,
    {
        match self {
            YamlNode::Real(bits) => YamlData::Real(*bits),
            YamlNode::BadReal(text) => YamlData::BadReal(text@),
            YamlNode::Integer(i) => YamlData::Integer(*i),
            YamlNode::String(s) => YamlData::String(s@),
            YamlNode::Boolean(b) => YamlData::Boolean(*b),
            YamlNode::Array(items) => YamlData::Array(
                Seq::new(
                    items@.len(),
                    |i: int|
                        if 0 <= i < items@.len() {
                            items@[i].view()
                        } else {
                            YamlData::Null
                        },
                ),
            ),
            YamlNode::Hash(entries) => YamlData::Hash(
                Seq::new(
                    entries@.len(),
                    |i: int|
                        if 0 <= i < entries@.len() {
                            (entries@[i].0, entries@[i].1.view())
                        } else {
                            (entries@[i].0, YamlData::Null)
                        },
                ),
            ),
            YamlNode::Alias(id) => YamlData::Alias(*id),
            YamlNode::Null => YamlData::Null,
            YamlNode::BadValue => YamlData::BadValue,
        }
    }
}

/// What importing a YAML document gives. The nodes are read in document
/// order and the first one that cannot be read decides the failure: an
/// alias is not supported, a bad value is invalid, and so are a real whose
/// text denotes no float and a hash key that is not a string. An integer is split by its sign, and of two
/// entries with one key the later one stays.
pub open spec fn import(yaml: YamlData) -> Result<Data, Failure>
    decreases yaml,
{
    match yaml {
        YamlData::Alias(_) => Err(Failure::UnsupportedType("alias"@)),
        YamlData::BadValue => Err(Failure::InvalidValue("BadValue"@)),
        YamlData::BadReal(text) => Err(Failure::InvalidValue(yaml_rendering(real_node(text)))),
        YamlData::Null => Ok(Data::Null),
        YamlData::Integer(i) => Ok(Data::of_integer(i)),
        YamlData::Real(bits) => Ok(Data::Float(bits)),
        YamlData::String(s) => Ok(Data::String(s)),
        YamlData::Boolean(b) => Ok(Data::Bool(b)),
        YamlData::Array(items) => match import_items(items) {
            Ok(values) => Ok(Data::Array(values)),
            Err(failure) => Err(failure),
        },
        YamlData::Hash(entries) => match import_entries(entries) {
            Ok(table) => Ok(Data::Table(table)),
            Err(failure) => Err(failure),
        },
    }
}

/// The items of an array, imported in order up to the first failure.
pub open spec fn import_items(items: Seq<YamlData>) -> Result<Seq<Data>, Failure>
    decreases items,
{
    if items.len() == 0 {
        Ok(Seq::empty())
    } else {
        match import_items(items.drop_last()) {
            Err(failure) => Err(failure),
            Ok(values) => match import(items.last()) {
                Err(failure) => Err(failure),
                Ok(value) => Ok(values.push(value)),
            },
        }
    }
}

/// The entries of a hash, imported in order up to the first failure. Of
/// each entry the key is read before the value.
pub open spec fn import_entries(entries: Seq<(yaml_rust::Yaml, YamlData)>) -> Result<
    Seq<(Seq<char>, Data)>,
    Failure,
>
    decreases entries,
{
    if entries.len() == 0 {
        Ok(Seq::empty())
    } else {
        match import_entries(entries.drop_last()) {
            Err(failure) => Err(failure),
            Ok(table) => match yaml_text(entries.last().0) {
                None => Err(Failure::InvalidValue(yaml_rendering(entries.last().0))),
                Some(key) => match import(entries.last().1) {
                    Err(failure) => Err(failure),
                    Ok(value) => Ok(with_entry(table, key, value)),
                },
            },
        }
    }
}

/// A failure among the first items is the failure of the whole array.
pub proof fn lemma_items_failure(items: Seq<YamlData>, n: int)
    requires
        0 <= n <= items.len(),
        import_items(items.take(n)) is Err,
    ensures
        import_items(items) == import_items(items.take(n)),
    decreases items.len() - n,
{
    if n < items.len() {
        assert(items.take(n + 1).drop_last() =~= items.take(n));
        lemma_items_failure(items, n + 1);
    } else {
        assert(items.take(n) =~= items);
    }
}

/// A failure among the first entries is the failure of the whole hash.
pub proof fn lemma_entries_failure(entries: Seq<(yaml_rust::Yaml, YamlData)>, n: int)
    requires
        0 <= n <= entries.len(),
        import_entries(entries.take(n)) is Err,
    ensures
        import_entries(entries) == import_entries(entries.take(n)),
    decreases entries.len() - n,
{
    if n < entries.len() {
        assert(entries.take(n + 1).drop_last() =~= entries.take(n));
        lemma_entries_failure(entries, n + 1);
    } else {
        assert(entries.take(n) =~= entries);
    }
}

/// Whether an alias occurs anywhere in the document, the keys of hashes
/// apart.
pub open spec fn has_alias(yaml: YamlData) -> bool
    decreases yaml,
{
    match yaml {
        YamlData::Alias(_) => true,
        YamlData::Array(items) => exists|i: int| 0 <= i < items.len() && has_alias(#[trigger] items[i]),
        YamlData::Hash(entries) => exists|i: int| 0 <= i < entries.len() && has_alias((#[trigger] entries[i]).1),
        _ => false,
    }
}

/// Whether a bad value, a bad real or a hash key that is not a string
/// occurs anywhere in the document.
pub open spec fn has_invalid(yaml: YamlData) -> bool
    decreases yaml,
{
    match yaml {
        YamlData::BadValue => true,
        YamlData::BadReal(_) => true,
        YamlData::Array(items) => exists|i: int| 0 <= i < items.len() && has_invalid(#[trigger] items[i]),
        YamlData::Hash(entries) => exists|i: int|
            0 <= i < entries.len() && (yaml_text((#[trigger] entries[i]).0).is_none() || has_invalid(
                entries[i].1,
            )),
        _ => false,
    }
}

/// What the import of the items of an array comes to: the values of all of
/// them, or the failure of the first item that fails.
pub proof fn lemma_items_result(items: Seq<YamlData>)
    ensures
        match import_items(items) {
            Ok(values) => values.len() == items.len() && forall|i: int|
                0 <= i < items.len() ==> import(#[trigger] items[i]) == Ok::<Data, Failure>(values[i]),
            Err(failure) => exists|k: int|
                0 <= k < items.len() && import(#[trigger] items[k]) == Err::<Data, Failure>(failure) && forall|
                    j: int,
                | 0 <= j < k ==> import(#[trigger] items[j]) is Ok,
        },
    decreases items.len(),
{
    if items.len() > 0 {
        let rest = items.drop_last();
        lemma_items_result(rest);
        assert(forall|i: int| 0 <= i < rest.len() ==> rest[i] == items[i]);
        match import_items(rest) {
            Ok(values) => {
                match import(items.last()) {
                    Ok(value) => {
                        assert forall|i: int| 0 <= i < items.len() implies import(#[trigger] items[i]) == Ok::<
                            Data,
                            Failure,
                        >(values.push(value)[i]) by {
                            if i < rest.len() {
                                assert(rest[i] == items[i]);
                            }
                        }
                    },
                    Err(failure) => {
                        let k = items.len() - 1;
                        assert forall|j: int| 0 <= j < k implies import(#[trigger] items[j]) is Ok by {
                            assert(rest[j] == items[j]);
                        }
                        assert(import(items[k]) == Err::<Data, Failure>(failure));
                    },
                }
            },
            Err(failure) => {
                let k = choose|k: int|
                    0 <= k < rest.len() && import(#[trigger] rest[k]) == Err::<Data, Failure>(failure) && forall|
                        j: int,
                    | 0 <= j < k ==> import(#[trigger] rest[j]) is Ok;
                assert(rest[k] == items[k]);
                assert forall|j: int| 0 <= j < k implies import(#[trigger] items[j]) is Ok by {
                    assert(rest[j] == items[j]);
                }
                assert(import(items[k]) == Err::<Data, Failure>(failure));
            },
        }
    }
}

/// Whether an entry of a hash is read: its key is a string and its value
/// is imported.
pub open spec fn entry_read(entry: (yaml_rust::Yaml, YamlData)) -> bool {
    yaml_text(entry.0).is_some() && import(entry.1) is Ok
}

/// The failure of an entry of a hash that is not read: that of its key
/// where the key is not a string, else that of its value.
pub open spec fn entry_failure(entry: (yaml_rust::Yaml, YamlData)) -> Failure {
    if yaml_text(entry.0).is_none() {
        Failure::InvalidValue(yaml_rendering(entry.0))
    } else {
        match import(entry.1) {
            Err(failure) => failure,
            Ok(_) => arbitrary(),
        }
    }
}

/// What the import of the entries of a hash comes to: a table when every
/// entry is read, or the failure of the first entry that is not.
pub proof fn lemma_entries_result(entries: Seq<(yaml_rust::Yaml, YamlData)>)
    ensures
        match import_entries(entries) {
            Ok(_) => forall|i: int| 0 <= i < entries.len() ==> entry_read(#[trigger] entries[i]),
            Err(failure) => exists|k: int|
                0 <= k < entries.len() && !entry_read(#[trigger] entries[k]) && failure == entry_failure(
                    entries[k],
                ) && forall|j: int| 0 <= j < k ==> entry_read(#[trigger] entries[j]),
        },
    decreases entries.len(),
{
    if entries.len() > 0 {
        let rest = entries.drop_last();
        lemma_entries_result(rest);
        assert(forall|i: int| 0 <= i < rest.len() ==> rest[i] == entries[i]);
        match import_entries(rest) {
            Ok(_) => {
                if entry_read(entries.last()) {
                    assert forall|i: int| 0 <= i < entries.len() implies entry_read(#[trigger] entries[i]) by {
                        if i < rest.len() {
                            assert(rest[i] == entries[i]);
                        }
                    }
                } else {
                    let k = entries.len() - 1;
                    assert forall|j: int| 0 <= j < k implies entry_read(#[trigger] entries[j]) by {
                        assert(rest[j] == entries[j]);
                    }
                    assert(!entry_read(entries[k]));
                }
            },
            Err(failure) => {
                let k = choose|k: int|
                    0 <= k < rest.len() && !entry_read(#[trigger] rest[k]) && failure == entry_failure(rest[k])
                        && forall|j: int| 0 <= j < k ==> entry_read(#[trigger] rest[j]);
                assert(rest[k] == entries[k]);
                assert forall|j: int| 0 <= j < k implies entry_read(#[trigger] entries[j]) by {
                    assert(rest[j] == entries[j]);
                }
                assert(!entry_read(entries[k]));
            },
        }
    }
}

/// A document is imported exactly when it holds neither an alias, nor a
/// bad value, nor a hash key that is not a string. Where it holds an alias
/// and none of the other two, the import fails on the alias, however deep
/// it lies; where it holds one of the other two and no alias, the import
/// fails on an invalid value.
pub proof fn lemma_import_failure(yaml: YamlData)
    ensures
        import(yaml) is Ok <==> !has_alias(yaml) && !has_invalid(yaml),
        has_alias(yaml) && !has_invalid(yaml) ==> import(yaml) == Err::<Data, Failure>(
            Failure::UnsupportedType("alias"@),
        ),
        has_invalid(yaml) && !has_alias(yaml) ==> import(yaml) matches Err(Failure::InvalidValue(_)),
    decreases yaml,
{
    match yaml {
        YamlData::Array(items) => {
            lemma_items_result(items);
            assert forall|i: int| 0 <= i < items.len() implies (import(#[trigger] items[i]) is Ok <==> !has_alias(
                items[i],
            ) && !has_invalid(items[i])) && (has_alias(items[i]) && !has_invalid(items[i]) ==> import(items[i])
                == Err::<Data, Failure>(Failure::UnsupportedType("alias"@))) && (has_invalid(items[i])
                && !has_alias(items[i]) ==> import(items[i]) matches Err(Failure::InvalidValue(_))) by {
                lemma_import_failure(items[i]);
            }
        },
        YamlData::Hash(entries) => {
            lemma_entries_result(entries);
            assert forall|i: int| 0 <= i < entries.len() implies (import((#[trigger] entries[i]).1) is Ok
                <==> !has_alias(entries[i].1) && !has_invalid(entries[i].1)) && (has_alias(entries[i].1)
                && !has_invalid(entries[i].1) ==> import(entries[i].1) == Err::<Data, Failure>(
                Failure::UnsupportedType("alias"@),
            )) && (has_invalid(entries[i].1) && !has_alias(entries[i].1) ==> import(
                entries[i].1,
            ) matches Err(Failure::InvalidValue(_))) by {
                lemma_import_failure(entries[i].1);
            }
        },
        _ => {},
    }
}

/// A hash whose key at `k` is not a string, and whose entries before `k`
/// are read, fails on that key, whatever the entries after it hold: no
/// part of the hash is imported.
pub proof fn lemma_key_refused(entries: Seq<(yaml_rust::Yaml, YamlData)>, k: int)
    requires
        0 <= k < entries.len(),
        yaml_text(entries[k].0).is_none(),
        forall|j: int| 0 <= j < k ==> entry_read(#[trigger] entries[j]),
    ensures
        import(YamlData::Hash(entries)) == Err::<Data, Failure>(
            Failure::InvalidValue(yaml_rendering(entries[k].0)),
        ),
{
    lemma_entries_result(entries);
    match import_entries(entries) {
        Ok(_) => {
            assert(entry_read(entries[k]));
        },
        Err(failure) => {
            let at = choose|at: int|
                0 <= at < entries.len() && !entry_read(#[trigger] entries[at]) && failure == entry_failure(
                    entries[at],
                ) && forall|j: int| 0 <= j < at ==> entry_read(#[trigger] entries[j]);
            if at < k {
                assert(entry_read(entries[at]));
            }
            if k < at {
                assert(entry_read(entries[k]));
            }
        },
    }
}

/// Whether the value is what one of the entries of a hash imports to.
pub open spec fn value_of_entry(entries: Seq<(yaml_rust::Yaml, YamlData)>, value: Data) -> bool {
    exists|j: int| 0 <= j < entries.len() && import((#[trigger] entries[j]).1) == Ok::<Data, Failure>(value)
}

/// The table that the entries of a hash import to has distinct keys, and
/// each of its values is what one of the entries imports to.
pub proof fn lemma_entries_table(entries: Seq<(yaml_rust::Yaml, YamlData)>)
    ensures
        import_entries(entries) matches Ok(table) ==> distinct_keys(table) && forall|i: int|
            0 <= i < table.len() ==> value_of_entry(entries, (#[trigger] table[i]).1),
    decreases entries.len(),
{
    if entries.len() > 0 {
        let rest = entries.drop_last();
        lemma_entries_table(rest);
        if let Ok(table) = import_entries(entries) {
            let before = import_entries(rest)->Ok_0;
            let key = yaml_text(entries.last().0)->Some_0;
            let value = import(entries.last().1)->Ok_0;
            lemma_with_entry_distinct(before, key, value);
            lemma_with_entry_from(before, key, value);
            assert forall|i: int| 0 <= i < table.len() implies value_of_entry(entries, (#[trigger] table[i]).1) by {
                if table[i] == (key, value) {
                    assert(import(entries[entries.len() - 1].1) == Ok::<Data, Failure>(value));
                } else {
                    assert(holds_entry(before, table[i]));
                    let at = choose|at: int| 0 <= at < before.len() && #[trigger] before[at] == table[i];
                    assert(value_of_entry(rest, before[at].1));
                    let j = choose|j: int|
                        0 <= j < rest.len() && import((#[trigger] rest[j]).1) == Ok::<Data, Failure>(before[at].1);
                    assert(entries[j] == rest[j]);
                }
            }
        }
    }
}

/// What is imported is a value whose tables have distinct keys.
pub proof fn lemma_import_well_formed(yaml: YamlData)
    ensures
        import(yaml) matches Ok(data) ==> data.well_formed(),
    decreases yaml,
{
    match yaml {
        YamlData::Array(items) => {
            lemma_items_result(items);
            if let Ok(values) = import_items(items) {
                assert forall|i: int| 0 <= i < values.len() implies (#[trigger] values[i]).well_formed() by {
                    lemma_import_well_formed(items[i]);
                }
            }
        },
        YamlData::Hash(entries) => {
            lemma_entries_table(entries);
            if let Ok(table) = import_entries(entries) {
                assert forall|i: int| 0 <= i < table.len() implies (#[trigger] table[i]).1.well_formed() by {
                    assert(value_of_entry(entries, table[i].1));
                    let j = choose|j: int|
                        0 <= j < entries.len() && import((#[trigger] entries[j]).1) == Ok::<Data, Failure>(
                            table[i].1,
                        );
                    lemma_import_well_formed(entries[j].1);
                }
            }
        },
        _ => {},
    }
}

/// The YAML document of a value. An unsigned integer is narrowed to 64
/// signed bits, and one above the signed range wraps.
pub open spec fn export(data: Data) -> YamlData
    decreases data,
{
    match data {
        Data::Null => YamlData::Null,
        Data::Bool(b) => YamlData::Boolean(b),
        Data::Float(bits) => YamlData::Real(bits),
        Data::Int(i) => YamlData::Integer(i),
        Data::UInt(u) => YamlData::Integer(u as i64),
        Data::String(s) => YamlData::String(s),
        Data::Array(items) => YamlData::Array(
            Seq::new(
                items.len(),
                |i: int|
                    if 0 <= i < items.len() {
                        export(items[i])
                    } else {
                        YamlData::Null
                    },
            ),
        ),
        Data::Table(entries) => YamlData::Hash(
            Seq::new(
                entries.len(),
                |i: int|
                    if 0 <= i < entries.len() {
                        (string_node(entries[i].0), export(entries[i].1))
                    } else {
                        (string_node(Seq::empty()), YamlData::Null)
                    },
            ),
        ),
    }
}

/// Whether every key in the document reads as the key of the table entry
/// that it stands for, at every depth.
pub open spec fn keyed_as(yaml: YamlData, data: Data) -> bool
    decreases yaml,
{
    match (yaml, data) {
        (YamlData::Array(items), Data::Array(values)) => items.len() == values.len() ==> forall|i: int|
            0 <= i < items.len() ==> keyed_as(#[trigger] items[i], values[i]),
        (YamlData::Hash(entries), Data::Table(table)) => entries.len() == table.len() ==> forall|i: int|
            0 <= i < entries.len() ==> yaml_text((#[trigger] entries[i]).0) == Some(table[i].0) && keyed_as(
                entries[i].1,
                table[i].1,
            ),
        _ => true,
    }
}

/// Whether every integer in the value is one that YAML gives back as it
/// is: a signed one is negative, an unsigned one is within the signed
/// range.
pub open spec fn integers_kept(data: Data) -> bool
    decreases data,
{
    match data {
        Data::Int(i) => i < 0,
        Data::UInt(u) => u <= i64::MAX,
        Data::Array(items) => forall|i: int| 0 <= i < items.len() ==> integers_kept(#[trigger] items[i]),
        Data::Table(entries) => forall|i: int| 0 <= i < entries.len() ==> integers_kept((#[trigger] entries[i]).1),
        _ => true,
    }
}

/// What the entries of a hash are read as, where each of them is read.
pub open spec fn read_pairs(entries: Seq<(yaml_rust::Yaml, YamlData)>) -> Seq<(Seq<char>, Data)> {
    Seq::new(entries.len(), |i: int| (yaml_text(entries[i].0)->Some_0, import(entries[i].1)->Ok_0))
}

/// A hash whose entries are all read imports to the table that their keys
/// and values make.
pub proof fn lemma_entries_read(entries: Seq<(yaml_rust::Yaml, YamlData)>)
    requires
        forall|i: int| 0 <= i < entries.len() ==> entry_read(#[trigger] entries[i]),
    ensures
        import_entries(entries) == Ok::<Seq<(Seq<char>, Data)>, Failure>(collected(read_pairs(entries))),
    decreases entries.len(),
{
    if entries.len() > 0 {
        let rest = entries.drop_last();
        assert forall|i: int| 0 <= i < rest.len() implies entry_read(#[trigger] rest[i]) by {
            assert(rest[i] == entries[i]);
        }
        lemma_entries_read(rest);
        assert(entry_read(entries[entries.len() - 1]));
        assert(read_pairs(entries).drop_last() =~= read_pairs(rest));
    } else {
        assert(read_pairs(entries) =~= Seq::empty());
    }
}

/// A value whose integers YAML gives back comes back from YAML as it went:
/// importing the document that it was exported to, whose keys read as the
/// keys of its tables, gives the value again.
pub proof fn lemma_round_trip(data: Data, yaml: YamlData)
    requires
        data.well_formed(),
        integers_kept(data),
        yaml == export(data),
        keyed_as(yaml, data),
    ensures
        import(yaml) == Ok::<Data, Failure>(data),
    decreases data,
{
    match data {
        Data::Array(values) => {
            let items = yaml->Array_0;
            assert forall|i: int| 0 <= i < items.len() implies import(#[trigger] items[i]) == Ok::<Data, Failure>(
                values[i],
            ) by {
                lemma_round_trip(values[i], items[i]);
            }
            lemma_items_result(items);
            match import_items(items) {
                Ok(back) => {
                    assert(items.len() == values.len());
                    assert forall|i: int| 0 <= i < back.len() implies back[i] == values[i] by {
                        assert(import(items[i]) == Ok::<Data, Failure>(back[i]));
                        assert(import(items[i]) == Ok::<Data, Failure>(values[i]));
                    }
                    assert(back =~= values);
                },
                Err(failure) => {},
            }
        },
        Data::Table(table) => {
            let entries = yaml->Hash_0;
            assert forall|i: int| 0 <= i < entries.len() implies entry_read(#[trigger] entries[i]) && import(
                entries[i].1,
            ) == Ok::<Data, Failure>(table[i].1) by {
                lemma_round_trip(table[i].1, entries[i].1);
            }
            lemma_entries_read(entries);
            assert(read_pairs(entries) =~= table);
            lemma_collected_same(table);
        },
        _ => {},
    }
}

/// The result of an import, as a model.
pub open spec fn result_view(result: Result<Value, Error>) -> Result<Data, Failure> {
    match result {
        Ok(value) => Ok(value@),
        Err(error) => Err(error@),
    }
}

/// The model of a vector of values.
pub open spec fn values_view(values: Seq<Value>) -> Seq<Data> {
    Seq::new(values.len(), |i: int| values[i]@)
}

impl Value {
    /// Imports a YAML document.
    pub fn from_yaml(content: YamlNode) -> (result: Result<Value, Error>)
        ensures
            result_view(result) == import(content@),
    {
        Value::import_yaml(&content)
    }

    /// Imports a YAML document that the caller keeps.
    pub fn import_yaml(content: &YamlNode) -> (result: Result<Value, Error>)
        ensures
            result_view(result) == import(content@),
        decreases content@,
    {
        proof {
            reveal_with_fuel(<YamlNode as View>::view, 2);
            reveal_with_fuel(<Value as View>::view, 2);
        }
        match content {
            YamlNode::Alias(_) => Err(Error::UnsupportedType("alias")),
            YamlNode::BadValue => Err(Error::InvalidValue(bad_value_debug())),
            YamlNode::BadReal(text) => {
                let node = yaml_real(text.clone());
                Err(Error::InvalidValue(yaml_debug(&node)))
            },
            YamlNode::Null => Ok(Value::Null),
            YamlNode::Integer(i) => Ok(Value::from_integer(*i)),
            YamlNode::Real(bits) => Ok(Value::Float(*bits)),
            YamlNode::String(s) => Ok(Value::String(s.clone())),
            YamlNode::Boolean(b) => Ok(Value::Bool(*b)),
            YamlNode::Array(items) => {
                let mut out: Vec<Value> = Vec::with_capacity(items.len());
                let ghost all = content@->Array_0;
                let mut i: usize = 0;
                assert(values_view(out@) =~= Seq::<Data>::empty());
                while i < items.len()
                    invariant
                        i <= items@.len(),
                        content@ == YamlData::Array(all),
                        all.len() == items@.len(),
                        forall|j: int| 0 <= j < items@.len() ==> #[trigger] all[j] == items@[j]@,
                        import_items(all.take(i as int)) == Ok::<Seq<Data>, Failure>(values_view(out@)),
                    decreases items@.len() - i,
                {
                    proof {
                        assert(decreases_to!(content@ => content@->Array_0[i as int]));
                        assert(all.take(i + 1).drop_last() =~= all.take(i as int));
                    }
                    match Value::import_yaml(&items[i]) {
                        Ok(item) => {
                            proof {
                                assert(values_view(out@).push(item@) =~= values_view(out@.push(item)));
                            }
                            out.push(item);
                        },
                        Err(error) => {
                            proof {
                                lemma_items_failure(all, i + 1);
                            }
                            return Err(error);
                        },
                    }
                    i = i + 1;
                }
                assert(all.take(items@.len() as int) =~= all);
                let value = Value::Array(out);
                assert(value@->Array_0 =~= values_view(out@));
                Ok(value)
            },
            YamlNode::Hash(entries) => {
                let mut table = Table::with_capacity(entries.len());
                let ghost all = content@->Hash_0;
                let mut i: usize = 0;
                while i < entries.len()
                    invariant
                        i <= entries@.len(),
                        content@ == YamlData::Hash(all),
                        all.len() == entries@.len(),
                        forall|j: int| 0 <= j < entries@.len() ==> #[trigger] all[j] == (
                            entries@[j].0,
                            entries@[j].1@,
                        ),
                        import_entries(all.take(i as int)) == Ok::<Seq<(Seq<char>, Data)>, Failure>(table@),
                    decreases entries@.len() - i,
                {
                    proof {
                        assert(decreases_to!(content@ => content@->Hash_0[i as int].1));
                        assert(all.take(i + 1).drop_last() =~= all.take(i as int));
                    }
                    match yaml_as_str(&entries[i].0) {
                        None => {
                            proof {
                                lemma_entries_failure(all, i + 1);
                            }
                            return Err(Error::InvalidValue(yaml_debug(&entries[i].0)));
                        },
                        Some(key) => {
                            match Value::import_yaml(&entries[i].1) {
                                Ok(item) => {
                                    table.insert(key.to_owned(), item);
                                },
                                Err(error) => {
                                    proof {
                                        lemma_entries_failure(all, i + 1);
                                    }
                                    return Err(error);
                                },
                            }
                        },
                    }
                    i = i + 1;
                }
                assert(all.take(entries@.len() as int) =~= all);
                Ok(Value::Table(table))
            },
        }
    }

    /// Exports the value to YAML. The document can be imported again: it
    /// holds no alias, no bad value and no bad real, and every key in it is
    /// a string node that reads as the key of the table entry.
    pub fn to_yaml(&self) -> (yaml: YamlNode)
        ensures
            yaml@ == export(self@),
            keyed_as(yaml@, self@),
            !has_alias(yaml@),
            !has_invalid(yaml@),
        decreases self@,
    {
        proof {
            reveal_with_fuel(<YamlNode as View>::view, 2);
            reveal_with_fuel(<Value as View>::view, 2);
        }
        match self {
            Value::Null => YamlNode::Null,
            Value::Bool(b) => YamlNode::Boolean(*b),
            Value::Float(bits) => YamlNode::Real(*bits),
            Value::Int(i) => YamlNode::Integer(*i),
            Value::UInt(u) => YamlNode::Integer(#[verifier::truncate] (*u as i64)),
            Value::String(s) => YamlNode::String(s.clone()),
            Value::Array(items) => {
                let mut out: Vec<YamlNode> = Vec::with_capacity(items.len());
                let mut i: usize = 0;
                while i < items.len()
                    invariant
                        i <= items@.len(),
                        out@.len() == i,
                        self@ is Array,
                        self@->Array_0.len() == items@.len(),
                        forall|j: int| 0 <= j < items@.len() ==> #[trigger] self@->Array_0[j] == items@[j]@,
                        forall|j: int| 0 <= j < i ==> (#[trigger] out@[j])@ == export(items@[j]@),
                        forall|j: int| 0 <= j < i ==> !has_alias((#[trigger] out@[j])@) && !has_invalid(out@[j]@)
                            && keyed_as(out@[j]@, items@[j]@),
                    decreases items@.len() - i,
                {
                    proof {
                        assert(decreases_to!(self@ => self@->Array_0[i as int]));
                    }
                    let item = items[i].to_yaml();
                    out.push(item);
                    i = i + 1;
                }
                let yaml = YamlNode::Array(out);
                assert(yaml@->Array_0 =~= export(self@)->Array_0);
                yaml
            },
            Value::Table(table) => {
                let entries = table.entries();
                let mut out: Vec<(yaml_rust::Yaml, YamlNode)> = Vec::with_capacity(entries.len());
                let mut i: usize = 0;
                while i < entries.len()
                    invariant
                        i <= entries@.len(),
                        out@.len() == i,
                        self@ == Data::Table(table@),
                        table@.len() == entries@.len(),
                        forall|j: int| 0 <= j < entries@.len() ==> #[trigger] table@[j] == (
                            entries@[j].0@,
                            entries@[j].1@,
                        ),
                        forall|j: int| 0 <= j < i ==> (#[trigger] out@[j]).0 == string_node(entries@[j].0@)
                            && out@[j].1@ == export(entries@[j].1@),
                        forall|j: int| 0 <= j < i ==> yaml_text((#[trigger] out@[j]).0) == Some(entries@[j].0@)
                            && !has_alias(out@[j].1@) && !has_invalid(out@[j].1@) && keyed_as(
                            out@[j].1@,
                            entries@[j].1@,
                        ),
                    decreases entries@.len() - i,
                {
                    proof {
                        assert(decreases_to!(self@ => self@->Table_0[i as int].1));
                    }
                    let item = entries[i].1.to_yaml();
                    out.push((yaml_string(entries[i].0.clone()), item));
                    i = i + 1;
                }
                let yaml = YamlNode::Hash(out);
                assert(yaml@->Hash_0 =~= export(self@)->Hash_0);
                yaml
            },
        }
    }
}

} // verus!
