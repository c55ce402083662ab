//! JSON: the tree of a JSON document, and the rules between it and the
//! canonical value.
use vstd::prelude::*;
use crate::table::{
    collected, distinct_keys, holds_entry, lemma_collected_distinct, lemma_collected_from, lemma_collected_same,
    Table,
};
use crate::value::{float_is_finite, is_finite_float, Data, Value};

verus! {

/// A JSON number: an unsigned integer, a signed integer, or a float, held
/// by its bits. A JSON library holds an integer as signed only where it is
/// below zero.
#[derive(Debug, Clone, Copy, PartialEq, Eq)]
pub enum JsonNumber {
    PosInt(u64),
    NegInt(i64),
    Float(u64),
}

/// A JSON document. An object is the list of its members.
#[derive(Debug, PartialEq)]
pub enum JsonValue {
    Null,
    Bool(bool),
    Number(JsonNumber),
    String(String),
    Array(Vec<JsonValue>),
    Object(Vec<(String, JsonValue)>),
}

/// The model of a [`JsonValue`].
pub enum JsonData {
    Null,
    Bool(bool),
    Number(JsonNumber),
    String(Seq<char>),
    Array(Seq<JsonData>),
    Object(Seq<(Seq<char>, JsonData)>),
}

impl View for JsonValue {
    type V = JsonData;

    open spec fn view(&self) -> JsonData
        decreases self,
    {
        match self {
            JsonValue::Null => JsonData::Null,
            JsonValue::Bool(b) => JsonData::Bool(*b),
            JsonValue::Number(n) => JsonData::Number(*n),
            JsonValue::String(s) => JsonData::String(s@),
            JsonValue::Array(items) => JsonData::Array(
                Seq::new(
                    items@.len(),
                    |i: int|
                        if 0 <= i < items@.len() {
                            items@[i].view()
                        } else {
                            JsonData::Null
                        },
                ),
            ),
            JsonValue::Object(members) => JsonData::Object(
                Seq::new(
                    members@.len(),
                    |i: int|
                        if 0 <= i < members@.len() {
                            (members@[i].0@, members@[i].1.view())
                        } else {
                            (Seq::empty(), JsonData::Null)
                        },
                ),
            ),
        }
    }
}

/// The number that a JSON library holds, from what the library tells of
/// it: whether it is held as a float, and then that float's bits; whether
/// it is an unsigned integer, and then that integer; and what it is as a
/// signed integer. A float comes first, then an unsigned integer, then a
/// signed one; there is no number where the part that is asked for is
/// missing.
pub open spec fn classified(
    is_float: bool,
    float_bits: Option<u64>,
    is_unsigned: bool,
    unsigned: Option<u64>,
    signed: Option<i64>,
) -> Option<JsonNumber> {
    if is_float {
        match float_bits {
            Some(bits) => Some(JsonNumber::Float(bits)),
            None => None,
        }
    } else if is_unsigned {
        match unsigned {
            Some(u) => Some(JsonNumber::PosInt(u)),
            None => None,
        }
    } else {
        match signed {
            Some(i) => Some(JsonNumber::NegInt(i)),
            None => None,
        }
    }
}

impl JsonNumber {
    /// Tells what kind of number a JSON library holds, from what the
    /// library tells of it.
    pub fn classify(
        is_float: bool,
        float_bits: Option<u64>,
        is_unsigned: bool,
        unsigned: Option<u64>,
        signed: Option<i64>,
    ) -> (number: Option<JsonNumber>)
        ensures
            number == classified(is_float, float_bits, is_unsigned, unsigned, signed),
    {
        if is_float {
            match float_bits {
                Some(bits) => Some(JsonNumber::Float(bits)),
                None => None,
            }
        } else if is_unsigned {
            match unsigned {
                Some(u) => Some(JsonNumber::PosInt(u)),
                None => None,
            }
        } else {
            match signed {
                Some(i) => Some(JsonNumber::NegInt(i)),
                None => None,
            }
        }
    }
}

/// The value of a JSON number: a float stays a float, and an integer is
/// split by its sign, so that one that is not negative becomes unsigned,
/// however the number holds it.
pub open spec fn import_number(n: JsonNumber) -> Data {
    match n {
        JsonNumber::Float(bits) => Data::Float(bits),
        JsonNumber::PosInt(u) => Data::UInt(u),
        JsonNumber::NegInt(i) => Data::of_integer(i),
    }
}

/// The value of a JSON document. Of two members with one key the later one
/// stays.
pub open spec fn import(json: JsonData) -> Data
    decreases json,
{
    match json {
        JsonData::Null => Data::Null,
        JsonData::Bool(b) => Data::Bool(b),
        JsonData::Number(n) => import_number(n),
        JsonData::String(s) => Data::String(s),
        JsonData::Array(items) => Data::Array(
            Seq::new(
                items.len(),
                |i: int|
                    if 0 <= i < items.len() {
                        import(items[i])
                    } else {
                        Data::Null
                    },
            ),
        ),
        JsonData::Object(members) => Data::Table(collected(import_members(members))),
    }
}

/// The members of an object, each value imported.
pub open spec fn import_members(members: Seq<(Seq<char>, JsonData)>) -> Seq<(Seq<char>, Data)>
    decreases members,
{
    Seq::new(
        members.len(),
        |i: int|
            if 0 <= i < members.len() {
                (members[i].0, import(members[i].1))
            } else {
                (Seq::empty(), Data::Null)
            },
    )
}

/// Whether JSON can hold the value: no float in it is an infinity or a NaN.
pub open spec fn exportable(data: Data) -> bool
    decreases data,
{
    match data {
        Data::Float(bits) => float_is_finite(bits),
        Data::Array(items) => forall|i: int| 0 <= i < items.len() ==> exportable(#[trigger] items[i]),
        Data::Table(entries) => forall|i: int| 0 <= i < entries.len() ==> exportable((#[trigger] entries[i]).1),
        _ => true,
    }
}

/// The JSON number of a signed integer.
pub open spec fn export_integer(i: i64) -> JsonNumber {
    if i < 0 {
        JsonNumber::NegInt(i)
    } else {
        JsonNumber::PosInt(i as u64)
    }
}

/// The JSON document of a value.
pub open spec fn export(data: Data) -> JsonData
    decreases data,
{
    match data {
        Data::Null => JsonData::Null,
        Data::Bool(b) => JsonData::Bool(b),
        Data::Int(i) => JsonData::Number(export_integer(i)),
        Data::UInt(u) => JsonData::Number(JsonNumber::PosInt(u)),
        Data::Float(bits) => JsonData::Number(JsonNumber::Float(bits)),
        Data::String(s) => JsonData::String(s),
        Data::Array(items) => JsonData::Array(
            Seq::new(
                items.len(),
                |i: int|
                    if 0 <= i < items.len() {
                        export(items[i])
                    } else {
                        JsonData::Null
                    },
            ),
        ),
        Data::Table(entries) => JsonData::Object(
            Seq::new(
                entries.len(),
                |i: int|
                    if 0 <= i < entries.len() {
                        (entries[i].0, export(entries[i].1))
                    } else {
                        (Seq::empty(), JsonData::Null)
                    },
            ),
        ),
    }
}

/// What is imported is a value whose tables have distinct keys.
pub proof fn lemma_import_well_formed(json: JsonData)
    ensures
        import(json).well_formed(),
    decreases json,
{
    match json {
        JsonData::Array(items) => {
            assert forall|i: int| 0 <= i < items.len() implies (#[trigger] import(json)->Array_0[i]).well_formed() by {
                lemma_import_well_formed(items[i]);
            }
        },
        JsonData::Object(members) => {
            let pairs = import_members(members);
            let entries = collected(pairs);
            lemma_collected_distinct(pairs);
            lemma_collected_from(pairs);
            assert forall|i: int| 0 <= i < entries.len() implies (#[trigger] entries[i]).1.well_formed() by {
                assert(holds_entry(pairs, entries[i]));
                let j = choose|j: int| 0 <= j < pairs.len() && #[trigger] pairs[j] == entries[i];
                lemma_import_well_formed(members[j].1);
            }
        },
        _ => {},
    }
}

/// Whether every signed integer in the value is negative. JSON has one kind
/// of integer, so a signed integer that is not negative comes back
/// unsigned.
pub open spec fn signs_kept(data: Data) -> bool
    decreases data,
{
    match data {
        Data::Int(i) => i < 0,
        Data::Array(items) => forall|i: int| 0 <= i < items.len() ==> signs_kept(#[trigger] items[i]),
        Data::Table(entries) => forall|i: int| 0 <= i < entries.len() ==> signs_kept((#[trigger] entries[i]).1),
        _ => true,
    }
}

/// A value that JSON can hold, and whose signed integers are negative,
/// comes back from JSON as it went: importing what was exported gives the
/// value again.
pub proof fn lemma_round_trip(data: Data)
    requires
        data.well_formed(),
        exportable(data),
        signs_kept(data),
    ensures
        import(export(data)) == data,
    decreases data,
{
    match data {
        Data::Array(items) => {
            assert forall|i: int| 0 <= i < items.len() implies import(export(items[i])) == items[i] by {
                lemma_round_trip(items[i]);
            }
            assert(import(export(data))->Array_0 =~= items);
        },
        Data::Table(entries) => {
            let back = import_members(export(data)->Object_0);
            assert forall|i: int| 0 <= i < entries.len() implies back[i] == entries[i] by {
                lemma_round_trip(entries[i].1);
            }
            assert(back =~= entries);
            lemma_collected_same(entries);
        },
        _ => {},
    }
}

/// Whether a document is one that a JSON library hands out: its integers
/// below zero are negative, its floats are finite, and no object has a key
/// twice.
pub open spec fn well_formed(json: JsonData) -> bool
    decreases json,
{
    match json {
        JsonData::Number(JsonNumber::NegInt(i)) => i < 0,
        JsonData::Number(JsonNumber::Float(bits)) => float_is_finite(bits),
        JsonData::Array(items) => forall|i: int| 0 <= i < items.len() ==> well_formed(#[trigger] items[i]),
        JsonData::Object(members) => distinct_keys(members) && forall|i: int|
            0 <= i < members.len() ==> well_formed((#[trigger] members[i]).1),
        _ => true,
    }
}

/// A document that a JSON library hands out comes back as it went:
/// exporting what it was imported to gives the document again.
pub proof fn lemma_document_round_trip(json: JsonData)
    requires
        well_formed(json),
    ensures
        import(json).well_formed(),
        exportable(import(json)),
        signs_kept(import(json)),
        export(import(json)) == json,
    decreases json,
{
    match json {
        JsonData::Array(items) => {
            assert forall|i: int| 0 <= i < items.len() implies import(items[i]).well_formed() && exportable(
                import(items[i]),
            ) && signs_kept(import(items[i])) && export(import(items[i])) == items[i] by {
                lemma_document_round_trip(items[i]);
            }
            assert(export(import(json))->Array_0 =~= items);
        },
        JsonData::Object(members) => {
            let imported = import_members(members);
            assert forall|i: int| 0 <= i < members.len() implies import(members[i].1).well_formed()
                && exportable(import(members[i].1)) && signs_kept(import(members[i].1)) && export(
                import(members[i].1),
            ) == members[i].1 by {
                lemma_document_round_trip(members[i].1);
            }
            assert forall|i: int, j: int|
                0 <= i < imported.len() && 0 <= j < imported.len() && i != j implies imported[i].0
                != imported[j].0 by {
                assert(imported[i].0 == members[i].0 && imported[j].0 == members[j].0);
            }
            lemma_collected_same(imported);
            assert(export(import(json))->Object_0 =~= members);
        },
        _ => {},
    }
}

/// What is exported is a document that a JSON library can hold.
pub proof fn lemma_export_well_formed(data: Data)
    requires
        data.well_formed(),
        exportable(data),
    ensures
        well_formed(export(data)),
    decreases data,
{
    match data {
        Data::Array(items) => {
            assert forall|i: int| 0 <= i < items.len() implies well_formed(
                #[trigger] export(data)->Array_0[i],
            ) by {
                lemma_export_well_formed(items[i]);
            }
        },
        Data::Table(entries) => {
            let members = export(data)->Object_0;
            assert forall|i: int| 0 <= i < entries.len() implies well_formed((#[trigger] members[i]).1) by {
                lemma_export_well_formed(entries[i].1);
            }
            assert forall|i: int, j: int|
                0 <= i < members.len() && 0 <= j < members.len() && i != j implies members[i].0
                != members[j].0 by {
                assert(members[i].0 == entries[i].0 && members[j].0 == entries[j].0);
            }
        },
        _ => {},
    }
}

impl Value {
    /// Imports a JSON document.
    pub fn from_json(content: JsonValue) -> (value: Value)
        ensures
            value@ == import(content@),
    {
        Value::import_json(&content)
    }

    /// Imports a JSON document that the caller keeps.
    pub fn import_json(content: &JsonValue) -> (value: Value)
        ensures
            value@ == import(content@),
        decreases content@,
    {
        proof {
            reveal_with_fuel(<JsonValue as View>::view, 2);
            reveal_with_fuel(<Value as View>::view, 2);
        }
        match content {
            JsonValue::Null => Value::Null,
            JsonValue::Bool(b) => Value::Bool(*b),
            JsonValue::Number(n) => match n {
                JsonNumber::Float(bits) => Value::Float(*bits),
                JsonNumber::PosInt(u) => Value::UInt(*u),
                JsonNumber::NegInt(i) => Value::from_integer(*i),
            },
            JsonValue::String(s) => Value::String(s.clone()),
            JsonValue::Array(items) => {
                let mut out: Vec<Value> = Vec::with_capacity(items.len());
                let mut i: usize = 0;
                while i < items.len()
                    invariant
                        i <= items@.len(),
                        out@.len() == i,
                        content@ is Array,
                        content@->Array_0.len() == items@.len(),
                        forall|j: int| 0 <= j < items@.len() ==> #[trigger] content@->Array_0[j] == items@[j]@,
                        forall|j: int| 0 <= j < i ==> (#[trigger] out@[j])@ == import(items@[j]@),
                    decreases items@.len() - i,
                {
                    proof {
                        assert(decreases_to!(content@ => content@->Array_0[i as int]));
                    }
                    let item = Value::import_json(&items[i]);
                    out.push(item);
                    i = i + 1;
                }
                let value = Value::Array(out);
                assert(value@->Array_0 =~= import(content@)->Array_0);
                value
            },
            JsonValue::Object(members) => {
                let mut table = Table::with_capacity(members.len());
                let ghost all = import_members(content@->Object_0);
                let mut i: usize = 0;
                while i < members.len()
                    invariant
                        i <= members@.len(),
                        content@ is Object,
                        content@->Object_0.len() == members@.len(),
                        forall|j: int| 0 <= j < members@.len() ==> #[trigger] content@->Object_0[j] == (
                            members@[j].0@,
                            members@[j].1@,
                        ),
                        all == import_members(content@->Object_0),
                        table@ == collected(all.take(i as int)),
                    decreases members@.len() - i,
                {
                    proof {
                        assert(decreases_to!(content@ => content@->Object_0[i as int].1));
                    }
                    let item = Value::import_json(&members[i].1);
                    proof {
                        assert(all.take(i + 1).drop_last() =~= all.take(i as int));
                        assert(all.take(i + 1).last() == (members@[i as int].0@, item@));
                    }
                    table.insert(members[i].0.clone(), item);
                    i = i + 1;
                }
                assert(all.take(members@.len() as int) =~= all);
                Value::Table(table)
            },
        }
    }

    /// Tells whether JSON can hold the value.
    pub fn json_exportable(&self) -> (ok: bool)
        ensures
            ok == exportable(self@),
        decreases self@,
    {
        proof {
            reveal_with_fuel(<Value as View>::view, 2);
        }
        match self {
            Value::Float(bits) => is_finite_float(*bits),
            Value::Array(items) => {
                let mut i: usize = 0;
                while i < items.len()
                    invariant
                        i <= items@.len(),
                        self@ is Array,
                        self@->Array_0.len() == items@.len(),
                        forall|j: int| 0 <= j < items@.len() ==> #[trigger] self@->Array_0[j] == items@[j]@,
                        forall|j: int| 0 <= j < i ==> exportable(#[trigger] self@->Array_0[j]),
                    decreases items@.len() - i,
                {
                    proof {
                        assert(decreases_to!(self@ => self@->Array_0[i as int]));
                    }
                    if !items[i].json_exportable() {
                        return false;
                    }
                    i = i + 1;
                }
                true
            },
            Value::Table(table) => {
                let entries = table.entries();
                let mut i: usize = 0;
                while i < entries.len()
                    invariant
                        i <= entries@.len(),
                        self@ == Data::Table(table@),
                        table@.len() == entries@.len(),
                        forall|j: int| 0 <= j < entries@.len() ==> #[trigger] table@[j] == (
                            entries@[j].0@,
                            entries@[j].1@,
                        ),
                        forall|j: int| 0 <= j < i ==> exportable((#[trigger] table@[j]).1),
                    decreases entries@.len() - i,
                {
                    proof {
                        assert(decreases_to!(self@ => self@->Table_0[i as int].1));
                    }
                    if !entries[i].1.json_exportable() {
                        return false;
                    }
                    i = i + 1;
                }
                true
            },
            _ => true,
        }
    }

    /// Exports the value to JSON, where JSON can hold it.
    pub fn checked_to_json(&self) -> (json: Option<JsonValue>)
        ensures
            match json {
                Some(document) => exportable(self@) && document@ == export(self@),
                None => !exportable(self@),
            },
    {
        if self.json_exportable() {
            Some(self.to_json())
        } else {
            None
        }
    }

    /// Exports a value that JSON can hold. The document is one that a JSON
    /// library can hold.
    pub fn to_json(&self) -> (json: JsonValue)
        requires
            exportable(self@),
        ensures
            json@ == export(self@),
            well_formed(json@),
        decreases self@,
    {
        proof {
            reveal_with_fuel(<JsonValue as View>::view, 2);
            reveal_with_fuel(<Value as View>::view, 2);
        }
        match self {
            Value::Null => JsonValue::Null,
            Value::Bool(b) => JsonValue::Bool(*b),
            Value::Int(i) => if *i < 0 {
                JsonValue::Number(JsonNumber::NegInt(*i))
            } else {
                JsonValue::Number(JsonNumber::PosInt(*i as u64))
            },
            Value::UInt(u) => JsonValue::Number(JsonNumber::PosInt(*u)),
            Value::Float(bits) => JsonValue::Number(JsonNumber::Float(*bits)),
            Value::String(s) => JsonValue::String(s.clone()),
            Value::Array(items) => {
                let mut out: Vec<JsonValue> = Vec::with_capacity(items.len());
                let mut i: usize = 0;
                while i < items.len()
                    invariant
                        i <= items@.len(),
                        out@.len() == i,
                        exportable(self@),
                        self@ is Array,
                        self@->Array_0.len() == items@.len(),
                        forall|j: int| 0 <= j < items@.len() ==> #[trigger] self@->Array_0[j] == items@[j]@,
                        forall|j: int| 0 <= j < i ==> (#[trigger] out@[j])@ == export(items@[j]@),
                        forall|j: int| 0 <= j < i ==> well_formed((#[trigger] out@[j])@),
                    decreases items@.len() - i,
                {
                    proof {
                        assert(exportable(self@->Array_0[i as int]));
                        assert(decreases_to!(self@ => self@->Array_0[i as int]));
                    }
                    let item = items[i].to_json();
                    out.push(item);
                    i = i + 1;
                }
                let json = JsonValue::Array(out);
                assert(json@->Array_0 =~= export(self@)->Array_0);
                json
            },
            Value::Table(table) => {
                let entries = table.entries();
                let mut out: Vec<(String, JsonValue)> = Vec::with_capacity(entries.len());
                let mut i: usize = 0;
                while i < entries.len()
                    invariant
                        i <= entries@.len(),
                        out@.len() == i,
                        exportable(self@),
                        self@ == Data::Table(table@),
                        table@.len() == entries@.len(),
                        forall|j: int| 0 <= j < entries@.len() ==> #[trigger] table@[j] == (
                            entries@[j].0@,
                            entries@[j].1@,
                        ),
                        forall|j: int| 0 <= j < i ==> (#[trigger] out@[j]).0@ == entries@[j].0@ && out@[j].1@
                            == export(entries@[j].1@),
                        forall|j: int| 0 <= j < i ==> well_formed((#[trigger] out@[j]).1@),
                        distinct_keys(table@),
                    decreases entries@.len() - i,
                {
                    proof {
                        assert(exportable(self@->Table_0[i as int].1));
                        assert(decreases_to!(self@ => self@->Table_0[i as int].1));
                    }
                    let item = entries[i].1.to_json();
                    out.push((entries[i].0.clone(), item));
                    i = i + 1;
                }
                let json = JsonValue::Object(out);
                assert(json@->Object_0 =~= export(self@)->Object_0);
                assert forall|x: int, y: int|
                    0 <= x < json@->Object_0.len() && 0 <= y < json@->Object_0.len() && x != y implies json@->Object_0[x].0
                    != json@->Object_0[y].0 by {
                    assert(json@->Object_0[x].0 == table@[x].0 && json@->Object_0[y].0 == table@[y].0);
                }
                json
            },
        }
    }
}

} // verus!
