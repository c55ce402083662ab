//! TOML: the tree of a TOML document, and the rules between it and the
//! canonical value.
use vstd::prelude::*;
use crate::table::{collected, holds_entry, lemma_collected_distinct, lemma_collected_from, Table};
use crate::value::{Data, Error, Failure, Value};

verus! {

/// The calendar date of a datetime.
#[derive(Debug, Clone, Copy, PartialEq, Eq)]
pub struct TomlDate {
    pub year: u16,
    pub month: u8,
    pub day: u8,
}

/// The time of day of a datetime.
#[derive(Debug, Clone, Copy, PartialEq, Eq)]
pub struct TomlTime {
    pub hour: u8,
    pub minute: u8,
    pub second: u8,
    pub nanosecond: u32,
}

/// The offset of a datetime from UTC: none, or a number of minutes.
#[derive(Debug, Clone, Copy, PartialEq, Eq)]
pub enum TomlOffset {
    Z,
    Custom { minutes: i16 },
}

/// Whether an offset can be written as text: its minutes can be negated,
/// which the least number of minutes cannot.
pub open spec fn offset_writable(offset: Option<TomlOffset>) -> bool {
    match offset {
        Some(TomlOffset::Custom { minutes }) => minutes > i16::MIN,
        _ => true,
    }
}

/// A TOML datetime: a date, a time or both, with or without an offset. Its
/// offset can be written as text.
#[derive(Debug, Clone, Copy, PartialEq, Eq)]
pub struct TomlDatetime {
    date: Option<TomlDate>,
    time: Option<TomlTime>,
    offset: Option<TomlOffset>,
}

impl View for TomlDatetime {
    type V = (Option<TomlDate>, Option<TomlTime>, Option<TomlOffset>);

    closed spec fn view(&self) -> (Option<TomlDate>, Option<TomlTime>, Option<TomlOffset>) {
        (self.date, self.time, self.offset)
    }
}

impl TomlDatetime {
    #[verifier::type_invariant]
    spec fn offset_is_writable(self) -> bool {
        offset_writable(self.offset)
    }

    /// The datetime of the parts, where the offset can be written as text.
    pub fn new(date: Option<TomlDate>, time: Option<TomlTime>, offset: Option<TomlOffset>) -> (datetime: Option<
        TomlDatetime,
    >)
        ensures
            match datetime {
                Some(made) => offset_writable(offset) && made@ == (date, time, offset),
                None => !offset_writable(offset),
            },
    {
        let writable = match offset {
            Some(TomlOffset::Custom { minutes }) => minutes > i16::MIN,
            _ => true,
        };
        if writable {
            Some(TomlDatetime { date, time, offset })
        } else {
            None
        }
    }

    /// The date, if the datetime has one.
    pub fn date(&self) -> (date: Option<TomlDate>)
        ensures
            date == self@.0,
    {
        self.date
    }

    /// The time, if the datetime has one.
    pub fn time(&self) -> (time: Option<TomlTime>)
        ensures
            time == self@.1,
    {
        self.time
    }

    /// The offset, if the datetime has one.
    pub fn offset(&self) -> (offset: Option<TomlOffset>)
        ensures
            offset == self@.2,
            offset_writable(offset),
    {
        proof {
            use_type_invariant(self);
        }
        self.offset
    }
}

/// The text that the `Display` of `toml::value::Datetime` writes for the
/// datetime of the parts.
pub uninterp spec fn datetime_text(date: Option<TomlDate>, time: Option<TomlTime>, offset: Option<TomlOffset>) -> Seq<
    char,
>;

/// Makes the `toml::value::Datetime` of the parts and calls `to_string` on
/// it, which goes through its `Display`. The text depends on the parts and
/// on nothing else, so it is named after them. The `Display` negates the
/// minutes of a negative offset, which fails for the least number of
/// minutes: that offset is left out.
#[verifier::external_body]
fn datetime_to_string(date: Option<TomlDate>, time: Option<TomlTime>, offset: Option<TomlOffset>) -> (text: String)
    requires
        offset_writable(offset),
    ensures
        text@ == datetime_text(date, time, offset),
{
    let date = date.map(|d| toml::value::Date { year: d.year, month: d.month, day: d.day });
    let time = time.map(|t| toml::value::Time { hour: t.hour, minute: t.minute, second: t.second, nanosecond: t.nanosecond });
    let offset = offset.map(|o| match o {
        TomlOffset::Z => toml::value::Offset::Z,
        TomlOffset::Custom { minutes } => toml::value::Offset::Custom { minutes },
    });
    toml::value::Datetime { date, time, offset }.to_string()
}

/// A TOML document. A table is the list of its entries.
#[derive(Debug, PartialEq)]
pub enum TomlValue {
    String(String),
    Integer(i64),
    Float(u64),
    Boolean(bool),
    Datetime(TomlDatetime),
    Array(Vec<TomlValue>),
    Table(Vec<(String, TomlValue)>),
}

/// The model of a [`TomlValue`].
pub enum TomlData {
    String(Seq<char>),
    Integer(i64),
    Float(u64),
    Boolean(bool),
    Datetime(TomlDatetime),
    Array(Seq<TomlData>),
    Table(Seq<(Seq<char>, TomlData)>),
}

impl View for TomlValue {
    type V = TomlData;

    open spec fn view(&self) -> TomlData
        decreases self,
    {
        match self {
            TomlValue::String(s) => TomlData::String(s@),
            TomlValue::Integer(i) => TomlData::Integer(*i),
            TomlValue::Float(bits) => TomlData::Float(*bits),
            TomlValue::Boolean(b) => TomlData::Boolean(*b),
            TomlValue::Datetime(datetime) => TomlData::Datetime(*datetime),
            TomlValue::Array(items) => TomlData::Array(
                Seq::new(
                    items@.len(),
                    |i: int|
                        if 0 <= i < items@.len() {
                            items@[i].view()
                        } else {
                            TomlData::Boolean(false)
                        },
                ),
            ),
            TomlValue::Table(entries) => TomlData::Table(
                Seq::new(
                    entries@.len(),
                    |i: int|
                        if 0 <= i < entries@.len() {
                            (entries@[i].0@, entries@[i].1.view())
                        } else {
                            (Seq::empty(), TomlData::Boolean(false))
                        },
                ),
            ),
        }
    }
}

/// The value of a TOML document. An integer is split by its sign, a
/// datetime becomes the text that it shows itself as, and of two entries
/// with one key the later one stays.
pub open spec fn import(toml: TomlData) -> Data
    decreases toml,
{
    match toml {
        TomlData::String(s) => Data::String(s),
        TomlData::Integer(i) => Data::of_integer(i),
        TomlData::Float(bits) => Data::Float(bits),
        TomlData::Boolean(b) => Data::Bool(b),
        TomlData::Datetime(datetime) => Data::String(datetime_text(datetime@.0, datetime@.1, datetime@.2)),
        TomlData::Array(items) => Data::Array(
            Seq::new(
                items.len(),
                |i: int|
                    if 0 <= i < items.len() {
                        import(items[i])
                    } else {
                        Data::Null
                    },
            ),
        ),
        TomlData::Table(entries) => Data::Table(collected(import_entries(entries))),
    }
}

/// The entries of a table, each value imported.
pub open spec fn import_entries(entries: Seq<(Seq<char>, TomlData)>) -> Seq<(Seq<char>, Data)>
    decreases entries,
{
    Seq::new(
        entries.len(),
        |i: int|
            if 0 <= i < entries.len() {
                (entries[i].0, import(entries[i].1))
            } else {
                (Seq::empty(), Data::Null)
            },
    )
}

/// What is imported is a value whose tables have distinct keys, and no
/// null is in it.
pub proof fn lemma_import_well_formed(toml: TomlData)
    ensures
        import(toml).well_formed(),
        !has_null(import(toml)),
    decreases toml,
{
    match toml {
        TomlData::Array(items) => {
            assert forall|i: int| 0 <= i < items.len() implies (#[trigger] import(toml)->Array_0[i]).well_formed()
                && !has_null(import(toml)->Array_0[i]) by {
                lemma_import_well_formed(items[i]);
            }
        },
        TomlData::Table(members) => {
            let pairs = import_entries(members);
            let entries = collected(pairs);
            lemma_collected_distinct(pairs);
            lemma_collected_from(pairs);
            assert forall|i: int| 0 <= i < entries.len() implies (#[trigger] entries[i]).1.well_formed()
                && !has_null(entries[i].1) by {
                assert(holds_entry(pairs, entries[i]));
                let j = choose|j: int| 0 <= j < pairs.len() && #[trigger] pairs[j] == entries[i];
                lemma_import_well_formed(members[j].1);
            }
        },
        _ => {},
    }
}

/// Whether a null occurs anywhere in the value.
pub open spec fn has_null(data: Data) -> bool
    decreases data,
{
    match data {
        Data::Null => true,
        Data::Array(items) => exists|i: int| 0 <= i < items.len() && has_null(#[trigger] items[i]),
        Data::Table(entries) => exists|i: int| 0 <= i < entries.len() && has_null((#[trigger] entries[i]).1),
        _ => false,
    }
}

/// The TOML document of a value without a null. An unsigned integer is
/// narrowed to 64 signed bits, and one above the signed range wraps.
pub open spec fn export(data: Data) -> TomlData
    recommends
        !has_null(data),
    decreases data,
{
    match data {
        Data::Null => TomlData::Boolean(false),
        Data::Bool(b) => TomlData::Boolean(b),
        Data::Int(i) => TomlData::Integer(i),
        Data::UInt(u) => TomlData::Integer(u as i64),
        Data::Float(bits) => TomlData::Float(bits),
        Data::String(s) => TomlData::String(s),
        Data::Array(items) => TomlData::Array(
            Seq::new(
                items.len(),
                |i: int|
                    if 0 <= i < items.len() {
                        export(items[i])
                    } else {
                        TomlData::Boolean(false)
                    },
            ),
        ),
        Data::Table(entries) => TomlData::Table(
            Seq::new(
                entries.len(),
                |i: int|
                    if 0 <= i < entries.len() {
                        (entries[i].0, export(entries[i].1))
                    } else {
                        (Seq::empty(), TomlData::Boolean(false))
                    },
            ),
        ),
    }
}

/// What exporting to TOML gives: no document for a value with a null in
/// it, whatever else it holds, and the document of any other value.
pub open spec fn export_result(data: Data) -> Result<TomlData, Failure> {
    if has_null(data) {
        Err(Failure::UnsupportedType("null"@))
    } else {
        Ok(export(data))
    }
}

/// A null is refused wherever it lies: a value that holds one, at the top
/// or inside an array or a table at any depth, is not exported, and the
/// failure names the null. Every value without a null is exported.
pub proof fn lemma_null_refused(data: Data)
    ensures
        has_null(data) ==> export_result(data) == Err::<TomlData, Failure>(Failure::UnsupportedType("null"@)),
        !has_null(data) ==> export_result(data) == Ok::<TomlData, Failure>(export(data)),
        data is Array ==> (has_null(data) <==> exists|i: int|
            0 <= i < data->Array_0.len() && has_null(#[trigger] data->Array_0[i])),
        data is Table ==> (has_null(data) <==> exists|i: int|
            0 <= i < data->Table_0.len() && has_null((#[trigger] data->Table_0[i]).1)),
{
}

/// The result of an export, as a model.
pub open spec fn result_view(result: Result<TomlValue, Error>) -> Result<TomlData, Failure> {
    match result {
        Ok(toml) => Ok(toml@),
        Err(error) => Err(error@),
    }
}

impl Value {
    /// Imports a TOML document.
    pub fn from_toml(content: TomlValue) -> (value: Value)
        ensures
            value@ == import(content@),
    {
        Value::import_toml(&content)
    }

    /// Imports a TOML document that the caller keeps.
    pub fn import_toml(content: &TomlValue) -> (value: Value)
        ensures
            value@ == import(content@),
        decreases content@,
    {
        proof {
            reveal_with_fuel(<TomlValue as View>::view, 2);
            reveal_with_fuel(<Value as View>::view, 2);
        }
        match content {
            TomlValue::String(s) => Value::String(s.clone()),
            TomlValue::Integer(i) => Value::from_integer(*i),
            TomlValue::Float(bits) => Value::Float(*bits),
            TomlValue::Boolean(b) => Value::Bool(*b),
            TomlValue::Datetime(datetime) => Value::String(
                datetime_to_string(datetime.date(), datetime.time(), datetime.offset()),
            ),
            TomlValue::Array(items) => {
                let mut out: Vec<Value> = Vec::with_capacity(items.len());
                let mut i: usize = 0;
                while i < items.len()
                    invariant
                        i <= items@.len(),
                        out@.len() == i,
                        content@ is Array,
                        content@->Array_0.len() == items@.len(),
                        forall|j: int| 0 <= j < items@.len() ==> #[trigger] content@->Array_0[j] == items@[j]@,
                        forall|j: int| 0 <= j < i ==> (#[trigger] out@[j])@ == import(items@[j]@),
                    decreases items@.len() - i,
                {
                    proof {
                        assert(decreases_to!(content@ => content@->Array_0[i as int]));
                    }
                    let item = Value::import_toml(&items[i]);
                    out.push(item);
                    i = i + 1;
                }
                let value = Value::Array(out);
                assert(value@->Array_0 =~= import(content@)->Array_0);
                value
            },
            TomlValue::Table(entries) => {
                let mut table = Table::with_capacity(entries.len());
                let ghost all = import_entries(content@->Table_0);
                let mut i: usize = 0;
                while i < entries.len()
                    invariant
                        i <= entries@.len(),
                        content@ is Table,
                        content@->Table_0.len() == entries@.len(),
                        forall|j: int| 0 <= j < entries@.len() ==> #[trigger] content@->Table_0[j] == (
                            entries@[j].0@,
                            entries@[j].1@,
                        ),
                        all == import_entries(content@->Table_0),
                        table@ == collected(all.take(i as int)),
                    decreases entries@.len() - i,
                {
                    proof {
                        assert(decreases_to!(content@ => content@->Table_0[i as int].1));
                    }
                    let item = Value::import_toml(&entries[i].1);
                    proof {
                        assert(all.take(i + 1).drop_last() =~= all.take(i as int));
                        assert(all.take(i + 1).last() == (entries@[i as int].0@, item@));
                    }
                    table.insert(entries[i].0.clone(), item);
                    i = i + 1;
                }
                assert(all.take(entries@.len() as int) =~= all);
                Value::Table(table)
            },
        }
    }

    /// Exports the value to TOML. A null anywhere in the value is refused.
    pub fn to_toml(&self) -> (result: Result<TomlValue, Error>)
        ensures
            result_view(result) == export_result(self@),
        decreases self@,
    {
        proof {
            reveal_with_fuel(<TomlValue as View>::view, 2);
            reveal_with_fuel(<Value as View>::view, 2);
        }
        match self {
            Value::Null => Err(Error::UnsupportedType("null")),
            Value::Bool(b) => Ok(TomlValue::Boolean(*b)),
            Value::Int(i) => Ok(TomlValue::Integer(*i)),
            Value::UInt(u) => Ok(TomlValue::Integer(#[verifier::truncate] (*u as i64))),
            Value::Float(bits) => Ok(TomlValue::Float(*bits)),
            Value::String(s) => Ok(TomlValue::String(s.clone())),
            Value::Array(items) => {
                let mut out: Vec<TomlValue> = Vec::with_capacity(items.len());
                let mut i: usize = 0;
                while i < items.len()
                    invariant
                        i <= items@.len(),
                        out@.len() == i,
                        self@ is Array,
                        self@->Array_0.len() == items@.len(),
                        forall|j: int| 0 <= j < items@.len() ==> #[trigger] self@->Array_0[j] == items@[j]@,
                        forall|j: int| 0 <= j < i ==> !has_null(#[trigger] self@->Array_0[j]),
                        forall|j: int| 0 <= j < i ==> (#[trigger] out@[j])@ == export(items@[j]@),
                    decreases items@.len() - i,
                {
                    proof {
                        assert(decreases_to!(self@ => self@->Array_0[i as int]));
                    }
                    match items[i].to_toml() {
                        Ok(item) => {
                            out.push(item);
                        },
                        Err(error) => {
                            assert(has_null(self@->Array_0[i as int]));
                            return Err(error);
                        },
                    }
                    i = i + 1;
                }
                let toml = TomlValue::Array(out);
                assert(toml@->Array_0 =~= export(self@)->Array_0);
                Ok(toml)
            },
            Value::Table(table) => {
                let entries = table.entries();
                let mut out: Vec<(String, TomlValue)> = Vec::with_capacity(entries.len());
                let mut i: usize = 0;
                while i < entries.len()
                    invariant
                        i <= entries@.len(),
                        out@.len() == i,
                        self@ == Data::Table(table@),
                        table@.len() == entries@.len(),
                        forall|j: int| 0 <= j < entries@.len() ==> #[trigger] table@[j] == (
                            entries@[j].0@,
                            entries@[j].1@,
                        ),
                        forall|j: int| 0 <= j < i ==> !has_null((#[trigger] table@[j]).1),
                        forall|j: int| 0 <= j < i ==> (#[trigger] out@[j]).0@ == entries@[j].0@ && out@[j].1@
                            == export(entries@[j].1@),
                    decreases entries@.len() - i,
                {
                    proof {
                        assert(decreases_to!(self@ => self@->Table_0[i as int].1));
                    }
                    match entries[i].1.to_toml() {
                        Ok(item) => {
                            out.push((entries[i].0.clone(), item));
                        },
                        Err(error) => {
                            assert(has_null(table@[i as int].1));
                            return Err(error);
                        },
                    }
                    i = i + 1;
                }
                let toml = TomlValue::Table(out);
                assert(toml@->Table_0 =~= export(self@)->Table_0);
                Ok(toml)
            },
        }
    }
}

} // verus!
