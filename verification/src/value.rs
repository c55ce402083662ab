//! The canonical value and its mathematical model.
use vstd::prelude::*;
use vstd::std_specs::cmp::PartialEqSpecImpl;
use crate::table::{collected, distinct_keys, holds_entry, lemma_position, lemma_position_distinct, position, Table};

verus! {

/// Why a value could not be converted.
#[derive(Debug)]
pub enum Error {
    /// The target has no shape for a value of the named kind.
    UnsupportedType(&'static str),
    /// The source node is present but cannot be read as a value; the text
    /// describes the node.
    InvalidValue(String),
}

/// The model of an [`Error`].
pub enum Failure {
    UnsupportedType(Seq<char>),
    InvalidValue(Seq<char>),
}

impl View for Error {
    type V = Failure;

    open spec fn view(&self) -> Failure {
        match self {
            Error::UnsupportedType(name) => Failure::UnsupportedType(name@),
            Error::InvalidValue(text) => Failure::InvalidValue(text@),
        }
    }
}

/// The canonical value. A float is held by its IEEE 754 bit pattern.
#[derive(Debug)]
pub enum Value {
    Null,
    Int(i64),
    UInt(u64),
    Float(u64),
    String(String),
    Bool(bool),
    Array(Vec<Value>),
    Table(Table),
}

/// The model of a [`Value`]: the same tree over mathematical sequences. A
/// table is the sequence of its entries, whose keys are distinct.
pub enum Data {
    Null,
    Int(i64),
    UInt(u64),
    Float(u64),
    String(Seq<char>),
    Bool(bool),
    Array(Seq<Data>),
    Table(Seq<(Seq<char>, Data)>),
}

impl View for Value {
    type V = Data;

    open spec fn view(&self) -> Data
        decreases self,
    {
        match self {
            Value::Null => Data::Null,
            Value::Int(i) => Data::Int(*i),
            Value::UInt(u) => Data::UInt(*u),
            Value::Float(bits) => Data::Float(*bits),
            Value::String(s) => Data::String(s@),
            Value::Bool(b) => Data::Bool(*b),
            Value::Array(items) => Data::Array(
                Seq::new(
                    items@.len(),
                    |i: int|
                        if 0 <= i < items@.len() {
                            items@[i].view()
                        } else {
                            Data::Null
                        },
                ),
            ),
            Value::Table(table) => Data::Table(collected(table.pairs())),
        }
    }
}

/// The exponent field of a float, given by its bits: the eleven bits below
/// the sign.
pub open spec fn float_exponent(bits: u64) -> int {
    (bits as int / 0x10_0000_0000_0000) % 0x800
}

/// The fraction field of a float, given by its bits: the lowest 52 bits.
pub open spec fn float_fraction(bits: u64) -> int {
    bits as int % 0x10_0000_0000_0000
}

/// Whether the bits are those of a float that is neither an infinity nor a
/// NaN: the exponent field is not all ones.
pub open spec fn float_is_finite(bits: u64) -> bool {
    float_exponent(bits) != 0x7ff
}

/// Whether the bits are those of a NaN: the exponent field is all ones and
/// the fraction is not zero.
pub open spec fn float_is_nan(bits: u64) -> bool {
    float_exponent(bits) == 0x7ff && float_fraction(bits) != 0
}

/// Whether the bits are those of one of the two zeros.
pub open spec fn float_is_zero(bits: u64) -> bool {
    float_exponent(bits) == 0 && float_fraction(bits) == 0
}

/// Whether two floats, given by their bits, are equal as floats: neither
/// is a NaN, and they have the same bits or are both zero.
pub open spec fn float_equal(a: u64, b: u64) -> bool {
    !float_is_nan(a) && !float_is_nan(b) && (a == b || (float_is_zero(a) && float_is_zero(b)))
}

/// Tells whether a float, given by its bits, is finite.
pub fn is_finite_float(bits: u64) -> (finite: bool)
    ensures
        finite == float_is_finite(bits),
{
    assert((bits & 0x7ff0_0000_0000_0000 != 0x7ff0_0000_0000_0000) == ((bits / 0x10_0000_0000_0000) % 0x800
        != 0x7ff)) by (bit_vector);
    bits & 0x7ff0_0000_0000_0000 != 0x7ff0_0000_0000_0000
}

/// Tells whether a float, given by its bits, is a NaN.
pub fn is_nan_float(bits: u64) -> (nan: bool)
    ensures
        nan == float_is_nan(bits),
{
    assert((bits & 0x7fff_ffff_ffff_ffff > 0x7ff0_0000_0000_0000) == ((bits / 0x10_0000_0000_0000) % 0x800
        == 0x7ff && bits % 0x10_0000_0000_0000 != 0)) by (bit_vector);
    bits & 0x7fff_ffff_ffff_ffff > 0x7ff0_0000_0000_0000
}

/// Tells whether a float, given by its bits, is one of the two zeros.
pub fn is_zero_float(bits: u64) -> (zero: bool)
    ensures
        zero == float_is_zero(bits),
{
    assert((bits & 0x7fff_ffff_ffff_ffff == 0) == ((bits / 0x10_0000_0000_0000) % 0x800 == 0 && bits
        % 0x10_0000_0000_0000 == 0)) by (bit_vector);
    bits & 0x7fff_ffff_ffff_ffff == 0
}

/// Compares two floats, given by their bits, as floats.
pub fn floats_equal(a: u64, b: u64) -> (equal: bool)
    ensures
        equal == float_equal(a, b),
{
    !is_nan_float(a) && !is_nan_float(b) && (a == b || (is_zero_float(a) && is_zero_float(b)))
}

impl Data {
    /// Whether two values are equal: they are of one kind and hold the
    /// same, floats compared as floats. Arrays are equal when they have
    /// equal items in the same places, tables when they have the same keys
    /// with equal values, in whatever order.
    pub open spec fn same(self, other: Data) -> bool
        decreases self,
    {
        match (self, other) {
            (Data::Null, Data::Null) => true,
            (Data::Int(a), Data::Int(b)) => a == b,
            (Data::UInt(a), Data::UInt(b)) => a == b,
            (Data::Float(a), Data::Float(b)) => float_equal(a, b),
            (Data::String(a), Data::String(b)) => a == b,
            (Data::Bool(a), Data::Bool(b)) => a == b,
            (Data::Array(a), Data::Array(b)) => a.len() == b.len() && forall|i: int|
                0 <= i < a.len() ==> (#[trigger] a[i]).same(b[i]),
            (Data::Table(a), Data::Table(b)) => a.len() == b.len() && forall|i: int|
                0 <= i < a.len() ==> match position(b, (#[trigger] a[i]).0) {
                    Some(at) => a[i].1.same(b[at].1),
                    None => false,
                },
            _ => false,
        }
    }

    /// Whether the keys of every table in the value are distinct. Every
    /// [`Value`] has such a model.
    pub open spec fn well_formed(self) -> bool
        decreases self,
    {
        match self {
            Data::Array(items) => forall|i: int| 0 <= i < items.len() ==> (#[trigger] items[i]).well_formed(),
            Data::Table(entries) => distinct_keys(entries) && forall|i: int|
                0 <= i < entries.len() ==> (#[trigger] entries[i]).1.well_formed(),
            _ => true,
        }
    }

    /// The value that an integer of a format with one integer kind becomes:
    /// unsigned when it is not negative, signed otherwise.
    pub open spec fn of_integer(i: i64) -> Data {
        if i >= 0 {
            Data::UInt(i as u64)
        } else {
            Data::Int(i)
        }
    }
}

impl Value {
    /// Splits an integer by its sign.
    pub fn from_integer(i: i64) -> (value: Value)
        ensures
            value@ == Data::of_integer(i),
            i >= 0 ==> value@ == Data::UInt(i as u64),
            i < 0 ==> value@ == Data::Int(i),
    {
        if i >= 0 {
            Value::UInt(i as u64)
        } else {
            Value::Int(i)
        }
    }
}

/// Whether two lists of entries hold the same entries, each once, in
/// whatever order.
pub open spec fn reordered(a: Seq<(Seq<char>, Data)>, b: Seq<(Seq<char>, Data)>) -> bool {
    &&& distinct_keys(a)
    &&& distinct_keys(b)
    &&& forall|i: int| 0 <= i < a.len() ==> holds_entry(b, #[trigger] a[i])
    &&& forall|j: int| 0 <= j < b.len() ==> holds_entry(a, #[trigger] b[j])
}

/// Among entries in another order a key is found exactly when it is found
/// among the first, and with the same entry.
pub proof fn lemma_position_reordered(a: Seq<(Seq<char>, Data)>, b: Seq<(Seq<char>, Data)>, key: Seq<char>)
    requires
        reordered(a, b),
    ensures
        match position(a, key) {
            Some(at) => position(b, key) matches Some(other) && a[at] == b[other],
            None => position(b, key) is None,
        },
{
    lemma_position(a, key);
    lemma_position(b, key);
    match position(a, key) {
        Some(at) => {
            assert(holds_entry(b, a[at]));
            let j = choose|j: int| 0 <= j < b.len() && #[trigger] b[j] == a[at];
            lemma_position_distinct(b, key, j);
        },
        None => {
            if let Some(other) = position(b, key) {
                assert(holds_entry(a, b[other]));
                let i = choose|i: int| 0 <= i < a.len() && #[trigger] a[i] == b[other];
                assert(a[i].0 == key);
            }
        },
    }
}

/// Lists that hold the same entries, each once, are of one length.
pub proof fn lemma_entries_len(a: Seq<(Seq<char>, Data)>, b: Seq<(Seq<char>, Data)>)
    requires
        reordered(a, b),
    ensures
        a.len() == b.len(),
    decreases a.len(),
{
    if a.len() == 0 {
        if b.len() > 0 {
            assert(holds_entry(a, b[0]));
        }
    } else {
        let last = a.len() - 1;
        assert(holds_entry(b, a[last]));
        let j = choose|j: int| 0 <= j < b.len() && #[trigger] b[j] == a[last];
        let rest_a = a.drop_last();
        let rest_b = b.remove(j);
        assert forall|i: int| 0 <= i < rest_a.len() implies holds_entry(rest_b, #[trigger] rest_a[i]) by {
            assert(rest_a[i] == a[i]);
            assert(holds_entry(b, a[i]));
            let m = choose|m: int| 0 <= m < b.len() && #[trigger] b[m] == a[i];
            assert(m != j) by {
                if m == j {
                    assert(a[i].0 == a[last].0);
                }
            }
            let k = if m < j {
                m
            } else {
                m - 1
            };
            assert(rest_b[k] == b[m]);
        }
        assert forall|k: int| 0 <= k < rest_b.len() implies holds_entry(rest_a, #[trigger] rest_b[k]) by {
            let m = if k < j {
                k
            } else {
                k + 1
            };
            assert(rest_b[k] == b[m]);
            assert(holds_entry(a, b[m]));
            let i = choose|i: int| 0 <= i < a.len() && #[trigger] a[i] == b[m];
            assert(i != last) by {
                if i == last {
                    assert(b[m].0 == b[j].0);
                }
            }
            assert(rest_a[i] == a[i]);
        }
        assert forall|x: int, y: int| 0 <= x < rest_a.len() && 0 <= y < rest_a.len() && x != y implies rest_a[x].0
            != rest_a[y].0 by {
            assert(rest_a[x] == a[x] && rest_a[y] == a[y]);
        }
        assert forall|x: int, y: int| 0 <= x < rest_b.len() && 0 <= y < rest_b.len() && x != y implies rest_b[x].0
            != rest_b[y].0 by {
            let mx = if x < j {
                x
            } else {
                x + 1
            };
            let my = if y < j {
                y
            } else {
                y + 1
            };
            assert(rest_b[x] == b[mx] && rest_b[y] == b[my]);
        }
        lemma_entries_len(rest_a, rest_b);
    }
}

/// Equality of tables does not depend on the order of their entries: a
/// table compares with any other value as the table of the same entries in
/// another order does, on either side of the comparison.
pub proof fn lemma_same_ignores_order(a: Seq<(Seq<char>, Data)>, b: Seq<(Seq<char>, Data)>, other: Data)
    requires
        reordered(a, b),
    ensures
        other.same(Data::Table(a)) == other.same(Data::Table(b)),
        Data::Table(a).same(other) == Data::Table(b).same(other),
{
    lemma_entries_len(a, b);
    if let Data::Table(c) = other {
        if c.len() == a.len() {
            assert forall|i: int| 0 <= i < c.len() implies (match position(a, (#[trigger] c[i]).0) {
                Some(at) => c[i].1.same(a[at].1),
                None => false,
            }) == (match position(b, c[i].0) {
                Some(at) => c[i].1.same(b[at].1),
                None => false,
            }) by {
                lemma_position_reordered(a, b, c[i].0);
            }
            if Data::Table(a).same(other) {
                assert forall|j: int| 0 <= j < b.len() implies match position(c, (#[trigger] b[j]).0) {
                    Some(at) => b[j].1.same(c[at].1),
                    None => false,
                } by {
                    assert(holds_entry(a, b[j]));
                    let i = choose|i: int| 0 <= i < a.len() && #[trigger] a[i] == b[j];
                    assert(a[i] == b[j]);
                }
            }
            if Data::Table(b).same(other) {
                assert forall|i: int| 0 <= i < a.len() implies match position(c, (#[trigger] a[i]).0) {
                    Some(at) => a[i].1.same(c[at].1),
                    None => false,
                } by {
                    assert(holds_entry(b, a[i]));
                    let j = choose|j: int| 0 <= j < b.len() && #[trigger] b[j] == a[i];
                    assert(a[i] == b[j]);
                }
            }
        }
    }
}

/// The keys of every table in a value are distinct.
pub proof fn lemma_well_formed(value: Value)
    ensures
        value@.well_formed(),
    decreases value,
{
    reveal_with_fuel(<Value as View>::view, 2);
    match value {
        Value::Array(items) => {
            assert forall|i: int| 0 <= i < value@->Array_0.len() implies (#[trigger] value@->Array_0[i]).well_formed() by {
                assert(decreases_to!(value => items));
                assert(decreases_to!(items => items@));
                assert(decreases_to!(items@ => items@[i]));
                lemma_well_formed(items@[i]);
            }
        },
        Value::Table(table) => {
            crate::table::lemma_table_well_formed(table);
        },
        _ => {},
    }
}

/// Whether no float in the value is a NaN.
pub open spec fn nan_free(data: Data) -> bool
    decreases data,
{
    match data {
        Data::Float(bits) => !float_is_nan(bits),
        Data::Array(items) => forall|i: int| 0 <= i < items.len() ==> nan_free(#[trigger] items[i]),
        Data::Table(entries) => forall|i: int| 0 <= i < entries.len() ==> nan_free((#[trigger] entries[i]).1),
        _ => true,
    }
}

/// A value without a NaN equals itself.
pub proof fn lemma_same_reflexive(data: Data)
    requires
        data.well_formed(),
        nan_free(data),
    ensures
        data.same(data),
    decreases data,
{
    match data {
        Data::Array(items) => {
            assert forall|i: int| 0 <= i < items.len() implies (#[trigger] items[i]).same(items[i]) by {
                lemma_same_reflexive(items[i]);
            }
        },
        Data::Table(entries) => {
            assert forall|i: int| 0 <= i < entries.len() implies match position(entries, (#[trigger] entries[i]).0) {
                Some(at) => entries[i].1.same(entries[at].1),
                None => false,
            } by {
                lemma_position_distinct(entries, entries[i].0, i);
                lemma_same_reflexive(entries[i].1);
            }
        },
        _ => {},
    }
}

impl Value {
    /// Compares two values; `==` is this comparison.
    pub fn same_as(&self, other: &Value) -> (equal: bool)
        ensures
            equal == self@.same(other@),
        decreases self@,
    {
        proof {
            reveal_with_fuel(<Value as View>::view, 2);
        }
        match (self, other) {
            (Value::Null, Value::Null) => true,
            (Value::Int(a), Value::Int(b)) => *a == *b,
            (Value::UInt(a), Value::UInt(b)) => *a == *b,
            (Value::Float(a), Value::Float(b)) => floats_equal(*a, *b),
            (Value::String(a), Value::String(b)) => *a == *b,
            (Value::Bool(a), Value::Bool(b)) => *a == *b,
            (Value::Array(a), Value::Array(b)) => {
                if a.len() != b.len() {
                    return false;
                }
                let mut i: usize = 0;
                while i < a.len()
                    invariant
                        i <= a@.len(),
                        a@.len() == b@.len(),
                        self@ is Array,
                        other@ is Array,
                        self@->Array_0.len() == a@.len(),
                        other@->Array_0.len() == b@.len(),
                        forall|j: int| 0 <= j < a@.len() ==> #[trigger] self@->Array_0[j] == a@[j]@,
                        forall|j: int| 0 <= j < b@.len() ==> #[trigger] other@->Array_0[j] == b@[j]@,
                        forall|j: int| 0 <= j < i ==> (#[trigger] self@->Array_0[j]).same(other@->Array_0[j]),
                    decreases a@.len() - i,
                {
                    proof {
                        assert(decreases_to!(self@ => self@->Array_0[i as int]));
                    }
                    if !a[i].same_as(&b[i]) {
                        assert(!self@->Array_0[i as int].same(other@->Array_0[i as int]));
                        return false;
                    }
                    i = i + 1;
                }
                true
            },
            (Value::Table(a), Value::Table(b)) => {
                proof {
                    assert(decreases_to!(self@ => self@->Table_0));
                }
                a.same_as(b)
            },
            _ => false,
        }
    }

    /// A copy of the value.
    pub fn duplicate(&self) -> (copy: Value)
        ensures
            copy@ == self@,
        decreases self@,
    {
        proof {
            reveal_with_fuel(<Value as View>::view, 2);
        }
        match self {
            Value::Null => Value::Null,
            Value::Int(i) => Value::Int(*i),
            Value::UInt(u) => Value::UInt(*u),
            Value::Float(bits) => Value::Float(*bits),
            Value::String(s) => Value::String(s.clone()),
            Value::Bool(b) => Value::Bool(*b),
            Value::Array(items) => {
                let mut out: Vec<Value> = Vec::with_capacity(items.len());
                let mut i: usize = 0;
                while i < items.len()
                    invariant
                        i <= items@.len(),
                        out@.len() == i,
                        self@ is Array,
                        self@->Array_0.len() == items@.len(),
                        forall|j: int| 0 <= j < items@.len() ==> #[trigger] self@->Array_0[j] == items@[j]@,
                        forall|j: int| 0 <= j < i ==> (#[trigger] out@[j])@ == items@[j]@,
                    decreases items@.len() - i,
                {
                    proof {
                        assert(decreases_to!(self@ => self@->Array_0[i as int]));
                    }
                    let item = items[i].duplicate();
                    out.push(item);
                    i = i + 1;
                }
                let copy = Value::Array(out);
                assert(copy@->Array_0 =~= self@->Array_0);
                copy
            },
            Value::Table(table) => {
                proof {
                    assert(decreases_to!(self@ => self@->Table_0));
                }
                Value::Table(table.duplicate())
            },
        }
    }
}

impl PartialEq for Value {
    fn eq(&self, other: &Value) -> (equal: bool) {
        self.same_as(other)
    }
}

impl PartialEqSpecImpl for Value {
    open spec fn obeys_eq_spec() -> bool {
        true
    }

    open spec fn eq_spec(&self, other: &Value) -> bool {
        self@.same(other@)
    }
}

impl Clone for Value {
    fn clone(&self) -> (copy: Value)
        ensures
            copy@ == self@,
    {
        self.duplicate()
    }
}

impl Default for Value {
    fn default() -> (value: Value)
        ensures
            value@ == Data::Null,
    {
        Value::Null
    }
}

} // verus!
