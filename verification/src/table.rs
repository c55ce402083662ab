//! The keyed table: string keys, each held once.
use vstd::prelude::*;
use vstd::std_specs::cmp::PartialEqSpecImpl;
use crate::json_tree::JsonValue;
use crate::toml_tree::TomlValue;
use crate::value::{Data, Failure, Value};
use crate::yaml_tree::YamlNode;

verus! {

/// Why a table could not be converted.
#[derive(Debug)]
pub enum Error {
    /// A value in the table, or the document that should have been one,
    /// could not be converted.
    ValueError(crate::value::Error),
    /// The TOML library refused to rebuild a table from a document, with
    /// its message. The conversions of this library never report it: it
    /// is for the caller who hands the document on to that library.
    TomlError(String),
    /// The YAML library failed, with its code. The conversions of this
    /// library never report it.
    YamlError(i32),
}

/// A mapping from string keys to values. No key occurs twice.
#[derive(Debug)]
pub struct Table {
    items: Vec<(String, Value)>,
}

/// Whether no key occurs twice among the entries.
pub open spec fn distinct_keys<V>(entries: Seq<(Seq<char>, V)>) -> bool {
    forall|i: int, j: int|
        0 <= i < entries.len() && 0 <= j < entries.len() && i != j ==> entries[i].0 != entries[j].0
}

/// The place of a key among the entries, if it is there.
pub open spec fn position<V>(entries: Seq<(Seq<char>, V)>, key: Seq<char>) -> Option<int>
    decreases entries.len(),
{
    if entries.len() == 0 {
        None
    } else if entries.last().0 == key {
        Some(entries.len() - 1)
    } else {
        position(entries.drop_last(), key)
    }
}

/// The entries after `key` is set to `value`: in place where the key is
/// there already, at the end where it is not.
pub open spec fn with_entry<V>(entries: Seq<(Seq<char>, V)>, key: Seq<char>, value: V) -> Seq<(Seq<char>, V)> {
    match position(entries, key) {
        Some(at) => entries.update(at, (key, value)),
        None => entries.push((key, value)),
    }
}

/// The entries that result from setting each pair in turn, so that of two
/// pairs with one key the later one stays.
pub open spec fn collected<V>(pairs: Seq<(Seq<char>, V)>) -> Seq<(Seq<char>, V)>
    decreases pairs.len(),
{
    if pairs.len() == 0 {
        Seq::empty()
    } else {
        with_entry(collected(pairs.drop_last()), pairs.last().0, pairs.last().1)
    }
}

/// The model of a vector of entries.
pub open spec fn entries_view(items: Seq<(String, Value)>) -> Seq<(Seq<char>, Data)> {
    Seq::new(items.len(), |i: int| (items[i].0@, items[i].1@))
}

/// What `position` finds: the last entry with the key, or none where no
/// entry has it.
pub proof fn lemma_position<V>(entries: Seq<(Seq<char>, V)>, key: Seq<char>)
    ensures
        match position(entries, key) {
            Some(at) => 0 <= at < entries.len() && entries[at].0 == key && forall|j: int|
                at < j < entries.len() ==> entries[j].0 != key,
            None => forall|j: int| 0 <= j < entries.len() ==> entries[j].0 != key,
        },
    decreases entries.len(),
{
    if entries.len() > 0 && entries.last().0 != key {
        let rest = entries.drop_last();
        lemma_position(rest, key);
        match position(rest, key) {
            Some(at) => {
                assert(entries[at] == rest[at]);
                assert forall|j: int| at < j < entries.len() implies entries[j].0 != key by {
                    if j < rest.len() {
                        assert(entries[j] == rest[j]);
                    }
                }
            },
            None => {
                assert forall|j: int| 0 <= j < entries.len() implies entries[j].0 != key by {
                    if j < rest.len() {
                        assert(entries[j] == rest[j]);
                    }
                }
            },
        }
    }
}

/// Among distinct keys, `position` finds the one entry that has the key.
pub proof fn lemma_position_distinct<V>(entries: Seq<(Seq<char>, V)>, key: Seq<char>, at: int)
    requires
        distinct_keys(entries),
        0 <= at < entries.len(),
        entries[at].0 == key,
    ensures
        position(entries, key) == Some(at),
{
    lemma_position(entries, key);
}

/// Setting an entry keeps the keys distinct.
pub proof fn lemma_with_entry_distinct<V>(entries: Seq<(Seq<char>, V)>, key: Seq<char>, value: V)
    requires
        distinct_keys(entries),
    ensures
        distinct_keys(with_entry(entries, key, value)),
{
    lemma_position(entries, key);
}

/// The keys of `collected` entries are distinct.
pub proof fn lemma_collected_distinct<V>(pairs: Seq<(Seq<char>, V)>)
    ensures
        distinct_keys(collected(pairs)),
    decreases pairs.len(),
{
    if pairs.len() > 0 {
        lemma_collected_distinct(pairs.drop_last());
        lemma_with_entry_distinct(collected(pairs.drop_last()), pairs.last().0, pairs.last().1);
    }
}

/// Whether the entry is among the entries.
pub open spec fn holds_entry<V>(entries: Seq<(Seq<char>, V)>, entry: (Seq<char>, V)) -> bool {
    exists|j: int| 0 <= j < entries.len() && #[trigger] entries[j] == entry
}

/// After an entry is set, every entry is the one that was set or one that
/// was there before.
pub proof fn lemma_with_entry_from<V>(entries: Seq<(Seq<char>, V)>, key: Seq<char>, value: V)
    ensures
        forall|i: int|
            0 <= i < with_entry(entries, key, value).len() ==> (#[trigger] with_entry(entries, key, value)[i]) == (
                key,
                value,
            ) || holds_entry(entries, with_entry(entries, key, value)[i]),
{
    lemma_position(entries, key);
    let after = with_entry(entries, key, value);
    assert forall|i: int| 0 <= i < after.len() implies (#[trigger] after[i]) == (key, value) || holds_entry(
        entries,
        after[i],
    ) by {
        if after[i] != (key, value) {
            assert(entries[i] == after[i]);
        }
    }
}

/// Every entry of `collected` pairs is one of the pairs.
pub proof fn lemma_collected_from<V>(pairs: Seq<(Seq<char>, V)>)
    ensures
        forall|i: int| 0 <= i < collected(pairs).len() ==> holds_entry(pairs, #[trigger] collected(pairs)[i]),
    decreases pairs.len(),
{
    if pairs.len() > 0 {
        let rest = pairs.drop_last();
        lemma_collected_from(rest);
        lemma_with_entry_from(collected(rest), pairs.last().0, pairs.last().1);
        assert forall|i: int| 0 <= i < collected(pairs).len() implies holds_entry(
            pairs,
            #[trigger] collected(pairs)[i],
        ) by {
            let entry = collected(pairs)[i];
            if entry == pairs.last() {
                assert(pairs[pairs.len() - 1] == entry);
            } else {
                assert(holds_entry(collected(rest), entry));
                let at = choose|at: int| 0 <= at < collected(rest).len() && #[trigger] collected(rest)[at] == entry;
                assert(holds_entry(rest, collected(rest)[at]));
                let j = choose|j: int| 0 <= j < rest.len() && #[trigger] rest[j] == entry;
                assert(pairs[j] == entry);
            }
        }
    }
}

/// Entries with distinct keys are what `collected` makes of them.
pub proof fn lemma_collected_same<V>(pairs: Seq<(Seq<char>, V)>)
    requires
        distinct_keys(pairs),
    ensures
        collected(pairs) == pairs,
    decreases pairs.len(),
{
    if pairs.len() > 0 {
        let rest = pairs.drop_last();
        assert forall|i: int, j: int| 0 <= i < rest.len() && 0 <= j < rest.len() && i != j implies rest[i].0
            != rest[j].0 by {
            assert(rest[i] == pairs[i] && rest[j] == pairs[j]);
        }
        lemma_collected_same(rest);
        lemma_position(rest, pairs.last().0);
        if let Some(at) = position(rest, pairs.last().0) {
            assert(rest[at] == pairs[at]);
        }
        assert(rest.push(pairs.last()) =~= pairs);
    } else {
        assert(pairs =~= Seq::empty());
    }
}

impl View for Table {
    type V = Seq<(Seq<char>, Data)>;

    /// The entries of the table, each key once.
    open spec fn view(&self) -> Seq<(Seq<char>, Data)> {
        collected(self.pairs())
    }
}

/// The keys of every table in a table are distinct.
pub proof fn lemma_table_well_formed(table: Table)
    ensures
        Data::Table(table@).well_formed(),
    decreases table,
{
    reveal_with_fuel(Table::pairs, 2);
    let pairs = table.pairs();
    lemma_collected_distinct(pairs);
    lemma_collected_from(pairs);
    assert forall|i: int| 0 <= i < table@.len() implies (#[trigger] table@[i]).1.well_formed() by {
        assert(holds_entry(pairs, table@[i]));
        let j = choose|j: int| 0 <= j < pairs.len() && #[trigger] pairs[j] == table@[i];
        assert(pairs[j].1 == table.items@[j].1@);
        crate::value::lemma_well_formed(table.items@[j].1);
    }
}

impl Table {
    /// The pairs that the table is made of, in the order in which it holds
    /// them.
    pub closed spec fn pairs(&self) -> Seq<(Seq<char>, Data)>
        decreases self,
    {
        Seq::new(
            self.items@.len(),
            |i: int|
                if 0 <= i < self.items@.len() {
                    (self.items@[i].0@, self.items@[i].1.view())
                } else {
                    (Seq::empty(), Data::Null)
                },
        )
    }

    #[verifier::type_invariant]
    spec fn keys_are_distinct(self) -> bool {
        forall|i: int, j: int|
            0 <= i < self.items@.len() && 0 <= j < self.items@.len() && i != j
                ==> self.items@[i].0@ != self.items@[j].0@
    }

    /// A table whose keys are distinct is modelled by its entries as they
    /// stand.
    proof fn lemma_view(self)
        requires
            self.keys_are_distinct(),
        ensures
            self@ == entries_view(self.items@),
    {
        reveal_with_fuel(Table::pairs, 2);
        let pairs = self.pairs();
        assert(pairs =~= entries_view(self.items@));
        lemma_collected_same(pairs);
    }

    /// An empty table with room for `cap` entries.
    pub fn with_capacity(cap: usize) -> (table: Table)
        ensures
            table@ == Seq::<(Seq<char>, Data)>::empty(),
    {
        let table = Table { items: Vec::with_capacity(cap) };
        proof {
            table.lemma_view();
        }
        assert(table@ =~= Seq::<(Seq<char>, Data)>::empty());
        table
    }

    /// The table of the pairs: of two pairs with one key, the later one stays.
    pub fn new(items: Vec<(String, Value)>) -> (table: Table)
        ensures
            table@ == collected(entries_view(items@)),
    {
        let mut table = Table::with_capacity(items.len());
        let ghost all = entries_view(items@);
        for pair in iter: items
            invariant
                iter.seq() == items@,
                table@ == collected(all.take(iter.index() as int)),
                all == entries_view(items@),
        {
            proof {
                let n = iter.index() as int;
                assert(all.take(n + 1).drop_last() =~= all.take(n));
                assert(all.take(n + 1).last() == (pair.0@, pair.1@));
            }
            table.insert(pair.0, pair.1);
        }
        assert(all.take(items@.len() as int) =~= all);
        table
    }

    /// The table that a value holds, where it is a table.
    pub fn from(content: Value) -> (table: Option<Table>)
        ensures
            match table {
                Some(t) => content@ == Data::Table(t@),
                None => !(content@ is Table),
            },
    {
        match content {
            Value::Table(t) => Some(t),
            _ => None,
        }
    }

    /// The table that a JSON document imports to, where it is an object.
    pub fn from_json(content: JsonValue) -> (table: Option<Table>)
        ensures
            match table {
                Some(t) => crate::json_tree::import(content@) == Data::Table(t@),
                None => !(crate::json_tree::import(content@) is Table),
            },
    {
        Table::from(Value::from_json(content))
    }

    /// The JSON object of a table that JSON can hold: one without a float
    /// that is an infinity or a NaN.
    pub fn to_json(self) -> (json: JsonValue)
        requires
            crate::json_tree::exportable(Data::Table(self@)),
        ensures
            json@ == crate::json_tree::export(Data::Table(self@)),
    {
        Value::Table(self).to_json()
    }

    /// The table that a TOML document imports to, where it is a table.
    pub fn from_toml(content: TomlValue) -> (table: Option<Table>)
        ensures
            match table {
                Some(t) => crate::toml_tree::import(content@) == Data::Table(t@),
                None => !(crate::toml_tree::import(content@) is Table),
            },
    {
        Table::from(Value::from_toml(content))
    }

    /// The TOML table of the table. A null anywhere in the table is
    /// refused.
    pub fn to_toml(self) -> (result: Result<TomlValue, Error>)
        ensures
            match result {
                Ok(toml) => !crate::toml_tree::has_null(Data::Table(self@)) && toml@ == crate::toml_tree::export(
                    Data::Table(self@),
                ) && toml@ is Table,
                Err(Error::ValueError(error)) => crate::toml_tree::has_null(Data::Table(self@)) && error@
                    == Failure::UnsupportedType("null"@),
                Err(_) => false,
            },
    {
        match Value::Table(self).to_toml() {
            Ok(toml) => Ok(toml),
            Err(error) => Err(Error::ValueError(error)),
        }
    }

    /// The table that a YAML document imports to. A document that imports
    /// to another kind of value is refused as invalid.
    pub fn from_yaml(content: YamlNode) -> (result: Result<Table, Error>)
        ensures
            match crate::yaml_tree::import(content@) {
                Ok(Data::Table(entries)) => result matches Ok(t) && t@ == entries,
                Ok(_) => result matches Err(Error::ValueError(error)) && error@ == Failure::InvalidValue(
                    "Not a table"@,
                ),
                Err(failure) => result matches Err(Error::ValueError(error)) && error@ == failure,
            },
    {
        match Value::from_yaml(content) {
            Ok(Value::Table(table)) => Ok(table),
            Ok(_) => Err(Error::ValueError(crate::value::Error::InvalidValue("Not a table".to_owned()))),
            Err(error) => Err(Error::ValueError(error)),
        }
    }

    /// The YAML hash of the table. It can be imported again.
    pub fn to_yaml(self) -> (yaml: YamlNode)
        ensures
            yaml@ == crate::yaml_tree::export(Data::Table(self@)),
            crate::yaml_tree::keyed_as(yaml@, Data::Table(self@)),
            !crate::yaml_tree::has_alias(yaml@),
            !crate::yaml_tree::has_invalid(yaml@),
    {
        Value::Table(self).to_yaml()
    }

    /// The entries, in the order in which the table holds them.
    pub fn entries(&self) -> (items: &Vec<(String, Value)>)
        ensures
            entries_view(items@) == self@,
            distinct_keys(self@),
    {
        proof {
            use_type_invariant(self);
            self.lemma_view();
            assert(entries_view(self.items@) =~= self@);
        }
        &self.items
    }

    fn find(&self, key: &String) -> (at: Option<usize>)
        ensures
            match at {
                Some(i) => i < self.items@.len() && position(self@, key@) == Some(i as int),
                None => position(self@, key@) == None::<int>,
            },
    {
        proof {
            use_type_invariant(self);
            self.lemma_view();
        }
        assert(distinct_keys(self@));
        let mut i: usize = 0;
        while i < self.items.len()
            invariant
                i <= self.items@.len(),
                self@ == entries_view(self.items@),
                distinct_keys(self@),
                forall|j: int| 0 <= j < i ==> self@[j].0 != key@,
            decreases self.items@.len() - i,
        {
            if self.items[i].0 == *key {
                proof {
                    assert(self@[i as int].0 == key@);
                    lemma_position_distinct(self@, key@, i as int);
                }
                return Some(i);
            }
            assert(self@[i as int].0 != key@);
            i = i + 1;
        }
        proof {
            lemma_position(self@, key@);
        }
        None
    }

    /// The value under `key`, if the table has the key.
    pub(crate) fn lookup(&self, key: &String) -> (value: Option<&Value>)
        ensures
            match position(self@, key@) {
                Some(at) => 0 <= at < self@.len() && (value matches Some(v) && v@ == self@[at].1),
                None => value is None,
            },
    {
        proof {
            use_type_invariant(self);
            self.lemma_view();
        }
        match self.find(key) {
            Some(i) => Some(&self.items[i].1),
            None => None,
        }
    }

    /// Compares two tables; `==` is this comparison.
    pub fn same_as(&self, other: &Table) -> (equal: bool)
        ensures
            equal == Data::Table(self@).same(Data::Table(other@)),
        decreases self@,
    {
        proof {
            use_type_invariant(self);
            use_type_invariant(other);
            self.lemma_view();
            other.lemma_view();
        }
        if self.items.len() != other.items.len() {
            return false;
        }
        let mut i: usize = 0;
        while i < self.items.len()
            invariant
                i <= self.items@.len(),
                self@ == entries_view(self.items@),
                self@.len() == other@.len(),
                forall|j: int| 0 <= j < self.items@.len() ==> #[trigger] self@[j] == (
                    self.items@[j].0@,
                    self.items@[j].1@,
                ),
                forall|j: int| 0 <= j < i ==> match position(other@, (#[trigger] self@[j]).0) {
                    Some(at) => self@[j].1.same(other@[at].1),
                    None => false,
                },
            decreases self.items@.len() - i,
        {
            proof {
                assert(decreases_to!(self@ => self@[i as int].1));
            }
            match other.lookup(&self.items[i].0) {
                Some(value) => {
                    if !self.items[i].1.same_as(value) {
                        assert(!(match position(other@, self@[i as int].0) {
                            Some(at) => self@[i as int].1.same(other@[at].1),
                            None => false,
                        }));
                        return false;
                    }
                },
                None => {
                    assert(position(other@, self@[i as int].0) is None);
                    return false;
                },
            }
            i = i + 1;
        }
        true
    }

    /// A copy of the table.
    pub fn duplicate(&self) -> (copy: Table)
        ensures
            copy@ == self@,
        decreases self@,
    {
        proof {
            use_type_invariant(self);
            self.lemma_view();
        }
        let mut items: Vec<(String, Value)> = Vec::with_capacity(self.items.len());
        let mut i: usize = 0;
        while i < self.items.len()
            invariant
                i <= self.items@.len(),
                items@.len() == i,
                self@ == entries_view(self.items@),
                forall|j: int| 0 <= j < self.items@.len() ==> #[trigger] self@[j] == (
                    self.items@[j].0@,
                    self.items@[j].1@,
                ),
                forall|j: int| 0 <= j < i ==> (#[trigger] items@[j]).0@ == self.items@[j].0@ && items@[j].1@
                    == self.items@[j].1@,
            decreases self.items@.len() - i,
        {
            proof {
                assert(decreases_to!(self@ => self@[i as int].1));
            }
            let value = self.items[i].1.duplicate();
            items.push((self.items[i].0.clone(), value));
            i = i + 1;
        }
        let copy = Table { items };
        proof {
            copy.lemma_view();
        }
        assert(copy@ =~= self@);
        copy
    }

    /// The value under `key`, if the table has the key.
    pub fn get(&self, key: &str) -> (value: Option<&Value>)
        ensures
            match position(self@, key@) {
                Some(at) => value matches Some(v) && v@ == self@[at].1,
                None => value is None,
            },
    {
        proof {
            use_type_invariant(self);
            self.lemma_view();
        }
        let owned = key.to_owned();
        match self.find(&owned) {
            Some(i) => Some(&self.items[i].1),
            None => None,
        }
    }

    /// Sets `key` to `value`: in place where the table has the key, as a
    /// new last entry where it has not.
    pub fn insert(&mut self, key: String, value: Value)
        ensures
            final(self)@ == with_entry(old(self)@, key@, value@),
    {
        proof {
            use_type_invariant(&*self);
            self.lemma_view();
            lemma_position(self@, key@);
        }
        let at = self.find(&key);
        let ghost before = self.items@;
        assert(self@ =~= entries_view(before));
        let mut items: Vec<(String, Value)> = Vec::new();
        core::mem::swap(&mut self.items, &mut items);
        match at {
            Some(i) => {
                items.set(i, (key, value));
                assert(forall|j: int| 0 <= j < items@.len() ==> #[trigger] items@[j].0@ == before[j].0@);
            },
            None => {
                items.push((key, value));
                assert forall|j: int| 0 <= j < before.len() implies #[trigger] items@[j].0@ == old(self)@[j].0
                    && items@[j].0@ != key@ by {
                    assert(old(self)@[j] == (before[j].0@, before[j].1@));
                }
            },
        }
        assert(entries_view(items@) =~= with_entry(old(self)@, key@, value@));
        core::mem::swap(&mut self.items, &mut items);
        proof {
            self.lemma_view();
        }
        assert(self@ =~= with_entry(old(self)@, key@, value@));
    }

    /// Takes `key` and its value out of the table, and gives the value;
    /// the other entries stay in their order.
    pub fn remove(&mut self, key: &str) -> (removed: Option<Value>)
        ensures
            match position(old(self)@, key@) {
                Some(at) => 0 <= at < old(self)@.len() && final(self)@ == old(self)@.remove(at) && (
                removed matches Some(value) && value@ == old(self)@[at].1),
                None => final(self)@ == old(self)@ && removed is None,
            },
    {
        proof {
            use_type_invariant(&*self);
            self.lemma_view();
        }
        let owned = key.to_owned();
        match self.find(&owned) {
            Some(i) => {
                let ghost before = self.items@;
                let mut items: Vec<(String, Value)> = Vec::new();
                core::mem::swap(&mut self.items, &mut items);
                let pair = items.remove(i);
                assert forall|x: int, y: int| 0 <= x < items@.len() && 0 <= y < items@.len() && x != y implies items@[x].0@
                    != items@[y].0@ by {
                    let bx = if x < i {
                        x
                    } else {
                        x + 1
                    };
                    let by = if y < i {
                        y
                    } else {
                        y + 1
                    };
                    assert(items@[x] == before[bx] && items@[y] == before[by]);
                }
                assert(entries_view(items@) =~= old(self)@.remove(i as int));
                core::mem::swap(&mut self.items, &mut items);
                proof {
                    self.lemma_view();
                }
                Some(pair.1)
            },
            None => None,
        }
    }

    /// The number of entries.
    pub fn len(&self) -> (n: usize)
        ensures
            n == self@.len(),
            distinct_keys(self@),
    {
        proof {
            use_type_invariant(self);
            self.lemma_view();
        }
        self.items.len()
    }
}

impl PartialEq for Table {
    fn eq(&self, other: &Table) -> (equal: bool) {
        self.same_as(other)
    }
}

impl PartialEqSpecImpl for Table {
    open spec fn obeys_eq_spec() -> bool {
        true
    }

    open spec fn eq_spec(&self, other: &Table) -> bool {
        Data::Table(self@).same(Data::Table(other@))
    }
}

impl Clone for Table {
    fn clone(&self) -> (copy: Table)
        ensures
            copy@ == self@,
    {
        self.duplicate()
    }
}

impl Default for Table {
    fn default() -> (table: Table)
        ensures
            table@ == Seq::<(Seq<char>, Data)>::empty(),
    {
        Table::with_capacity(0)
    }
}

} // verus!
