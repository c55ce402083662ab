//! How an integer comes in from each of the three formats.
use vstd::prelude::*;
use crate::json_tree::{JsonData, JsonNumber};
use crate::toml_tree::TomlData;
use crate::value::{Data, Failure};
use crate::yaml_tree::YamlData;

verus! {

/// An integer that is not negative is imported as an unsigned integer,
/// from whichever format it comes.
pub proof fn lemma_unsigned_import(n: u64)
    ensures
        crate::json_tree::import(JsonData::Number(JsonNumber::PosInt(n))) == Data::UInt(n),
        n <= i64::MAX ==> crate::json_tree::import(JsonData::Number(JsonNumber::NegInt(n as i64))) == Data::UInt(n),
        n <= i64::MAX ==> crate::toml_tree::import(TomlData::Integer(n as i64)) == Data::UInt(n),
        n <= i64::MAX ==> crate::yaml_tree::import(YamlData::Integer(n as i64)) == Ok::<Data, Failure>(
            Data::UInt(n),
        ),
{
}

/// A negative integer is imported as a signed integer, from whichever
/// format it comes.
pub proof fn lemma_signed_import(n: i64)
    requires
        n < 0,
    ensures
        crate::json_tree::import(JsonData::Number(JsonNumber::NegInt(n))) == Data::Int(n),
        crate::toml_tree::import(TomlData::Integer(n)) == Data::Int(n),
        crate::yaml_tree::import(YamlData::Integer(n)) == Ok::<Data, Failure>(Data::Int(n)),
{
}

/// An integer of TOML or of YAML comes back as it went: exporting what it
/// was imported to gives the integer again.
pub proof fn lemma_integer_round_trip(n: i64)
    ensures
        crate::toml_tree::export(crate::toml_tree::import(TomlData::Integer(n))) == TomlData::Integer(n),
        crate::yaml_tree::import(YamlData::Integer(n)) matches Ok(value) && crate::yaml_tree::export(value)
            == YamlData::Integer(n),
{
    if n >= 0 {
        assert((n as u64) as i64 == n) by (bit_vector)
            requires
                n >= 0,
        ;
    }
}

} // verus!
