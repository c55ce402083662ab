//! A format-neutral value tree, and the rules that carry it to and from the
//! documents of JSON, TOML and YAML.
//!
//! Every conversion goes through [`value::Value`]: a document of one format
//! is imported into a `Value`, and a `Value` is exported to the document of
//! another format. [`table::Table`] is the keyed shape that all three formats
//! share.
//!
//! A document is held as a plain tree: [`json_tree::JsonValue`],
//! [`toml_tree::TomlValue`] or [`yaml_tree::YamlNode`]. A float, in a value
//! and in a document alike, is held by its IEEE 754 bit pattern.
//!
//! Each type has a mathematical model, its view, and each conversion has a
//! function on models that says what it gives. The laws that relate the
//! conversions are proved of those functions.
pub mod value;
pub mod table;
pub mod json_tree;
pub mod toml_tree;
pub mod yaml_tree;
pub mod integers;
