//! What the library has from `serde_yaml`: parsing a text into values and
//! reading into a value. Nothing here is proved: each contract states what
//! the crate's function is taken to do.

use vstd::prelude::*;

verus! {

/// A YAML value of `serde_yaml`. What it holds is reached through the
/// functions below.
#[verifier::external_type_specification]
#[verifier::external_body]
pub struct ExValue(serde_yaml::Value);

/// A YAML mapping of `serde_yaml`.
#[verifier::external_type_specification]
#[verifier::external_body]
pub struct ExMapping(serde_yaml::Mapping);

/// The error of `serde_yaml`.
#[verifier::external_type_specification]
#[verifier::external_body]
pub struct ExYamlError(serde_yaml::Error);

/// The elements that `text` holds when read as one YAML sequence; `None`
/// where `text` is no YAML or no sequence.
pub uninterp spec fn yaml_sequence(text: Seq<char>) -> Option<Seq<serde_yaml::Value>>;

/// The value that `text` holds when read as YAML; `None` where it is none.
pub uninterp spec fn yaml_value(text: Seq<char>) -> Option<serde_yaml::Value>;

/// The value that `value` has under the string key `key`, if `value`,
/// whatever tags it bears, is a mapping with that key.
pub uninterp spec fn yaml_member(value: serde_yaml::Value, key: Seq<char>) -> Option<
    serde_yaml::Value,
>;

/// The string that `value` is, if `value`, whatever tags it bears, is a
/// string.
pub uninterp spec fn yaml_text(value: serde_yaml::Value) -> Option<Seq<char>>;

/// The mapping that `value` is, if `value`, whatever tags it bears, is a
/// mapping.
pub uninterp spec fn yaml_mapping(value: serde_yaml::Value) -> Option<serde_yaml::Mapping>;

/// The values of `mapping`, in the order in which it holds them.
pub uninterp spec fn yaml_values(mapping: serde_yaml::Mapping) -> Seq<serde_yaml::Value>;

/// `serde_yaml::from_str` at the type `serde_yaml::Sequence`: reads `text` as
/// one YAML document that is a sequence. The result depends on `text` alone.
#[verifier::external_body]
pub(crate) fn parse_sequence(text: &str) -> (r: Result<Vec<serde_yaml::Value>, serde_yaml::Error>)
    ensures
        match r {
            Ok(elements) => yaml_sequence(text@) == Some(elements@),
            Err(_) => yaml_sequence(text@) is None,
        },
{
    serde_yaml::from_str::<serde_yaml::Sequence>(text)
}

/// `serde_yaml::from_str` at the type `serde_yaml::Value`: reads `text` as
/// one YAML document. The result depends on `text` alone.
#[verifier::external_body]
pub(crate) fn parse_value(text: &str) -> (r: Result<serde_yaml::Value, serde_yaml::Error>)
    ensures
        match r {
            Ok(value) => yaml_value(text@) == Some(value),
            Err(_) => yaml_value(text@) is None,
        },
{
    serde_yaml::from_str::<serde_yaml::Value>(text)
}

/// `serde_yaml::Value::get` with a string key: the value under `key` where
/// `value` is a mapping that has the key, and nothing otherwise.
#[verifier::external_body]
pub(crate) fn member<'a>(value: &'a serde_yaml::Value, key: &str) -> (r: Option<
    &'a serde_yaml::Value,
>)
    ensures
        match r {
            Some(found) => yaml_member(*value, key@) == Some(*found),
            None => yaml_member(*value, key@) is None,
        },
{
    value.get(key)
}

/// `serde_yaml::Value::as_str`: the string where `value` is one, and
/// nothing otherwise.
#[verifier::external_body]
pub(crate) fn text_of<'a>(value: &'a serde_yaml::Value) -> (r: Option<&'a str>)
    ensures
        match r {
            Some(text) => yaml_text(*value) == Some(text@),
            None => yaml_text(*value) is None,
        },
{
    value.as_str()
}

/// `serde_yaml::Value::as_mapping`: the mapping where `value` is one, and
/// nothing otherwise.
#[verifier::external_body]
pub(crate) fn as_mapping<'a>(value: &'a serde_yaml::Value) -> (r: Option<
    &'a serde_yaml::Mapping,
>)
    ensures
        match r {
            Some(mapping) => yaml_mapping(*value) == Some(*mapping),
            None => yaml_mapping(*value) is None,
        },
{
    value.as_mapping()
}

/// `serde_yaml::Mapping::values`: the values of the mapping, in the order
/// in which the mapping holds them.
#[verifier::external_body]
pub(crate) fn values_of<'a>(mapping: &'a serde_yaml::Mapping) -> (r: Vec<&'a serde_yaml::Value>)
    ensures
        r@.len() == yaml_values(*mapping).len(),
        forall|i: int| 0 <= i < r@.len() ==> *(#[trigger] r@[i]) == yaml_values(*mapping)[i],
{
    mapping.values().collect()
}

} // verus!
