//! The calls into `serde_yaml` that the policy reader makes, each behind a
//! trusted item whose contract names what the call returns.

use vstd::prelude::*;

verus! {

/// A YAML document node, as `serde_yaml` represents it; opaque here.
#[verifier::external_type_specification]
#[verifier::external_body]
pub struct ExYamlValue(serde_yaml::Value);

/// A YAML syntax or structure error, as `serde_yaml` reports it; opaque here.
#[verifier::external_type_specification]
#[verifier::external_body]
pub struct ExYamlError(serde_yaml::Error);

/// The result of reading `text` as one YAML document.
pub uninterp spec fn yaml_document(text: Seq<char>) -> Result<serde_yaml::Value, serde_yaml::Error>;

/// The node that `Value::get` finds under the string key `key`: `None` unless
/// `node` (past any tags) is a mapping with that key.
pub uninterp spec fn yaml_field(node: serde_yaml::Value, key: Seq<char>) -> Option<serde_yaml::Value>;

/// The text of `node` when it is a string (past any tags), as `Value::as_str` gives it.
pub uninterp spec fn yaml_text(node: serde_yaml::Value) -> Option<Seq<char>>;

/// Whether `node` (past any tags) is a number, as `Value::is_number` tells; for
/// exactly these nodes `Value::as_f64` returns a value.
pub uninterp spec fn yaml_is_number(node: serde_yaml::Value) -> bool;

/// The entries of `node` in document order when it is a mapping (past any
/// tags), as `Value::as_mapping` holds them.
pub uninterp spec fn yaml_entries(node: serde_yaml::Value) -> Option<Seq<(serde_yaml::Value, serde_yaml::Value)>>;

/// The message that `serde_yaml::Error` displays.
pub uninterp spec fn yaml_error_text(error: serde_yaml::Error) -> Seq<char>;

/// `serde_yaml::from_str::<Value>`: the contract claims only that the result is
/// the named reading of the text.
#[verifier::external_body]
pub(crate) fn parse_document(text: &str) -> (r: Result<serde_yaml::Value, serde_yaml::Error>)
    ensures
        r == yaml_document(text@),
{
    serde_yaml::from_str::<serde_yaml::Value>(text)
}

/// `Value::get` with a string key, cloning the node found; the contract claims
/// only that the result is the named lookup.
#[verifier::external_body]
pub(crate) fn field(node: &serde_yaml::Value, key: &str) -> (r: Option<serde_yaml::Value>)
    ensures
        r == yaml_field(*node, key@),
{
    node.get(key).cloned()
}

/// `Value::as_str`, copied into a `String`; the contract claims that the text
/// is the named one, and `None` exactly when the name gives none.
#[verifier::external_body]
pub(crate) fn text_of(node: &serde_yaml::Value) -> (r: Option<String>)
    ensures
        match r {
            Some(t) => yaml_text(*node) == Some(t@),
            None => yaml_text(*node) is None,
        },
{
    match node.as_str() {
        Some(s) => Some(s.to_string()),
        None => None,
    }
}

/// `Value::is_number`; the contract claims only that the answer is the named one.
#[verifier::external_body]
pub(crate) fn is_number(node: &serde_yaml::Value) -> (r: bool)
    ensures
        r == yaml_is_number(*node),
{
    node.is_number()
}

/// `Value::as_mapping`, with each entry cloned into a vector in document
/// order; the contract claims that the entries are the named ones, and `None`
/// exactly when the name gives none.
#[verifier::external_body]
pub(crate) fn entries_of(node: &serde_yaml::Value) -> (r: Option<Vec<(serde_yaml::Value, serde_yaml::Value)>>)
    ensures
        match r {
            Some(v) => yaml_entries(*node) == Some(v@),
            None => yaml_entries(*node) is None,
        },
{
    match node.as_mapping() {
        Some(m) => {
            let mut out = Vec::new();
            for (k, v) in m {
                out.push((k.clone(), v.clone()));
            }
            Some(out)
        },
        None => None,
    }
}

/// `Clone::clone` on a node; the contract claims that the copy is the same
/// node, as the derived structural clone makes it.
#[verifier::external_body]
pub(crate) fn copy_node(node: &serde_yaml::Value) -> (r: serde_yaml::Value)
    ensures
        r == *node,
{
    node.clone()
}

/// The `Display` text of a `serde_yaml::Error`; the contract claims only that
/// it is the named message.
#[verifier::external_body]
pub(crate) fn error_message(error: &serde_yaml::Error) -> (r: String)
    ensures
        r@ == yaml_error_text(*error),
{
    error.to_string()
}

} // verus!
