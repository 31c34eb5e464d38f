//! The TOML parser and serializer of the `toml` crate, behind trusted
//! wrappers that convert between `toml::Value` and [`TomlValue`].

use vstd::prelude::*;
use crate::value::{TomlValue, TomlModel, value_wf};

verus! {

/// The `toml` crate's value type, carried opaquely inside the wrappers.
#[verifier::external_type_specification]
#[verifier::external_body]
pub struct ExTomlValue(toml::Value);

/// What `toml::from_str::<toml::Value>` gives for a text: the document's
/// table, or the parser's error message.
pub uninterp spec fn toml_parsed(text: Seq<char>) -> Result<TomlModel, Seq<char>>;

/// What `toml::to_string` gives for a value: its TOML text, or the
/// serializer's error message.
pub uninterp spec fn toml_rendered(v: TomlModel) -> Result<Seq<char>, Seq<char>>;

/// Converts a `toml::Value` to a [`TomlValue`] (floats and datetimes by
/// their text); nothing is promised of it.
#[verifier::external_body]
fn from_toml(v: toml::Value) -> TomlValue {
    match v {
        toml::Value::String(s) => TomlValue::String(s),
        toml::Value::Integer(i) => TomlValue::Integer(i),
        toml::Value::Float(f) => TomlValue::Float(f.to_string()),
        toml::Value::Boolean(b) => TomlValue::Boolean(b),
        toml::Value::Datetime(d) => TomlValue::Datetime(d.to_string()),
        toml::Value::Array(a) => TomlValue::Array(a.into_iter().map(from_toml).collect()),
        toml::Value::Table(t) => TomlValue::Table(t.into_iter().map(|(k, x)| (k, from_toml(x))).collect()),
    }
}

/// Converts a [`TomlValue`] to a `toml::Value`, or `None` when a float or a
/// datetime text does not parse; nothing is promised of it.
#[verifier::external_body]
fn to_toml(v: &TomlValue) -> Option<toml::Value> {
    Some(match v {
        TomlValue::String(s) => toml::Value::String(s.clone()),
        TomlValue::Integer(i) => toml::Value::Integer(*i),
        TomlValue::Float(s) => toml::Value::Float(s.parse().ok()?),
        TomlValue::Boolean(b) => toml::Value::Boolean(*b),
        TomlValue::Datetime(s) => toml::Value::Datetime(s.parse().ok()?),
        TomlValue::Array(a) => to_toml_array(a)?,
        TomlValue::Table(t) => to_toml_table(t)?,
    })
}

/// Converts the elements of an array to a `toml::Value` array; nothing is
/// promised of it.
#[verifier::external_body]
fn to_toml_array(a: &Vec<TomlValue>) -> Option<toml::Value> {
    Some(toml::Value::Array(a.iter().map(to_toml).collect::<Option<Vec<_>>>()?))
}

/// Converts the entries of a table to a `toml::Value` table; nothing is
/// promised of it.
#[verifier::external_body]
fn to_toml_table(t: &Vec<(String, TomlValue)>) -> Option<toml::Value> {
    Some(toml::Value::Table(t.iter().map(|(k, x)| Some((k.clone(), to_toml(x)?))).collect::<Option<toml::Table>>()?))
}

/// A failure to parse TOML: the parser's message, and the byte range of the
/// offending text when the parser reports one.
#[derive(Debug, Clone)]
pub struct TomlParseError {
    pub message: String,
    pub span: Option<(usize, usize)>,
}

/// What `toml::de::Error::span` gives for the failure to parse a text.
pub uninterp spec fn toml_error_span(text: Seq<char>) -> Option<(usize, usize)>;

/// Calls `toml::from_str::<toml::Value>`: a document parses to a table
/// (whose keys are distinct), a function of the text alone; a syntax error
/// gives the parser's message and the span it reports, functions of the
/// text alone.
#[verifier::external_body]
pub(crate) fn parse_toml(text: &str) -> (r: Result<TomlValue, TomlParseError>)
    ensures
        match r {
            Ok(v) => toml_parsed(text@) == Ok::<TomlModel, Seq<char>>(v@) && value_wf(v) && v@ is Table,
            Err(e) => toml_parsed(text@) == Err::<TomlModel, Seq<char>>(e.message@) && e.span == toml_error_span(text@),
        },
{
    match toml::from_str::<toml::Value>(text) {
        Ok(v) => Ok(from_toml(v)),
        Err(e) => Err(TomlParseError { message: e.to_string(), span: e.span().map(|s| (s.start, s.end)) }),
    }
}

/// Calls `toml::to_string` on the value converted to `toml::Value`: the
/// text, or the serializer's message, a function of the value's model alone
/// (tables serialize in key order); a float or datetime text that does not
/// parse gives an error.
#[verifier::external_body]
pub(crate) fn render_toml(v: &TomlValue) -> (r: Result<String, String>)
    ensures
        match r {
            Ok(t) => toml_rendered(v@) == Ok::<Seq<char>, Seq<char>>(t@),
            Err(m) => toml_rendered(v@) == Err::<Seq<char>, Seq<char>>(m@),
        },
{
    match to_toml(v) {
        Some(x) => toml::to_string(&x).map_err(|e| e.to_string()),
        None => Err("invalid float or datetime text".to_string()),
    }
}

/// What the `Display` of `toml::Value` gives for a value.
pub uninterp spec fn toml_shown(v: TomlModel) -> Seq<char>;

/// Calls `toml::Value`'s `Display` (`to_string`) on the value converted to
/// `toml::Value`: a function of the value's model alone (empty when a float
/// or datetime text does not parse).
#[verifier::external_body]
pub(crate) fn show_toml(v: &TomlValue) -> (r: String)
    ensures
        r@ == toml_shown(v@),
{
    match to_toml(v) {
        Some(x) => x.to_string(),
        None => String::new(),
    }
}

} // verus!
