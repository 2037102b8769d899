//! Reading a configuration file's text as TOML, and what a found file
//! contributes to the configuration.
use vstd::prelude::*;

use crate::config::{line_column, position_of, tool_entry, tool_table, ConfigValue};

verus! {

#[verifier::external_type_specification]
#[verifier::external_body]
pub struct ExTomlError(toml::de::Error);

#[verifier::external_type_specification]
#[verifier::external_body]
pub struct ExTomlValue(toml::Value);

/// The document `toml::from_str` reads from a text, each value as the rules
/// see it (booleans, strings, arrays and tables; anything else `Other`), or
/// `None` where it refuses the text.
pub uninterp spec fn toml_document(input: Seq<char>) -> Option<ConfigValue>;

/// The byte offset where the error `toml::from_str` gives for a text starts,
/// where the error names a place.
pub uninterp spec fn toml_error_start(input: Seq<char>) -> Option<usize>;

/// A text `toml::from_str` refused: where its error starts, and the error.
pub struct TomlRefusal {
    pub start: Option<usize>,
    pub source: toml::de::Error,
}

/// A parsed TOML value as the rules read it, one for one: booleans, strings,
/// arrays and tables keep their contents; numbers and dates become `Other`.
#[verifier::external_body]
fn config_value(value: &toml::Value) -> ConfigValue {
    match value {
        toml::Value::Boolean(flag) => ConfigValue::Boolean(*flag),
        toml::Value::String(text) => ConfigValue::Text(text.clone()),
        toml::Value::Array(items) => ConfigValue::Array(items.iter().map(config_value).collect()),
        toml::Value::Table(table) => ConfigValue::Table(
            table.iter().map(|(key, value)| (key.clone(), config_value(value))).collect(),
        ),
        _ => ConfigValue::Other,
    }
}

/// `toml::from_str` into a `toml::Value`: the document, named
/// [`toml_document`] of the text, or the error and where it starts, named
/// [`toml_error_start`].
#[verifier::external_body]
fn parse_toml(input: &str) -> (r: Result<ConfigValue, TomlRefusal>)
    ensures
        (r is Ok) == (toml_document(input@) is Some),
        r matches Ok(document) ==> toml_document(input@) == Some(document),
        r matches Err(refusal) ==> refusal.start == toml_error_start(input@),
{
    match toml::from_str::<toml::Value>(input) {
        Ok(value) => Ok(config_value(&value)),
        Err(source) => Err(TomlRefusal { start: source.span().map(|span| span.start), source }),
    }
}

/// A configuration text TOML refuses: the one-based line and column, in
/// characters, where the parser blames it, and the parser's error.
pub struct TomlError {
    pub line: usize,
    pub column: usize,
    pub source: toml::de::Error,
}

/// Where a refused text is blamed: the line and column of the error's start,
/// or the first line and column where the error names no place.
pub open spec fn blamed_at(input: Seq<char>) -> (int, int) {
    match toml_error_start(input) {
        Some(start) => position_of(input, start as int),
        None => (1, 1),
    }
}

/// Read a configuration text as TOML.
pub fn config_document(input: &str) -> (r: Result<ConfigValue, TomlError>)
    requires
        input@.len() < usize::MAX,
    ensures
        (r is Ok) == (toml_document(input@) is Some),
        r matches Ok(document) ==> toml_document(input@) == Some(document),
        r matches Err(error) ==> (error.line as int, error.column as int) == blamed_at(input@),
{
    match parse_toml(input) {
        Ok(document) => Ok(document),
        Err(refusal) => {
            let (line, column) = match refusal.start {
                Some(start) => line_column(input, start),
                None => (1, 1),
            };
            Err(TomlError { line, column, source: refusal.source })
        },
    }
}

/// Which file discovery found.
#[derive(Clone, Copy, Debug, PartialEq, Eq, Structural)]
pub enum ConfigFile {
    /// `limae.toml`: the whole document is the configuration.
    Standalone,
    /// `pyproject.toml`: only its `[tool.limae]` table is.
    Pyproject,
}

/// What a found file contributes: the whole document of a `limae.toml`, the
/// `[tool.limae]` table of a `pyproject.toml` (`None` when it has none, and
/// discovery goes on), given the text reads as TOML.
pub open spec fn contributed(file: ConfigFile, document: ConfigValue) -> Option<ConfigValue> {
    match file {
        ConfigFile::Standalone => Some(document),
        ConfigFile::Pyproject => tool_entry(document),
    }
}

/// Read a found configuration file's text and say what it contributes.
pub fn found_config(file: ConfigFile, input: &str) -> (r: Result<Option<ConfigValue>, TomlError>)
    requires
        input@.len() < usize::MAX,
    ensures
        (r is Ok) == (toml_document(input@) is Some),
        r matches Ok(found) ==> found == contributed(file, toml_document(input@)->Some_0),
        r matches Err(error) ==> (error.line as int, error.column as int) == blamed_at(input@),
{
    let document = match config_document(input) {
        Ok(document) => document,
        Err(error) => return Err(error),
    };
    match file {
        ConfigFile::Standalone => Ok(Some(document)),
        ConfigFile::Pyproject => Ok(tool_table(document)),
    }
}

} // verus!
