//! Looking a key up in a table: first the key, then the locale under it.
//!
//! A lookup never falls back on another locale and never makes up a text:
//! where the key or the locale is missing it says which.

use vstd::prelude::*;
use vstd::string::*;
use crate::interpolate::{interpolate, interpolated, Params};
use crate::table::{template_of, TranslationTable};

verus! {

/// Why a lookup found no template.
#[derive(Debug)]
pub enum ResolveError {
    /// The table does not hold the key.
    MissingKey { key: String },
    /// The table holds the key, but no template for it in the locale.
    MissingLocale { locale: String, key: String },
}

impl ResolveError {
    /// The text of the error: it names the key, and the locale where the
    /// locale is what was missing.
    pub open spec fn text(self) -> Seq<char> {
        match self {
            ResolveError::MissingKey { key } => "Missing key: "@ + key@,
            ResolveError::MissingLocale { locale, key } => "Missing language ("@ + locale@
                + ") for key: "@ + key@,
        }
    }

    /// The error as a text for people.
    pub fn message(&self) -> (message: String)
        ensures
            message@ == self.text(),
    {
        match self {
            ResolveError::MissingKey { key } => {
                let mut message = String::from_str("Missing key: ");
                message.append(key.as_str());
                message
            },
            ResolveError::MissingLocale { locale, key } => {
                let mut message = String::from_str("Missing language (");
                message.append(locale.as_str());
                message.append(") for key: ");
                message.append(key.as_str());
                message
            },
        }
    }
}

/// The template that `table` holds for `key` in `locale`, as it stands in
/// the table. Fails where the table does not hold the key, and where it holds
/// the key but not the locale; the error carries what was asked for.
pub fn resolve(table: &TranslationTable, key: &str, locale: &str) -> (found: Result<
    String,
    ResolveError,
>)
    ensures
        match found {
            Ok(template) => template_of(table@, key@, locale@) == Some(template@),
            Err(ResolveError::MissingKey { key: k }) => !table@.contains_key(key@) && k@ == key@,
            Err(ResolveError::MissingLocale { locale: l, key: k }) => table@.contains_key(key@)
                && !table@[key@].contains_key(locale@) && l@ == locale@ && k@ == key@,
        },
{
    match table.get(key) {
        None => Err(ResolveError::MissingKey { key: key.to_owned() }),
        Some(locales) => match locales.get(locale) {
            None => Err(
                ResolveError::MissingLocale { locale: locale.to_owned(), key: key.to_owned() },
            ),
            Some(template) => Ok(template.clone()),
        },
    }
}

/// The template of `key` in `locale`, for a key and a locale that the table
/// holds.
pub fn t(table: &TranslationTable, key: &str, locale: &str) -> (template: String)
    requires
        template_of(table@, key@, locale@) is Some,
    ensures
        template_of(table@, key@, locale@) == Some(template@),
{
    match table.lookup(key, locale) {
        Some(template) => template.clone(),
        None => unreached(),
    }
}

/// The template of `key` in `locale` with its placeholders replaced from
/// `params`. Fails as `resolve` does.
pub fn translate(table: &TranslationTable, key: &str, params: &Params, locale: &str) -> (found:
    Result<String, ResolveError>)
    ensures
        match found {
            Ok(text) => template_of(table@, key@, locale@) is Some && text@ == interpolated(
                table@[key@][locale@],
                params@,
            ),
            Err(ResolveError::MissingKey { key: k }) => !table@.contains_key(key@) && k@ == key@,
            Err(ResolveError::MissingLocale { locale: l, key: k }) => table@.contains_key(key@)
                && !table@[key@].contains_key(locale@) && l@ == locale@ && k@ == key@,
        },
{
    match resolve(table, key, locale) {
        Ok(template) => Ok(interpolate(template.as_str(), params)),
        Err(error) => Err(error),
    }
}

} // verus!
