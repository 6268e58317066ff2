//! Reading translation files: a JSON object whose members are the keys, each
//! with an object of its own that maps locales to templates.

use vstd::prelude::*;
use std::collections::HashMap;
use crate::assoc::{folded, keys_distinct};
use crate::table::{
    entry_rows, lemma_stored_distinct, merged, merged_all, TranslationTable, Translations,
};

verus! {

/// The error with which `serde_json` refuses a text.
#[verifier::external_type_specification]
#[verifier::external_body]
pub struct ExJsonError(serde_json::Error);

/// What `serde_json::from_str` reads from the text `content` as a map from
/// strings to maps from strings to strings; `None` where it refuses the text.
pub uninterp spec fn json_map(content: Seq<char>) -> Option<
    Map<Seq<char>, Map<Seq<char>, Seq<char>>>,
>;

/// Calls `serde_json::from_str` on `content` for a `HashMap` from `String` to
/// `HashMap` from `String` to `String`, and lists what the maps hold: one
/// entry for each key, with one pair for each of its locales, in the order in
/// which the maps hand them out. The contract claims that the call succeeds
/// exactly where `json_map` is defined, that no key comes twice among the
/// entries, and that the entries list the map that `json_map` names.
#[verifier::external_body]
fn parse_json(content: &str) -> (parsed: Result<
    Vec<(String, Vec<(String, String)>)>,
    serde_json::Error,
>)
    ensures
        match parsed {
            Ok(entries) => keys_distinct(entry_rows(entries@)) && json_map(content@) == Some(
                folded(entry_rows(entries@)),
            ),
            Err(_) => json_map(content@) is None,
        },
{
    let keys: HashMap<String, HashMap<String, String>> = serde_json::from_str(content)?;
    Ok(keys.into_iter().map(|(key, locales)| (key, locales.into_iter().collect())).collect())
}

/// The translations of a file with the text `content`: what its JSON holds,
/// without the keys that have no locale. `None` where the text is not a JSON
/// object of objects of strings.
pub open spec fn file_translations(content: Seq<char>) -> Option<Translations> {
    match json_map(content) {
        Some(m) => Some(merged(Map::empty(), m)),
        None => None,
    }
}

/// Calls `to_string` on an error of `serde_json`: its message, with the line
/// and column where it has them. Nothing is claimed of the text.
#[verifier::external_body]
fn describe(error: &serde_json::Error) -> (message: String) {
    error.to_string()
}

/// A translation file that could not be read as one.
#[derive(Debug)]
pub struct ParseFailure {
    /// What the parser said of the text.
    pub message: String,
}

/// Reads the translations of one file. Fails where the text is not a JSON
/// object of objects of strings.
pub fn parse_translations(content: &str) -> (parsed: Result<TranslationTable, ParseFailure>)
    ensures
        match parsed {
            Ok(table) => file_translations(content@) == Some(table@),
            Err(_) => file_translations(content@) is None,
        },
{
    match parse_json(content) {
        Ok(entries) => {
            proof {
                lemma_stored_distinct(entries@);
            }
            Ok(TranslationTable::from_entries(&entries))
        },
        Err(error) => Err(ParseFailure { message: describe(&error) }),
    }
}

/// Reads the translations of one file and merges them into `table`: each
/// template of the file replaces that of the table for the same key and
/// locale, and everything else in the table stays. Where the text cannot be
/// read, the table is left as it was.
pub fn load_i18n(table: &mut TranslationTable, content: &str) -> (loaded: Result<(), ParseFailure>)
    ensures
        match loaded {
            Ok(_) => file_translations(content@) is Some && final(table)@ == merged(
                old(table)@,
                file_translations(content@)->0,
            ),
            Err(_) => file_translations(content@) is None && final(table)@ == old(table)@,
        },
{
    match parse_translations(content) {
        Ok(file) => {
            table.merge(&file);
            Ok(())
        },
        Err(failure) => Err(failure),
    }
}

/// The translations of the first `n` of the files `contents`, file by file.
pub open spec fn files_read(contents: Seq<String>, n: int) -> Seq<Translations> {
    Seq::new(n as nat, |i: int| file_translations(contents[i]@)->0)
}

/// One of several translation files could not be read.
#[derive(Debug)]
pub struct LoadFailure {
    /// The place of the file among those that were handed over.
    pub index: usize,
    /// What the parser said of its text.
    pub message: String,
}

/// Reads the files `contents` in their order and merges each into `table`,
/// so that a later file overwrites an earlier one where both have a template
/// for the same key and locale. The first file that cannot be read ends the
/// loading: the files before it are merged, it and those after it are not,
/// and the error says which file it was.
pub fn load_all(table: &mut TranslationTable, contents: &Vec<String>) -> (loaded: Result<
    (),
    LoadFailure,
>)
    ensures
        match loaded {
            Ok(_) => {
                &&& forall|i: int|
                    0 <= i < contents@.len() ==> file_translations(
                        (#[trigger] contents@[i])@,
                    ) is Some
                &&& final(table)@ == merged_all(
                    old(table)@,
                    files_read(contents@, contents@.len() as int),
                )
            },
            Err(failure) => {
                &&& failure.index < contents@.len()
                &&& file_translations(contents@[failure.index as int]@) is None
                &&& forall|i: int|
                    0 <= i < failure.index ==> file_translations(
                        (#[trigger] contents@[i])@,
                    ) is Some
                &&& final(table)@ == merged_all(
                    old(table)@,
                    files_read(contents@, failure.index as int),
                )
            },
        },
{
    let mut i: usize = 0;
    assert(files_read(contents@, 0) =~= Seq::<Translations>::empty());
    while i < contents.len()
        invariant
            i <= contents@.len(),
            forall|k: int| 0 <= k < i ==> file_translations((#[trigger] contents@[k])@) is Some,
            table@ == merged_all(old(table)@, files_read(contents@, i as int)),
        decreases contents@.len() - i,
    {
        match load_i18n(table, contents[i].as_str()) {
            Ok(_) => {
                proof {
                    let read = files_read(contents@, i + 1);
                    assert(read.drop_last() =~= files_read(contents@, i as int));
                    assert(read.last() == file_translations(contents@[i as int]@)->0);
                }
            },
            Err(failure) => {
                return Err(LoadFailure { index: i, message: failure.message });
            },
        }
        i += 1;
    }
    Ok(())
}

} // verus!
