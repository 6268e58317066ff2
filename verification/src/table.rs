//! The translation table: for each key, the template of each locale.
//!
//! A table never holds a key without a locale. Keys and locales are compared
//! character by character; nothing is folded or normalized.

use vstd::prelude::*;
use crate::assoc::{
    folded, has_key, keys_distinct, keys_of, lemma_folded_index, lemma_folded_keys, lemma_folded_len,
    lemma_folded_push, lemma_folded_update, lemma_keys_no_duplicates,
};
use crate::strmap::{pairs_map, StringMap};
use crate::text::str_eq;

verus! {

/// The templates of one key: locale to template.
pub type LocaleMap = StringMap;

/// What a table stands for: key to locale to template.
pub type Translations = Map<Seq<char>, Map<Seq<char>, Seq<char>>>;

/// The template that `m` holds for `key` in `locale`, if it holds one.
pub open spec fn template_of(m: Translations, key: Seq<char>, locale: Seq<char>) -> Option<
    Seq<char>,
> {
    if m.contains_key(key) && m[key].contains_key(locale) {
        Some(m[key][locale])
    } else {
        None
    }
}

/// Every key of `m` has a template in at least one locale.
pub open spec fn every_key_has_locale(m: Translations) -> bool {
    forall|key: Seq<char>| #[trigger]
        m.contains_key(key) ==> m[key] != Map::<Seq<char>, Seq<char>>::empty()
}

/// The locales that `m` holds for `key`; none where it does not hold the key.
pub open spec fn locales_of(m: Translations, key: Seq<char>) -> Map<Seq<char>, Seq<char>> {
    if m.contains_key(key) {
        m[key]
    } else {
        Map::empty()
    }
}

/// `m` after the templates `locales` were stored under `key`: each of them
/// replaces what `m` held for that key and locale, and the other locales of
/// the key stay. Storing no template changes nothing.
pub open spec fn with_locales(
    m: Translations,
    key: Seq<char>,
    locales: Map<Seq<char>, Seq<char>>,
) -> Translations {
    if locales == Map::<Seq<char>, Seq<char>>::empty() {
        m
    } else {
        m.insert(key, locales_of(m, key).union_prefer_right(locales))
    }
}

/// `a` after `b` was merged into it: for each key and locale the template of
/// `b` where it has one, else that of `a`.
pub open spec fn merged(a: Translations, b: Translations) -> Translations {
    Map::new(
        |key: Seq<char>|
            a.contains_key(key) || (b.contains_key(key) && b[key] != Map::<
                Seq<char>,
                Seq<char>,
            >::empty()),
        |key: Seq<char>| locales_of(a, key).union_prefer_right(locales_of(b, key)),
    )
}

/// The table that storing the entries of `entries` one after the other
/// builds. An entry is a key with the templates to store under it, as pairs
/// of locale and template.
pub open spec fn stored(entries: Seq<(String, Vec<(String, String)>)>) -> Translations
    decreases entries.len(),
{
    if entries.len() == 0 {
        Map::empty()
    } else {
        with_locales(
            stored(entries.drop_last()),
            entries.last().0@,
            pairs_map(entries.last().1@),
        )
    }
}

/// The entries of `entries` as pairs of a key and the map that its pairs of
/// locale and template build.
pub open spec fn entry_rows(entries: Seq<(String, Vec<(String, String)>)>) -> Seq<
    (Seq<char>, Map<Seq<char>, Seq<char>>),
> {
    Seq::new(entries.len(), |i: int| (entries[i].0@, pairs_map(entries[i].1@)))
}

#[derive(Debug)]
struct Entry {
    key: String,
    locales: LocaleMap,
}

/// The entries as pairs of a key and what it maps to.
spec fn rows(entries: Seq<Entry>) -> Seq<(Seq<char>, Map<Seq<char>, Seq<char>>)> {
    Seq::new(entries.len(), |i: int| (entries[i].key@, entries[i].locales@))
}

/// The translation table.
#[derive(Debug)]
pub struct TranslationTable {
    entries: Vec<Entry>,
}

impl View for TranslationTable {
    type V = Translations;

    closed spec fn view(&self) -> Translations {
        folded(rows(self.entries@))
    }
}

impl TranslationTable {
    #[verifier::type_invariant]
    spec fn well_formed(self) -> bool {
        &&& keys_distinct(rows(self.entries@))
        &&& forall|i: int|
            0 <= i < self.entries@.len() ==> (#[trigger] self.entries@[i]).locales@ != Map::<
                Seq<char>,
                Seq<char>,
            >::empty()
    }

    /// The keys of the table, in the order in which they were first stored.
    pub closed spec fn keys(&self) -> Seq<Seq<char>> {
        keys_of(rows(self.entries@))
    }

    /// A table without keys.
    pub fn new() -> (table: Self)
        ensures
            table@ == Translations::empty(),
            table.keys() == Seq::<Seq<char>>::empty(),
    {
        let table = TranslationTable { entries: Vec::new() };
        assert(table.keys() =~= Seq::<Seq<char>>::empty());
        table
    }

    /// The table that storing the entries of `entries` in their order builds:
    /// each entry is a key with pairs of locale and template.
    pub fn from_entries(entries: &Vec<(String, Vec<(String, String)>)>) -> (table: Self)
        ensures
            table@ == stored(entries@),
    {
        let mut table = TranslationTable::new();
        let mut i: usize = 0;
        assert(entries@.take(0) =~= Seq::<(String, Vec<(String, String)>)>::empty());
        while i < entries.len()
            invariant
                i <= entries@.len(),
                table@ == stored(entries@.take(i as int)),
            decreases entries@.len() - i,
        {
            assert(entries@.take(i + 1).drop_last() =~= entries@.take(i as int));
            let locales = LocaleMap::from_pairs(&entries[i].1);
            table.merge_key(entries[i].0.as_str(), &locales);
            i += 1;
        }
        assert(entries@.take(i as int) =~= entries@);
        table
    }

    /// The number of keys. Each key is listed once in `keys()`, and each has
    /// at least one locale.
    pub fn len(&self) -> (n: usize)
        ensures
            n == self.keys().len(),
            n == self@.dom().len(),
            self@.dom().finite(),
            self.keys().no_duplicates(),
            forall|key: Seq<char>|
                #![trigger self@.contains_key(key)]
                #![trigger self.keys().contains(key)]
                self@.contains_key(key) <==> self.keys().contains(key),
            every_key_has_locale(self@),
    {
        proof {
            use_type_invariant(self);
            let s = rows(self.entries@);
            lemma_folded_len(s);
            lemma_folded_keys(s);
            lemma_keys_no_duplicates(s);
            assert forall|key: Seq<char>| #[trigger] self@.contains_key(key) implies self@[key]
                != Map::<Seq<char>, Seq<char>>::empty() by {
                let i = choose|i: int| 0 <= i < s.len() && (#[trigger] s[i]).0 == key;
                lemma_folded_index(s, i);
                assert(self.entries@[i].locales@ == s[i].1);
            }
        }
        self.entries.len()
    }

    /// Whether the table holds no key at all.
    pub fn is_empty(&self) -> (b: bool)
        ensures
            b == (self@ == Translations::empty()),
            b == (self.keys().len() == 0),
    {
        proof {
            use_type_invariant(self);
            lemma_folded_len(rows(self.entries@));
        }
        self.entries.len() == 0
    }

    fn position(&self, key: &str) -> (found: Option<usize>)
        ensures
            match found {
                Some(i) => i < self.entries@.len() && self.entries@[i as int].key@ == key@
                    && self@.contains_key(key@) && self@[key@]
                    == self.entries@[i as int].locales@,
                None => !self@.contains_key(key@),
            },
    {
        proof {
            use_type_invariant(self);
            lemma_folded_keys(rows(self.entries@));
        }
        let mut i: usize = 0;
        while i < self.entries.len()
            invariant
                i <= self.entries@.len(),
                keys_distinct(rows(self.entries@)),
                forall|other: Seq<char>| #[trigger]
                    self@.contains_key(other) <==> has_key(rows(self.entries@), other),
                forall|j: int| 0 <= j < i ==> (#[trigger] rows(self.entries@)[j]).0 != key@,
            decreases self.entries@.len() - i,
        {
            if str_eq(self.entries[i].key.as_str(), key) {
                proof {
                    lemma_folded_index(rows(self.entries@), i as int);
                }
                return Some(i);
            }
            i += 1;
        }
        None
    }

    /// Whether the table holds `key`.
    pub fn contains_key(&self, key: &str) -> (b: bool)
        ensures
            b == self@.contains_key(key@),
    {
        self.position(key).is_some()
    }

    /// The templates of `key`, by locale, if the table holds the key. A key
    /// that the table holds has at least one.
    pub fn get(&self, key: &str) -> (locales: Option<&LocaleMap>)
        ensures
            match locales {
                Some(m) => self@.contains_key(key@) && m@ == self@[key@] && m@ != Map::<
                    Seq<char>,
                    Seq<char>,
                >::empty(),
                None => !self@.contains_key(key@),
            },
    {
        match self.position(key) {
            Some(i) => {
                proof {
                    use_type_invariant(self);
                }
                Some(&self.entries[i].locales)
            },
            None => None,
        }
    }

    /// The key at place `i` in the order of first storing.
    pub fn key_at(&self, i: usize) -> (key: &String)
        requires
            i < self.keys().len(),
        ensures
            key@ == self.keys()[i as int],
    {
        &self.entries[i].key
    }

    /// The templates of the key at place `i` in the order of first storing.
    pub fn locales_at(&self, i: usize) -> (locales: &LocaleMap)
        requires
            i < self.keys().len(),
        ensures
            self@.contains_key(self.keys()[i as int]),
            locales@ == self@[self.keys()[i as int]],
            locales@ != Map::<Seq<char>, Seq<char>>::empty(),
    {
        proof {
            use_type_invariant(self);
            lemma_folded_index(rows(self.entries@), i as int);
        }
        &self.entries[i].locales
    }

    /// Stores the templates `locales` under `key`. Each replaces what the
    /// table held for that key and locale; the other locales of the key stay
    /// as they were. Where `locales` is empty the table does not change.
    pub fn merge_key(&mut self, key: &str, locales: &LocaleMap)
        ensures
            final(self)@ == with_locales(old(self)@, key@, locales@),
            final(self).keys() == if old(self)@.contains_key(key@) || locales@ == Map::<
                Seq<char>,
                Seq<char>,
            >::empty() {
                old(self).keys()
            } else {
                old(self).keys().push(key@)
            },
    {
        proof {
            use_type_invariant(&*self);
        }
        if locales.is_empty() {
            return ;
        }
        let found = self.position(key);
        let mut entries: Vec<Entry> = Vec::new();
        std::mem::swap(&mut entries, &mut self.entries);
        let ghost before = rows(entries@);
        match found {
            Some(i) => {
                let ghost kept = entries@[i as int].locales@;
                entries[i].locales.extend_from(locales);
                proof {
                    let joined = kept.union_prefer_right(locales@);
                    lemma_folded_update(before, i as int, joined);
                    assert(rows(entries@) =~= before.update(
                        i as int,
                        (before[i as int].0, joined),
                    ));
                    lemma_some_locale(locales@);
                    let l = choose|l: Seq<char>| locales@.contains_key(l);
                    assert(joined.contains_key(l));
                }
            },
            None => {
                let entry = Entry { key: key.to_owned(), locales: locales.clone() };
                proof {
                    lemma_folded_keys(before);
                    lemma_folded_push(before, entry.key@, entry.locales@);
                    assert(rows(entries@.push(entry)) =~= before.push((entry.key@, entry.locales@)));
                    assert(Map::<Seq<char>, Seq<char>>::empty().union_prefer_right(locales@)
                        =~= locales@);
                }
                entries.push(entry);
            },
        }
        self.entries = entries;
    }

    /// The template of `key` in `locale`, if the table holds one.
    pub fn lookup(&self, key: &str, locale: &str) -> (template: Option<&String>)
        ensures
            match template {
                Some(t) => template_of(self@, key@, locale@) == Some(t@),
                None => template_of(self@, key@, locale@) is None,
            },
    {
        match self.get(key) {
            Some(locales) => locales.get(locale),
            None => None,
        }
    }

    /// Stores `template` for `key` in `locale`, replacing what the table held
    /// for that key and locale.
    pub fn set(&mut self, key: &str, locale: &str, template: &str)
        ensures
            final(self)@ == with_locales(
                old(self)@,
                key@,
                Map::<Seq<char>, Seq<char>>::empty().insert(locale@, template@),
            ),
            template_of(final(self)@, key@, locale@) == Some(template@),
            final(self).keys() == if old(self)@.contains_key(key@) {
                old(self).keys()
            } else {
                old(self).keys().push(key@)
            },
    {
        let mut one = LocaleMap::new();
        one.set(locale, template);
        assert(one@.contains_key(locale@));
        self.merge_key(key, &one);
    }

    /// Merges `other` into the table. For each key and locale the template of
    /// `other` replaces that of the table; what only one of them holds stays.
    pub fn merge(&mut self, other: &TranslationTable)
        ensures
            final(self)@ == merged(old(self)@, other@),
    {
        proof {
            use_type_invariant(other);
        }
        let mut i: usize = 0;
        proof {
            assert(rows(other.entries@.take(0)) =~= Seq::empty());
            lemma_merged_empty(self@);
        }
        while i < other.entries.len()
            invariant
                i <= other.entries@.len(),
                keys_distinct(rows(other.entries@)),
                self@ == merged(old(self)@, folded(rows(other.entries@.take(i as int)))),
            decreases other.entries@.len() - i,
        {
            let ghost done = rows(other.entries@.take(i as int));
            let entry = &other.entries[i];
            proof {
                assert(!has_key(done, entry.key@)) by {
                    if has_key(done, entry.key@) {
                        let j = choose|j: int|
                            0 <= j < done.len() && (#[trigger] done[j]).0 == entry.key@;
                        assert(rows(other.entries@)[j].0 == rows(other.entries@)[i as int].0);
                    }
                }
                lemma_folded_keys(done);
                lemma_folded_push(done, entry.key@, entry.locales@);
                assert(rows(other.entries@.take(i + 1)) =~= done.push(
                    (entry.key@, entry.locales@),
                ));
                lemma_merged_insert(old(self)@, folded(done), entry.key@, entry.locales@);
            }
            self.merge_key(entry.key.as_str(), &entry.locales);
            i += 1;
        }
        assert(other.entries@.take(i as int) =~= other.entries@);
    }
}

/// A map that is not the empty one holds something.
pub proof fn lemma_some_locale(locales: Map<Seq<char>, Seq<char>>)
    requires
        locales != Map::<Seq<char>, Seq<char>>::empty(),
    ensures
        exists|l: Seq<char>| locales.contains_key(l),
{
    if forall|l: Seq<char>| !locales.contains_key(l) {
        assert(locales =~= Map::<Seq<char>, Seq<char>>::empty());
    }
}

/// Merging a table without keys changes nothing.
pub proof fn lemma_merged_empty(a: Translations)
    ensures
        merged(a, Translations::empty()) == a,
{
    assert forall|key: Seq<char>| a.contains_key(key) implies #[trigger] merged(
        a,
        Translations::empty(),
    )[key] == a[key] by {
        assert(a[key].union_prefer_right(Map::<Seq<char>, Seq<char>>::empty()) =~= a[key]);
    }
    assert(merged(a, Translations::empty()) =~= a);
}

/// Merging `b` and then the templates of one more key is merging `b` with
/// that key added.
pub proof fn lemma_merged_insert(
    a: Translations,
    b: Translations,
    key: Seq<char>,
    locales: Map<Seq<char>, Seq<char>>,
)
    requires
        !b.contains_key(key),
    ensures
        with_locales(merged(a, b), key, locales) == merged(a, b.insert(key, locales)),
{
    let left = with_locales(merged(a, b), key, locales);
    let right = merged(a, b.insert(key, locales));
    let none = Map::<Seq<char>, Seq<char>>::empty();
    assert(locales_of(a, key).union_prefer_right(none) =~= locales_of(a, key));
    assert(none.union_prefer_right(none) =~= none);
    assert forall|k: Seq<char>| left.contains_key(k) <==> right.contains_key(k) by {}
    assert forall|k: Seq<char>| left.contains_key(k) implies left[k] == right[k] by {
        if k == key {
            if locales == none {
                assert(left[k] =~= right[k]);
            } else {
                assert(left[k] =~= right[k]);
            }
        }
    }
    assert(left =~= right);
}

/// Where no key occurs twice among the entries, storing them builds the map
/// that they list, without the keys that have no locale.
pub proof fn lemma_stored_distinct(entries: Seq<(String, Vec<(String, String)>)>)
    requires
        keys_distinct(entry_rows(entries)),
    ensures
        stored(entries) == merged(Map::empty(), folded(entry_rows(entries))),
    decreases entries.len(),
{
    let none = Translations::empty();
    if entries.len() == 0 {
        lemma_merged_empty(none);
    } else {
        let before = entries.drop_last();
        let rows = entry_rows(entries);
        assert(entry_rows(before) =~= rows.drop_last());
        assert(keys_distinct(entry_rows(before))) by {
            assert forall|i: int, j: int| 0 <= i < j < rows.drop_last().len() implies (
            #[trigger] rows.drop_last()[i]).0 != (#[trigger] rows.drop_last()[j]).0 by {
                assert(rows[i].0 != rows[j].0);
            }
        }
        lemma_stored_distinct(before);
        lemma_folded_keys(entry_rows(before));
        assert(!has_key(entry_rows(before), rows.last().0)) by {
            if has_key(entry_rows(before), rows.last().0) {
                let i = choose|i: int|
                    0 <= i < rows.len() - 1 && (#[trigger] entry_rows(before)[i]).0
                        == rows.last().0;
                assert(rows[i].0 != rows[rows.len() - 1].0);
            }
        }
        lemma_merged_insert(none, folded(entry_rows(before)), rows.last().0, rows.last().1);
    }
}

/// After a merge the template of a key and locale is that of the table merged
/// in, where it has one, and else that of the table merged into.
pub proof fn lemma_merged_template(
    a: Translations,
    b: Translations,
    key: Seq<char>,
    locale: Seq<char>,
)
    ensures
        template_of(merged(a, b), key, locale) == match template_of(b, key, locale) {
            Some(t) => Some(t),
            None => template_of(a, key, locale),
        },
{
}

/// Merging is associative: merging `b` and then `c` into `a` gives what
/// merging into `a` the merge of `c` into `b` gives.
pub proof fn lemma_merged_associative(a: Translations, b: Translations, c: Translations)
    ensures
        merged(merged(a, b), c) == merged(a, merged(b, c)),
{
    let left = merged(merged(a, b), c);
    let right = merged(a, merged(b, c));
    let none = Map::<Seq<char>, Seq<char>>::empty();
    assert forall|k: Seq<char>| left.contains_key(k) <==> right.contains_key(k) by {
        let bc = locales_of(b, k).union_prefer_right(locales_of(c, k));
        if locales_of(b, k) == none && locales_of(c, k) == none {
            assert(bc =~= none);
        }
        if locales_of(c, k) != none {
            lemma_some_locale(locales_of(c, k));
            let l = choose|l: Seq<char>| locales_of(c, k).contains_key(l);
            assert(bc.contains_key(l));
        }
        if locales_of(b, k) != none {
            lemma_some_locale(locales_of(b, k));
            let l = choose|l: Seq<char>| locales_of(b, k).contains_key(l);
            assert(bc.contains_key(l));
        }
    }
    assert forall|k: Seq<char>| left.contains_key(k) implies left[k] == right[k] by {
        assert(none.union_prefer_right(none) =~= none);
        assert(left[k] =~= right[k]);
    }
    assert(left =~= right);
}

/// Merging keeps the invariant of tables: where every key of `a` has a
/// locale, every key of the merge has one, whatever `b` holds.
pub proof fn lemma_merged_keys_have_locales(a: Translations, b: Translations)
    requires
        every_key_has_locale(a),
    ensures
        every_key_has_locale(merged(a, b)),
{
    let none = Map::<Seq<char>, Seq<char>>::empty();
    assert forall|k: Seq<char>| #[trigger] merged(a, b).contains_key(k) implies merged(a, b)[k]
        != none by {
        if a.contains_key(k) {
            lemma_some_locale(a[k]);
            let l = choose|l: Seq<char>| a[k].contains_key(l);
            assert(merged(a, b)[k].contains_key(l));
        } else {
            assert(none.union_prefer_right(b[k]) =~= b[k]);
        }
    }
}

/// Merging adds locales: a locale that only the table merged into has for a
/// key stays with its template, beside the locales that the other table
/// brings for that key.
pub proof fn lemma_merged_adds_locales(
    a: Translations,
    b: Translations,
    key: Seq<char>,
    kept: Seq<char>,
    brought: Seq<char>,
)
    requires
        template_of(a, key, kept) is Some,
        template_of(b, key, kept) is None,
        template_of(b, key, brought) is Some,
    ensures
        template_of(merged(a, b), key, kept) == template_of(a, key, kept),
        template_of(merged(a, b), key, brought) == template_of(b, key, brought),
{
}

/// The later table wins: where both tables have a template for a key and
/// locale, the merge has that of the table merged in.
pub proof fn lemma_merged_last_wins(
    a: Translations,
    b: Translations,
    key: Seq<char>,
    locale: Seq<char>,
)
    requires
        template_of(b, key, locale) is Some,
    ensures
        template_of(merged(a, b), key, locale) == template_of(b, key, locale),
{
}

/// `base` after the tables of `files` were merged into it one after the
/// other, the first of them first.
pub open spec fn merged_all(base: Translations, files: Seq<Translations>) -> Translations
    decreases files.len(),
{
    if files.len() == 0 {
        base
    } else {
        merged(merged_all(base, files.drop_last()), files.last())
    }
}

/// After a row of merges the template of a key and locale is that of the
/// last table in the row that has one.
pub proof fn lemma_last_merged_wins(
    base: Translations,
    files: Seq<Translations>,
    last: int,
    key: Seq<char>,
    locale: Seq<char>,
)
    requires
        0 <= last < files.len(),
        template_of(files[last], key, locale) is Some,
        forall|later: int|
            last < later < files.len() ==> template_of(#[trigger] files[later], key, locale)
                is None,
    ensures
        template_of(merged_all(base, files), key, locale) == template_of(
            files[last],
            key,
            locale,
        ),
    decreases files.len(),
{
    let before = files.drop_last();
    lemma_merged_template(merged_all(base, before), files.last(), key, locale);
    if last < files.len() - 1 {
        assert(before[last] == files[last]);
        assert forall|later: int| last < later < before.len() implies template_of(
            #[trigger] before[later],
            key,
            locale,
        ) is None by {
            assert(before[later] == files[later]);
        }
        lemma_last_merged_wins(base, before, last, key, locale);
    }
}

/// A key and locale that no table in a row of merges has keeps the template
/// of the table that the row was merged into, or stays without one.
pub proof fn lemma_unmerged_stays(
    base: Translations,
    files: Seq<Translations>,
    key: Seq<char>,
    locale: Seq<char>,
)
    requires
        forall|i: int| 0 <= i < files.len() ==> template_of(#[trigger] files[i], key, locale)
            is None,
    ensures
        template_of(merged_all(base, files), key, locale) == template_of(base, key, locale),
    decreases files.len(),
{
    if files.len() > 0 {
        let before = files.drop_last();
        lemma_merged_template(merged_all(base, before), files.last(), key, locale);
        assert forall|i: int| 0 <= i < before.len() implies template_of(
            #[trigger] before[i],
            key,
            locale,
        ) is None by {
            assert(before[i] == files[i]);
        }
        lemma_unmerged_stays(base, before, key, locale);
    }
}

} // verus!
