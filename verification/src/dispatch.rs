//! The dispatch that is generated from a table for lookups whose key is known
//! when the program is built.
//!
//! A dispatch is a list of branches, one for each key, and each branch is a
//! list of arms, one for each locale of that key. A lookup takes the first
//! branch with its key and in it the first arm with its locale. Where no
//! branch has the key the program must not build; where the branch has no
//! arm for the locale the lookup fails when it runs, and names the locale
//! and the key.
//!
//! A branch also lists the parameters of its key: the names of the
//! placeholders of all its templates, in alphabetical order. A lookup with
//! values writes one value for each of them, in that order.

use vstd::prelude::*;
use crate::assoc::has_key;
use crate::order::ascending;
use crate::parameters::{mentions, parameters_of, strings};
use crate::strmap::pair_texts;
use crate::table::{TranslationTable, Translations};
use crate::text::str_eq;

verus! {

/// The branch of one key.
#[derive(Debug)]
pub struct Branch {
    pub key: String,
    /// The names of the values that a lookup of the key takes, in order.
    pub parameters: Vec<String>,
    /// One pair of locale and template for each locale of the key.
    pub arms: Vec<(String, String)>,
}

/// The branches of a dispatch, in the order in which they are tried.
#[derive(Debug)]
pub struct Dispatch {
    pub branches: Vec<Branch>,
}

/// How a lookup through a dispatch ends.
#[derive(Debug)]
pub enum Selection {
    /// An arm matched: its template.
    Template(String),
    /// The key has a branch, but the branch has no arm for the locale. The
    /// lookup fails when it runs and names the locale that was asked for,
    /// and the key.
    MissingLanguage { locale: String, key: String },
    /// No branch has the key: the program that holds the lookup does not build.
    MissingTranslation,
}

/// How a lookup through a dispatch ends, as a plain value.
pub enum Outcome {
    Template(Seq<char>),
    MissingLanguage { locale: Seq<char>, key: Seq<char> },
    MissingTranslation,
}

impl View for Selection {
    type V = Outcome;

    open spec fn view(&self) -> Outcome {
        match self {
            Selection::Template(template) => Outcome::Template(template@),
            Selection::MissingLanguage { locale, key } => Outcome::MissingLanguage {
                locale: locale@,
                key: key@,
            },
            Selection::MissingTranslation => Outcome::MissingTranslation,
        }
    }
}

/// What the arms of `key` from place `from` on make of `locale`: the
/// template of the first of them that has the locale.
pub open spec fn first_arm(
    arms: Seq<(String, String)>,
    key: Seq<char>,
    locale: Seq<char>,
    from: int,
) -> Outcome
    decreases arms.len() - from,
{
    if from < 0 || from >= arms.len() {
        Outcome::MissingLanguage { locale, key }
    } else if arms[from].0@ == locale {
        Outcome::Template(arms[from].1@)
    } else {
        first_arm(arms, key, locale, from + 1)
    }
}

/// What the branches from place `from` on make of `key` and `locale`: what
/// the first of them that has the key makes of the locale.
pub open spec fn first_branch(
    branches: Seq<Branch>,
    key: Seq<char>,
    locale: Seq<char>,
    from: int,
) -> Outcome
    decreases branches.len() - from,
{
    if from < 0 || from >= branches.len() {
        Outcome::MissingTranslation
    } else if branches[from].key@ == key {
        first_arm(branches[from].arms@, key, locale, 0)
    } else {
        first_branch(branches, key, locale, from + 1)
    }
}

/// What a lookup of `key` in `locale` owes on the table `m`.
pub open spec fn expected(
    m: Translations,
    key: Seq<char>,
    locale: Seq<char>,
) -> Outcome {
    if !m.contains_key(key) {
        Outcome::MissingTranslation
    } else if !m[key].contains_key(locale) {
        Outcome::MissingLanguage { locale, key }
    } else {
        Outcome::Template(m[key][locale])
    }
}

/// The arms are those of `locales`: each arm is a locale of it with its
/// template, and each of its locales has an arm.
pub open spec fn arms_of(arms: Seq<(String, String)>, locales: Map<Seq<char>, Seq<char>>) -> bool {
    &&& forall|j: int|
        0 <= j < arms.len() ==> locales.contains_key((#[trigger] arms[j]).0@)
            && locales[arms[j].0@] == arms[j].1@
    &&& forall|locale: Seq<char>| #[trigger]
        locales.contains_key(locale) ==> has_key(pair_texts(arms), locale)
}

/// Whether some branch of `branches` has `key`.
pub open spec fn has_branch(branches: Seq<Branch>, key: Seq<char>) -> bool {
    exists|i: int| 0 <= i < branches.len() && (#[trigger] branches[i]).key@ == key
}

/// The branches are those of the table `m`: each branch is a key of it with
/// the arms of that key, and each of its keys has a branch.
pub open spec fn branches_of(
    branches: Seq<Branch>,
    m: Translations,
) -> bool {
    &&& forall|i: int|
        0 <= i < branches.len() ==> m.contains_key((#[trigger] branches[i]).key@) && arms_of(
            branches[i].arms@,
            m[branches[i].key@],
        )
    &&& forall|key: Seq<char>| #[trigger] m.contains_key(key) ==> has_branch(branches, key)
}

/// The parameters of each branch are the names of the placeholders of its
/// templates in the table `m`, each once, in alphabetical order.
pub open spec fn parameters_sorted(
    branches: Seq<Branch>,
    m: Translations,
) -> bool {
    forall|i: int|
        0 <= i < branches.len() ==> ascending(strings((#[trigger] branches[i]).parameters@))
            && forall|name: Seq<char>|
            strings(branches[i].parameters@).contains(name) <==> mentions(
                m[branches[i].key@],
                name,
            )
}

/// No two branches have the same key, and in no branch two arms the same
/// locale.
pub open spec fn nothing_twice(branches: Seq<Branch>) -> bool {
    &&& forall|i: int, j: int|
        0 <= i < j < branches.len() ==> (#[trigger] branches[i]).key@ != (
        #[trigger] branches[j]).key@
    &&& forall|i: int, a: int, b: int|
        0 <= i < branches.len() && 0 <= a < b < branches[i].arms@.len() ==> (
        #[trigger] branches[i].arms@[a]).0@ != (#[trigger] branches[i].arms@[b]).0@
}

proof fn lemma_first_arm(
    arms: Seq<(String, String)>,
    locales: Map<Seq<char>, Seq<char>>,
    key: Seq<char>,
    locale: Seq<char>,
    from: int,
)
    requires
        arms_of(arms, locales),
        0 <= from <= arms.len(),
        forall|j: int| 0 <= j < from ==> (#[trigger] arms[j]).0@ != locale,
    ensures
        first_arm(arms, key, locale, from) == if locales.contains_key(locale) {
            Outcome::Template(locales[locale])
        } else {
            Outcome::MissingLanguage { locale, key }
        },
    decreases arms.len() - from,
{
    if from >= arms.len() {
        if locales.contains_key(locale) {
            assert(has_key(pair_texts(arms), locale));
        }
    } else if arms[from].0@ == locale {
    } else {
        lemma_first_arm(arms, locales, key, locale, from + 1);
    }
}

proof fn lemma_first_branch(
    branches: Seq<Branch>,
    m: Translations,
    key: Seq<char>,
    locale: Seq<char>,
    from: int,
)
    requires
        branches_of(branches, m),
        0 <= from <= branches.len(),
        forall|i: int| 0 <= i < from ==> (#[trigger] branches[i]).key@ != key,
    ensures
        first_branch(branches, key, locale, from) == expected(m, key, locale),
    decreases branches.len() - from,
{
    if from >= branches.len() {
        if m.contains_key(key) {
            assert(has_branch(branches, key));
        }
    } else if branches[from].key@ == key {
        lemma_first_arm(branches[from].arms@, m[key], key, locale, 0);
    } else {
        lemma_first_branch(branches, m, key, locale, from + 1);
    }
}

/// A dispatch whose branches are those of a table answers every lookup as
/// the table does, in whatever order its branches and arms stand: the
/// template where the table holds the key and the locale, the failure that
/// names the locale and the key where it holds only the key, and no build
/// where it does not hold the key.
pub proof fn lemma_dispatch_follows_table(
    dispatch: Dispatch,
    m: Translations,
    key: Seq<char>,
    locale: Seq<char>,
)
    requires
        branches_of(dispatch.branches@, m),
    ensures
        dispatch.selects(key, locale) == expected(m, key, locale),
{
    lemma_first_branch(dispatch.branches@, m, key, locale, 0);
}

/// Two dispatches with the branches of one table answer every lookup alike.
pub proof fn lemma_dispatch_order_is_free(
    one: Dispatch,
    other: Dispatch,
    m: Translations,
    key: Seq<char>,
    locale: Seq<char>,
)
    requires
        branches_of(one.branches@, m),
        branches_of(other.branches@, m),
    ensures
        one.selects(key, locale) == other.selects(key, locale),
{
    lemma_dispatch_follows_table(one, m, key, locale);
    lemma_dispatch_follows_table(other, m, key, locale);
}

fn select_arm(arms: &Vec<(String, String)>, key: &str, locale: &str) -> (selection: Selection)
    ensures
        selection@ == first_arm(arms@, key@, locale@, 0),
{
    let mut j: usize = 0;
    while j < arms.len()
        invariant
            j <= arms@.len(),
            first_arm(arms@, key@, locale@, j as int) == first_arm(arms@, key@, locale@, 0),
        decreases arms@.len() - j,
    {
        if str_eq(arms[j].0.as_str(), locale) {
            return Selection::Template(arms[j].1.clone());
        }
        j += 1;
    }
    Selection::MissingLanguage { locale: locale.to_owned(), key: key.to_owned() }
}

impl Dispatch {
    /// How the lookup of `key` in `locale` ends.
    pub open spec fn selects(self, key: Seq<char>, locale: Seq<char>) -> Outcome {
        first_branch(self.branches@, key, locale, 0)
    }

    /// Follows the dispatch for `key` and `locale`: the first branch with the
    /// key, and in it the first arm with the locale.
    pub fn select(&self, key: &str, locale: &str) -> (selection: Selection)
        ensures
            selection@ == self.selects(key@, locale@),
    {
        let mut i: usize = 0;
        while i < self.branches.len()
            invariant
                i <= self.branches@.len(),
                first_branch(self.branches@, key@, locale@, i as int) == self.selects(
                    key@,
                    locale@,
                ),
            decreases self.branches@.len() - i,
        {
            if str_eq(self.branches[i].key.as_str(), key) {
                return select_arm(&self.branches[i].arms, key, locale);
            }
            i += 1;
        }
        Selection::MissingTranslation
    }
}

/// The dispatch of a table: one branch for each key, in the order of the
/// table's keys, with one arm for each locale of the key. No key and no
/// locale of a key comes twice, so every lookup through the dispatch ends as
/// the table says. Each branch lists the parameters of its key.
pub fn generate(table: &TranslationTable) -> (dispatch: Dispatch)
    ensures
        branches_of(dispatch.branches@, table@),
        nothing_twice(dispatch.branches@),
        parameters_sorted(dispatch.branches@, table@),
        dispatch.branches@.len() == table.keys().len(),
        forall|i: int|
            0 <= i < dispatch.branches@.len() ==> (#[trigger] dispatch.branches@[i]).key@
                == table.keys()[i],
        forall|key: Seq<char>, locale: Seq<char>|
            dispatch.selects(key, locale) == expected(table@, key, locale),
{
    let n: usize = table.len();
    let mut branches: Vec<Branch> = Vec::new();
    let mut i: usize = 0;
    while i < n
        invariant
            i <= n,
            n == table.keys().len(),
            table.keys().no_duplicates(),
            forall|key: Seq<char>|
                #![trigger table@.contains_key(key)]
                #![trigger table.keys().contains(key)]
                table@.contains_key(key) <==> table.keys().contains(key),
            branches@.len() == i,
            forall|k: int|
                0 <= k < i ==> (#[trigger] branches@[k]).key@ == table.keys()[k]
                    && table@.contains_key(branches@[k].key@) && arms_of(
                    branches@[k].arms@,
                    table@[branches@[k].key@],
                ),
            forall|k: int, a: int, b: int|
                0 <= k < i && 0 <= a < b < branches@[k].arms@.len() ==> (
                #[trigger] branches@[k].arms@[a]).0@ != (#[trigger] branches@[k].arms@[b]).0@,
            parameters_sorted(branches@, table@),
        decreases n - i,
    {
        let locales = table.locales_at(i);
        let m: usize = locales.len();
        let mut arms: Vec<(String, String)> = Vec::new();
        let mut j: usize = 0;
        while j < m
            invariant
                j <= m,
                m == locales.names().len(),
                arms@.len() == j,
                forall|a: int|
                    0 <= a < j ==> (#[trigger] arms@[a]).0@ == locales.names()[a]
                        && locales@.contains_key(arms@[a].0@) && locales@[arms@[a].0@]
                        == arms@[a].1@,
            decreases m - j,
        {
            arms.push((locales.name_at(j).clone(), locales.value_at(j).clone()));
            j += 1;
        }
        proof {
            assert forall|locale: Seq<char>| #[trigger]
                locales@.contains_key(locale) implies has_key(pair_texts(arms@), locale) by {
                let a = choose|a: int|
                    0 <= a < locales.names().len() && locales.names()[a] == locale;
                assert(pair_texts(arms@)[a].0 == locale);
            }
            assert forall|a: int, b: int| 0 <= a < b < arms@.len() implies (#[trigger] arms@[a]).0@
                != (#[trigger] arms@[b]).0@ by {
                assert(locales.names()[a] != locales.names()[b]);
            }
        }
        let parameters = parameters_of(locales);
        branches.push(Branch { key: table.key_at(i).clone(), parameters, arms });
        i += 1;
    }
    let dispatch = Dispatch { branches };
    proof {
        assert forall|key: Seq<char>| #[trigger] table@.contains_key(key) implies has_branch(
            dispatch.branches@,
            key,
        ) by {
            let k = choose|k: int| 0 <= k < table.keys().len() && table.keys()[k] == key;
            assert(dispatch.branches@[k].key@ == key);
        }
        assert forall|a: int, b: int| 0 <= a < b < dispatch.branches@.len() implies (
        #[trigger] dispatch.branches@[a]).key@ != (#[trigger] dispatch.branches@[b]).key@ by {
            assert(table.keys()[a] != table.keys()[b]);
        }
        assert forall|key: Seq<char>, locale: Seq<char>|
            dispatch.selects(key, locale) == expected(table@, key, locale) by {
            lemma_first_branch(dispatch.branches@, table@, key, locale, 0);
        }
    }
    dispatch
}

} // verus!
