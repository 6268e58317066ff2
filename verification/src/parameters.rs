//! The parameters of a template and of a key: the names of their
//! placeholders, each once, in alphabetical order.
//!
//! This is the order in which the values of a key are written where it is
//! looked up with values. Interpolation itself finds each value by its name
//! and does not depend on it.

use vstd::prelude::*;
use crate::interpolate::{placeholders, placeholders_from, scan_name};
use crate::strmap::StringMap;
use crate::order::{ascending, lemma_precedes_transitive, place_of, precedes, Place};
use crate::text::{chars_of, string_of_chars};

verus! {

/// The texts of a list of character vectors.
pub open spec fn texts(names: Seq<Vec<char>>) -> Seq<Seq<char>> {
    Seq::new(names.len(), |i: int| names[i]@)
}

/// The texts of a list of strings.
pub open spec fn strings(names: Seq<String>) -> Seq<Seq<char>> {
    Seq::new(names.len(), |i: int| names[i]@)
}

/// Whether a template of `locales` has a placeholder called `name`.
pub open spec fn mentions(locales: Map<Seq<char>, Seq<char>>, name: Seq<char>) -> bool {
    exists|locale: Seq<char>|
        locales.contains_key(locale) && #[trigger] placeholders(locales[locale]).contains(name)
}

/// Where `name` belongs in the ascending list `names`, and whether it stands
/// there already.
fn find_place(names: &Vec<Vec<char>>, name: &Vec<char>) -> (found: (usize, bool))
    ensures
        found.0 <= names@.len(),
        forall|k: int| 0 <= k < found.0 ==> precedes(#[trigger] texts(names@)[k], name@),
        found.1 ==> found.0 < names@.len() && texts(names@)[found.0 as int] == name@,
        !found.1 && found.0 < names@.len() ==> precedes(name@, texts(names@)[found.0 as int]),
{
    let mut at: usize = 0;
    while at < names.len()
        invariant
            at <= names@.len(),
            forall|k: int| 0 <= k < at ==> precedes(#[trigger] texts(names@)[k], name@),
        decreases names@.len() - at,
    {
        match place_of(&names[at], name) {
            Place::Before => {},
            Place::Same => {
                return (at, true);
            },
            Place::After => {
                return (at, false);
            },
        }
        at += 1;
    }
    (at, false)
}

/// Puts `name` at its place in the ascending list `names`, unless it stands
/// there already.
fn insert_name(names: &mut Vec<Vec<char>>, name: Vec<char>)
    requires
        ascending(texts(old(names)@)),
    ensures
        ascending(texts(final(names)@)),
        forall|n: Seq<char>|
            #![trigger texts(final(names)@).contains(n)]
            #![trigger texts(old(names)@).contains(n)]
            texts(final(names)@).contains(n) <==> texts(old(names)@).contains(n) || n == name@,
{
    let ghost before = texts(names@);
    let (at, found) = find_place(names, &name);
    if found {
        assert(before.contains(name@));
        return ;
    }
    proof {
        let after = before.insert(at as int, name@);
        assert(texts(names@.insert(at as int, name)) =~= after);
        assert forall|i: int, j: int| 0 <= i < j < after.len() implies precedes(
            after[i],
            after[j],
        ) by {
            if j == at {
                assert(after[i] == before[i]);
            } else if i == at {
                assert(after[j] == before[j - 1]);
                if j - 1 > at {
                    assert(precedes(before[at as int], before[j - 1]));
                    lemma_precedes_transitive(name@, before[at as int], before[j - 1]);
                }
            } else if i < at && j > at {
                assert(after[i] == before[i]);
                assert(after[j] == before[j - 1]);
                assert(precedes(before[i], before[j - 1]));
            } else if j < at {
                assert(after[i] == before[i]);
                assert(after[j] == before[j]);
            } else {
                assert(after[i] == before[i - 1]);
                assert(after[j] == before[j - 1]);
                assert(precedes(before[i - 1], before[j - 1]));
            }
        }
        assert forall|n: Seq<char>| after.contains(n) <==> before.contains(n) || n == name@ by {
            if after.contains(n) {
                let k = choose|k: int| 0 <= k < after.len() && after[k] == n;
                if k < at {
                    assert(before[k] == n);
                } else if k > at {
                    assert(before[k - 1] == n);
                }
            }
            if before.contains(n) {
                let k = choose|k: int| 0 <= k < before.len() && before[k] == n;
                if k < at {
                    assert(after[k] == n);
                } else {
                    assert(after[k + 1] == n);
                }
            }
            assert(after[at as int] == name@);
        }
    }
    names.insert(at, name);
}

/// Adds the names of the placeholders of `chars` to the ascending list
/// `names`.
fn add_placeholders(chars: &Vec<char>, names: &mut Vec<Vec<char>>)
    requires
        ascending(texts(old(names)@)),
    ensures
        ascending(texts(final(names)@)),
        forall|n: Seq<char>|
            #![trigger texts(final(names)@).contains(n)]
            #![trigger texts(old(names)@).contains(n)]
            #![trigger placeholders(chars@).contains(n)]
            texts(final(names)@).contains(n) <==> texts(old(names)@).contains(n) || placeholders(
                chars@,
            ).contains(n),
{
    let mut i: usize = 0;
    while i < chars.len()
        invariant
            i <= chars@.len(),
            ascending(texts(names@)),
            forall|n: Seq<char>|
                #![trigger texts(old(names)@).contains(n)]
                #![trigger placeholders(chars@).contains(n)]
                texts(names@).contains(n) || placeholders_from(chars@, i as int).contains(n)
                    <==> texts(old(names)@).contains(n) || placeholders(chars@).contains(n),
        decreases chars@.len() - i,
    {
        let c: char = chars[i];
        let end: usize = if c == '$' {
            scan_name(chars, i + 1)
        } else {
            i + 1
        };
        let ghost here = placeholders_from(chars@, i as int);
        if c == '$' && end > i + 1 {
            let mut name: Vec<char> = Vec::new();
            let mut k: usize = i + 1;
            while k < end
                invariant
                    i + 1 <= k <= end <= chars@.len(),
                    name@ == chars@.subrange(i + 1, k as int),
                decreases end - k,
            {
                name.push(chars[k]);
                assert(chars@.subrange(i + 1, k + 1) =~= chars@.subrange(i + 1, k as int).push(
                    chars@[k as int],
                ));
                k += 1;
            }
            assert(here == placeholders_from(chars@, end as int).insert(name@));
            insert_name(names, name);
            i = end;
        } else {
            assert(here == placeholders_from(chars@, i + 1));
            i += 1;
        }
    }
    assert(placeholders_from(chars@, i as int) == Set::<Seq<char>>::empty());
    assert forall|n: Seq<char>|
        #![trigger texts(names@).contains(n)]
        #![trigger texts(old(names)@).contains(n)]
        #![trigger placeholders(chars@).contains(n)]
        texts(names@).contains(n) <==> texts(old(names)@).contains(n) || placeholders(
            chars@,
        ).contains(n) by {
        assert(!placeholders_from(chars@, i as int).contains(n));
    }
}

/// The strings of a list of character vectors.
fn to_strings(names: &Vec<Vec<char>>) -> (out: Vec<String>)
    ensures
        strings(out@) == texts(names@),
{
    let mut out: Vec<String> = Vec::new();
    let mut i: usize = 0;
    while i < names.len()
        invariant
            i <= names@.len(),
            out@.len() == i,
            forall|k: int| 0 <= k < i ==> out@[k]@ == names@[k]@,
        decreases names@.len() - i,
    {
        let name = string_of_chars(&names[i], 0, names[i].len());
        assert(names@[i as int]@.subrange(0, names@[i as int]@.len() as int) =~= names@[i as int]@);
        out.push(name);
        i += 1;
    }
    assert(strings(out@) =~= texts(names@));
    out
}

/// The names of the placeholders of `template`, each once, in alphabetical
/// order.
pub fn placeholder_names(template: &str) -> (names: Vec<String>)
    ensures
        ascending(strings(names@)),
        forall|n: Seq<char>| strings(names@).contains(n) <==> placeholders(template@).contains(n),
{
    let chars = chars_of(template);
    let mut found: Vec<Vec<char>> = Vec::new();
    assert(texts(found@) =~= Seq::<Seq<char>>::empty());
    add_placeholders(&chars, &mut found);
    to_strings(&found)
}

/// The parameters of a key with the templates `locales`: the names of the
/// placeholders of all its templates together, each once, in alphabetical
/// order.
pub fn parameters_of(locales: &StringMap) -> (names: Vec<String>)
    ensures
        ascending(strings(names@)),
        forall|n: Seq<char>| strings(names@).contains(n) <==> mentions(locales@, n),
{
    let count: usize = locales.len();
    let mut found: Vec<Vec<char>> = Vec::new();
    assert(texts(found@) =~= Seq::<Seq<char>>::empty());
    let mut j: usize = 0;
    while j < count
        invariant
            j <= count,
            count == locales.names().len(),
            forall|l: Seq<char>|
                #![trigger locales@.contains_key(l)]
                #![trigger locales.names().contains(l)]
                locales@.contains_key(l) <==> locales.names().contains(l),
            ascending(texts(found@)),
            forall|n: Seq<char>|
                texts(found@).contains(n) <==> exists|k: int|
                    0 <= k < j && #[trigger] placeholders(locales@[locales.names()[k]]).contains(
                        n,
                    ),
        decreases count - j,
    {
        let chars = chars_of(locales.value_at(j).as_str());
        let ghost earlier = texts(found@);
        add_placeholders(&chars, &mut found);
        proof {
            assert(chars@ == locales@[locales.names()[j as int]]);
            assert forall|n: Seq<char>| texts(found@).contains(n) <==> exists|k: int|
                0 <= k < j + 1 && #[trigger] placeholders(locales@[locales.names()[k]]).contains(
                    n,
                ) by {
                if texts(found@).contains(n) {
                    if earlier.contains(n) {
                        let k = choose|k: int|
                            0 <= k < j && #[trigger] placeholders(
                                locales@[locales.names()[k]],
                            ).contains(n);
                        assert(0 <= k < j + 1 && placeholders(
                            locales@[locales.names()[k]],
                        ).contains(n));
                    } else {
                        assert(placeholders(chars@).contains(n));
                        assert(placeholders(locales@[locales.names()[j as int]]).contains(n));
                    }
                }
                if exists|k: int|
                    0 <= k < j + 1 && #[trigger] placeholders(
                        locales@[locales.names()[k]],
                    ).contains(n) {
                    let k = choose|k: int|
                        0 <= k < j + 1 && #[trigger] placeholders(
                            locales@[locales.names()[k]],
                        ).contains(n);
                    if k < j {
                        assert(earlier.contains(n));
                    } else {
                        assert(placeholders(chars@).contains(n));
                    }
                }
            }
        }
        j += 1;
    }
    proof {
        assert forall|n: Seq<char>| texts(found@).contains(n) <==> mentions(locales@, n) by {
            if texts(found@).contains(n) {
                let k = choose|k: int|
                    0 <= k < count && #[trigger] placeholders(
                        locales@[locales.names()[k]],
                    ).contains(n);
                assert(locales.names().contains(locales.names()[k]));
            }
            if mentions(locales@, n) {
                let l = choose|l: Seq<char>|
                    locales@.contains_key(l) && #[trigger] placeholders(locales@[l]).contains(n);
                assert(locales.names().contains(l));
                let k = choose|k: int| 0 <= k < locales.names().len() && locales.names()[k] == l;
                assert(placeholders(locales@[locales.names()[k]]).contains(n));
            }
        }
    }
    to_strings(&found)
}

} // verus!
