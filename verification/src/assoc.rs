//! Lists of keyed values, and the map that such a list stands for.
//!
//! The tables of this crate are kept as lists in which every key stands
//! once. What is proved here of such lists is used for the map from locale
//! to template as well as for the table of keys.

use vstd::prelude::*;

verus! {

/// The map that storing the pairs of `s` one after the other builds: where a
/// key occurs twice, its later value stands.
pub open spec fn folded<V>(s: Seq<(Seq<char>, V)>) -> Map<Seq<char>, V>
    decreases s.len(),
{
    if s.len() == 0 {
        Map::empty()
    } else {
        folded(s.drop_last()).insert(s.last().0, s.last().1)
    }
}

/// The keys of `s`, in order.
pub open spec fn keys_of<V>(s: Seq<(Seq<char>, V)>) -> Seq<Seq<char>> {
    Seq::new(s.len(), |i: int| s[i].0)
}

/// No key occurs twice in `s`.
pub open spec fn keys_distinct<V>(s: Seq<(Seq<char>, V)>) -> bool {
    forall|i: int, j: int| 0 <= i < j < s.len() ==> (#[trigger] s[i]).0 != (#[trigger] s[j]).0
}

/// Whether `key` occurs in `s`.
pub open spec fn has_key<V>(s: Seq<(Seq<char>, V)>, key: Seq<char>) -> bool {
    exists|i: int| 0 <= i < s.len() && (#[trigger] s[i]).0 == key
}

/// Storing one more pair inserts it into the map.
pub proof fn lemma_folded_push<V>(s: Seq<(Seq<char>, V)>, key: Seq<char>, value: V)
    ensures
        folded(s.push((key, value))) == folded(s).insert(key, value),
        keys_of(s.push((key, value))) == keys_of(s).push(key),
        keys_distinct(s) && !has_key(s, key) ==> keys_distinct(s.push((key, value))),
{
    let t = s.push((key, value));
    assert(t.drop_last() =~= s);
    assert(keys_of(t) =~= keys_of(s).push(key));
    if keys_distinct(s) && !has_key(s, key) {
        assert forall|i: int, j: int| 0 <= i < j < t.len() implies (#[trigger] t[i]).0 != (
        #[trigger] t[j]).0 by {
            if j == s.len() {
                assert(s[i].0 == t[i].0);
            } else {
                assert(s[i] == t[i] && s[j] == t[j]);
            }
        }
    }
}

/// The map holds exactly the keys that occur in the list.
pub proof fn lemma_folded_keys<V>(s: Seq<(Seq<char>, V)>)
    ensures
        forall|key: Seq<char>| #[trigger] folded(s).contains_key(key) <==> has_key(s, key),
        forall|key: Seq<char>| #[trigger] has_key(s, key) <==> keys_of(s).contains(key),
    decreases s.len(),
{
    assert forall|key: Seq<char>| #[trigger] has_key(s, key) <==> keys_of(s).contains(key) by {
        if has_key(s, key) {
            let i = choose|i: int| 0 <= i < s.len() && (#[trigger] s[i]).0 == key;
            assert(keys_of(s)[i] == key);
        }
        if keys_of(s).contains(key) {
            let i = choose|i: int| 0 <= i < keys_of(s).len() && keys_of(s)[i] == key;
            assert(s[i].0 == key);
        }
    }
    if s.len() > 0 {
        let p = s.drop_last();
        lemma_folded_keys(p);
        assert forall|key: Seq<char>| #[trigger] folded(s).contains_key(key) <==> has_key(
            s,
            key,
        ) by {
            let last = s.len() - 1;
            assert(s[last] == s.last());
            if folded(s).contains_key(key) && key != s.last().0 {
                assert(folded(p).contains_key(key));
                let i = choose|i: int| 0 <= i < p.len() && (#[trigger] p[i]).0 == key;
                assert(s[i].0 == key);
            }
            if has_key(s, key) && key != s.last().0 {
                let i = choose|i: int| 0 <= i < s.len() && (#[trigger] s[i]).0 == key;
                assert(p[i].0 == key);
                assert(folded(p).contains_key(key));
            }
        }
    }
}

/// In a list without a key twice, the map gives each key the value that
/// stands beside it.
pub proof fn lemma_folded_index<V>(s: Seq<(Seq<char>, V)>, i: int)
    requires
        keys_distinct(s),
        0 <= i < s.len(),
    ensures
        folded(s).contains_key(s[i].0),
        folded(s)[s[i].0] == s[i].1,
    decreases s.len(),
{
    if i < s.len() - 1 {
        let p = s.drop_last();
        assert(p[i] == s[i]);
        assert(s[i].0 != s[s.len() - 1].0);
        lemma_folded_index(p, i);
    }
}

/// In a list without a key twice, putting a new value beside a key
/// overwrites that key in the map and leaves the order of the keys.
pub proof fn lemma_folded_update<V>(s: Seq<(Seq<char>, V)>, i: int, value: V)
    requires
        keys_distinct(s),
        0 <= i < s.len(),
    ensures
        folded(s.update(i, (s[i].0, value))) == folded(s).insert(s[i].0, value),
        keys_of(s.update(i, (s[i].0, value))) == keys_of(s),
        keys_distinct(s.update(i, (s[i].0, value))),
    decreases s.len(),
{
    let key = s[i].0;
    let t = s.update(i, (key, value));
    assert(keys_of(t) =~= keys_of(s));
    assert forall|a: int, b: int| 0 <= a < b < t.len() implies (#[trigger] t[a]).0 != (
    #[trigger] t[b]).0 by {
        assert(t[a].0 == s[a].0 && t[b].0 == s[b].0);
    }
    let p = s.drop_last();
    if i == s.len() - 1 {
        assert(t.drop_last() =~= p);
        assert(folded(t) =~= folded(s).insert(key, value));
    } else {
        assert(p[i] == s[i]);
        assert(t.drop_last() =~= p.update(i, (key, value)));
        assert(t.last() == s.last());
        assert(s[i].0 != s[s.len() - 1].0);
        lemma_folded_update(p, i, value);
        assert(folded(t) =~= folded(s).insert(key, value));
    }
}

/// In a list without a key twice no key is listed twice.
pub proof fn lemma_keys_no_duplicates<V>(s: Seq<(Seq<char>, V)>)
    requires
        keys_distinct(s),
    ensures
        keys_of(s).no_duplicates(),
{
    assert forall|i: int, j: int|
        0 <= i < keys_of(s).len() && 0 <= j < keys_of(s).len() && i != j implies keys_of(s)[i]
        != keys_of(s)[j] by {
        if i < j {
            assert(s[i].0 != s[j].0);
        } else {
            assert(s[j].0 != s[i].0);
        }
    }
}

/// A list without a key twice stands for a map of as many keys as it is
/// long.
pub proof fn lemma_folded_len<V>(s: Seq<(Seq<char>, V)>)
    requires
        keys_distinct(s),
    ensures
        folded(s).dom().finite(),
        folded(s).dom().len() == s.len(),
    decreases s.len(),
{
    if s.len() == 0 {
        assert(folded(s).dom() =~= Set::<Seq<char>>::empty());
    } else {
        let p = s.drop_last();
        lemma_folded_len(p);
        lemma_folded_keys(p);
        assert(!has_key(p, s.last().0)) by {
            if has_key(p, s.last().0) {
                let i = choose|i: int| 0 <= i < p.len() && (#[trigger] p[i]).0 == s.last().0;
                assert(s[i].0 == s[s.len() - 1].0);
            }
        }
        assert(!folded(p).dom().contains(s.last().0));
    }
}

} // verus!
