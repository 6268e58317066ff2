//! Alphabetical order of texts.

use vstd::prelude::*;

verus! {

/// Whether `a` stands before `b` in alphabetical order, both read from
/// position `i` on: at the first place where they differ `a` has the lesser
/// character, or `a` ends there and `b` goes on.
pub open spec fn precedes_from(a: Seq<char>, b: Seq<char>, i: int) -> bool
    decreases a.len() - i,
{
    if i < 0 || i >= b.len() {
        false
    } else if i >= a.len() {
        true
    } else if a[i] != b[i] {
        a[i] < b[i]
    } else {
        precedes_from(a, b, i + 1)
    }
}

/// Whether `a` stands before `b` in alphabetical order: the order of the
/// characters' code points, a text before each text that it begins.
pub open spec fn precedes(a: Seq<char>, b: Seq<char>) -> bool {
    precedes_from(a, b, 0)
}

/// Each text of `names` stands before those that follow it.
pub open spec fn ascending(names: Seq<Seq<char>>) -> bool {
    forall|i: int, j: int| 0 <= i < j < names.len() ==> precedes(names[i], names[j])
}

/// What stands before something that stands before a third stands before
/// the third, read from any position on.
pub proof fn lemma_precedes_from_transitive(a: Seq<char>, b: Seq<char>, c: Seq<char>, i: int)
    requires
        precedes_from(a, b, i),
        precedes_from(b, c, i),
    ensures
        precedes_from(a, c, i),
    decreases a.len() - i,
{
    if i < a.len() && a[i] == b[i] && b[i] == c[i] {
        lemma_precedes_from_transitive(a, b, c, i + 1);
    }
}

/// Alphabetical order is transitive.
pub proof fn lemma_precedes_transitive(a: Seq<char>, b: Seq<char>, c: Seq<char>)
    requires
        precedes(a, b),
        precedes(b, c),
    ensures
        precedes(a, c),
{
    lemma_precedes_from_transitive(a, b, c, 0);
}

/// No text stands before itself, read from any position on.
pub proof fn lemma_precedes_from_irreflexive(a: Seq<char>, i: int)
    ensures
        !precedes_from(a, a, i),
    decreases a.len() - i,
{
    if 0 <= i < a.len() {
        lemma_precedes_from_irreflexive(a, i + 1);
    }
}

/// Of two texts at most one stands before the other, read from any position
/// on.
pub proof fn lemma_precedes_from_asymmetric(a: Seq<char>, b: Seq<char>, i: int)
    requires
        precedes_from(a, b, i),
    ensures
        !precedes_from(b, a, i),
    decreases a.len() - i,
{
    if i < a.len() && a[i] == b[i] {
        lemma_precedes_from_asymmetric(a, b, i + 1);
    }
}

/// Of two texts exactly one holds: the first stands before the second, they
/// are the same, or the second stands before the first.
pub proof fn lemma_precedes_total(a: Seq<char>, b: Seq<char>)
    ensures
        precedes(a, b) ==> a != b && !precedes(b, a),
        precedes(b, a) ==> a != b && !precedes(a, b),
        a != b ==> precedes(a, b) || precedes(b, a),
{
    lemma_precedes_from_irreflexive(a, 0);
    if precedes(a, b) {
        lemma_precedes_from_asymmetric(a, b, 0);
    }
    if precedes(b, a) {
        lemma_precedes_from_asymmetric(b, a, 0);
    }
    if a != b {
        lemma_differing_from(a, b, 0);
    }
}

/// Two texts that agree before position `i` and are not the same stand one
/// before the other.
proof fn lemma_differing_from(a: Seq<char>, b: Seq<char>, i: int)
    requires
        0 <= i <= a.len(),
        i <= b.len(),
        forall|k: int| 0 <= k < i ==> a[k] == b[k],
        a != b,
    ensures
        precedes_from(a, b, i) || precedes_from(b, a, i),
    decreases a.len() - i,
{
    if i < a.len() && i < b.len() && a[i] == b[i] {
        lemma_differing_from(a, b, i + 1);
    } else if i == a.len() && i == b.len() {
        assert(a =~= b);
    }
}

/// In an ascending list nothing occurs twice.
pub proof fn lemma_ascending_no_duplicates(names: Seq<Seq<char>>)
    requires
        ascending(names),
    ensures
        names.no_duplicates(),
{
    assert forall|i: int, j: int|
        0 <= i < names.len() && 0 <= j < names.len() && i != j implies names[i] != names[j] by {
        lemma_precedes_from_irreflexive(names[i], 0);
        if i < j {
            assert(precedes(names[i], names[j]));
        } else {
            assert(precedes(names[j], names[i]));
        }
    }
}

/// How one text stands to another in alphabetical order.
#[derive(Clone, Copy, Debug, PartialEq, Eq)]
pub enum Place {
    Before,
    Same,
    After,
}

/// How `a` stands to `b` in alphabetical order.
pub fn place_of(a: &Vec<char>, b: &Vec<char>) -> (place: Place)
    ensures
        (place is Before) == precedes(a@, b@),
        (place is Same) == (a@ == b@),
        (place is After) == precedes(b@, a@),
{
    proof {
        lemma_precedes_total(a@, b@);
    }
    let mut i: usize = 0;
    while i < a.len() && i < b.len()
        invariant
            i <= a@.len(),
            i <= b@.len(),
            forall|k: int| 0 <= k < i ==> a@[k] == b@[k],
            precedes_from(a@, b@, i as int) == precedes(a@, b@),
            precedes_from(b@, a@, i as int) == precedes(b@, a@),
        decreases a@.len() - i,
    {
        if a[i] < b[i] {
            return Place::Before;
        }
        if b[i] < a[i] {
            return Place::After;
        }
        i += 1;
    }
    if i < b.len() {
        Place::Before
    } else if i < a.len() {
        Place::After
    } else {
        assert(a@ =~= b@);
        Place::Same
    }
}

} // verus!
