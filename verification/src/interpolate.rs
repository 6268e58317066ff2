//! Substitution of named placeholders in a template.
//!
//! A placeholder is a `$` followed by its name: the longest run of ASCII
//! letters, digits and underscores that follows, if that run is not empty.
//! A `$` that no name follows is plain text.
//!
//! The template is read once from left to right. A value that was put in is
//! never read again, so a value may itself hold `$` and stays as it is.

use vstd::prelude::*;
use crate::strmap::StringMap;
use crate::text::{chars_of, push_chars, string_of_chars};

verus! {

/// The named values handed to interpolation: parameter name to replacement.
pub type Params = StringMap;

/// Whether `c` may stand in the name of a placeholder.
pub open spec fn is_name_char(c: char) -> bool {
    ('a' <= c && c <= 'z') || ('A' <= c && c <= 'Z') || ('0' <= c && c <= '9') || c == '_'
}

/// The end of the run of name characters of `t` that starts at `from`: the
/// first position at or after `from` that holds no name character.
pub open spec fn name_end(t: Seq<char>, from: int) -> int
    decreases t.len() - from,
{
    if 0 <= from < t.len() && is_name_char(t[from]) {
        name_end(t, from + 1)
    } else {
        from
    }
}

/// A run of name characters ends where it starts or later, and inside the text.
pub proof fn lemma_name_end_bounds(t: Seq<char>, from: int)
    requires
        0 <= from <= t.len(),
    ensures
        from <= name_end(t, from) <= t.len(),
        forall|k: int| from <= k < name_end(t, from) ==> is_name_char(#[trigger] t[k]),
        name_end(t, from) < t.len() ==> !is_name_char(t[name_end(t, from)]),
    decreases t.len() - from,
{
    if from < t.len() && is_name_char(t[from]) {
        lemma_name_end_bounds(t, from + 1);
    }
}

/// Whether a placeholder starts at position `i` of `t`.
pub open spec fn placeholder_at(t: Seq<char>, i: int) -> bool {
    0 <= i < t.len() && t[i] == '$' && name_end(t, i + 1) > i + 1
}

/// The name of the placeholder that starts at position `i` of `t`.
pub open spec fn placeholder_name(t: Seq<char>, i: int) -> Seq<char> {
    t.subrange(i + 1, name_end(t, i + 1))
}

/// What the placeholder that starts at position `i` of `t` is replaced by: the
/// value supplied under its name, or its own text where none was supplied.
pub open spec fn replacement(t: Seq<char>, params: Map<Seq<char>, Seq<char>>, i: int) -> Seq<
    char,
> {
    let name = placeholder_name(t, i);
    if params.contains_key(name) {
        params[name]
    } else {
        t.subrange(i, name_end(t, i + 1))
    }
}

/// The interpolation of the part of `t` that starts at position `i`.
pub open spec fn interpolated_from(t: Seq<char>, params: Map<Seq<char>, Seq<char>>, i: int) -> Seq<
    char,
>
    decreases t.len() - i,
{
    if i < 0 || i >= t.len() {
        Seq::empty()
    } else if placeholder_at(t, i) {
        proof {
            lemma_name_end_bounds(t, i + 1);
        }
        replacement(t, params, i) + interpolated_from(t, params, name_end(t, i + 1))
    } else {
        seq![t[i]] + interpolated_from(t, params, i + 1)
    }
}

/// The template `t` with each of its placeholders replaced from `params`.
pub open spec fn interpolated(t: Seq<char>, params: Map<Seq<char>, Seq<char>>) -> Seq<char> {
    interpolated_from(t, params, 0)
}

/// The names of the placeholders of `t` that start at or after position `i`.
pub open spec fn placeholders_from(t: Seq<char>, i: int) -> Set<Seq<char>>
    decreases t.len() - i,
{
    if i < 0 || i >= t.len() {
        Set::empty()
    } else if placeholder_at(t, i) {
        proof {
            lemma_name_end_bounds(t, i + 1);
        }
        placeholders_from(t, name_end(t, i + 1)).insert(placeholder_name(t, i))
    } else {
        placeholders_from(t, i + 1)
    }
}

/// The names of the placeholders of `t`.
pub open spec fn placeholders(t: Seq<char>) -> Set<Seq<char>> {
    placeholders_from(t, 0)
}

/// The name of the first placeholder of `t` at or after position `i` that
/// `params` does not hold.
pub open spec fn first_unsupplied_from(
    t: Seq<char>,
    params: Map<Seq<char>, Seq<char>>,
    i: int,
) -> Option<Seq<char>>
    decreases t.len() - i,
{
    if i < 0 || i >= t.len() {
        None
    } else if placeholder_at(t, i) {
        proof {
            lemma_name_end_bounds(t, i + 1);
        }
        if params.contains_key(placeholder_name(t, i)) {
            first_unsupplied_from(t, params, name_end(t, i + 1))
        } else {
            Some(placeholder_name(t, i))
        }
    } else {
        first_unsupplied_from(t, params, i + 1)
    }
}

/// The name of the first placeholder of `t` that `params` does not hold.
pub open spec fn first_unsupplied(t: Seq<char>, params: Map<Seq<char>, Seq<char>>) -> Option<
    Seq<char>,
> {
    first_unsupplied_from(t, params, 0)
}

fn name_char(c: char) -> (b: bool)
    ensures
        b == is_name_char(c),
{
    ('a' <= c && c <= 'z') || ('A' <= c && c <= 'Z') || ('0' <= c && c <= '9') || c == '_'
}

pub(crate) fn scan_name(chars: &Vec<char>, from: usize) -> (end: usize)
    requires
        from <= chars@.len(),
    ensures
        end == name_end(chars@, from as int),
        from <= end <= chars@.len(),
{
    let mut end: usize = from;
    while end < chars.len() && name_char(chars[end])
        invariant
            from <= end <= chars@.len(),
            name_end(chars@, from as int) == name_end(chars@, end as int),
        decreases chars@.len() - end,
    {
        end += 1;
    }
    end
}

/// Replaces each placeholder of `template` by the value that `params` holds
/// under its name. A placeholder whose name `params` does not hold stays in
/// the result as it stands in the template; a value that no placeholder
/// names is not used.
pub fn interpolate(template: &str, params: &Params) -> (out: String)
    ensures
        out@ == interpolated(template@, params@),
{
    let chars = chars_of(template);
    let mut out = String::new();
    let mut i: usize = 0;
    assert(out@ + interpolated_from(chars@, params@, 0) =~= interpolated(template@, params@));
    while i < chars.len()
        invariant
            i <= chars@.len(),
            chars@ == template@,
            out@ + interpolated_from(chars@, params@, i as int) == interpolated(
                template@,
                params@,
            ),
        decreases chars@.len() - i,
    {
        let ghost before = out@;
        let ghost rest = interpolated_from(chars@, params@, i as int);
        let c: char = chars[i];
        let end: usize = if c == '$' {
            scan_name(&chars, i + 1)
        } else {
            i + 1
        };
        if c == '$' && end > i + 1 {
            let name = string_of_chars(&chars, i + 1, end);
            match params.get(name.as_str()) {
                Some(value) => {
                    out.append(value.as_str());
                },
                None => {
                    push_chars(&mut out, &chars, i, end);
                },
            }
            proof {
                let tail = interpolated_from(chars@, params@, end as int);
                assert(rest == replacement(chars@, params@, i as int) + tail);
                assert(out@ + tail =~= before + rest);
            }
            i = end;
        } else {
            out.push(c);
            proof {
                let tail = interpolated_from(chars@, params@, i + 1);
                assert(rest == seq![c] + tail);
                assert(out@ + tail =~= before + rest);
            }
            i += 1;
        }
    }
    assert(out@ + Seq::<char>::empty() =~= out@);
    out
}

/// The name of the first placeholder of `template` for which `params` holds
/// no value, if there is one.
pub fn find_unsupplied(template: &str, params: &Params) -> (missing: Option<String>)
    ensures
        match missing {
            Some(name) => first_unsupplied(template@, params@) == Some(name@),
            None => first_unsupplied(template@, params@) is None,
        },
{
    let chars = chars_of(template);
    let mut i: usize = 0;
    while i < chars.len()
        invariant
            i <= chars@.len(),
            chars@ == template@,
            first_unsupplied_from(chars@, params@, i as int) == first_unsupplied(
                template@,
                params@,
            ),
        decreases chars@.len() - i,
    {
        let c: char = chars[i];
        let end: usize = if c == '$' {
            scan_name(&chars, i + 1)
        } else {
            i + 1
        };
        if c == '$' && end > i + 1 {
            let name = string_of_chars(&chars, i + 1, end);
            if !params.contains(name.as_str()) {
                return Some(name);
            }
            i = end;
        } else {
            i += 1;
        }
    }
    None
}

/// A placeholder of the template names a parameter that was not supplied.
#[derive(Debug)]
pub struct MissingParameter {
    /// The name of the placeholder, without its `$`.
    pub name: String,
}

/// Interpolates as `interpolate` does, but only where every placeholder of
/// `template` has a value in `params`. Otherwise the error names the first
/// placeholder that has none.
pub fn interpolate_strict(template: &str, params: &Params) -> (result: Result<
    String,
    MissingParameter,
>)
    ensures
        match result {
            Ok(out) => first_unsupplied(template@, params@) is None && out@ == interpolated(
                template@,
                params@,
            ),
            Err(e) => first_unsupplied(template@, params@) == Some(e.name@),
        },
{
    match find_unsupplied(template, params) {
        Some(name) => Err(MissingParameter { name }),
        None => Ok(interpolate(template, params)),
    }
}

/// Two sets of values that agree on the placeholders of the part of `t` from
/// position `i` on give that part the same interpolation.
pub proof fn lemma_agreeing_params_from(
    t: Seq<char>,
    one: Map<Seq<char>, Seq<char>>,
    other: Map<Seq<char>, Seq<char>>,
    i: int,
)
    requires
        0 <= i <= t.len(),
        forall|name: Seq<char>| #[trigger]
            placeholders_from(t, i).contains(name) ==> one.contains_key(name)
                == other.contains_key(name) && (one.contains_key(name) ==> one[name]
                == other[name]),
    ensures
        interpolated_from(t, one, i) == interpolated_from(t, other, i),
    decreases t.len() - i,
{
    if i < t.len() {
        if placeholder_at(t, i) {
            lemma_name_end_bounds(t, i + 1);
            let end = name_end(t, i + 1);
            assert(placeholders_from(t, i).contains(placeholder_name(t, i)));
            assert forall|name: Seq<char>| #[trigger]
                placeholders_from(t, end).contains(name) implies one.contains_key(name)
                == other.contains_key(name) && (one.contains_key(name) ==> one[name]
                == other[name]) by {
                assert(placeholders_from(t, i).contains(name));
            }
            lemma_agreeing_params_from(t, one, other, end);
        } else {
            assert(placeholders_from(t, i) == placeholders_from(t, i + 1));
            lemma_agreeing_params_from(t, one, other, i + 1);
        }
    }
}

/// Only the values that the template names are used: two sets of values that
/// agree on the placeholders of `t` give the same text.
pub proof fn lemma_only_named_values_count(
    t: Seq<char>,
    one: Map<Seq<char>, Seq<char>>,
    other: Map<Seq<char>, Seq<char>>,
)
    requires
        forall|name: Seq<char>| #[trigger]
            placeholders(t).contains(name) ==> one.contains_key(name) == other.contains_key(name)
                && (one.contains_key(name) ==> one[name] == other[name]),
    ensures
        interpolated(t, one) == interpolated(t, other),
{
    assert(placeholders(t) == placeholders_from(t, 0));
    lemma_agreeing_params_from(t, one, other, 0);
}

/// A value under a name that the template does not mention changes nothing.
pub proof fn lemma_unused_value_ignored(
    t: Seq<char>,
    params: Map<Seq<char>, Seq<char>>,
    name: Seq<char>,
    value: Seq<char>,
)
    requires
        !placeholders(t).contains(name),
    ensures
        interpolated(t, params.insert(name, value)) == interpolated(t, params),
{
    lemma_only_named_values_count(t, params.insert(name, value), params);
}

/// Where no placeholder from position `i` on has a value, the part of `t`
/// from there on stays as it is.
pub proof fn lemma_unsupplied_stay_from(t: Seq<char>, params: Map<Seq<char>, Seq<char>>, i: int)
    requires
        0 <= i <= t.len(),
        forall|name: Seq<char>| #[trigger]
            placeholders_from(t, i).contains(name) ==> !params.contains_key(name),
    ensures
        interpolated_from(t, params, i) == t.subrange(i, t.len() as int),
    decreases t.len() - i,
{
    let len = t.len() as int;
    if i < t.len() {
        if placeholder_at(t, i) {
            lemma_name_end_bounds(t, i + 1);
            let end = name_end(t, i + 1);
            assert(placeholders_from(t, i).contains(placeholder_name(t, i)));
            assert forall|name: Seq<char>| #[trigger]
                placeholders_from(t, end).contains(name) implies !params.contains_key(name) by {
                assert(placeholders_from(t, i).contains(name));
            }
            lemma_unsupplied_stay_from(t, params, end);
            assert(t.subrange(i, end) + t.subrange(end, len) =~= t.subrange(i, len));
        } else {
            assert(placeholders_from(t, i) == placeholders_from(t, i + 1));
            lemma_unsupplied_stay_from(t, params, i + 1);
            assert(seq![t[i]] + t.subrange(i + 1, len) =~= t.subrange(i, len));
        }
    } else {
        assert(t.subrange(i, len) =~= Seq::<char>::empty());
    }
}

/// A template none of whose placeholders has a value comes back unchanged;
/// so does every template where no value is supplied at all.
pub proof fn lemma_unsupplied_stay(t: Seq<char>, params: Map<Seq<char>, Seq<char>>)
    requires
        forall|name: Seq<char>| #[trigger]
            placeholders(t).contains(name) ==> !params.contains_key(name),
    ensures
        interpolated(t, params) == t,
{
    assert(placeholders(t) == placeholders_from(t, 0));
    lemma_unsupplied_stay_from(t, params, 0);
    assert(t.subrange(0, t.len() as int) =~= t);
}

/// A text without `$` has no placeholder from any position on.
pub proof fn lemma_no_dollar_no_placeholder(t: Seq<char>, i: int)
    requires
        0 <= i <= t.len(),
        forall|k: int| 0 <= k < t.len() ==> t[k] != '$',
    ensures
        placeholders_from(t, i) == Set::<Seq<char>>::empty(),
    decreases t.len() - i,
{
    if i < t.len() {
        lemma_no_dollar_no_placeholder(t, i + 1);
    }
}

/// A template without `$` comes back unchanged, whatever values are supplied.
pub proof fn lemma_plain_text_unchanged(t: Seq<char>, params: Map<Seq<char>, Seq<char>>)
    requires
        forall|k: int| 0 <= k < t.len() ==> t[k] != '$',
    ensures
        interpolated(t, params) == t,
{
    lemma_no_dollar_no_placeholder(t, 0);
    lemma_unsupplied_stay(t, params);
}

/// A placeholder of the part of `t` from `i` on is without a value exactly
/// where the search for the first such placeholder finds one.
pub proof fn lemma_first_unsupplied_from(t: Seq<char>, params: Map<Seq<char>, Seq<char>>, i: int)
    requires
        0 <= i <= t.len(),
    ensures
        match first_unsupplied_from(t, params, i) {
            Some(name) => placeholders_from(t, i).contains(name) && !params.contains_key(name),
            None => forall|name: Seq<char>| #[trigger]
                placeholders_from(t, i).contains(name) ==> params.contains_key(name),
        },
    decreases t.len() - i,
{
    if i < t.len() {
        if placeholder_at(t, i) {
            lemma_name_end_bounds(t, i + 1);
            let end = name_end(t, i + 1);
            lemma_first_unsupplied_from(t, params, end);
            assert(placeholders_from(t, i) == placeholders_from(t, end).insert(
                placeholder_name(t, i),
            ));
        } else {
            lemma_first_unsupplied_from(t, params, i + 1);
            assert(placeholders_from(t, i) == placeholders_from(t, i + 1));
        }
    } else {
        assert(placeholders_from(t, i) == Set::<Seq<char>>::empty());
    }
}

/// The strict interpolation succeeds exactly where every placeholder of the
/// template has a value, and the name it fails with is a placeholder of the
/// template that has none.
pub proof fn lemma_first_unsupplied(t: Seq<char>, params: Map<Seq<char>, Seq<char>>)
    ensures
        match first_unsupplied(t, params) {
            Some(name) => placeholders(t).contains(name) && !params.contains_key(name),
            None => forall|name: Seq<char>| #[trigger]
                placeholders(t).contains(name) ==> params.contains_key(name),
        },
{
    assert(placeholders(t) == placeholders_from(t, 0));
    lemma_first_unsupplied_from(t, params, 0);
}

/// A template that is one placeholder and nothing else becomes the value of
/// its name, letter for letter: what the value holds is not read as a
/// template again.
pub proof fn lemma_value_is_not_read_again(
    name: Seq<char>,
    params: Map<Seq<char>, Seq<char>>,
)
    requires
        name.len() > 0,
        forall|k: int| 0 <= k < name.len() ==> is_name_char(#[trigger] name[k]),
        params.contains_key(name),
    ensures
        interpolated(seq!['$'] + name, params) == params[name],
{
    let t = seq!['$'] + name;
    lemma_name_run(t, 1);
    assert(name_end(t, 1) == t.len());
    assert(t.subrange(1, t.len() as int) =~= name);
    assert(placeholder_at(t, 0));
    assert(interpolated_from(t, params, t.len() as int) =~= Seq::<char>::empty());
    assert(params[name] + Seq::<char>::empty() =~= params[name]);
}

/// A text that holds only name characters from `from` on is one run of them
/// up to its end.
pub proof fn lemma_name_run(t: Seq<char>, from: int)
    requires
        0 <= from <= t.len(),
        forall|k: int| from <= k < t.len() ==> is_name_char(#[trigger] t[k]),
    ensures
        name_end(t, from) == t.len(),
    decreases t.len() - from,
{
    if from < t.len() {
        lemma_name_run(t, from + 1);
    }
}

} // verus!
