//! The name predicate: exact equality up to ASCII letter case.

use vstd::prelude::*;
use vstd::std_specs::iter::IteratorSpec;

verus! {

/// The code point of `c`, with the ASCII capitals `A`..`Z` mapped to `a`..`z`.
/// Every other character, accented letters included, keeps its own code point.
pub open spec fn ascii_fold(c: char) -> int {
    if 'A' <= c && c <= 'Z' {
        c as int + 32
    } else {
        c as int
    }
}

/// Two names match when they have the same length and agree position by
/// position once ASCII capitals are folded to lower case.
pub open spec fn names_match(name: Seq<char>, target: Seq<char>) -> bool {
    &&& name.len() == target.len()
    &&& forall|i: int| 0 <= i < name.len() ==> ascii_fold(#[trigger] name[i]) == ascii_fold(target[i])
}

/// An ASCII letter, capital or small.
pub open spec fn is_ascii_letter(c: char) -> bool {
    ('A' <= c && c <= 'Z') || ('a' <= c && c <= 'z')
}

/// A capital ASCII letter and its small letter fold alike.
pub proof fn lemma_capital_folds_to_small(capital: char, small: char)
    requires
        'A' <= capital && capital <= 'Z',
        small as int == capital as int + 32,
    ensures
        ascii_fold(capital) == ascii_fold(small),
        'a' <= small && small <= 'z',
{
}

/// Letter case is the only difference that matching forgives: where two
/// matching names differ, they hold the same ASCII letter in its two cases.
pub proof fn lemma_match_differs_only_in_case(name: Seq<char>, target: Seq<char>, i: int)
    requires
        names_match(name, target),
        0 <= i < name.len(),
        name[i] != target[i],
    ensures
        is_ascii_letter(name[i]),
        is_ascii_letter(target[i]),
        name[i] as int == target[i] as int + 32 || target[i] as int == name[i] as int + 32,
{
    assert(ascii_fold(name[i]) == ascii_fold(target[i]));
}

/// Matching does not see letter case: a character of the name may give way to
/// any character that folds alike.
pub proof fn lemma_match_ignores_case(name: Seq<char>, target: Seq<char>, i: int, other: char)
    requires
        0 <= i < name.len(),
        ascii_fold(other) == ascii_fold(name[i]),
    ensures
        names_match(name.update(i, other), target) == names_match(name, target),
{
    let changed = name.update(i, other);
    if names_match(name, target) {
        assert forall|k: int| 0 <= k < changed.len() implies ascii_fold(#[trigger] changed[k])
            == ascii_fold(target[k]) by {
            assert(ascii_fold(name[k]) == ascii_fold(target[k]));
        }
    }
    if names_match(changed, target) {
        assert forall|k: int| 0 <= k < name.len() implies ascii_fold(#[trigger] name[k])
            == ascii_fold(target[k]) by {
            assert(ascii_fold(changed[k]) == ascii_fold(target[k]));
        }
    }
}

/// Matching is an equivalence of names.
pub proof fn lemma_match_is_equivalence(a: Seq<char>, b: Seq<char>, c: Seq<char>)
    ensures
        names_match(a, a),
        names_match(a, b) == names_match(b, a),
        names_match(a, b) && names_match(b, c) ==> names_match(a, c),
{
    if names_match(a, b) {
        assert forall|i: int| 0 <= i < b.len() implies ascii_fold(#[trigger] b[i]) == ascii_fold(
            a[i],
        ) by {
            assert(ascii_fold(a[i]) == ascii_fold(b[i]));
        }
    }
    if names_match(b, a) {
        assert forall|i: int| 0 <= i < a.len() implies ascii_fold(#[trigger] a[i]) == ascii_fold(
            b[i],
        ) by {
            assert(ascii_fold(b[i]) == ascii_fold(a[i]));
        }
    }
    if names_match(a, b) && names_match(b, c) {
        assert forall|i: int| 0 <= i < a.len() implies ascii_fold(#[trigger] a[i]) == ascii_fold(
            c[i],
        ) by {
            assert(ascii_fold(a[i]) == ascii_fold(b[i]));
            assert(ascii_fold(b[i]) == ascii_fold(c[i]));
        }
    }
}

/// Folds one character as `ascii_fold` does.
pub fn fold_char(c: char) -> (folded: u32)
    ensures
        folded as int == ascii_fold(c),
{
    let code: u32 = c as u32;
    if 65 <= code && code <= 90 {
        code + 32
    } else {
        code
    }
}

/// Tells whether `entry_name` is `target` up to ASCII letter case.
pub fn matches(entry_name: &str, target: &str) -> (matched: bool)
    ensures
        matched == names_match(entry_name@, target@),
{
    broadcast use vstd::string::group_string_axioms;

    let mut left = entry_name.chars();
    let mut right = target.chars();
    let ghost mut done: int = 0;
    loop
        invariant
            0 <= done <= entry_name@.len(),
            done <= target@.len(),
            left.obeys_prophetic_iter_laws(),
            right.obeys_prophetic_iter_laws(),
            left.remaining() == entry_name@.subrange(done, entry_name@.len() as int),
            right.remaining() == target@.subrange(done, target@.len() as int),
            forall|i: int| 0 <= i < done ==> ascii_fold(#[trigger] entry_name@[i]) == ascii_fold(target@[i]),
        decreases entry_name@.len() - done,
    {
        let a = left.next();
        let b = right.next();
        match (a, b) {
            (None, None) => {
                return true;
            },
            (Some(x), Some(y)) => {
                if fold_char(x) != fold_char(y) {
                    return false;
                }
                proof {
                    done = done + 1;
                }
            },
            _ => {
                return false;
            },
        }
    }
}

} // verus!
