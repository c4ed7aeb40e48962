//! Searching a sequence for the first element with a property, and what
//! the search finds after the sequence was changed.

use vstd::prelude::*;

verus! {

/// Position of the first element of `s` at or after `from` that satisfies
/// `p`; the length of `s` where there is none.
pub open spec fn first_match<T>(s: Seq<T>, p: spec_fn(T) -> bool, from: int) -> int
    decreases s.len() - from,
{
    if from >= s.len() {
        s.len() as int
    } else if from >= 0 && p(s[from]) {
        from
    } else {
        first_match(s, p, from + 1)
    }
}

/// [`first_match`] lies between `from` and the length, no element between
/// `from` and it satisfies `p`, and it satisfies `p` unless it is the length.
pub proof fn lemma_first_match<T>(s: Seq<T>, p: spec_fn(T) -> bool, from: int)
    requires
        0 <= from <= s.len(),
    ensures
        from <= first_match(s, p, from) <= s.len(),
        first_match(s, p, from) < s.len() ==> p(s[first_match(s, p, from)]),
        forall|k: int| from <= k < first_match(s, p, from) ==> !p(#[trigger] s[k]),
    decreases s.len() - from,
{
    if from < s.len() && !p(s[from]) {
        lemma_first_match(s, p, from + 1);
    }
}

/// The position that has the properties of [`lemma_first_match`] is
/// [`first_match`].
pub proof fn lemma_first_match_unique<T>(s: Seq<T>, p: spec_fn(T) -> bool, from: int, r: int)
    requires
        0 <= from <= r <= s.len(),
        r < s.len() ==> p(s[r]),
        forall|k: int| from <= k < r ==> !p(#[trigger] s[k]),
    ensures
        first_match(s, p, from) == r,
    decreases r - from,
{
    if from < r {
        assert(!p(s[from]));
        lemma_first_match_unique(s, p, from + 1, r);
    }
}

/// Searching a suffix finds what searching the whole sequence finds from
/// the start of the suffix on.
pub proof fn lemma_first_match_skip<T>(s: Seq<T>, p: spec_fn(T) -> bool, k: int, from: int)
    requires
        0 <= k <= s.len(),
        0 <= from <= s.len() - k,
    ensures
        first_match(s.skip(k), p, from) + k == first_match(s, p, from + k),
{
    let r = first_match(s, p, from + k);
    lemma_first_match(s, p, from + k);
    let t = s.skip(k);
    assert forall|j: int| from <= j < r - k implies !p(#[trigger] t[j]) by {
        assert(t[j] == s[j + k]);
    }
    if r < s.len() {
        assert(t[r - k] == s[r]);
    }
    lemma_first_match_unique(t, p, from, r - k);
}

/// Appending an element changes no match that was found, and the new
/// element is found where nothing was.
pub proof fn lemma_first_match_push<T>(s: Seq<T>, p: spec_fn(T) -> bool, x: T, from: int)
    requires
        0 <= from <= s.len(),
    ensures
        first_match(s.push(x), p, from) == if first_match(s, p, from) < s.len() || p(x) {
            first_match(s, p, from)
        } else {
            s.len() as int + 1
        },
{
    let r = first_match(s, p, from);
    lemma_first_match(s, p, from);
    let t = s.push(x);
    assert forall|j: int| from <= j < r implies !p(#[trigger] t[j]) by {
        assert(t[j] == s[j]);
    }
    if r < s.len() {
        assert(t[r] == s[r]);
        lemma_first_match_unique(t, p, from, r);
    } else if p(x) {
        assert(t[r] == x);
        lemma_first_match_unique(t, p, from, r);
    } else {
        assert forall|j: int| from <= j < r + 1 implies !p(#[trigger] t[j]) by {
            if j < r {
                assert(t[j] == s[j]);
            }
        }
        lemma_first_match_unique(t, p, from, r + 1);
    }
}

/// Dropping the last element changes no match that was found before it.
pub proof fn lemma_first_match_drop_last<T>(s: Seq<T>, p: spec_fn(T) -> bool, from: int)
    requires
        s.len() > 0,
        0 <= from <= s.len() - 1,
    ensures
        first_match(s.drop_last(), p, from) == if first_match(s, p, from) < s.len() - 1 {
            first_match(s, p, from)
        } else {
            s.len() as int - 1
        },
{
    let r = first_match(s, p, from);
    lemma_first_match(s, p, from);
    let t = s.drop_last();
    let q: int = if r < s.len() - 1 {
        r
    } else {
        s.len() as int - 1
    };
    assert forall|j: int| from <= j < q implies !p(#[trigger] t[j]) by {
        assert(t[j] == s[j]);
    }
    if q < t.len() {
        assert(t[q] == s[q]);
    }
    lemma_first_match_unique(t, p, from, q);
}

/// Two sequences whose elements agree on `p` have the same first match.
pub proof fn lemma_first_match_agree<T>(s: Seq<T>, t: Seq<T>, p: spec_fn(T) -> bool, from: int)
    requires
        s.len() == t.len(),
        0 <= from <= s.len(),
        forall|k: int| 0 <= k < s.len() ==> p(#[trigger] s[k]) == p(t[k]),
    ensures
        first_match(t, p, from) == first_match(s, p, from),
{
    let r = first_match(s, p, from);
    lemma_first_match(s, p, from);
    assert forall|j: int| from <= j < r implies !p(#[trigger] t[j]) by {
        assert(p(s[j]) == p(t[j]));
    }
    if r < s.len() {
        assert(p(s[r]) == p(t[r]));
    }
    lemma_first_match_unique(t, p, from, r);
}

} // verus!
