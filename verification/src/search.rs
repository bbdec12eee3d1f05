//! Finding the first or last element of a sequence that has some property.

use vstd::prelude::*;

verus! {

/// Index of the first element of `s` at or after `from` of which `p` holds.
pub open spec fn first_index<T>(s: Seq<T>, p: spec_fn(T) -> bool, from: int) -> Option<int>
    decreases s.len() - from,
{
    if from < 0 || from >= s.len() {
        None
    } else if p(s[from]) {
        Some(from)
    } else {
        first_index(s, p, from + 1)
    }
}

/// Index of the last element among the first `upto` of `s` of which `p`
/// holds.
pub open spec fn last_index<T>(s: Seq<T>, p: spec_fn(T) -> bool, upto: int) -> Option<int>
    decreases upto,
{
    if upto <= 0 || upto > s.len() {
        None
    } else if p(s[upto - 1]) {
        Some(upto - 1)
    } else {
        last_index(s, p, upto - 1)
    }
}

/// `first_index` gives the least index at or after `from` of which `p`
/// holds, and `None` exactly when there is none.
pub proof fn lemma_first_index<T>(s: Seq<T>, p: spec_fn(T) -> bool, from: int)
    requires
        0 <= from,
    ensures
        match first_index(s, p, from) {
            Some(i) => from <= i < s.len() && p(s[i]) && forall|j: int| from <= j < i ==> !p(s[j]),
            None => forall|j: int| from <= j < s.len() ==> !p(s[j]),
        },
    decreases s.len() - from,
{
    if from < s.len() && !p(s[from]) {
        lemma_first_index(s, p, from + 1);
    }
}

/// `last_index` gives the greatest index below `upto` of which `p` holds,
/// and `None` exactly when there is none.
pub proof fn lemma_last_index<T>(s: Seq<T>, p: spec_fn(T) -> bool, upto: int)
    requires
        upto <= s.len(),
    ensures
        match last_index(s, p, upto) {
            Some(i) => 0 <= i < upto && p(s[i]) && forall|j: int| i < j < upto ==> !p(s[j]),
            None => forall|j: int| 0 <= j < upto ==> !p(s[j]),
        },
    decreases upto,
{
    if upto > 0 && !p(s[upto - 1]) {
        lemma_last_index(s, p, upto - 1);
    }
}

/// Appending an element does not change which of the earlier ones is the
/// last with the property, unless the new one has it.
pub proof fn lemma_last_index_push<T>(s: Seq<T>, x: T, p: spec_fn(T) -> bool)
    ensures
        last_index(s.push(x), p, s.len() as int + 1) == if p(x) {
            Some(s.len() as int)
        } else {
            last_index(s, p, s.len() as int)
        },
{
    lemma_last_index_prefix(s, s.push(x), p, s.len() as int);
}

/// Two sequences that agree on their first `upto` elements have the same
/// last index below `upto`.
pub proof fn lemma_last_index_prefix<T>(s: Seq<T>, t: Seq<T>, p: spec_fn(T) -> bool, upto: int)
    requires
        upto <= s.len(),
        upto <= t.len(),
        forall|j: int| 0 <= j < upto ==> s[j] == t[j],
    ensures
        last_index(s, p, upto) == last_index(t, p, upto),
    decreases upto,
{
    if upto > 0 {
        lemma_last_index_prefix(s, t, p, upto - 1);
    }
}

/// Two sequences of which `p` holds at the same indices have the same
/// first index.
pub proof fn lemma_first_index_same<T>(s: Seq<T>, t: Seq<T>, p: spec_fn(T) -> bool, from: int)
    requires
        0 <= from,
        s.len() == t.len(),
        forall|j: int| 0 <= j < s.len() ==> p(s[j]) == p(t[j]),
    ensures
        first_index(s, p, from) == first_index(t, p, from),
    decreases s.len() - from,
{
    if from < s.len() && !p(s[from]) {
        lemma_first_index_same(s, t, p, from + 1);
    }
}

/// Appending an element does not change the first index, unless `p` held
/// of no element before and holds of the new one.
pub proof fn lemma_first_index_push<T>(s: Seq<T>, x: T, p: spec_fn(T) -> bool, from: int)
    requires
        0 <= from <= s.len(),
    ensures
        first_index(s.push(x), p, from) == match first_index(s, p, from) {
            Some(i) => Some(i),
            None => if p(x) {
                Some(s.len() as int)
            } else {
                None
            },
        },
    decreases s.len() - from,
{
    if from < s.len() {
        assert(s.push(x)[from] == s[from]);
        if !p(s[from]) {
            lemma_first_index_push(s, x, p, from + 1);
        }
    } else {
        assert(s.push(x)[from] == x);
        assert(first_index(s.push(x), p, from + 1) is None);
    }
}

} // verus!
