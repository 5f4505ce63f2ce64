//! Facts about the first occurrence of an element in a sequence.

use vstd::prelude::*;

verus! {

/// Whether `i` is the index of the first element of `s` that equals `x`.
pub open spec fn is_first_occurrence<T>(s: Seq<T>, x: T, i: int) -> bool {
    &&& 0 <= i < s.len()
    &&& s[i] == x
    &&& forall|j: int| 0 <= j < i ==> s[j] != x
}

/// The first occurrence is found where it is.
pub proof fn lemma_first_occurrence<T>(s: Seq<T>, x: T, i: int)
    requires
        is_first_occurrence(s, x, i),
    ensures
        s.index_of_first(x) == Some(i),
{
    s.index_of_first_ensures(x);
    assert(s.contains(x));
}

/// Nothing is found where nothing occurs.
pub proof fn lemma_no_occurrence<T>(s: Seq<T>, x: T)
    requires
        forall|j: int| 0 <= j < s.len() ==> s[j] != x,
    ensures
        s.index_of_first(x) == None::<int>,
{
    s.index_of_first_ensures(x);
}

/// What a search gives is the first occurrence, and a search gives nothing
/// only where nothing occurs.
pub proof fn lemma_index_of_first<T>(s: Seq<T>, x: T)
    ensures
        match s.index_of_first(x) {
            Some(i) => is_first_occurrence(s, x, i),
            None => forall|j: int| 0 <= j < s.len() ==> s[j] != x,
        },
{
    s.index_of_first_ensures(x);
}

/// Bytes appended to a sequence do not move a first occurrence in it.
pub proof fn lemma_first_occurrence_append<T>(s: Seq<T>, t: Seq<T>, x: T)
    ensures
        s.index_of_first(x) matches Some(i) ==> (s + t).index_of_first(x) == Some(i),
{
    lemma_index_of_first(s, x);
    if let Some(i) = s.index_of_first(x) {
        assert((s + t)[i] == s[i]);
        assert forall|j: int| 0 <= j < i implies (s + t)[j] != x by {
            assert((s + t)[j] == s[j]);
        }
        lemma_first_occurrence(s + t, x, i);
    }
}

} // verus!
