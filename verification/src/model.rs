//! The mathematical model of word distances: occurrences of a word in a
//! sequence, and the shortest distance between two words as the least
//! absolute difference over the full cross product of their occurrences.

use vstd::prelude::*;

verus! {

/// Position `i` of the sequence `words` holds the word `w`.
pub open spec fn is_occurrence(words: Seq<Seq<char>>, w: Seq<char>, i: int) -> bool {
    0 <= i < words.len() && words[i] == w
}

/// The word `w` occurs somewhere in `words`.
pub open spec fn contains_word(words: Seq<Seq<char>>, w: Seq<char>) -> bool {
    exists|i: int| is_occurrence(words, w, i)
}

/// Absolute difference between two positions.
pub open spec fn abs_diff(i: int, j: int) -> int {
    if i >= j {
        i - j
    } else {
        j - i
    }
}

/// `d` is the least value of |i - j| over the full cross product of the
/// occurrences `i` of `w1` and `j` of `w2` in `words`: some pair of
/// occurrences lies exactly `d` apart, and no pair lies closer.
pub open spec fn is_shortest_distance(
    words: Seq<Seq<char>>,
    w1: Seq<char>,
    w2: Seq<char>,
    d: int,
) -> bool {
    &&& exists|i: int, j: int|
        is_occurrence(words, w1, i) && is_occurrence(words, w2, j) && abs_diff(i, j) == d
    &&& forall|i: int, j: int|
        is_occurrence(words, w1, i) && is_occurrence(words, w2, j) ==> abs_diff(i, j) >= d
}

/// The shortest distance between two words of a sequence is a single
/// well-defined value.
pub proof fn lemma_shortest_distance_unique(
    words: Seq<Seq<char>>,
    w1: Seq<char>,
    w2: Seq<char>,
    d1: int,
    d2: int,
)
    requires
        is_shortest_distance(words, w1, w2, d1),
        is_shortest_distance(words, w1, w2, d2),
    ensures
        d1 == d2,
{
    let (i1, j1) = choose|i: int, j: int|
        is_occurrence(words, w1, i) && is_occurrence(words, w2, j) && abs_diff(i, j) == d1;
    assert(abs_diff(i1, j1) >= d2);
    let (i2, j2) = choose|i: int, j: int|
        is_occurrence(words, w1, i) && is_occurrence(words, w2, j) && abs_diff(i, j) == d2;
    assert(abs_diff(i2, j2) >= d1);
}

/// Swapping the two queried words leaves the shortest distance unchanged.
pub proof fn lemma_shortest_distance_symmetric(
    words: Seq<Seq<char>>,
    w1: Seq<char>,
    w2: Seq<char>,
    d: int,
)
    requires
        is_shortest_distance(words, w1, w2, d),
    ensures
        is_shortest_distance(words, w2, w1, d),
{
    let (i, j) = choose|i: int, j: int|
        is_occurrence(words, w1, i) && is_occurrence(words, w2, j) && abs_diff(i, j) == d;
    assert(is_occurrence(words, w2, j) && is_occurrence(words, w1, i) && abs_diff(j, i) == d);
    assert forall|i2: int, j2: int|
        is_occurrence(words, w2, i2) && is_occurrence(words, w1, j2) implies abs_diff(i2, j2)
        >= d by {
        assert(abs_diff(j2, i2) >= d);
    }
}

/// Two queries that swap their words agree: any shortest distance from `w1`
/// to `w2` equals any shortest distance from `w2` to `w1`.
pub proof fn lemma_shortest_distance_commutes(
    words: Seq<Seq<char>>,
    w1: Seq<char>,
    w2: Seq<char>,
    d1: int,
    d2: int,
)
    requires
        is_shortest_distance(words, w1, w2, d1),
        is_shortest_distance(words, w2, w1, d2),
    ensures
        d1 == d2,
{
    lemma_shortest_distance_symmetric(words, w1, w2, d1);
    lemma_shortest_distance_unique(words, w2, w1, d1, d2);
}

/// The shortest distance between two present words is non-negative and never
/// exceeds the length of the sequence minus one.
pub proof fn lemma_shortest_distance_bound(
    words: Seq<Seq<char>>,
    w1: Seq<char>,
    w2: Seq<char>,
    d: int,
)
    requires
        is_shortest_distance(words, w1, w2, d),
    ensures
        0 <= d <= words.len() - 1,
{
    let (i, j) = choose|i: int, j: int|
        is_occurrence(words, w1, i) && is_occurrence(words, w2, j) && abs_diff(i, j) == d;
}

/// Querying a present word against itself yields zero: the cross product of
/// the word's occurrence list with itself pairs each occurrence with itself,
/// and such a pair lies zero positions apart.
pub proof fn lemma_self_distance_zero(words: Seq<Seq<char>>, w: Seq<char>)
    requires
        contains_word(words, w),
    ensures
        is_shortest_distance(words, w, w, 0),
{
    let i = choose|i: int| is_occurrence(words, w, i);
    assert(is_occurrence(words, w, i) && is_occurrence(words, w, i) && abs_diff(i, i) == 0);
}

} // verus!
