//! The word-distance index: a map from each word of a source sequence to the
//! ascending list of positions at which it occurs, built once and queried by
//! a linear merge of two occurrence lists.

use vstd::prelude::*;

use vstd::string::StringExecFns;

use crate::model::abs_diff;
use crate::model::contains_word;
use crate::model::is_occurrence;
use crate::model::is_shortest_distance;

verus! {

/// The views of a sequence of `String`s: each word as its character sequence.
pub open spec fn views_of(words: Seq<String>) -> Seq<Seq<char>> {
    words.map_values(|w: String| w@)
}

/// Error returned when a queried word never occurs in the indexed sequence.
#[derive(Clone, Copy, Debug, PartialEq, Eq, Structural)]
pub struct NotFoundError;

/// `positions` holds exactly the indices below `n` at which `w` occurs in
/// `words`, in strictly increasing order.
spec fn occurrence_list_upto(
    words: Seq<Seq<char>>,
    w: Seq<char>,
    positions: Seq<usize>,
    n: int,
) -> bool {
    &&& forall|a: int|
        0 <= a < positions.len() ==> is_occurrence(words, w, (#[trigger] positions[a]) as int)
            && (positions[a] as int) < n
    &&& forall|a: int, b: int|
        0 <= a < b < positions.len() ==> positions[a] < positions[b]
    &&& forall|i: int|
        #[trigger] is_occurrence(words, w, i) && i < n ==> exists|a: int|
            0 <= a < positions.len() && positions[a] as int == i
}

/// Some entry of `keys` is the word `w`.
spec fn has_key(keys: Seq<String>, w: Seq<char>) -> bool {
    exists|k: int| 0 <= k < keys.len() && keys[k]@ == w
}

/// `positions` is the complete ascending occurrence list of `w` in `words`.
spec fn occurrence_list(
    words: Seq<Seq<char>>,
    w: Seq<char>,
    positions: Seq<usize>,
) -> bool {
    occurrence_list_upto(words, w, positions, words.len() as int)
}

/// An immutable index over a source sequence of words. Entry `k` pairs the
/// word `keys[k]` with `position_lists[k]`, the ascending list of every
/// position of the source at which that word occurs.
pub struct Solution {
    keys: Vec<String>,
    position_lists: Vec<Vec<usize>>,
    source: Ghost<Seq<Seq<char>>>,
}

impl View for Solution {
    type V = Seq<Seq<char>>;

    closed spec fn view(&self) -> Seq<Seq<char>> {
        self.source@
    }
}

impl Solution {
    /// Every entry carries the complete, nonempty, strictly ascending
    /// occurrence list of its key in the source; no two entries share a key;
    /// and every word of the source has an entry.
    #[verifier::type_invariant]
    closed spec fn wf(self) -> bool {
        &&& self.keys@.len() == self.position_lists@.len()
        &&& forall|a: int, b: int|
            0 <= a < b < self.keys@.len() ==> self.keys@[a]@ != self.keys@[b]@
        &&& forall|k: int|
            0 <= k < self.keys@.len() ==> occurrence_list(
                self.source@,
                self.keys@[k]@,
                #[trigger] self.position_lists@[k]@,
            )
        &&& forall|k: int| 0 <= k < self.keys@.len() ==> self.position_lists@[k]@.len() > 0
        &&& forall|i: int|
            0 <= i < self.source@.len() ==> has_key(self.keys@, #[trigger] self.source@[i])
    }

    /// Builds the index in one pass: position `i` is appended to the
    /// occurrence list keyed by the word at position `i`, the list being
    /// created on the word's first occurrence.
    pub fn from(words: &Vec<String>) -> (r: Solution)
        ensures
            r@ == views_of(words@),
    {
        let ghost target: Seq<Seq<char>> = views_of(words@);
        let mut keys: Vec<String> = Vec::new();
        let mut position_lists: Vec<Vec<usize>> = Vec::new();
        let mut i: usize = 0;
        while i < words.len()
            invariant
                i <= words@.len(),
                target == views_of(words@),
                keys@.len() == position_lists@.len(),
                forall|a: int, b: int| 0 <= a < b < keys@.len() ==> keys@[a]@ != keys@[b]@,
                forall|k: int|
                    0 <= k < keys@.len() ==> occurrence_list_upto(
                        target,
                        keys@[k]@,
                        #[trigger] position_lists@[k]@,
                        i as int,
                    ),
                forall|k: int| 0 <= k < keys@.len() ==> position_lists@[k]@.len() > 0,
                forall|j: int| 0 <= j < i ==> has_key(keys@, #[trigger] target[j]),
            decreases words@.len() - i,
        {
            let w = &words[i];
            assert(target[i as int] == w@);
            let ghost keys0 = keys@;
            let ghost lists0 = position_lists@;
            match find_key(&keys, w) {
                Some(k) => {
                    position_lists[k].push(i);
                    proof {
                        lemma_extend_existing(target, keys@, lists0, position_lists@, k as int, i);
                        assert(has_key(keys@, target[i as int]));
                    }
                },
                None => {
                    keys.push(w.clone());
                    let mut fresh: Vec<usize> = Vec::new();
                    fresh.push(i);
                    position_lists.push(fresh);
                    proof {
                        lemma_extend_fresh(target, keys0, keys@, lists0, position_lists@, i);
                    }
                },
            }
            i += 1;
        }
        assert(target.len() == words@.len());
        Solution { keys, position_lists, source: Ghost(target) }
    }

    /// Finds the least absolute difference between any occurrence of `word1`
    /// and any occurrence of `word2` in the indexed sequence, merging the two
    /// ascending occurrence lists with one cursor each. Fails with
    /// `NotFoundError` exactly when either word never occurs.
    pub fn shortest(&self, word1: &String, word2: &String) -> (r: Result<
        usize,
        NotFoundError,
    >)
        ensures
            match r {
                Ok(d) => is_shortest_distance(self@, word1@, word2@, d as int),
                Err(_) => !contains_word(self@, word1@) || !contains_word(self@, word2@),
            },
    {
        proof {
            use_type_invariant(&*self);
        }
        let k1 = match find_key(&self.keys, word1) {
            Some(k) => k,
            None => {
                proof {
                    lemma_no_key_no_occurrence(*self, word1@);
                }
                return Err(NotFoundError);
            },
        };
        let k2 = match find_key(&self.keys, word2) {
            Some(k) => k,
            None => {
                proof {
                    lemma_no_key_no_occurrence(*self, word2@);
                }
                return Err(NotFoundError);
            },
        };
        let v1 = &self.position_lists[k1];
        let v2 = &self.position_lists[k2];
        let ghost s1 = v1@;
        let ghost s2 = v2@;
        proof {
            assert(occurrence_list(self@, word1@, s1));
            assert(occurrence_list(self@, word2@, s2));
        }
        let n1 = v1.len();
        let n2 = v2.len();
        let mut i1: usize = 0;
        let mut i2: usize = 0;
        let mut best: usize = usize::MAX;
        while i1 < n1 && i2 < n2
            invariant
                n1 == s1.len(),
                n2 == s2.len(),
                s1.len() > 0,
                s2.len() > 0,
                i1 <= s1.len(),
                i2 <= s2.len(),
                s1 == v1@,
                s2 == v2@,
                occurrence_list(self@, word1@, s1),
                occurrence_list(self@, word2@, s2),
                forall|a: int, b: int|
                    #![trigger s1[a], s2[b]]
                    0 <= a < s1.len() && 0 <= b < s2.len() && (a < i1 || b < i2) ==> best as int
                        <= abs_diff(s1[a] as int, s2[b] as int),
                i1 == 0 && i2 == 0 ==> best == usize::MAX,
                i1 > 0 || i2 > 0 ==> exists|a: int, b: int|
                    #![trigger s1[a], s2[b]]
                    0 <= a < s1.len() && 0 <= b < s2.len() && abs_diff(
                        s1[a] as int,
                        s2[b] as int,
                    ) == best as int,
            decreases s1.len() - i1 + s2.len() - i2,
        {
            let ghost a0 = i1 as int;
            let ghost b0 = i2 as int;
            let p1 = v1[i1];
            let p2 = v2[i2];
            let d = if p1 >= p2 {
                p1 - p2
            } else {
                p2 - p1
            };
            if d < best {
                best = d;
            }
            if p1 < p2 {
                i1 += 1;
            } else {
                i2 += 1;
            }
            proof {
                if best == d {
                    assert(0 <= a0 < s1.len() && 0 <= b0 < s2.len() && abs_diff(
                        s1[a0] as int,
                        s2[b0] as int,
                    ) == best as int);
                }
            }
        }
        proof {
            lemma_merge_result(self@, word1@, word2@, s1, s2, best as int);
        }
        Ok(best)
    }

    /// The five-word example sequence that the crate's tests index.
    pub fn test_fixrure() -> (r: Vec<String>)
        ensures
            r@.len() == 5,
            r@[0]@ == "practice"@,
            r@[1]@ == "makes"@,
            r@[2]@ == "perfect"@,
            r@[3]@ == "coding"@,
            r@[4]@ == "makes"@,
    {
        let mut r: Vec<String> = Vec::new();
        r.push(String::from_str("practice"));
        r.push(String::from_str("makes"));
        r.push(String::from_str("perfect"));
        r.push(String::from_str("coding"));
        r.push(String::from_str("makes"));
        r
    }
}

/// A word with no entry among the index's keys never occurs in the source:
/// the index keeps an entry for every word of the source.
proof fn lemma_no_key_no_occurrence(sol: Solution, w: Seq<char>)
    requires
        sol.wf(),
        !has_key(sol.keys@, w),
    ensures
        !contains_word(sol@, w),
{
    if contains_word(sol@, w) {
        let i = choose|i: int| is_occurrence(sol@, w, i);
        assert(has_key(sol.keys@, sol.source@[i]));
    }
}

/// A value reached by some cross pair of the two complete occurrence lists
/// and undercutting every cross pair is the shortest distance.
proof fn lemma_merge_result(
    words: Seq<Seq<char>>,
    w1: Seq<char>,
    w2: Seq<char>,
    s1: Seq<usize>,
    s2: Seq<usize>,
    best: int,
)
    requires
        occurrence_list(words, w1, s1),
        occurrence_list(words, w2, s2),
        forall|a: int, b: int|
            #![trigger s1[a], s2[b]]
            0 <= a < s1.len() && 0 <= b < s2.len() ==> best <= abs_diff(s1[a] as int, s2[b] as int),
        exists|a: int, b: int|
            0 <= a < s1.len() && 0 <= b < s2.len() && abs_diff(s1[a] as int, s2[b] as int) == best,
    ensures
        is_shortest_distance(words, w1, w2, best),
{
    let (a0, b0) = choose|a: int, b: int|
        0 <= a < s1.len() && 0 <= b < s2.len() && abs_diff(s1[a] as int, s2[b] as int) == best;
    assert(is_occurrence(words, w1, s1[a0] as int));
    assert(is_occurrence(words, w2, s2[b0] as int));
    assert forall|i: int, j: int|
        is_occurrence(words, w1, i) && is_occurrence(words, w2, j) implies abs_diff(i, j)
        >= best by {
        let a = choose|a: int| 0 <= a < s1.len() && s1[a] as int == i;
        let b = choose|b: int| 0 <= b < s2.len() && s2[b] as int == j;
        assert(best <= abs_diff(s1[a] as int, s2[b] as int));
    }
}

/// Appending position `i` to the existing entry `k` for the word at position
/// `i` keeps every entry a complete ascending occurrence list, now up to
/// `i + 1`.
proof fn lemma_extend_existing(
    target: Seq<Seq<char>>,
    keys: Seq<String>,
    lists0: Seq<Vec<usize>>,
    lists1: Seq<Vec<usize>>,
    k: int,
    i: usize,
)
    requires
        i < target.len(),
        0 <= k < keys.len(),
        keys.len() == lists0.len(),
        lists1 == lists0.update(k, lists1[k]),
        lists1[k]@ == lists0[k]@.push(i),
        keys[k]@ == target[i as int],
        forall|a: int, b: int| 0 <= a < b < keys.len() ==> keys[a]@ != keys[b]@,
        forall|k2: int|
            0 <= k2 < keys.len() ==> occurrence_list_upto(
                target,
                keys[k2]@,
                #[trigger] lists0[k2]@,
                i as int,
            ),
    ensures
        lists1.len() == lists0.len(),
        forall|k2: int|
            0 <= k2 < keys.len() ==> occurrence_list_upto(
                target,
                keys[k2]@,
                #[trigger] lists1[k2]@,
                i + 1,
            ),
        forall|k2: int| 0 <= k2 < keys.len() && lists0[k2]@.len() > 0 ==> lists1[k2]@.len() > 0,
{
    assert forall|k2: int| 0 <= k2 < keys.len() implies occurrence_list_upto(
        target,
        keys[k2]@,
        #[trigger] lists1[k2]@,
        i + 1,
    ) by {
        if k2 == k {
            let p0 = lists0[k]@;
            let p1 = lists1[k]@;
            assert(p1 == p0.push(i));
            assert(is_occurrence(target, keys[k]@, i as int));
            assert forall|j: int| #[trigger]
                is_occurrence(target, keys[k]@, j) && j < i + 1 implies exists|a: int|
                0 <= a < p1.len() && p1[a] as int == j by {
                if j < i {
                    let a = choose|a: int| 0 <= a < p0.len() && p0[a] as int == j;
                    assert(p1[a] as int == j);
                } else {
                    assert(p1[p0.len() as int] as int == j);
                }
            }
        } else {
            assert(lists1[k2] == lists0[k2]);
            assert(occurrence_list_upto(target, keys[k2]@, lists0[k2]@, i as int));
            if k2 < k {
                assert(keys[k2]@ != keys[k]@);
            } else {
                assert(keys[k]@ != keys[k2]@);
            }
            assert forall|j: int| #[trigger]
                is_occurrence(target, keys[k2]@, j) && j < i + 1 implies exists|a: int|
                0 <= a < lists1[k2]@.len() && lists1[k2]@[a] as int == j by {
                assert(j != i);
                assert(is_occurrence(target, keys[k2]@, j) && j < i);
            }
        }
    }
}

/// Creating a fresh entry holding only position `i`, for a word at position
/// `i` that no existing entry covers and that does not occur earlier, keeps
/// every entry a complete ascending occurrence list up to `i + 1`.
proof fn lemma_extend_fresh(
    target: Seq<Seq<char>>,
    keys0: Seq<String>,
    keys1: Seq<String>,
    lists0: Seq<Vec<usize>>,
    lists1: Seq<Vec<usize>>,
    i: usize,
)
    requires
        i < target.len(),
        keys0.len() == lists0.len(),
        keys1.len() == keys0.len() + 1,
        lists1.len() == lists0.len() + 1,
        forall|k: int| 0 <= k < keys0.len() ==> keys1[k] == keys0[k],
        forall|k: int| 0 <= k < lists0.len() ==> lists1[k] == lists0[k],
        keys1[keys0.len() as int]@ == target[i as int],
        lists1[lists0.len() as int]@.len() == 1,
        lists1[lists0.len() as int]@[0] == i,
        forall|k: int| 0 <= k < lists0.len() ==> lists0[k]@.len() > 0,
        forall|k: int| 0 <= k < keys0.len() ==> keys0[k]@ != target[i as int],
        forall|a: int, b: int| 0 <= a < b < keys0.len() ==> keys0[a]@ != keys0[b]@,
        forall|k2: int|
            0 <= k2 < keys0.len() ==> occurrence_list_upto(
                target,
                keys0[k2]@,
                #[trigger] lists0[k2]@,
                i as int,
            ),
        forall|j: int| 0 <= j < i ==> has_key(keys0, #[trigger] target[j]),
    ensures
        forall|a: int, b: int| 0 <= a < b < keys1.len() ==> keys1[a]@ != keys1[b]@,
        forall|k2: int|
            0 <= k2 < keys1.len() ==> occurrence_list_upto(
                target,
                keys1[k2]@,
                #[trigger] lists1[k2]@,
                i + 1,
            ),
        forall|k2: int| 0 <= k2 < keys1.len() ==> lists1[k2]@.len() > 0,
        forall|j: int| 0 <= j <= i ==> has_key(keys1, #[trigger] target[j]),
{
    let n = keys0.len() as int;
    assert forall|k2: int| 0 <= k2 < keys1.len() implies occurrence_list_upto(
        target,
        keys1[k2]@,
        #[trigger] lists1[k2]@,
        i + 1,
    ) by {
        if k2 < n {
            assert(occurrence_list_upto(target, keys0[k2]@, lists0[k2]@, i as int));
            assert forall|j: int| #[trigger]
                is_occurrence(target, keys1[k2]@, j) && j < i + 1 implies exists|a: int|
                0 <= a < lists1[k2]@.len() && lists1[k2]@[a] as int == j by {
                assert(keys1[k2]@ != target[i as int]);
                assert(j != i);
            }
        } else {
            let p = lists1[k2]@;
            assert(p.len() == 1 && p[0] == i);
            assert(is_occurrence(target, keys1[k2]@, i as int));
            assert forall|j: int| #[trigger]
                is_occurrence(target, keys1[k2]@, j) && j < i + 1 implies exists|a: int|
                0 <= a < p.len() && p[a] as int == j by {
                if j < i {
                    assert(has_key(keys0, target[j]));
                    let k3 = choose|k3: int| 0 <= k3 < keys0.len() && keys0[k3]@ == target[j];
                    assert(keys0[k3]@ == target[i as int]);
                    assert(false);
                } else {
                    assert(p[0] as int == j);
                }
            }
        }
    }
    assert forall|j: int| 0 <= j <= i implies has_key(keys1, #[trigger] target[j]) by {
        if j < i {
            let k = choose|k: int| 0 <= k < keys0.len() && keys0[k]@ == target[j];
            assert(keys1[k]@ == target[j]);
        } else {
            assert(keys1[n]@ == target[j]);
        }
    }
}

/// Index of the entry of `keys` whose key equals `word`, if one exists.
fn find_key(keys: &Vec<String>, word: &String) -> (r: Option<usize>)
    ensures
        match r {
            Some(k) => k < keys@.len() && keys@[k as int]@ == word@,
            None => forall|k: int| 0 <= k < keys@.len() ==> keys@[k]@ != word@,
        },
{
    let mut k: usize = 0;
    while k < keys.len()
        invariant
            k <= keys@.len(),
            forall|a: int| 0 <= a < k ==> keys@[a]@ != word@,
        decreases keys@.len() - k,
    {
        if keys[k].eq(word) {
            return Some(k);
        }
        k += 1;
    }
    None
}

} // verus!
