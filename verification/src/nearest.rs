//! Choosing the shortest or the longest of several vectors.
//!
//! A vector is known here by its place in a list and by a length key: an
//! integer that grows with the vector's length. An absent key marks a place
//! that offers no candidate. Among equal keys the earliest place wins.

use vstd::prelude::*;

verus! {

/// No place of `keys` offers a candidate.
pub open spec fn none_present(keys: Seq<Option<u32>>) -> bool {
    forall|j: int| 0 <= j < keys.len() ==> (#[trigger] keys[j]) is None
}

/// Place `i` offers a candidate, no candidate has a smaller key, and every
/// candidate before `i` has a larger one.
pub open spec fn is_nearest(keys: Seq<Option<u32>>, i: int) -> bool {
    &&& 0 <= i < keys.len()
    &&& keys[i] is Some
    &&& forall|j: int|
        0 <= j < keys.len() && (#[trigger] keys[j]) is Some ==> keys[i]->0 <= keys[j]->0
    &&& forall|j: int| 0 <= j < i && (#[trigger] keys[j]) is Some ==> keys[i]->0 < keys[j]->0
}

/// The place that [`nearest`] picks: the first one holding the least key.
pub open spec fn nearest_of(keys: Seq<Option<u32>>) -> Option<int> {
    if exists|i: int| is_nearest(keys, i) {
        Some(choose|i: int| is_nearest(keys, i))
    } else {
        None
    }
}

/// At most one place is the nearest.
pub proof fn lemma_nearest_unique(keys: Seq<Option<u32>>, i: int, j: int)
    requires
        is_nearest(keys, i),
        is_nearest(keys, j),
    ensures
        i == j,
{
    if i < j {
        assert(keys[i] is Some);
        assert(keys[j]->0 < keys[i]->0);
        assert(keys[i]->0 <= keys[j]->0);
    } else if j < i {
        assert(keys[j] is Some);
        assert(keys[i]->0 < keys[j]->0);
        assert(keys[j]->0 <= keys[i]->0);
    }
}

/// A place is the nearest exactly when `nearest_of` names it.
pub proof fn lemma_nearest_of(keys: Seq<Option<u32>>, i: int)
    ensures
        is_nearest(keys, i) <==> nearest_of(keys) == Some(i),
        nearest_of(keys) is None <==> none_present(keys),
{
    if is_nearest(keys, i) {
        let c = choose|c: int| is_nearest(keys, c);
        lemma_nearest_unique(keys, i, c);
    }
    if exists|c: int| is_nearest(keys, c) {
        let c = choose|c: int| is_nearest(keys, c);
        assert(keys[c] is Some);
    } else {
        if !none_present(keys) {
            let j = choose|j: int| 0 <= j < keys.len() && !((#[trigger] keys[j]) is None);
            lemma_nearest_exists(keys, j);
        }
    }
}

/// Where some place offers a candidate, some place is the nearest.
pub proof fn lemma_nearest_exists(keys: Seq<Option<u32>>, j: int)
    requires
        0 <= j < keys.len(),
        keys[j] is Some,
    ensures
        exists|i: int| is_nearest(keys, i),
    decreases keys.len(),
{
    let init = keys.drop_last();
    let last = keys.len() - 1;
    if exists|k: int| 0 <= k < last && (#[trigger] keys[k]) is Some {
        let k = choose|k: int| 0 <= k < last && (#[trigger] keys[k]) is Some;
        assert(init[k] is Some);
        lemma_nearest_exists(init, k);
        let b = choose|b: int| is_nearest(init, b);
        assert(keys[b] == init[b]);
        assert forall|m: int| 0 <= m < last implies keys[m] == init[m] by {}
        if keys[last] is Some && keys[last]->0 < keys[b]->0 {
            assert forall|m: int| 0 <= m < keys.len() && (#[trigger] keys[m]) is Some implies keys[last]->0
                <= keys[m]->0 by {
                if m < last {
                    assert(init[m] is Some);
                }
            }
            assert forall|m: int| 0 <= m < last && (#[trigger] keys[m]) is Some implies keys[last]->0
                < keys[m]->0 by {
                assert(init[m] is Some);
            }
            assert(is_nearest(keys, last));
        } else {
            assert forall|m: int| 0 <= m < keys.len() && (#[trigger] keys[m]) is Some implies keys[b]->0
                <= keys[m]->0 by {
                if m < last {
                    assert(init[m] is Some);
                }
            }
            assert forall|m: int| 0 <= m < b && (#[trigger] keys[m]) is Some implies keys[b]->0
                < keys[m]->0 by {
                assert(init[m] is Some);
            }
            assert(is_nearest(keys, b));
        }
    } else {
        assert(j == last);
        assert(is_nearest(keys, last));
    }
}

/// The nearest place of two lists put end to end is the nearest of the first
/// list, unless the second list holds a strictly smaller key.
pub proof fn lemma_nearest_concat(first: Seq<Option<u32>>, second: Seq<Option<u32>>)
    ensures
        nearest_of(first + second) == (match (nearest_of(first), nearest_of(second)) {
            (Some(i), Some(j)) => if first[i]->0 <= second[j]->0 {
                Some(i)
            } else {
                Some(first.len() + j)
            },
            (Some(i), None) => Some(i),
            (None, Some(j)) => Some(first.len() + j),
            (None, None) => None,
        }),
{
    let both = first + second;
    lemma_nearest_of(first, 0);
    lemma_nearest_of(second, 0);
    lemma_nearest_of(both, 0);
    if nearest_of(first) is Some {
        let i = nearest_of(first)->0;
        lemma_nearest_of(first, i);
        assert(both[i] == first[i]);
    }
    if nearest_of(second) is Some {
        let j = nearest_of(second)->0;
        lemma_nearest_of(second, j);
        assert(both[first.len() + j] == second[j]);
    }
    let takes_first = nearest_of(first) is Some && (nearest_of(second) is None || first[nearest_of(
        first,
    )->0]->0 <= second[nearest_of(second)->0]->0);
    if takes_first {
        let i = nearest_of(first)->0;
        assert forall|m: int| 0 <= m < both.len() && (#[trigger] both[m]) is Some implies both[i]->0
            <= both[m]->0 by {
            if m < first.len() {
                assert(first[m] is Some);
            } else {
                assert(second[m - first.len()] is Some);
            }
        }
        assert forall|m: int| 0 <= m < i && (#[trigger] both[m]) is Some implies both[i]->0
            < both[m]->0 by {
            assert(first[m] is Some);
        }
        assert(is_nearest(both, i));
        lemma_nearest_of(both, i);
    } else if nearest_of(second) is Some {
        let j = nearest_of(second)->0;
        let k = first.len() + j;
        assert forall|m: int| 0 <= m < both.len() && (#[trigger] both[m]) is Some implies both[k]->0
            <= both[m]->0 by {
            if m < first.len() {
                assert(first[m] is Some);
            } else {
                assert(second[m - first.len()] is Some);
            }
        }
        assert forall|m: int| 0 <= m < k && (#[trigger] both[m]) is Some implies both[k]->0
            < both[m]->0 by {
            if m < first.len() {
                assert(first[m] is Some);
            } else {
                assert(second[m - first.len()] is Some);
            }
        }
        assert(is_nearest(both, k));
        lemma_nearest_of(both, k);
    } else {
        assert forall|m: int| 0 <= m < both.len() implies (#[trigger] both[m]) is None by {
            if m < first.len() {
                assert(first[m] is None);
            } else {
                assert(second[m - first.len()] is None);
            }
        }
    }
}

/// The first place that holds the least key, or nothing where no place holds
/// a key.
pub fn nearest(keys: &Vec<Option<u32>>) -> (place: Option<usize>)
    ensures
        place is None <==> none_present(keys@),
        place matches Some(i) ==> is_nearest(keys@, i as int),
        (match place {
            Some(i) => Some(i as int),
            None => None,
        }) == nearest_of(keys@),
{
    let mut best: Option<usize> = None;
    let mut i: usize = 0;
    while i < keys.len()
        invariant
            i <= keys.len(),
            best is None <==> none_present(keys@.take(i as int)),
            best matches Some(b) ==> is_nearest(keys@.take(i as int), b as int),
        decreases keys.len() - i,
    {
        let ghost before = keys@.take(i as int);
        let ghost after = keys@.take(i as int + 1);
        proof {
            assert forall|m: int| 0 <= m < i implies before[m] == #[trigger] after[m] by {}
            assert(after[i as int] == keys@[i as int]);
        }
        match keys[i] {
            Some(key) => {
                let closer = match best {
                    Some(b) => {
                        match keys[b] {
                            Some(held) => key < held,
                            None => true,
                        }
                    },
                    None => true,
                };
                if closer {
                    proof {
                        assert forall|m: int|
                            0 <= m < i && (#[trigger] after[m]) is Some implies key < after[m]->0 by {
                            assert(before[m] is Some);
                        }
                    }
                    best = Some(i);
                } else {
                    proof {
                        let b = best->0 as int;
                        assert(after[b] == before[b]);
                        assert forall|m: int|
                            0 <= m < after.len() && (#[trigger] after[m]) is Some implies after[b]->0
                                <= after[m]->0 by {
                            if m < i {
                                assert(before[m] is Some);
                            }
                        }
                        assert forall|m: int|
                            0 <= m < b && (#[trigger] after[m]) is Some implies after[b]->0
                                < after[m]->0 by {
                            assert(before[m] is Some);
                        }
                    }
                }
                proof {
                    assert(after[i as int] is Some);
                }
            },
            None => {
                proof {
                    if best is Some {
                        let b = best->0 as int;
                        assert(after[b] == before[b]);
                        assert forall|m: int|
                            0 <= m < after.len() && (#[trigger] after[m]) is Some implies after[b]->0
                                <= after[m]->0 by {
                            if m < i {
                                assert(before[m] is Some);
                            }
                        }
                        assert forall|m: int|
                            0 <= m < b && (#[trigger] after[m]) is Some implies after[b]->0
                                < after[m]->0 by {
                            assert(before[m] is Some);
                        }
                    } else {
                        assert forall|m: int| 0 <= m < after.len() implies (#[trigger] after[m]) is None by {
                            if m < i {
                                assert(before[m] is None);
                            }
                        }
                    }
                }
            },
        }
        i += 1;
    }
    proof {
        assert(keys@.take(keys.len() as int) =~= keys@);
        if best is Some {
            lemma_nearest_of(keys@, best->0 as int);
        } else {
            lemma_nearest_of(keys@, 0);
        }
    }
    best
}

/// Place `i` holds the largest key, and every place before it a smaller
/// one.
pub open spec fn is_farthest(keys: Seq<u32>, i: int) -> bool {
    &&& 0 <= i < keys.len()
    &&& forall|j: int| 0 <= j < keys.len() ==> (#[trigger] keys[j]) <= keys[i]
    &&& forall|j: int| 0 <= j < i ==> (#[trigger] keys[j]) < keys[i]
}

/// At most one place is the farthest.
pub proof fn lemma_farthest_unique(keys: Seq<u32>, i: int, j: int)
    requires
        is_farthest(keys, i),
        is_farthest(keys, j),
    ensures
        i == j,
{
    if i < j {
        assert(keys[i] < keys[j]);
        assert(keys[j] <= keys[i]);
    } else if j < i {
        assert(keys[j] < keys[i]);
        assert(keys[i] <= keys[j]);
    }
}

/// The first place that holds the largest key, or nothing where there is no
/// key. The bounding radius of a shape is the distance of its farthest
/// vertex from the centroid.
pub fn farthest(keys: &Vec<u32>) -> (place: Option<usize>)
    ensures
        place is None <==> keys@.len() == 0,
        place matches Some(i) ==> is_farthest(keys@, i as int),
{
    if keys.len() == 0 {
        return None;
    }
    let mut best: usize = 0;
    let mut i: usize = 1;
    while i < keys.len()
        invariant
            1 <= i <= keys@.len(),
            best < i,
            forall|j: int| 0 <= j < i ==> (#[trigger] keys@[j]) <= keys@[best as int],
            forall|j: int| 0 <= j < best ==> (#[trigger] keys@[j]) < keys@[best as int],
        decreases keys@.len() - i,
    {
        if keys[i] > keys[best] {
            best = i;
        }
        i += 1;
    }
    Some(best)
}

} // verus!
