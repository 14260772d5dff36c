//! Choosing the first position of a maximum among order keys.

use vstd::prelude::*;

verus! {

/// `r` is the position that a left-to-right scan from `start` keeps when it
/// replaces its candidate only by a strictly greater key: the first position
/// at or after `start` whose key is the largest of `keys[start..]`.
pub open spec fn is_first_max_from(keys: Seq<u64>, start: int, r: int) -> bool {
    &&& start <= r < keys.len()
    &&& forall|i: int| start <= i < keys.len() ==> keys[i] <= keys[r]
    &&& forall|i: int| start <= i < r ==> keys[i] < keys[r]
}

/// The position kept by a scan over `keys[start..]` that starts with `start`
/// as its candidate and moves to a later position only when that key is
/// strictly greater than the candidate's. Where nothing follows `start`, the
/// scan keeps `start` itself.
pub fn first_max_index(keys: &Vec<u64>, start: usize) -> (r: usize)
    ensures
        start < keys.len() ==> is_first_max_from(keys@, start as int, r as int),
        start < keys.len() ==> start <= r < keys.len(),
        start < keys.len() ==> forall|i: int|
            start <= i < keys.len() ==> keys@[i] <= keys@[r as int],
        start < keys.len() ==> forall|i: int| start <= i < r ==> keys@[i] < keys@[r as int],
        start >= keys.len() ==> r == start,
{
    if start >= keys.len() {
        return start;
    }
    let mut best: usize = start;
    let mut i: usize = start + 1;
    while i < keys.len()
        invariant
            start < keys.len(),
            start < i <= keys.len(),
            start <= best < i,
            forall|j: int| start <= j < i ==> keys@[j] <= keys@[best as int],
            forall|j: int| start <= j < best ==> keys@[j] < keys@[best as int],
        decreases keys.len() - i,
    {
        if keys[i] > keys[best] {
            best = i;
        }
        i = i + 1;
    }
    best
}

/// A first maximum lies in the scanned suffix `keys[start..]`, including its
/// last position, its key is at least every key there, and every position
/// before it in the suffix has a strictly smaller key.
pub proof fn lemma_first_max_is_maximum(keys: Seq<u64>, start: int, r: int)
    requires
        is_first_max_from(keys, start, r),
    ensures
        start <= r < keys.len(),
        keys[start] <= keys[r],
        keys[keys.len() - 1] <= keys[r],
        forall|i: int| start <= i < keys.len() ==> keys[i] <= keys[r],
        forall|i: int| start <= i < r ==> keys[i] < keys[r],
{
}

/// The first maximum of a suffix is unique: two positions in `keys[start..]`
/// whose keys are both at least every key of the suffix, each preceded in the
/// suffix only by smaller keys, are the same position.
pub proof fn lemma_first_max_unique(keys: Seq<u64>, start: int, r1: int, r2: int)
    requires
        start <= r1 < keys.len(),
        start <= r2 < keys.len(),
        forall|i: int| start <= i < keys.len() ==> keys[i] <= keys[r1],
        forall|i: int| start <= i < keys.len() ==> keys[i] <= keys[r2],
        forall|i: int| start <= i < r1 ==> keys[i] < keys[r1],
        forall|i: int| start <= i < r2 ==> keys[i] < keys[r2],
    ensures
        r1 == r2,
{
    if r1 < r2 {
        assert(keys[r1] < keys[r2]);
        assert(keys[r2] <= keys[r1]);
    } else if r2 < r1 {
        assert(keys[r2] < keys[r1]);
        assert(keys[r1] <= keys[r2]);
    }
}

/// Raising a key in the suffix to above all others moves the first maximum
/// there: if position `j` of the suffix has a key strictly greater than every
/// other key of the suffix, it is the first maximum.
pub proof fn lemma_first_max_strict_winner(keys: Seq<u64>, start: int, j: int, r: int)
    requires
        is_first_max_from(keys, start, r),
        start <= j < keys.len(),
        forall|i: int| start <= i < keys.len() && i != j ==> keys[i] < keys[j],
    ensures
        r == j,
{
    if r != j {
        assert(keys[r] < keys[j]);
        assert(keys[j] <= keys[r]);
    }
}

} // verus!
