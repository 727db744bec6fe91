//! First-maximum selection: every tie in the simulation (plurality of a
//! belief vector, movement target, consensus mode) resolves to the lowest
//! index attaining the maximum.

use vstd::prelude::*;

verus! {

/// `i` is the first index of `s` attaining the maximal value.
pub open spec fn is_first_max(s: Seq<int>, i: int) -> bool {
    &&& 0 <= i < s.len()
    &&& forall|j: int| 0 <= j < s.len() ==> s[j] <= s[i]
    &&& forall|j: int| 0 <= j < i ==> s[j] < s[i]
}

/// The first index of `s` attaining the maximal value, as a function.
pub open spec fn first_max_idx(s: Seq<int>) -> int
    decreases s.len(),
{
    if s.len() <= 1 {
        0
    } else {
        let p = first_max_idx(s.drop_last());
        if s.last() > s[p] {
            s.len() - 1
        } else {
            p
        }
    }
}

pub proof fn lemma_first_max_idx_is_first_max(s: Seq<int>)
    requires
        s.len() > 0,
    ensures
        is_first_max(s, first_max_idx(s)),
    decreases s.len(),
{
    if s.len() > 1 {
        lemma_first_max_idx_is_first_max(s.drop_last());
        assert forall|j: int| 0 <= j < s.len() - 1 implies s[j] == s.drop_last()[j] by {}
    }
}

/// There is only one first index attaining the maximum.
pub proof fn lemma_first_max_unique(s: Seq<int>, i: int, j: int)
    requires
        is_first_max(s, i),
        is_first_max(s, j),
    ensures
        i == j,
{
    if i < j {
        assert(s[i] < s[j]);
        assert(s[j] <= s[i]);
    } else if j < i {
        assert(s[j] < s[i]);
        assert(s[i] <= s[j]);
    }
}

/// `i` is the first index of `s` attaining the minimal value.
pub open spec fn is_first_min(s: Seq<int>, i: int) -> bool {
    &&& 0 <= i < s.len()
    &&& forall|j: int| 0 <= j < s.len() ==> s[i] <= s[j]
    &&& forall|j: int| 0 <= j < i ==> s[i] < s[j]
}

/// The first index of `s` attaining the minimal value, as a function.
pub open spec fn first_min_idx(s: Seq<int>) -> int
    decreases s.len(),
{
    if s.len() <= 1 {
        0
    } else {
        let p = first_min_idx(s.drop_last());
        if s.last() < s[p] {
            s.len() - 1
        } else {
            p
        }
    }
}

pub proof fn lemma_first_min_idx_is_first_min(s: Seq<int>)
    requires
        s.len() > 0,
    ensures
        is_first_min(s, first_min_idx(s)),
    decreases s.len(),
{
    if s.len() > 1 {
        lemma_first_min_idx_is_first_min(s.drop_last());
        assert forall|j: int| 0 <= j < s.len() - 1 implies s[j] == s.drop_last()[j] by {}
    }
}

/// There is only one first index attaining the minimum.
pub proof fn lemma_first_min_unique(s: Seq<int>, i: int, j: int)
    requires
        is_first_min(s, i),
        is_first_min(s, j),
    ensures
        i == j,
{
    if i < j {
        assert(s[j] < s[i]);
        assert(s[i] <= s[j]);
    } else if j < i {
        assert(s[i] < s[j]);
        assert(s[j] <= s[i]);
    }
}

/// View of a vector of unsigned slots as a sequence of integers.
pub open spec fn ints_of_u64(s: Seq<u64>) -> Seq<int> {
    s.map_values(|v: u64| v as int)
}

/// View of a vector of signed scores as a sequence of integers.
pub open spec fn ints_of_i64(s: Seq<i64>) -> Seq<int> {
    s.map_values(|v: i64| v as int)
}

/// Index of the first maximal entry of `v` (lowest index wins ties).
pub fn first_max_index_u64(v: &Vec<u64>) -> (r: usize)
    requires
        v@.len() > 0,
    ensures
        r == first_max_idx(ints_of_u64(v@)),
        is_first_max(ints_of_u64(v@), r as int),
{
    let ghost s = ints_of_u64(v@);
    let mut best: usize = 0;
    let mut i: usize = 1;
    while i < v.len()
        invariant
            0 < i <= v@.len(),
            best < i,
            forall|j: int| 0 <= j < i ==> s[j] <= s[best as int],
            forall|j: int| 0 <= j < best ==> s[j] < s[best as int],
            s =~= ints_of_u64(v@),
        decreases v@.len() - i,
    {
        if v[i] > v[best] {
            best = i;
        }
        i = i + 1;
    }
    proof {
        lemma_first_max_idx_is_first_max(s);
        lemma_first_max_unique(s, best as int, first_max_idx(s));
    }
    best
}

/// Index of the first minimal entry of `v` (lowest index wins ties).
pub fn first_min_index_u64(v: &Vec<u64>) -> (r: usize)
    requires
        v@.len() > 0,
    ensures
        r == first_min_idx(ints_of_u64(v@)),
        is_first_min(ints_of_u64(v@), r as int),
{
    let ghost s = ints_of_u64(v@);
    let mut best: usize = 0;
    let mut i: usize = 1;
    while i < v.len()
        invariant
            0 < i <= v@.len(),
            best < i,
            forall|j: int| 0 <= j < i ==> s[best as int] <= s[j],
            forall|j: int| 0 <= j < best ==> s[best as int] < s[j],
            s =~= ints_of_u64(v@),
        decreases v@.len() - i,
    {
        if v[i] < v[best] {
            best = i;
        }
        i = i + 1;
    }
    proof {
        lemma_first_min_idx_is_first_min(s);
        lemma_first_min_unique(s, best as int, first_min_idx(s));
    }
    best
}

/// Index of the first maximal entry of `v` (lowest index wins ties).
pub fn first_max_index_i64(v: &Vec<i64>) -> (r: usize)
    requires
        v@.len() > 0,
    ensures
        r == first_max_idx(ints_of_i64(v@)),
        is_first_max(ints_of_i64(v@), r as int),
{
    let ghost s = ints_of_i64(v@);
    let mut best: usize = 0;
    let mut i: usize = 1;
    while i < v.len()
        invariant
            0 < i <= v@.len(),
            best < i,
            forall|j: int| 0 <= j < i ==> s[j] <= s[best as int],
            forall|j: int| 0 <= j < best ==> s[j] < s[best as int],
            s =~= ints_of_i64(v@),
        decreases v@.len() - i,
    {
        if v[i] > v[best] {
            best = i;
        }
        i = i + 1;
    }
    proof {
        lemma_first_max_idx_is_first_max(s);
        lemma_first_max_unique(s, best as int, first_max_idx(s));
    }
    best
}

} // verus!
