//! Sequences of integer keys in strictly ascending order, and the place
//! where a key stands in one.

use vstd::prelude::*;

verus! {

/// The keys are strictly ascending.
pub open spec fn ascending(keys: Seq<int>) -> bool {
    forall|i: int, j: int| 0 <= i < j < keys.len() ==> #[trigger] keys[i] < #[trigger] keys[j]
}

/// The number of keys below `k`: the place where `k` stands, or would
/// stand, among ascending keys.
pub open spec fn rank(keys: Seq<int>, k: int) -> int
    decreases keys.len(),
{
    if keys.len() == 0 {
        0
    } else {
        rank(keys.drop_last(), k) + if keys.last() < k {
            1int
        } else {
            0int
        }
    }
}

/// A place that parts the keys below `k` from the others is the rank of
/// `k`.
pub proof fn lemma_rank(keys: Seq<int>, k: int, i: int)
    requires
        0 <= i <= keys.len(),
        forall|j: int| 0 <= j < i ==> #[trigger] keys[j] < k,
        forall|j: int| i <= j < keys.len() ==> #[trigger] keys[j] >= k,
    ensures
        rank(keys, k) == i,
    decreases keys.len(),
{
    if keys.len() > 0 {
        let rest = keys.drop_last();
        assert forall|j: int| 0 <= j < rest.len() implies rest[j] == keys[j] by {}
        if i == keys.len() {
            assert(keys[keys.len() - 1] < k);
            lemma_rank(rest, k, i - 1);
        } else {
            assert(keys[keys.len() - 1] >= k);
            lemma_rank(rest, k, i);
        }
    }
}

/// Among ascending keys, those below `k` are exactly the ones at the
/// places below its rank.
pub proof fn lemma_rank_parts(keys: Seq<int>, k: int)
    requires
        ascending(keys),
    ensures
        0 <= rank(keys, k) <= keys.len(),
        forall|j: int| 0 <= j < rank(keys, k) ==> #[trigger] keys[j] < k,
        forall|j: int| rank(keys, k) <= j < keys.len() ==> #[trigger] keys[j] >= k,
    decreases keys.len(),
{
    if keys.len() > 0 {
        let rest = keys.drop_last();
        let last = keys.len() - 1;
        assert forall|j: int| 0 <= j < rest.len() implies rest[j] == keys[j] by {}
        assert(ascending(rest)) by {
            assert forall|i: int, j: int| 0 <= i < j < rest.len() implies #[trigger] rest[i]
                < #[trigger] rest[j] by {
                assert(rest[i] == keys[i] && rest[j] == keys[j]);
            }
        }
        lemma_rank_parts(rest, k);
        if keys[last] < k {
            assert forall|j: int| 0 <= j < last implies #[trigger] keys[j] < k by {
                assert(keys[j] < keys[last]);
            }
            if rank(rest, k) < last {
                assert(rest[rank(rest, k)] >= k);
            }
        }
    }
}

/// A key that is not there, put at its rank, leaves the keys ascending.
pub proof fn lemma_insert_ascending(keys: Seq<int>, k: int)
    requires
        ascending(keys),
        !keys.contains(k),
    ensures
        ascending(keys.insert(rank(keys, k), k)),
{
    let r = rank(keys, k);
    lemma_rank_parts(keys, k);
    let after = keys.insert(r, k);
    assert forall|i: int, j: int| 0 <= i < j < after.len() implies #[trigger] after[i]
        < #[trigger] after[j] by {
        if j < r {
            assert(after[i] == keys[i] && after[j] == keys[j]);
        } else if j == r {
            assert(after[i] == keys[i]);
        } else if i == r {
            assert(after[j] == keys[j - 1]);
            assert(keys.contains(keys[j - 1]));
        } else if i < r {
            assert(after[i] == keys[i] && after[j] == keys[j - 1]);
        } else {
            assert(after[i] == keys[i - 1] && after[j] == keys[j - 1]);
        }
    }
}

/// Keys of which each is below the next are ascending.
pub proof fn lemma_neighbours_ascending(keys: Seq<int>)
    requires
        forall|i: int| 0 <= i < keys.len() - 1 ==> #[trigger] keys[i] < keys[i + 1],
    ensures
        ascending(keys),
{
    assert forall|i: int, j: int| 0 <= i < j < keys.len() implies #[trigger] keys[i]
        < #[trigger] keys[j] by {
        lemma_neighbours_step(keys, i, j);
    }
}

/// Among keys of which each is below the next, each is below all that
/// follow.
pub proof fn lemma_neighbours_step(keys: Seq<int>, i: int, j: int)
    requires
        forall|k: int| 0 <= k < keys.len() - 1 ==> #[trigger] keys[k] < keys[k + 1],
        0 <= i < j < keys.len(),
    ensures
        keys[i] < keys[j],
    decreases j - i,
{
    if i + 1 < j {
        lemma_neighbours_step(keys, i, j - 1);
        assert(keys[j - 1] < keys[j - 1 + 1]);
    } else {
        assert(keys[i] < keys[i + 1]);
    }
}

/// Among ascending keys, a key stands at one place only, which is its
/// rank.
pub proof fn lemma_rank_of_member(keys: Seq<int>, i: int)
    requires
        ascending(keys),
        0 <= i < keys.len(),
    ensures
        rank(keys, keys[i]) == i,
        keys.index_of(keys[i]) == i,
        keys.contains(keys[i]),
{
    assert forall|j: int| 0 <= j < i implies #[trigger] keys[j] < keys[i] by {}
    assert forall|j: int| i <= j < keys.len() implies #[trigger] keys[j] >= keys[i] by {
        if i < j {
            assert(keys[i] < keys[j]);
        }
    }
    lemma_rank(keys, keys[i], i);
    let w = keys.index_of(keys[i]);
    if w < i {
        assert(keys[w] < keys[i]);
    } else if i < w {
        assert(keys[i] < keys[w]);
    }
}

} // verus!
