//! First hits and counts.

use vstd::prelude::*;

verus! {

/// The first index that is true.
pub open spec fn first_true(hits: Seq<bool>) -> Option<int>
    decreases hits.len(),
{
    if hits.len() == 0 {
        None
    } else {
        match first_true(hits.drop_last()) {
            Some(i) => Some(i),
            None => if hits.last() {
                Some(hits.len() - 1)
            } else {
                None
            },
        }
    }
}

/// How many are true.
pub open spec fn count_true(hits: Seq<bool>) -> nat
    decreases hits.len(),
{
    if hits.len() == 0 {
        0
    } else {
        count_true(hits.drop_last()) + if hits.last() {
            1nat
        } else {
            0nat
        }
    }
}

/// The first index that is true is true, and none before it is; where there is none, none is.
pub proof fn lemma_first_true(hits: Seq<bool>)
    ensures
        match first_true(hits) {
            Some(i) => {
                &&& 0 <= i < hits.len()
                &&& hits[i]
                &&& forall|j: int| 0 <= j < i ==> !#[trigger] hits[j]
            },
            None => forall|j: int| 0 <= j < hits.len() ==> !#[trigger] hits[j],
        },
    decreases hits.len(),
{
    if hits.len() > 0 {
        let rest = hits.drop_last();
        lemma_first_true(rest);
        match first_true(rest) {
            Some(i) => {
                assert(hits[i] == rest[i]);
                assert forall|j: int| 0 <= j < i implies !#[trigger] hits[j] by {
                    assert(hits[j] == rest[j]);
                }
            },
            None => {
                assert forall|j: int| 0 <= j < rest.len() implies !#[trigger] hits[j] by {
                    assert(hits[j] == rest[j]);
                }
            },
        }
    }
}

/// An index that is true with none before it is the first.
pub proof fn lemma_first_true_is(hits: Seq<bool>, i: int)
    requires
        0 <= i < hits.len(),
        hits[i],
        forall|j: int| 0 <= j < i ==> !#[trigger] hits[j],
    ensures
        first_true(hits) == Some(i),
{
    lemma_first_true(hits);
}

/// Where none is true, there is no first.
pub proof fn lemma_first_true_none(hits: Seq<bool>)
    requires
        forall|j: int| 0 <= j < hits.len() ==> !#[trigger] hits[j],
    ensures
        first_true(hits) is None,
        count_true(hits) == 0,
    decreases hits.len(),
{
    if hits.len() > 0 {
        let rest = hits.drop_last();
        assert forall|j: int| 0 <= j < rest.len() implies !#[trigger] rest[j] by {
            assert(rest[j] == hits[j]);
        }
        lemma_first_true_none(rest);
        assert(!hits[hits.len() - 1]);
    }
}

/// Changing one changes the count by it.
pub proof fn lemma_count_update(hits: Seq<bool>, i: int, value: bool)
    requires
        0 <= i < hits.len(),
    ensures
        count_true(hits.update(i, value)) + (if hits[i] { 1nat } else { 0nat }) == count_true(hits)
            + (if value { 1nat } else { 0nat }),
    decreases hits.len(),
{
    let new = hits.update(i, value);
    if i == hits.len() - 1 {
        assert(new.drop_last() =~= hits.drop_last());
    } else {
        assert(new.drop_last() =~= hits.drop_last().update(i, value));
        lemma_count_update(hits.drop_last(), i, value);
    }
}

/// No more can be true than there are; where fewer are, one is not.
pub proof fn lemma_count_bound(hits: Seq<bool>)
    ensures
        count_true(hits) <= hits.len(),
        count_true(hits) < hits.len() ==> exists|i: int| 0 <= i < hits.len() && !#[trigger] hits[i],
    decreases hits.len(),
{
    if hits.len() > 0 {
        let rest = hits.drop_last();
        lemma_count_bound(rest);
        if count_true(rest) < rest.len() {
            let i = choose|i: int| 0 <= i < rest.len() && !#[trigger] rest[i];
            assert(!hits[i]);
        } else if !hits.last() {
            assert(!hits[hits.len() - 1]);
        }
    }
}

/// Where one is true, the count is positive.
pub proof fn lemma_count_positive(hits: Seq<bool>, i: int)
    requires
        0 <= i < hits.len(),
        hits[i],
    ensures
        count_true(hits) > 0,
{
    lemma_count_update(hits, i, false);
}

} // verus!
