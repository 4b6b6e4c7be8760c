//! Subsequences, and how filtering a sequence yields one.

use vstd::prelude::*;

verus! {

/// The positions `at` read `part` out of `whole` from left to right: each is
/// a position of `whole` that holds the item of `part` it stands for, and
/// they grow strictly.
pub open spec fn picks<T>(at: Seq<int>, part: Seq<T>, whole: Seq<T>) -> bool {
    &&& at.len() == part.len()
    &&& forall|i: int|
        0 <= i < at.len() ==> 0 <= #[trigger] at[i] < whole.len() && whole[at[i]] == part[i]
    &&& forall|i: int, j: int| 0 <= i < j < at.len() ==> at[i] < at[j]
}

/// `part` is what is left of `whole` when some of its items are taken out:
/// the same items, in the same order.
pub open spec fn is_subsequence<T>(part: Seq<T>, whole: Seq<T>) -> bool {
    exists|at: Seq<int>| picks(at, part, whole)
}

/// Filtering keeps a subsequence.
pub proof fn lemma_filter_is_subsequence<T>(whole: Seq<T>, keep: spec_fn(T) -> bool)
    ensures
        is_subsequence(whole.filter(keep), whole),
    decreases whole.len(),
{
    reveal(Seq::filter);
    if whole.len() == 0 {
        assert(picks(Seq::<int>::empty(), whole.filter(keep), whole));
    } else {
        let front = whole.drop_last();
        lemma_filter_is_subsequence(front, keep);
        let at: Seq<int> = choose|at: Seq<int>| picks(at, front.filter(keep), front);
        if keep(whole.last()) {
            let longer = at.push(whole.len() - 1);
            assert forall|i: int| 0 <= i < longer.len() implies 0 <= #[trigger] longer[i]
                < whole.len() && whole[longer[i]] == whole.filter(keep)[i] by {
                if i < at.len() {
                    assert(longer[i] == at[i]);
                    assert(front[at[i]] == whole[at[i]]);
                }
            }
            assert forall|i: int, j: int| 0 <= i < j < longer.len() implies longer[i]
                < longer[j] by {
                assert(longer[i] == at[i]);
                if j < at.len() {
                    assert(longer[j] == at[j]);
                }
            }
            assert(picks(longer, whole.filter(keep), whole));
        } else {
            assert forall|i: int| 0 <= i < at.len() implies 0 <= #[trigger] at[i] < whole.len()
                && whole[at[i]] == whole.filter(keep)[i] by {
                assert(front[at[i]] == whole[at[i]]);
            }
            assert(picks(at, whole.filter(keep), whole));
        }
    }
}

/// A filter that keeps every item of a sequence leaves the sequence as it is.
pub proof fn lemma_filter_keeps_all<T>(whole: Seq<T>, keep: spec_fn(T) -> bool)
    requires
        forall|i: int| 0 <= i < whole.len() ==> keep(#[trigger] whole[i]),
    ensures
        whole.filter(keep) == whole,
    decreases whole.len(),
{
    reveal(Seq::filter);
    if whole.len() > 0 {
        let front = whole.drop_last();
        assert forall|i: int| 0 <= i < front.len() implies keep(#[trigger] front[i]) by {
            assert(front[i] == whole[i]);
        }
        lemma_filter_keeps_all(front, keep);
        assert(front.push(whole.last()) =~= whole);
    }
}

/// Two filters that agree on the items of a sequence give the same result.
pub proof fn lemma_filter_agrees<T>(whole: Seq<T>, one: spec_fn(T) -> bool, other: spec_fn(T) -> bool)
    requires
        forall|i: int| 0 <= i < whole.len() ==> one(#[trigger] whole[i]) == other(whole[i]),
    ensures
        whole.filter(one) == whole.filter(other),
    decreases whole.len(),
{
    reveal(Seq::filter);
    if whole.len() > 0 {
        let front = whole.drop_last();
        assert forall|i: int| 0 <= i < front.len() implies one(#[trigger] front[i]) == other(
            front[i],
        ) by {
            assert(front[i] == whole[i]);
        }
        lemma_filter_agrees(front, one, other);
    }
}

/// Where a filter keeps no item that a second one drops, its result is the
/// second one's result filtered once more, and so a subsequence of it.
pub proof fn lemma_narrower_filter<T>(
    whole: Seq<T>,
    narrow: spec_fn(T) -> bool,
    wide: spec_fn(T) -> bool,
)
    requires
        forall|i: int| 0 <= i < whole.len() && narrow(#[trigger] whole[i]) ==> wide(whole[i]),
    ensures
        whole.filter(narrow) == whole.filter(wide).filter(narrow),
        is_subsequence(whole.filter(narrow), whole.filter(wide)),
    decreases whole.len(),
{
    reveal(Seq::filter);
    if whole.len() > 0 {
        let front = whole.drop_last();
        assert forall|i: int| 0 <= i < front.len() && narrow(#[trigger] front[i]) implies wide(
            front[i],
        ) by {
            assert(front[i] == whole[i]);
        }
        lemma_narrower_filter(front, narrow, wide);
        if wide(whole.last()) {
            let kept = front.filter(wide).push(whole.last());
            assert(kept.drop_last() =~= front.filter(wide));
        }
    }
    lemma_filter_is_subsequence(whole.filter(wide), narrow);
}

} // verus!
