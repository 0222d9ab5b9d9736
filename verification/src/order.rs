//! Orderings of timestamp sequences.

use vstd::prelude::*;

verus! {

/// Every element is smaller than the ones that follow it.
pub open spec fn increasing(s: Seq<i64>) -> bool {
    forall|i: int, j: int| 0 <= i < j < s.len() ==> s[i] < s[j]
}

/// The elements of `s` in ascending order, each as often as `s` has it.
pub open spec fn ascending(s: Seq<i64>) -> Seq<i64> {
    s.sort_by(|a: i64, b: i64| a <= b)
}

/// Whether `s` is strictly increasing.
pub fn is_increasing(s: &[i64]) -> (yes: bool)
    ensures
        yes == increasing(s@),
{
    let mut i: usize = 1;
    while i < s.len()
        invariant
            1 <= i,
            i <= s.len() || s.len() == 0 && i == 1,
            forall|a: int, b: int| 0 <= a < b < i && b < s.len() ==> s@[a] < s@[b],
        decreases s.len() - i,
    {
        if s[i] <= s[i - 1] {
            assert(!(s@[i - 1] < s@[i as int]));
            return false;
        }
        assert forall|a: int, b: int| 0 <= a < b < i + 1 && b < s.len() implies s@[a] < s@[b] by {
            if b == i && a < i - 1 {
                assert(s@[a] < s@[i - 1]);
            }
        }
        i = i + 1;
    }
    true
}

/// Calls `<[i64]>::sort_unstable`: the vector holds the same elements afterwards,
/// in ascending order.
#[verifier::external_body]
pub(crate) fn sort_ascending(v: &mut Vec<i64>)
    ensures
        final(v)@ == ascending(old(v)@),
{
    v.sort_unstable();
}

/// Calls `<[i64]>::select_nth_unstable`: the elements are rearranged, none is
/// added or lost, and the element that comes to stand at `k` is the one that
/// stands there in ascending order.
#[verifier::external_body]
pub(crate) fn select_nth(v: &mut Vec<i64>, k: usize) -> (nth: i64)
    requires
        k < old(v)@.len(),
    ensures
        nth == ascending(old(v)@)[k as int],
        final(v)@.to_multiset() == old(v)@.to_multiset(),
{
    *v.select_nth_unstable(k).1
}

/// Sorting keeps the number of elements.
pub proof fn lemma_ascending(s: Seq<i64>)
    ensures
        ascending(s).len() == s.len(),
        ascending(s).to_multiset() == s.to_multiset(),
        forall|i: int, j: int|
            0 <= i < j < s.len() ==> (#[trigger] ascending(s)[i]) <= (#[trigger] ascending(s)[j]),
{
    let leq = |a: i64, b: i64| a <= b;
    assert(vstd::relations::total_ordering(leq));
    s.lemma_sort_by_ensures(leq);
    s.to_multiset_ensures();
    ascending(s).to_multiset_ensures();
    assert forall|i: int, j: int| 0 <= i < j < s.len() implies (#[trigger] ascending(s)[i]) <= (
    #[trigger] ascending(s)[j]) by {
        assert(leq(ascending(s)[i], ascending(s)[j]));
    }
}

/// What `ascending` holds, `s` holds.
pub proof fn lemma_ascending_contains(s: Seq<i64>, i: int)
    requires
        0 <= i < s.len(),
    ensures
        s.contains(ascending(s)[i]),
{
    lemma_ascending(s);
    s.to_multiset_ensures();
    ascending(s).to_multiset_ensures();
    let x = ascending(s)[i];
    assert(ascending(s).contains(x));
    assert(ascending(s).to_multiset().count(x) > 0);
    assert(s.to_multiset().count(x) > 0);
}

/// Filtering a sequence that fails the test up to `m` and passes it from there on
/// leaves the part from `m` on.
pub proof fn lemma_filter_suffix(s: Seq<i64>, keep: spec_fn(i64) -> bool, m: int)
    requires
        0 <= m <= s.len(),
        forall|i: int| 0 <= i < m ==> !keep(s[i]),
        forall|i: int| m <= i < s.len() ==> keep(s[i]),
    ensures
        s.filter(keep) == s.skip(m),
    decreases s.len(),
{
    reveal(Seq::filter);
    if s.len() == 0 {
        assert(s.filter(keep) =~= s.skip(m));
    } else if m == s.len() {
        lemma_filter_suffix(s.drop_last(), keep, m - 1);
        assert(s.filter(keep) =~= s.skip(m));
    } else {
        lemma_filter_suffix(s.drop_last(), keep, m);
        assert(s.skip(m) =~= s.drop_last().skip(m).push(s.last()));
    }
}

/// How many elements pass a test depends on the elements alone, not on their order.
proof fn lemma_filter_multiset(s: Seq<i64>, keep: spec_fn(i64) -> bool)
    ensures
        s.filter(keep).len() == s.to_multiset().filter(keep).len(),
    decreases s.len(),
{
    reveal(Seq::filter);
    s.to_multiset_ensures();
    if s.len() == 0 {
        assert(s.to_multiset().filter(keep) =~= vstd::multiset::Multiset::<i64>::empty());
    } else {
        let rest = s.drop_last();
        let x = s.last();
        lemma_filter_multiset(rest, keep);
        rest.to_multiset_ensures();
        assert(rest.push(x) =~= s);
        assert(s.to_multiset() =~= rest.to_multiset().insert(x));
        if keep(x) {
            assert(s.to_multiset().filter(keep) =~= rest.to_multiset().filter(keep).insert(x));
        } else {
            assert(s.to_multiset().filter(keep) =~= rest.to_multiset().filter(keep));
        }
    }
}

/// Sorting changes nothing about how many elements pass a test.
pub(crate) proof fn lemma_filter_ascending(s: Seq<i64>, keep: spec_fn(i64) -> bool)
    ensures
        ascending(s).filter(keep).len() == s.filter(keep).len(),
{
    lemma_ascending(s);
    lemma_filter_multiset(s, keep);
    lemma_filter_multiset(ascending(s), keep);
}

/// Where the elements from `k` on fail a test, no more than `k` pass it.
pub(crate) proof fn lemma_filter_at_most(s: Seq<i64>, keep: spec_fn(i64) -> bool, k: int)
    requires
        0 <= k <= s.len(),
        forall|i: int| k <= i < s.len() ==> !keep(#[trigger] s[i]),
    ensures
        s.filter(keep).len() <= k,
    decreases s.len(),
{
    reveal(Seq::filter);
    if s.len() > k {
        lemma_filter_at_most(s.drop_last(), keep, k);
    } else {
        s.lemma_filter_len(keep);
    }
}

/// Where the first `k` elements pass a test, no fewer than `k` pass it.
pub(crate) proof fn lemma_filter_at_least(s: Seq<i64>, keep: spec_fn(i64) -> bool, k: int)
    requires
        0 <= k <= s.len(),
        forall|i: int| 0 <= i < k ==> keep(#[trigger] s[i]),
    ensures
        s.filter(keep).len() >= k,
    decreases s.len(),
{
    reveal(Seq::filter);
    if s.len() > 0 {
        let m = if k < s.len() { k } else { k - 1 };
        lemma_filter_at_least(s.drop_last(), keep, m);
    }
}

/// Times go forward if each is before the next one.
pub proof fn law_increasing_step_by_step(s: Seq<i64>)
    requires
        forall|i: int, j: int| 0 <= i && j == i + 1 && j < s.len() ==> s[i] < s[j],
    ensures
        increasing(s),
    decreases s.len(),
{
    if s.len() > 0 {
        let rest = s.drop_last();
        law_increasing_step_by_step(rest);
        assert forall|i: int, j: int| 0 <= i < j < s.len() implies s[i] < s[j] by {
            if j < rest.len() {
                assert(rest[i] < rest[j]);
            } else {
                assert(s[j - 1] < s[j]);
                if i < j - 1 {
                    assert(rest[i] < rest[j - 1]);
                }
            }
        }
    }
}

/// Times that do not go forward somewhere do not go forward.
pub proof fn law_step_back_is_noticed(s: Seq<i64>, i: int)
    requires
        0 <= i < s.len() - 1,
        s[i + 1] <= s[i],
    ensures
        !increasing(s),
{
    assert(!(s[i] < s[i + 1]));
}

/// Tests that agree on all the elements let the same elements pass.
pub(crate) proof fn lemma_filter_agrees(s: Seq<int>, p: spec_fn(int) -> bool, q: spec_fn(int) -> bool)
    requires
        forall|i: int| 0 <= i < s.len() ==> p(#[trigger] s[i]) == q(s[i]),
    ensures
        s.filter(p) == s.filter(q),
    decreases s.len(),
{
    reveal(Seq::filter);
    if s.len() > 0 {
        let rest = s.drop_last();
        assert forall|i: int| 0 <= i < rest.len() implies p(#[trigger] rest[i]) == q(rest[i]) by {
            assert(rest[i] == s[i]);
        }
        lemma_filter_agrees(rest, p, q);
        assert(p(s[s.len() - 1]) == q(s[s.len() - 1]));
    }
}

} // verus!
