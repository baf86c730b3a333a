//! Sums over sequences, and the first position with a property.
use vstd::prelude::*;

verus! {

/// The sum of `f` over the elements of `s`.
pub open spec fn sum<A>(s: Seq<A>, f: spec_fn(A) -> int) -> int
    decreases s.len(),
{
    if s.len() == 0 {
        0
    } else {
        sum(s.drop_last(), f) + f(s.last())
    }
}

/// A sum grows by what is appended.
pub proof fn lemma_sum_push<A>(s: Seq<A>, x: A, f: spec_fn(A) -> int)
    ensures
        sum(s.push(x), f) == sum(s, f) + f(x),
{
    assert(s.push(x).drop_last() =~= s);
}

/// A sum over two parts is the sum of their sums.
pub proof fn lemma_sum_concat<A>(s: Seq<A>, t: Seq<A>, f: spec_fn(A) -> int)
    ensures
        sum(s + t, f) == sum(s, f) + sum(t, f),
    decreases t.len(),
{
    if t.len() == 0 {
        assert(s + t =~= s);
    } else {
        assert((s + t).drop_last() =~= s + t.drop_last());
        lemma_sum_concat(s, t.drop_last(), f);
    }
}

/// A sum changes by what is replaced.
pub proof fn lemma_sum_update<A>(s: Seq<A>, i: int, x: A, f: spec_fn(A) -> int)
    requires
        0 <= i < s.len(),
    ensures
        sum(s.update(i, x), f) == sum(s, f) - f(s[i]) + f(x),
    decreases s.len(),
{
    let u = s.update(i, x);
    if i == s.len() - 1 {
        assert(u.drop_last() =~= s.drop_last());
    } else {
        assert(u.drop_last() =~= s.drop_last().update(i, x));
        lemma_sum_update(s.drop_last(), i, x, f);
    }
}

/// A sum shrinks by what is removed.
pub proof fn lemma_sum_remove<A>(s: Seq<A>, i: int, f: spec_fn(A) -> int)
    requires
        0 <= i < s.len(),
    ensures
        sum(s.remove(i), f) == sum(s, f) - f(s[i]),
    decreases s.len(),
{
    let r = s.remove(i);
    if i == s.len() - 1 {
        assert(r =~= s.drop_last());
    } else {
        assert(r.drop_last() =~= s.drop_last().remove(i));
        lemma_sum_remove(s.drop_last(), i, f);
    }
}

/// `s` with the last element moved to position `i`, in place of what was there.
pub open spec fn swap_removed<A>(s: Seq<A>, i: int) -> Seq<A> {
    s.update(i, s.last()).drop_last()
}

/// A sum shrinks by what is removed, also where the last element fills the gap.
pub proof fn lemma_sum_swap_removed<A>(s: Seq<A>, i: int, f: spec_fn(A) -> int)
    requires
        0 <= i < s.len(),
    ensures
        sum(swap_removed(s, i), f) == sum(s, f) - f(s[i]),
{
    lemma_sum_update(s, i, s.last(), f);
}

/// A sum of numbers that are never negative is at least each of them, and never negative.
pub proof fn lemma_sum_bounds<A>(s: Seq<A>, f: spec_fn(A) -> int)
    requires
        forall|i: int| 0 <= i < s.len() ==> #[trigger] f(s[i]) >= 0,
    ensures
        sum(s, f) >= 0,
        forall|i: int| 0 <= i < s.len() ==> #[trigger] f(s[i]) <= sum(s, f),
    decreases s.len(),
{
    if s.len() > 0 {
        let d = s.drop_last();
        assert forall|i: int| 0 <= i < d.len() implies #[trigger] f(d[i]) >= 0 by {
            assert(d[i] == s[i]);
        }
        lemma_sum_bounds(d, f);
        assert forall|i: int| 0 <= i < s.len() implies #[trigger] f(s[i]) <= sum(s, f) by {
            if i < d.len() {
                assert(f(d[i]) <= sum(d, f));
                assert(d[i] == s[i]);
                assert(f(s[s.len() - 1]) >= 0);
            }
        }
        assert(f(s[s.len() - 1]) >= 0);
    }
}

/// Position of the first element with the property, or the length if there is none.
pub open spec fn first_index<A>(s: Seq<A>, p: spec_fn(A) -> bool) -> int
    decreases s.len(),
{
    if s.len() == 0 {
        0
    } else if p(s[0]) {
        0
    } else {
        1 + first_index(s.drop_first(), p)
    }
}

/// What `first_index` gives is the first position with the property.
pub proof fn lemma_first_index<A>(s: Seq<A>, p: spec_fn(A) -> bool)
    ensures
        0 <= first_index(s, p) <= s.len(),
        first_index(s, p) < s.len() ==> p(s[first_index(s, p)]),
        forall|j: int| 0 <= j < first_index(s, p) ==> !p(#[trigger] s[j]),
    decreases s.len(),
{
    if s.len() > 0 && !p(s[0]) {
        let t = s.drop_first();
        lemma_first_index(t, p);
        assert forall|j: int| 0 <= j < first_index(s, p) implies !p(#[trigger] s[j]) by {
            if j > 0 {
                assert(t[j - 1] == s[j]);
            }
        }
    }
}

/// The first position with the property is the one that `first_index` gives.
pub proof fn lemma_first_index_at<A>(s: Seq<A>, p: spec_fn(A) -> bool, i: int)
    requires
        0 <= i <= s.len(),
        i < s.len() ==> p(s[i]),
        forall|j: int| 0 <= j < i ==> !p(#[trigger] s[j]),
    ensures
        first_index(s, p) == i,
{
    lemma_first_index(s, p);
    let g = first_index(s, p);
    if g < i {
        assert(!p(s[g]));
    } else if g > i {
        assert(!p(s[i]));
    }
}

} // verus!
