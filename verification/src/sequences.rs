//! Facts about filtered sequences that the ring and the registry rest on.

use vstd::prelude::*;

verus! {

/// Filtering keeps a sequence whose every element passes.
pub proof fn lemma_filter_all<A>(s: Seq<A>, keep: spec_fn(A) -> bool)
    requires
        forall|i: int| 0 <= i < s.len() ==> keep(#[trigger] s[i]),
    ensures
        s.filter(keep) == s,
    decreases s.len(),
{
    reveal(Seq::filter);
    if s.len() > 0 {
        lemma_filter_all(s.drop_last(), keep);
        assert(s.drop_last().push(s.last()) =~= s);
    }
}

/// Filtering a single element that does not pass leaves nothing.
pub proof fn lemma_filter_one_dropped<A>(x: A, keep: spec_fn(A) -> bool)
    requires
        !keep(x),
    ensures
        seq![x].filter(keep) == Seq::<A>::empty(),
{
    reveal(Seq::filter);
    let one = seq![x];
    assert(one.drop_last() =~= Seq::<A>::empty());
    assert(one.drop_last().filter(keep) =~= Seq::<A>::empty());
}

/// Taking out an element that does not pass changes nothing in what passes.
pub proof fn lemma_filter_without<A>(s: Seq<A>, n: int, keep: spec_fn(A) -> bool)
    requires
        0 <= n < s.len(),
        !keep(s[n]),
    ensures
        s.remove(n).filter(keep) == s.filter(keep),
{
    let front = s.subrange(0, n);
    let back = s.subrange(n + 1, s.len() as int);
    lemma_filter_one_dropped(s[n], keep);
    assert(s =~= (front + seq![s[n]]) + back);
    assert(s.remove(n) =~= front + back);
    Seq::filter_distributes_over_add(front, seq![s[n]], keep);
    Seq::filter_distributes_over_add(front + seq![s[n]], back, keep);
    Seq::filter_distributes_over_add(front, back, keep);
    assert(front.filter(keep) + Seq::<A>::empty() =~= front.filter(keep));
}

/// Putting in an element that does not pass changes nothing in what passes.
pub proof fn lemma_filter_with<A>(s: Seq<A>, at: int, x: A, keep: spec_fn(A) -> bool)
    requires
        0 <= at <= s.len(),
        !keep(x),
    ensures
        s.insert(at, x).filter(keep) == s.filter(keep),
{
    let longer = s.insert(at, x);
    assert(longer.remove(at) =~= s);
    lemma_filter_without(longer, at, keep);
}

/// Filtering twice is filtering once by both tests.
pub proof fn lemma_filter_twice<A>(
    s: Seq<A>,
    first: spec_fn(A) -> bool,
    second: spec_fn(A) -> bool,
    both: spec_fn(A) -> bool,
)
    requires
        forall|x: A| #[trigger] both(x) == (first(x) && second(x)),
    ensures
        s.filter(first).filter(second) == s.filter(both),
    decreases s.len(),
{
    reveal(Seq::filter);
    if s.len() > 0 {
        let init = s.drop_last();
        let last = s.last();
        lemma_filter_twice(init, first, second, both);
        if first(last) {
            let kept = init.filter(first);
            assert(kept.push(last).drop_last() =~= kept);
        }
    }
}

/// Two tests that agree on every element of a sequence keep the same of it.
pub proof fn lemma_filter_agree<A>(s: Seq<A>, one: spec_fn(A) -> bool, other: spec_fn(A) -> bool)
    requires
        forall|i: int| 0 <= i < s.len() ==> one(#[trigger] s[i]) == other(s[i]),
    ensures
        s.filter(one) == s.filter(other),
    decreases s.len(),
{
    reveal(Seq::filter);
    if s.len() > 0 {
        lemma_filter_agree(s.drop_last(), one, other);
    }
}

/// What a filter keeps passes the test and was in the sequence.
pub proof fn lemma_filter_kept<A>(s: Seq<A>, keep: spec_fn(A) -> bool)
    ensures
        forall|i: int|
            0 <= i < s.filter(keep).len() ==> keep(#[trigger] s.filter(keep)[i]) && s.contains(
                s.filter(keep)[i],
            ),
{
    assert forall|i: int| 0 <= i < s.filter(keep).len() implies keep(
        #[trigger] s.filter(keep)[i],
    ) && s.contains(s.filter(keep)[i]) by {
        s.lemma_filter_pred(keep, i);
        assert(s.filter(keep).contains(s.filter(keep)[i]));
        s.lemma_filter_contains_rev(keep, s.filter(keep)[i]);
    }
}

/// What a filter keeps of the first `upto + 1` elements: what it keeps of the
/// first `upto`, and the next one where it passes.
pub proof fn lemma_filter_next<A>(s: Seq<A>, upto: int, keep: spec_fn(A) -> bool)
    requires
        0 <= upto < s.len(),
    ensures
        s.subrange(0, upto + 1).filter(keep) == if keep(s[upto]) {
            s.subrange(0, upto).filter(keep).push(s[upto])
        } else {
            s.subrange(0, upto).filter(keep)
        },
{
    reveal(Seq::filter);
    assert(s.subrange(0, upto + 1).drop_last() =~= s.subrange(0, upto));
}

} // verus!
