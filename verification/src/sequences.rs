//! Facts about filtering a sequence that the proofs of the reconciler use.

use vstd::prelude::*;

verus! {

/// Filtering a sequence with one more item at its end.
pub proof fn lemma_filter_push<A>(s: Seq<A>, p: spec_fn(A) -> bool, x: A)
    ensures
        s.push(x).filter(p) == if p(x) {
            s.filter(p).push(x)
        } else {
            s.filter(p)
        },
{
    reveal(Seq::filter);
    assert(s.push(x).drop_last() =~= s);
}

/// Two predicates that agree on every item of a sequence filter it alike.
pub proof fn lemma_filter_pointwise<A>(s: Seq<A>, p: spec_fn(A) -> bool, q: spec_fn(A) -> bool)
    requires
        forall|i: int| 0 <= i < s.len() ==> p(#[trigger] s[i]) == q(s[i]),
    ensures
        s.filter(p) == s.filter(q),
    decreases s.len(),
{
    reveal(Seq::filter);
    if s.len() > 0 {
        lemma_filter_pointwise(s.drop_last(), p, q);
    }
}

/// A predicate that holds of every item filters nothing out.
pub proof fn lemma_filter_all<A>(s: Seq<A>, p: spec_fn(A) -> bool)
    requires
        forall|i: int| 0 <= i < s.len() ==> p(#[trigger] s[i]),
    ensures
        s.filter(p) == s,
    decreases s.len(),
{
    reveal(Seq::filter);
    if s.len() > 0 {
        lemma_filter_all(s.drop_last(), p);
    }
}

/// Filtering twice is filtering once by both predicates.
pub proof fn lemma_filter_twice<A>(s: Seq<A>, p: spec_fn(A) -> bool, q: spec_fn(A) -> bool)
    ensures
        s.filter(p).filter(q) == s.filter(|x: A| p(x) && q(x)),
    decreases s.len(),
{
    reveal(Seq::filter);
    if s.len() > 0 {
        lemma_filter_twice(s.drop_last(), p, q);
        if p(s.last()) {
            lemma_filter_push(s.drop_last().filter(p), q, s.last());
        }
    }
}

/// An item is in the filtered sequence exactly when it is in the sequence and
/// the predicate holds of it.
pub proof fn lemma_filter_contains<A>(s: Seq<A>, p: spec_fn(A) -> bool, x: A)
    ensures
        s.filter(p).contains(x) <==> s.contains(x) && p(x),
{
    if s.filter(p).contains(x) {
        s.lemma_filter_contains_rev(p, x);
    }
    if s.contains(x) && p(x) {
        let i = choose|i: int| 0 <= i < s.len() && s[i] == x;
        s.lemma_filter_contains(p, i);
    }
}

/// Filtering keeps a sequence free of duplicates.
pub proof fn lemma_filter_no_duplicates<A>(s: Seq<A>, p: spec_fn(A) -> bool)
    requires
        s.no_duplicates(),
    ensures
        s.filter(p).no_duplicates(),
    decreases s.len(),
{
    reveal(Seq::filter);
    if s.len() > 0 {
        let rest = s.drop_last();
        lemma_filter_no_duplicates(rest, p);
        if p(s.last()) {
            lemma_filter_contains(rest, p, s.last());
            let kept = rest.filter(p);
        }
    }
}

/// The first item of which the predicate holds is the first item of the
/// filtered sequence.
pub proof fn lemma_filter_first<A>(s: Seq<A>, p: spec_fn(A) -> bool, i: int)
    requires
        0 <= i < s.len(),
        p(s[i]),
        forall|j: int| 0 <= j < i ==> !p(#[trigger] s[j]),
    ensures
        s.filter(p).len() > 0,
        s.filter(p)[0] == s[i],
    decreases s.len(),
{
    reveal(Seq::filter);
    let rest = s.drop_last();
    if i == s.len() - 1 {
        rest.lemma_all_neg_filter_empty(p);
    } else {
        lemma_filter_first(rest, p, i);
    }
}

/// Where the predicate holds of no item, nothing is left.
pub proof fn lemma_filter_none<A>(s: Seq<A>, p: spec_fn(A) -> bool)
    requires
        forall|i: int| 0 <= i < s.len() ==> !p(#[trigger] s[i]),
    ensures
        s.filter(p).len() == 0,
{
    s.lemma_all_neg_filter_empty(p);
}

/// In a sequence without duplicates, taking out the item at `i` is filtering
/// by "differs from that item".
pub proof fn lemma_remove_is_filter<A>(s: Seq<A>, i: int)
    requires
        s.no_duplicates(),
        0 <= i < s.len(),
    ensures
        s.remove(i) == s.filter(|x: A| x != s[i]),
    decreases s.len(),
{
    reveal(Seq::filter);
    let p = |x: A| x != s[i];
    let rest = s.drop_last();
    if i == s.len() - 1 {
        lemma_filter_all(rest, p);
    } else {
        lemma_remove_is_filter(rest, i);
    }
}

/// In a sequence without duplicates, a predicate that holds of one item only
/// leaves that item alone.
pub proof fn lemma_filter_single<A>(s: Seq<A>, p: spec_fn(A) -> bool, x: A)
    requires
        s.no_duplicates(),
        s.contains(x),
        p(x),
        forall|i: int| 0 <= i < s.len() && p(#[trigger] s[i]) ==> s[i] == x,
    ensures
        s.filter(p) == seq![x],
{
    let kept = s.filter(p);
    lemma_filter_no_duplicates(s, p);
    lemma_filter_contains(s, p, x);
    assert forall|i: int| 0 <= i < kept.len() implies kept[i] == x by {
        lemma_filter_contains(s, p, kept[i]);
    }
    if kept.len() > 1 {
        assert(kept[0] == kept[1]);
    }
}

/// Filtering by two predicates in either order comes to the same.
pub proof fn lemma_filter_commutes<A>(s: Seq<A>, p: spec_fn(A) -> bool, q: spec_fn(A) -> bool)
    ensures
        s.filter(p).filter(q) == s.filter(q).filter(p),
{
    lemma_filter_twice(s, p, q);
    lemma_filter_twice(s, q, p);
    lemma_filter_pointwise(s, |x: A| p(x) && q(x), |x: A| q(x) && p(x));
}

/// A predicate that holds of the first `n` items of a sequence leaves them in
/// place, and filters the others as it would filter them alone.
pub proof fn lemma_filter_keeps_prefix<A>(s: Seq<A>, n: int, p: spec_fn(A) -> bool)
    requires
        0 <= n <= s.len(),
        forall|i: int| 0 <= i < n ==> p(#[trigger] s[i]),
    ensures
        s.filter(p).len() >= n,
        s.filter(p).take(n) == s.take(n),
        s.filter(p).skip(n) == s.skip(n).filter(p),
{
    assert(s =~= s.take(n) + s.skip(n));
    Seq::filter_distributes_over_add(s.take(n), s.skip(n), p);
    lemma_filter_all(s.take(n), p);
}

} // verus!
