//! The first position at which a property holds.

use vstd::prelude::*;

verus! {

/// The first `i` with `lo <= i < hi` at which `p` holds, if any.
pub open spec fn first_from(lo: int, hi: int, p: spec_fn(int) -> bool) -> Option<int>
    decreases hi - lo,
{
    if lo >= hi {
        None
    } else if p(lo) {
        Some(lo)
    } else {
        first_from(lo + 1, hi, p)
    }
}

/// The first `i` with `0 <= i < n` at which `p` holds, if any.
pub open spec fn first_match(n: int, p: spec_fn(int) -> bool) -> Option<int> {
    first_from(0, n, p)
}

/// Positions before `i` where `p` fails do not change the first match.
pub proof fn lemma_first_skip(i: int, n: int, p: spec_fn(int) -> bool)
    requires
        0 <= i,
        forall|k: int| 0 <= k < i ==> !#[trigger] p(k),
    ensures
        first_match(n, p) == first_from(i, n, p),
    decreases i,
{
    if i > 0 {
        lemma_first_skip(i - 1, n, p);
        if i - 1 < n {
            assert(!p(i - 1));
        }
    }
}

/// If `p` fails before `i` and holds at `i < n`, then `i` is the first match.
pub proof fn lemma_first_found(i: int, n: int, p: spec_fn(int) -> bool)
    requires
        0 <= i < n,
        forall|k: int| 0 <= k < i ==> !#[trigger] p(k),
        p(i),
    ensures
        first_match(n, p) == Some(i),
{
    lemma_first_skip(i, n, p);
}

/// If `p` fails on all of `0 <= i < n`, there is no match.
pub proof fn lemma_first_none(n: int, p: spec_fn(int) -> bool)
    requires
        0 <= n,
        forall|k: int| 0 <= k < n ==> !#[trigger] p(k),
    ensures
        first_match(n, p) is None,
{
    lemma_first_skip(n, n, p);
}

/// The first match is a match, and nothing before it matches.
pub proof fn lemma_first_match_ensures(n: int, p: spec_fn(int) -> bool)
    ensures
        first_match(n, p) matches Some(i) ==> 0 <= i < n && p(i) && forall|k: int| 0 <= k < i ==> !#[trigger] p(k),
        first_match(n, p) is None ==> forall|k: int| 0 <= k < n ==> !#[trigger] p(k),
{
    lemma_first_from_ensures(0, n, p);
}

proof fn lemma_first_from_ensures(lo: int, hi: int, p: spec_fn(int) -> bool)
    ensures
        first_from(lo, hi, p) matches Some(i) ==> lo <= i < hi && p(i) && forall|k: int| lo <= k < i ==> !#[trigger] p(k),
        first_from(lo, hi, p) is None ==> forall|k: int| lo <= k < hi ==> !#[trigger] p(k),
    decreases hi - lo,
{
    if lo < hi {
        lemma_first_from_ensures(lo + 1, hi, p);
    }
}

/// Properties that agree on `0..n` have the same first match there.
pub proof fn lemma_first_match_agree(n: int, p: spec_fn(int) -> bool, q: spec_fn(int) -> bool)
    requires
        forall|i: int| 0 <= i < n ==> #[trigger] p(i) == q(i),
    ensures
        first_match(n, p) == first_match(n, q),
{
    lemma_first_from_agree(0, n, p, q);
}

proof fn lemma_first_from_agree(lo: int, hi: int, p: spec_fn(int) -> bool, q: spec_fn(int) -> bool)
    requires
        0 <= lo,
        forall|i: int| 0 <= i < hi ==> #[trigger] p(i) == q(i),
    ensures
        first_from(lo, hi, p) == first_from(lo, hi, q),
    decreases hi - lo,
{
    if lo < hi {
        assert(p(lo) == q(lo));
        lemma_first_from_agree(lo + 1, hi, p, q);
    }
}

} // verus!
