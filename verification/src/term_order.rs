//! Canonical forms do not depend on the order of a polynomial's terms.

use vstd::prelude::*;

use crate::canon::{
    apply_order, bodies_ascending, body_order, candidate_of, canonical_poly, canonical_term, canonical_terms, is_candidate, is_choice,
    is_least_candidate, least_candidate, lemma_body_order, lemma_body_parts_equal, lemma_choice_shape,
    lemma_merge_term_ascending, merge_term, merge_terms, normalize, not_before, ranks, some_body, symmetries_fit,
    tensor_ids, valid_order, Order,
};
use crate::expand::{FactorModel, Index, PolyModel, TermModel};
use crate::model::{SymmetryGenerator, TensorId};
use crate::rational::{is_reduced, lemma_rat_add_commutes, lemma_rat_add_right_commutes, lemma_reduce, rat_add, rat_neg};
use crate::search::{first_match, lemma_first_found, lemma_first_match_ensures};

verus! {

// ---------------------------------------------------------------------------
// Merging terms one at a time.
// ---------------------------------------------------------------------------

/// Every factor among `fs` has as many slots as `rank` gives its tensor.
pub open spec fn ranked_by(fs: Seq<FactorModel>, rank: spec_fn(TensorId) -> nat) -> bool {
    forall|j: int| 0 <= j < fs.len() ==> (#[trigger] fs[j]).indices.len() == rank(fs[j].tensor)
}

/// A term whose factors are ranked by `rank` and whose coefficient is in
/// lowest terms.
pub open spec fn term_ranked(t: TermModel, rank: spec_fn(TensorId) -> nat) -> bool {
    ranked_by(t.factors, rank) && is_reduced(t.coeff)
}

/// Every term of `ts` is ranked by `rank`, with its coefficient in lowest terms.
pub open spec fn all_ranked(ts: Seq<TermModel>, rank: spec_fn(TensorId) -> nat) -> bool {
    forall|k: int| 0 <= k < ts.len() ==> term_ranked(#[trigger] ts[k], rank)
}

/// The term `e` with the coefficient of `t` added to its own.
pub open spec fn absorb(e: TermModel, t: TermModel) -> TermModel {
    TermModel { coeff: rat_add(e.coeff, t.coeff), factors: e.factors }
}

/// Every body ties with itself.
proof fn lemma_body_reflexive(a: Seq<FactorModel>)
    ensures
        body_order(a, a) == Order::Equal,
{
    lemma_body_order(a, a, a);
}

/// Ranked bodies that tie are equal.
proof fn lemma_ranked_tie(a: Seq<FactorModel>, b: Seq<FactorModel>, rank: spec_fn(TensorId) -> nat)
    requires
        ranked_by(a, rank),
        ranked_by(b, rank),
        body_order(a, b) == Order::Equal,
    ensures
        a == b,
{
    lemma_body_order(a, b, b);
    assert(a.len() == tensor_ids(a).len() && b.len() == tensor_ids(b).len());
    assert(ranks(a) =~= ranks(b)) by {
        assert forall|j: int| 0 <= j < a.len() implies #[trigger] ranks(a)[j] == ranks(b)[j] by {
            assert(tensor_ids(a)[j] == tensor_ids(b)[j]);
            assert(a[j].tensor == b[j].tensor);
        }
    }
    lemma_body_parts_equal(a, b);
}

/// Terms of a list with strictly ascending bodies differ in body.
proof fn lemma_ascending_distinct(s: Seq<TermModel>, i: int, j: int)
    requires
        bodies_ascending(s),
        0 <= i < s.len(),
        0 <= j < s.len(),
        i != j,
    ensures
        s[i].factors != s[j].factors,
{
    lemma_body_reflexive(s[i].factors);
    if i < j {
        assert(body_order(s[i].factors, s[j].factors) == Order::Less);
    } else {
        assert(body_order(s[j].factors, s[i].factors) == Order::Less);
    }
}

/// Two lists of terms with strictly ascending bodies and the same members are
/// equal.
proof fn lemma_sorted_unique(s1: Seq<TermModel>, s2: Seq<TermModel>)
    requires
        bodies_ascending(s1),
        bodies_ascending(s2),
        forall|x: TermModel| s1.contains(x) <==> s2.contains(x),
    ensures
        s1 == s2,
    decreases s1.len(),
{
    if s1.len() == 0 {
        if s2.len() > 0 {
            assert(s2.contains(s2[0]));
        }
        assert(s1 =~= s2);
    } else {
        assert(s1.contains(s1[0]));
        let j = choose|j: int| 0 <= j < s2.len() && s2[j] == s1[0];
        if j > 0 {
            assert(s2.contains(s2[0]));
            let k = choose|k: int| 0 <= k < s1.len() && s1[k] == s2[0];
            lemma_ascending_distinct(s2, 0, j);
            assert(k != 0);
            assert(body_order(s1[0].factors, s1[k].factors) == Order::Less);
            assert(body_order(s2[0].factors, s2[j].factors) == Order::Less);
            lemma_body_order(s1[0].factors, s2[0].factors, s1[0].factors);
            lemma_body_reflexive(s1[0].factors);
        }
        let t1 = s1.drop_first();
        let t2 = s2.drop_first();
        assert forall|i: int, k: int| 0 <= i < k < t1.len() implies
            body_order((#[trigger] t1[i]).factors, (#[trigger] t1[k]).factors) == Order::Less by {
            assert(t1[i] == s1[i + 1] && t1[k] == s1[k + 1]);
        }
        assert forall|i: int, k: int| 0 <= i < k < t2.len() implies
            body_order((#[trigger] t2[i]).factors, (#[trigger] t2[k]).factors) == Order::Less by {
            assert(t2[i] == s2[i + 1] && t2[k] == s2[k + 1]);
        }
        assert forall|x: TermModel| t1.contains(x) <==> t2.contains(x) by {
            if t1.contains(x) {
                let i = choose|i: int| 0 <= i < t1.len() && t1[i] == x;
                assert(s1[i + 1] == x);
                lemma_ascending_distinct(s1, 0, i + 1);
                assert(s2.contains(x));
                let m = choose|m: int| 0 <= m < s2.len() && s2[m] == x;
                assert(m != 0);
                assert(t2[m - 1] == x);
            }
            if t2.contains(x) {
                let i = choose|i: int| 0 <= i < t2.len() && t2[i] == x;
                assert(s2[i + 1] == x);
                lemma_ascending_distinct(s2, 0, i + 1);
                assert(s1.contains(x));
                let m = choose|m: int| 0 <= m < s1.len() && s1[m] == x;
                assert(m != 0);
                assert(t1[m - 1] == x);
            }
        }
        lemma_sorted_unique(t1, t2);
        assert(s1 =~= seq![s1[0]] + t1);
        assert(s2 =~= seq![s2[0]] + t2);
    }
}

/// Merging keeps bodies ascending and terms ranked.
proof fn lemma_merge_ok(acc: Seq<TermModel>, t: TermModel, rank: spec_fn(TensorId) -> nat)
    requires
        bodies_ascending(acc),
        all_ranked(acc, rank),
        term_ranked(t, rank),
    ensures
        bodies_ascending(merge_term(acc, t)),
        all_ranked(merge_term(acc, t), rank),
{
    lemma_merge_term_ascending(acc, t);
    let p = not_before(acc, t);
    lemma_first_match_ensures(acc.len() as int, p);
    let r = merge_term(acc, t);
    match first_match(acc.len() as int, p) {
        Some(i) => {
            if body_order(acc[i].factors, t.factors) == Order::Equal {
                assert(term_ranked(acc[i], rank));
                assert(acc[i].coeff.1 * t.coeff.1 > 0) by (nonlinear_arith)
                    requires
                        acc[i].coeff.1 > 0,
                        t.coeff.1 > 0,
                ;
                lemma_reduce(acc[i].coeff.0 * t.coeff.1 + t.coeff.0 * acc[i].coeff.1, acc[i].coeff.1 * t.coeff.1);
                assert forall|k: int| 0 <= k < r.len() implies term_ranked(#[trigger] r[k], rank) by {
                    if k != i {
                        assert(r[k] == acc[k]);
                    }
                }
            } else {
                assert forall|k: int| 0 <= k < r.len() implies term_ranked(#[trigger] r[k], rank) by {
                    if k < i {
                        assert(r[k] == acc[k]);
                    } else if k > i {
                        assert(r[k] == acc[k - 1]);
                    }
                }
            }
        },
        None => {
            assert forall|k: int| 0 <= k < r.len() implies term_ranked(#[trigger] r[k], rank) by {
                if k < acc.len() {
                    assert(r[k] == acc[k]);
                }
            }
        },
    }
}

/// Merging a term whose body `acc` already holds, in the member `e`.
proof fn lemma_merge_found(acc: Seq<TermModel>, t: TermModel, e: TermModel)
    requires
        bodies_ascending(acc),
        acc.contains(e),
        e.factors == t.factors,
    ensures
        forall|x: TermModel| #[trigger] merge_term(acc, t).contains(x) <==> (x == absorb(e, t) || (acc.contains(x) && x != e)),
{
    let i = choose|i: int| 0 <= i < acc.len() && acc[i] == e;
    let p = not_before(acc, t);
    lemma_body_reflexive(t.factors);
    assert forall|k: int| 0 <= k < i implies !#[trigger] p(k) by {
        assert(body_order(acc[k].factors, acc[i].factors) == Order::Less);
    }
    lemma_first_found(i, acc.len() as int, p);
    let r = merge_term(acc, t);
    assert(r == acc.update(i, absorb(e, t)));
    assert forall|x: TermModel| #[trigger] r.contains(x) <==> (x == absorb(e, t) || (acc.contains(x) && x != e)) by {
        if r.contains(x) {
            let k = choose|k: int| 0 <= k < r.len() && r[k] == x;
            if k != i {
                assert(acc[k] == x);
                lemma_ascending_distinct(acc, i, k);
            }
        }
        if x == absorb(e, t) {
            assert(r[i] == x);
        }
        if acc.contains(x) && x != e {
            let k = choose|k: int| 0 <= k < acc.len() && acc[k] == x;
            assert(k != i);
            assert(r[k] == x);
        }
    }
}

/// Merging a term whose body `acc` does not hold adds it.
proof fn lemma_merge_new(acc: Seq<TermModel>, t: TermModel, rank: spec_fn(TensorId) -> nat)
    requires
        bodies_ascending(acc),
        all_ranked(acc, rank),
        term_ranked(t, rank),
        forall|k: int| 0 <= k < acc.len() ==> (#[trigger] acc[k]).factors != t.factors,
    ensures
        forall|x: TermModel| #[trigger] merge_term(acc, t).contains(x) <==> (x == t || acc.contains(x)),
{
    let p = not_before(acc, t);
    lemma_first_match_ensures(acc.len() as int, p);
    let r = merge_term(acc, t);
    match first_match(acc.len() as int, p) {
        Some(i) => {
            if body_order(acc[i].factors, t.factors) == Order::Equal {
                assert(term_ranked(acc[i], rank));
                lemma_ranked_tie(acc[i].factors, t.factors, rank);
            }
            assert(r == acc.insert(i, t));
            assert forall|x: TermModel| #[trigger] r.contains(x) <==> (x == t || acc.contains(x)) by {
                if r.contains(x) {
                    let k = choose|k: int| 0 <= k < r.len() && r[k] == x;
                    if k < i {
                        assert(acc[k] == x);
                    } else if k > i {
                        assert(acc[k - 1] == x);
                    }
                }
                if x == t {
                    assert(r[i] == x);
                }
                if acc.contains(x) {
                    let k = choose|k: int| 0 <= k < acc.len() && acc[k] == x;
                    if k < i {
                        assert(r[k] == x);
                    } else {
                        assert(r[k + 1] == x);
                    }
                }
            }
        },
        None => {
            assert(r == acc.push(t));
            assert forall|x: TermModel| #[trigger] r.contains(x) <==> (x == t || acc.contains(x)) by {
                if r.contains(x) {
                    let k = choose|k: int| 0 <= k < r.len() && r[k] == x;
                    if k < acc.len() {
                        assert(acc[k] == x);
                    }
                }
                if x == t {
                    assert(r[acc.len() as int] == x);
                }
                if acc.contains(x) {
                    let k = choose|k: int| 0 <= k < acc.len() && acc[k] == x;
                    assert(r[k] == x);
                }
            }
        },
    }
}

/// The member of `acc` with body `b`, if any.
spec fn holds_body(acc: Seq<TermModel>, b: Seq<FactorModel>) -> bool {
    exists|k: int| 0 <= k < acc.len() && (#[trigger] acc[k]).factors == b
}

/// What merging `t` into `acc` leaves: members given by the merge's effect.
spec fn merged_members(acc: Seq<TermModel>, t: TermModel, x: TermModel) -> bool {
    if holds_body(acc, t.factors) {
        let e = acc[choose|k: int| 0 <= k < acc.len() && (#[trigger] acc[k]).factors == t.factors];
        x == absorb(e, t) || (acc.contains(x) && x != e)
    } else {
        x == t || acc.contains(x)
    }
}

/// Merging `t` has the members `merged_members` describes, keeps bodies
/// ascending and terms ranked.
proof fn lemma_merge_members(acc: Seq<TermModel>, t: TermModel, rank: spec_fn(TensorId) -> nat)
    requires
        bodies_ascending(acc),
        all_ranked(acc, rank),
        term_ranked(t, rank),
    ensures
        bodies_ascending(merge_term(acc, t)),
        all_ranked(merge_term(acc, t), rank),
        forall|x: TermModel| #[trigger] merge_term(acc, t).contains(x) <==> merged_members(acc, t, x),
{
    lemma_merge_ok(acc, t, rank);
    if holds_body(acc, t.factors) {
        let k = choose|k: int| 0 <= k < acc.len() && (#[trigger] acc[k]).factors == t.factors;
        assert(acc.contains(acc[k]));
        lemma_merge_found(acc, t, acc[k]);
    } else {
        lemma_merge_new(acc, t, rank);
    }
}

/// The member of `acc` with body `b`, when it holds one, is unique.
proof fn lemma_body_member(acc: Seq<TermModel>, x: TermModel, e: TermModel)
    requires
        bodies_ascending(acc),
        acc.contains(x),
        acc.contains(e),
        x.factors == e.factors,
    ensures
        x == e,
{
    let i = choose|i: int| 0 <= i < acc.len() && acc[i] == x;
    let j = choose|j: int| 0 <= j < acc.len() && acc[j] == e;
    if i != j {
        lemma_ascending_distinct(acc, i, j);
    }
}

/// Merging two terms gives the same list in either order.
pub proof fn lemma_merge_commutes(acc: Seq<TermModel>, a: TermModel, b: TermModel, rank: spec_fn(TensorId) -> nat)
    requires
        bodies_ascending(acc),
        all_ranked(acc, rank),
        term_ranked(a, rank),
        term_ranked(b, rank),
    ensures
        merge_term(merge_term(acc, a), b) == merge_term(merge_term(acc, b), a),
{
    let acc_a = merge_term(acc, a);
    let acc_b = merge_term(acc, b);
    lemma_merge_members(acc, a, rank);
    lemma_merge_members(acc, b, rank);
    lemma_merge_members(acc_a, b, rank);
    lemma_merge_members(acc_b, a, rank);
    let ab = merge_term(acc_a, b);
    let ba = merge_term(acc_b, a);
    let fa = holds_body(acc, a.factors);
    let fb = holds_body(acc, b.factors);
    let ea = acc[choose|k: int| 0 <= k < acc.len() && (#[trigger] acc[k]).factors == a.factors];
    let eb = acc[choose|k: int| 0 <= k < acc.len() && (#[trigger] acc[k]).factors == b.factors];
    if fa {
        let k = choose|k: int| 0 <= k < acc.len() && (#[trigger] acc[k]).factors == a.factors;
        assert(acc.contains(ea) && ea.factors == a.factors);
    }
    if fb {
        let k = choose|k: int| 0 <= k < acc.len() && (#[trigger] acc[k]).factors == b.factors;
        assert(acc.contains(eb) && eb.factors == b.factors);
    }
    // Who holds which body after the first merge.
    let na = if fa { absorb(ea, a) } else { a };
    let nb = if fb { absorb(eb, b) } else { b };
    assert(acc_a.contains(na));
    assert(acc_b.contains(nb));
    if a.factors != b.factors {
        // The second merge finds the same member it would have found in `acc`.
        if fb {
            assert(eb != ea || !fa);
            assert(acc_a.contains(eb));
            assert(holds_body(acc_a, b.factors)) by {
                let k = choose|k: int| 0 <= k < acc_a.len() && acc_a[k] == eb;
                assert(acc_a[k].factors == b.factors);
            }
            let k2 = choose|k: int| 0 <= k < acc_a.len() && (#[trigger] acc_a[k]).factors == b.factors;
            assert(acc_a.contains(acc_a[k2]));
            assert(acc_a[k2] == eb) by {
                let x = acc_a[k2];
                if fa && x == absorb(ea, a) {
                } else if !fa && x == a {
                } else {
                    lemma_body_member(acc, x, eb);
                }
            }
        } else {
            assert(!holds_body(acc_a, b.factors)) by {
                if holds_body(acc_a, b.factors) {
                    let k2 = choose|k: int| 0 <= k < acc_a.len() && (#[trigger] acc_a[k]).factors == b.factors;
                    assert(acc_a.contains(acc_a[k2]));
                    let x = acc_a[k2];
                    if fa && x == absorb(ea, a) {
                    } else if !fa && x == a {
                    } else {
                        assert(acc.contains(x));
                        let m = choose|m: int| 0 <= m < acc.len() && acc[m] == x;
                        assert(acc[m].factors == b.factors);
                    }
                }
            }
        }
        if fa {
            assert(ea != eb || !fb);
            assert(acc_b.contains(ea));
            assert(holds_body(acc_b, a.factors)) by {
                let k = choose|k: int| 0 <= k < acc_b.len() && acc_b[k] == ea;
                assert(acc_b[k].factors == a.factors);
            }
            let k2 = choose|k: int| 0 <= k < acc_b.len() && (#[trigger] acc_b[k]).factors == a.factors;
            assert(acc_b.contains(acc_b[k2]));
            assert(acc_b[k2] == ea) by {
                let x = acc_b[k2];
                if fb && x == absorb(eb, b) {
                } else if !fb && x == b {
                } else {
                    lemma_body_member(acc, x, ea);
                }
            }
        } else {
            assert(!holds_body(acc_b, a.factors)) by {
                if holds_body(acc_b, a.factors) {
                    let k2 = choose|k: int| 0 <= k < acc_b.len() && (#[trigger] acc_b[k]).factors == a.factors;
                    assert(acc_b.contains(acc_b[k2]));
                    let x = acc_b[k2];
                    if fb && x == absorb(eb, b) {
                    } else if !fb && x == b {
                    } else {
                        assert(acc.contains(x));
                        let m = choose|m: int| 0 <= m < acc.len() && acc[m] == x;
                        assert(acc[m].factors == a.factors);
                    }
                }
            }
        }
        assert forall|x: TermModel| ab.contains(x) <==> ba.contains(x) by {
            assert(ab.contains(x) <==> merged_members(acc_a, b, x));
            assert(ba.contains(x) <==> merged_members(acc_b, a, x));
            assert(acc_a.contains(x) <==> merged_members(acc, a, x));
            assert(acc_b.contains(x) <==> merged_members(acc, b, x));
        }
    } else {
        // Both merges land on one body.
        assert(holds_body(acc_a, b.factors)) by {
            let k = choose|k: int| 0 <= k < acc_a.len() && acc_a[k] == na;
            assert(acc_a[k].factors == b.factors);
        }
        assert(holds_body(acc_b, a.factors)) by {
            let k = choose|k: int| 0 <= k < acc_b.len() && acc_b[k] == nb;
            assert(acc_b[k].factors == a.factors);
        }
        let k1 = choose|k: int| 0 <= k < acc_a.len() && (#[trigger] acc_a[k]).factors == b.factors;
        let k2 = choose|k: int| 0 <= k < acc_b.len() && (#[trigger] acc_b[k]).factors == a.factors;
        assert(acc_a.contains(acc_a[k1]));
        assert(acc_b.contains(acc_b[k2]));
        lemma_body_member(acc_a, acc_a[k1], na);
        lemma_body_member(acc_b, acc_b[k2], nb);
        if fa {
            assert(ea == eb);
            assert(term_ranked(ea, rank)) by {
                let m = choose|m: int| 0 <= m < acc.len() && acc[m] == ea;
                assert(term_ranked(acc[m], rank));
            }
            lemma_rat_add_right_commutes(ea.coeff, a.coeff, b.coeff);
            assert(absorb(absorb(ea, a), b) == absorb(absorb(ea, b), a));
        } else {
            lemma_rat_add_commutes(a.coeff, b.coeff);
            assert(absorb(a, b) == absorb(b, a));
        }
        assert forall|x: TermModel| ab.contains(x) <==> ba.contains(x) by {
            assert(ab.contains(x) <==> merged_members(acc_a, b, x));
            assert(ba.contains(x) <==> merged_members(acc_b, a, x));
            assert(acc_a.contains(x) <==> merged_members(acc, a, x));
            assert(acc_b.contains(x) <==> merged_members(acc, b, x));
            if acc.contains(x) && fa && x.factors == a.factors {
                lemma_body_member(acc, x, ea);
            }
            if acc.contains(x) && !fa && x.factors == a.factors {
                let m = choose|m: int| 0 <= m < acc.len() && acc[m] == x;
                assert(acc[m].factors == a.factors);
            }
        }
    }
    lemma_sorted_unique(ab, ba);
}

// ---------------------------------------------------------------------------
// Canonical forms merged term by term.
// ---------------------------------------------------------------------------

/// The canonical forms of the terms `ts`, merged by body.
pub open spec fn merged_canonical(
    ts: Seq<TermModel>,
    out: Seq<Index>,
    symmetries: Seq<(TensorId, Vec<SymmetryGenerator>)>,
) -> Seq<TermModel> {
    merge_terms(canonical_terms(ts, out, symmetries))
}

/// Merges the canonical form of `t`, if it has one, into `acc`.
pub open spec fn merge_canonical(
    acc: Seq<TermModel>,
    t: TermModel,
    out: Seq<Index>,
    symmetries: Seq<(TensorId, Vec<SymmetryGenerator>)>,
) -> Seq<TermModel> {
    match canonical_term(t, out, symmetries) {
        Some(c) => merge_term(acc, c),
        None => acc,
    }
}

/// Every term of `ts` is ranked by `rank`, with its coefficient in lowest
/// terms, and the symmetries fit its factors.
pub open spec fn terms_fit(
    ts: Seq<TermModel>,
    symmetries: Seq<(TensorId, Vec<SymmetryGenerator>)>,
    rank: spec_fn(TensorId) -> nat,
) -> bool {
    forall|x: TermModel| #[trigger] ts.contains(x) ==> term_ranked(x, rank) && symmetries_fit(x.factors, symmetries)
}

/// The canonical form of a ranked term is ranked alike.
proof fn lemma_canonical_ranked(
    t: TermModel,
    out: Seq<Index>,
    symmetries: Seq<(TensorId, Vec<SymmetryGenerator>)>,
    rank: spec_fn(TensorId) -> nat,
)
    requires
        term_ranked(t, rank),
        symmetries_fit(t.factors, symmetries),
    ensures
        canonical_term(t, out, symmetries) matches Some(c) ==> term_ranked(c, rank),
{
    if canonical_term(t, out, symmetries) is Some {
        let fs = t.factors;
        let pt = |b: Seq<FactorModel>| is_least_candidate(fs, out, symmetries, b);
        let b0 = choose|b: Seq<FactorModel>| is_least_candidate(fs, out, symmetries, b);
        assert(pt(b0));
        assert(least_candidate(fs, out, symmetries) == some_body(pt));
        let b = least_candidate(fs, out, symmetries);
        assert(pt(b));
        let s = choose|s: int| is_candidate(fs, out, symmetries, (b, s));
        let (c, o) = choose|c: (Seq<FactorModel>, int), o: Seq<usize>|
            is_choice(fs, symmetries, c) && valid_order(fs, o) && #[trigger] candidate_of(c, o, out) == (b, s);
        lemma_choice_shape(fs, symmetries, c);
        let ordered = apply_order(o, c.0);
        assert(b == normalize(ordered, out));
        assert forall|j: int| 0 <= j < b.len() implies (#[trigger] b[j]).indices.len() == rank(b[j].tensor) by {
            assert(o[j] < fs.len());
            assert(ordered[j] == c.0[o[j] as int]);
            assert(b[j].tensor == ordered[j].tensor);
            assert(b[j].indices.len() == ordered[j].indices.len());
        }
        assert(is_reduced(rat_neg(t.coeff)) == is_reduced(t.coeff));
    }
}

/// Merging the canonical forms of one more term.
proof fn lemma_merged_push(
    ts: Seq<TermModel>,
    t: TermModel,
    out: Seq<Index>,
    symmetries: Seq<(TensorId, Vec<SymmetryGenerator>)>,
)
    ensures
        merged_canonical(ts.push(t), out, symmetries) == merge_canonical(merged_canonical(ts, out, symmetries), t, out, symmetries),
{
    assert(ts.push(t).drop_last() =~= ts);
    let cs = canonical_terms(ts, out, symmetries);
    match canonical_term(t, out, symmetries) {
        Some(c) => {
            assert(canonical_terms(ts.push(t), out, symmetries) == cs.push(c));
            assert(cs.push(c).drop_last() =~= cs);
        },
        None => {},
    }
}

/// Merged canonical forms have strictly ascending bodies and are ranked.
proof fn lemma_merged_ok(
    ts: Seq<TermModel>,
    out: Seq<Index>,
    symmetries: Seq<(TensorId, Vec<SymmetryGenerator>)>,
    rank: spec_fn(TensorId) -> nat,
)
    requires
        terms_fit(ts, symmetries, rank),
    ensures
        bodies_ascending(merged_canonical(ts, out, symmetries)),
        all_ranked(merged_canonical(ts, out, symmetries), rank),
    decreases ts.len(),
{
    if ts.len() == 0 {
    } else {
        let front = ts.drop_last();
        let t = ts.last();
        assert(front.push(t) =~= ts);
        assert forall|x: TermModel| #[trigger] front.contains(x) implies term_ranked(x, rank) && symmetries_fit(x.factors, symmetries) by {
            let k = choose|k: int| 0 <= k < front.len() && front[k] == x;
            assert(ts[k] == x);
            assert(ts.contains(x));
        }
        lemma_merged_ok(front, out, symmetries, rank);
        lemma_merged_push(front, t, out, symmetries);
        assert(ts.contains(t)) by {
            assert(ts[ts.len() - 1] == t);
        }
        lemma_canonical_ranked(t, out, symmetries, rank);
        if let Some(c) = canonical_term(t, out, symmetries) {
            lemma_merge_ok(merged_canonical(front, out, symmetries), c, rank);
        }
    }
}

/// `s` with the terms at `j` and `j + 1` swapped.
pub open spec fn swap_next<A>(s: Seq<A>, j: int) -> Seq<A> {
    s.update(j, s[j + 1]).update(j + 1, s[j])
}

/// Swapping neighbours keeps the members.
proof fn lemma_swap_members<A>(s: Seq<A>, j: int)
    requires
        0 <= j < s.len() - 1,
    ensures
        forall|x: A| #[trigger] swap_next(s, j).contains(x) <==> s.contains(x),
{
    let r = swap_next(s, j);
    assert forall|x: A| #[trigger] r.contains(x) <==> s.contains(x) by {
        if r.contains(x) {
            let k = choose|k: int| 0 <= k < r.len() && r[k] == x;
            if k == j {
                assert(s[j + 1] == x);
            } else if k == j + 1 {
                assert(s[j] == x);
            } else {
                assert(s[k] == x);
            }
        }
        if s.contains(x) {
            let k = choose|k: int| 0 <= k < s.len() && s[k] == x;
            if k == j {
                assert(r[j + 1] == x);
            } else if k == j + 1 {
                assert(r[j] == x);
            } else {
                assert(r[k] == x);
            }
        }
    }
}

/// Terms in a sublist of fitting terms fit.
proof fn lemma_fit_sub(
    ts: Seq<TermModel>,
    us: Seq<TermModel>,
    symmetries: Seq<(TensorId, Vec<SymmetryGenerator>)>,
    rank: spec_fn(TensorId) -> nat,
)
    requires
        terms_fit(ts, symmetries, rank),
        forall|x: TermModel| #[trigger] us.contains(x) ==> ts.contains(x),
    ensures
        terms_fit(us, symmetries, rank),
{
}

/// Swapping neighbouring terms keeps the merged canonical forms.
proof fn lemma_merged_swap(
    ts: Seq<TermModel>,
    j: int,
    out: Seq<Index>,
    symmetries: Seq<(TensorId, Vec<SymmetryGenerator>)>,
    rank: spec_fn(TensorId) -> nat,
)
    requires
        0 <= j < ts.len() - 1,
        terms_fit(ts, symmetries, rank),
    ensures
        merged_canonical(swap_next(ts, j), out, symmetries) == merged_canonical(ts, out, symmetries),
    decreases ts.len(),
{
    let r = swap_next(ts, j);
    let front = ts.drop_last();
    assert forall|x: TermModel| #[trigger] front.contains(x) implies ts.contains(x) by {
        let k = choose|k: int| 0 <= k < front.len() && front[k] == x;
        assert(ts[k] == x);
    }
    assert(front.push(ts.last()) =~= ts);
    if j + 1 == ts.len() - 1 {
        let base = front.drop_last();
        assert forall|x: TermModel| #[trigger] base.contains(x) implies ts.contains(x) by {
            let k = choose|k: int| 0 <= k < base.len() && base[k] == x;
            assert(ts[k] == x);
        }
        lemma_fit_sub(ts, base, symmetries, rank);
        let a = ts[j];
        let b = ts[j + 1];
        assert(base.push(a).push(b) =~= ts);
        assert(base.push(b).push(a) =~= r);
        lemma_merged_push(base.push(a), b, out, symmetries);
        lemma_merged_push(base, a, out, symmetries);
        lemma_merged_push(base.push(b), a, out, symmetries);
        lemma_merged_push(base, b, out, symmetries);
        lemma_merged_ok(base, out, symmetries, rank);
        assert(ts.contains(a) && ts.contains(b)) by {
            assert(ts[j] == a && ts[j + 1] == b);
        }
        lemma_canonical_ranked(a, out, symmetries, rank);
        lemma_canonical_ranked(b, out, symmetries, rank);
        let acc = merged_canonical(base, out, symmetries);
        if let (Some(ca), Some(cb)) = (canonical_term(a, out, symmetries), canonical_term(b, out, symmetries)) {
            lemma_merge_commutes(acc, ca, cb, rank);
        }
    } else {
        lemma_fit_sub(ts, front, symmetries, rank);
        lemma_merged_swap(front, j, out, symmetries, rank);
        assert(swap_next(front, j).push(ts.last()) =~= r);
        lemma_merged_push(front, ts.last(), out, symmetries);
        lemma_merged_push(swap_next(front, j), ts.last(), out, symmetries);
    }
}

/// Moving a term to the end keeps the merged canonical forms.
proof fn lemma_merged_move_last(
    ts: Seq<TermModel>,
    j: int,
    out: Seq<Index>,
    symmetries: Seq<(TensorId, Vec<SymmetryGenerator>)>,
    rank: spec_fn(TensorId) -> nat,
)
    requires
        0 <= j < ts.len(),
        terms_fit(ts, symmetries, rank),
    ensures
        merged_canonical(ts.remove(j).push(ts[j]), out, symmetries) == merged_canonical(ts, out, symmetries),
    decreases ts.len() - j,
{
    if j == ts.len() - 1 {
        assert(ts.remove(j).push(ts[j]) =~= ts);
    } else {
        let r = swap_next(ts, j);
        lemma_merged_swap(ts, j, out, symmetries, rank);
        lemma_swap_members(ts, j);
        lemma_fit_sub(ts, r, symmetries, rank);
        lemma_merged_move_last(r, j + 1, out, symmetries, rank);
        assert(r.remove(j + 1).push(r[j + 1]) =~= ts.remove(j).push(ts[j]));
    }
}

/// Lists of terms with the same members, counted with multiplicity, merge to
/// the same canonical forms.
proof fn lemma_merged_multiset(
    s1: Seq<TermModel>,
    s2: Seq<TermModel>,
    out: Seq<Index>,
    symmetries: Seq<(TensorId, Vec<SymmetryGenerator>)>,
    rank: spec_fn(TensorId) -> nat,
)
    requires
        s1.to_multiset() == s2.to_multiset(),
        terms_fit(s1, symmetries, rank),
    ensures
        merged_canonical(s1, out, symmetries) == merged_canonical(s2, out, symmetries),
    decreases s1.len(),
{
    broadcast use vstd::seq_lib::group_to_multiset_ensures;

    assert forall|x: TermModel| #[trigger] s2.contains(x) implies s1.contains(x) by {
        assert(s2.to_multiset().count(x) > 0);
    }
    lemma_fit_sub(s1, s2, symmetries, rank);
    if s1.len() == 0 {
        assert(s1.len() == s1.to_multiset().len());
        assert(s2.len() == s2.to_multiset().len());
        assert(s1 =~= s2);
    } else {
        let x = s1.last();
        let front = s1.drop_last();
        assert(front.push(x) =~= s1);
        assert(s1.contains(x)) by {
            assert(s1[s1.len() - 1] == x);
        }
        assert(s2.to_multiset().count(x) > 0);
        assert(s2.contains(x));
        let j = choose|j: int| 0 <= j < s2.len() && s2[j] == x;
        let rest = s2.remove(j);
        assert(rest.to_multiset() == s2.to_multiset().remove(x));
        assert(s1.to_multiset() == front.to_multiset().insert(x));
        assert(front.to_multiset() =~= rest.to_multiset());
        assert forall|y: TermModel| #[trigger] front.contains(y) implies s1.contains(y) by {
            let k = choose|k: int| 0 <= k < front.len() && front[k] == y;
            assert(s1[k] == y);
        }
        lemma_fit_sub(s1, front, symmetries, rank);
        lemma_merged_multiset(front, rest, out, symmetries, rank);
        lemma_merged_move_last(s2, j, out, symmetries, rank);
        lemma_merged_push(front, x, out, symmetries);
        lemma_merged_push(rest, x, out, symmetries);
    }
}

/// Canonical forms do not depend on the order of a polynomial's terms, when
/// each tensor has one rank throughout the polynomial (`rank`) and every
/// coefficient is in lowest terms.
pub proof fn lemma_canonical_poly_term_order(
    p: PolyModel,
    q: PolyModel,
    symmetries: Seq<(TensorId, Vec<SymmetryGenerator>)>,
    rank: spec_fn(TensorId) -> nat,
)
    requires
        q.output == p.output,
        q.terms.to_multiset() == p.terms.to_multiset(),
        forall|k: int| 0 <= k < p.terms.len() ==> term_ranked(#[trigger] p.terms[k], rank) && symmetries_fit(p.terms[k].factors, symmetries),
    ensures
        canonical_poly(q, symmetries) == canonical_poly(p, symmetries),
{
    assert forall|x: TermModel| #[trigger] p.terms.contains(x) implies term_ranked(x, rank) && symmetries_fit(x.factors, symmetries) by {
        let k = choose|k: int| 0 <= k < p.terms.len() && p.terms[k] == x;
        assert(term_ranked(p.terms[k], rank));
        assert(symmetries_fit(p.terms[k].factors, symmetries));
    }
    lemma_merged_multiset(p.terms, q.terms, p.output, symmetries, rank);
}

} // verus!
