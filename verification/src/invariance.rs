//! What canonical forms do not depend on.

use vstd::prelude::*;

use crate::canon::{
    apply_order, canonical_poly, canonical_term, canonical_terms, candidate_of, has_least_candidate, choice_by, generators_of, is_candidate, is_choice, is_least_candidate,
    is_perm, least_candidate, lemma_choice_sign, normalize, output_pairs, sign_product, some_body, symmetries_fit, valid_order,
};
use crate::expand::{
    lemma_visit_factors, pairs_map, rename_factors, rename_visit, rename_visit_all, rename_visit_factors, FactorModel, Index,
    PolyModel, RenameState, TermModel,
};
use crate::model::{SymmetryGenerator, TensorId};
use crate::rational::rat_neg;
use crate::symmetry::{
    apply_generator, gen_ok, gens_ok, gens_permute, is_variant, is_word, lemma_variants_after_generator, lemma_word_elem_ok,
    permute, variant_by, word_elem,
};

verus! {

// ---------------------------------------------------------------------------
// Permutations.
// ---------------------------------------------------------------------------

/// The inverse of the permutation `p`: position `j` holds where `p` sends `j` from.
pub open spec fn inverse(p: Seq<usize>) -> Seq<usize> {
    Seq::new(p.len(), |j: int| (choose|k: int| 0 <= k < p.len() && p[k] == j as usize) as usize)
}

/// The inverse of a permutation is a permutation that undoes it.
pub proof fn lemma_inverse(p: Seq<usize>, n: nat)
    requires
        is_perm(p, n),
        n <= usize::MAX,
    ensures
        is_perm(inverse(p), n),
        forall|j: int| 0 <= j < n ==> p[#[trigger] inverse(p)[j] as int] == j as usize,
        forall|k: int| 0 <= k < n ==> inverse(p)[#[trigger] p[k] as int] == k as usize,
{
    let q = inverse(p);
    assert forall|j: int| 0 <= j < n implies (#[trigger] q[j]) < n && p[q[j] as int] == j as usize by {
        assert(p.contains(j as usize));
        let k = choose|k: int| 0 <= k < p.len() && p[k] == j as usize;
    }
    assert forall|k: int| 0 <= k < n implies q[#[trigger] p[k] as int] == k as usize by {
        let j = p[k] as int;
        assert(p[q[j] as int] == j as usize);
        if q[j] as int != k {
            assert(p[q[j] as int] != p[k]);
        }
    }
    assert(q.no_duplicates()) by {
        assert forall|a: int, b: int| 0 <= a < q.len() && 0 <= b < q.len() && a != b implies q[a] != q[b] by {
            assert(p[q[a] as int] == a as usize);
            assert(p[q[b] as int] == b as usize);
        }
    }
    assert forall|k: int| 0 <= k < n implies #[trigger] q.contains(k as usize) by {
        assert(q[p[k] as int] == k as usize);
    }
}

proof fn lemma_product_remove(s: Seq<int>, j: int)
    requires
        0 <= j < s.len(),
    ensures
        sign_product(s) == sign_product(s.remove(j)) * s[j],
    decreases s.len(),
{
    if j < s.len() - 1 {
        assert(s.remove(j).drop_last() =~= s.drop_last().remove(j));
        lemma_product_remove(s.drop_last(), j);
        assert(s.remove(j).last() == s.last());
        let a = sign_product(s.drop_last().remove(j));
        let x = s[j];
        let y = s.last();
        assert((a * x) * y == (a * y) * x) by (nonlinear_arith);
    } else {
        assert(s.remove(j) =~= s.drop_last());
    }
}

/// Permuting a list of signs keeps their product.
pub proof fn lemma_product_perm(l: Seq<int>, o: Seq<usize>)
    requires
        l.len() <= usize::MAX,
        is_perm(o, l.len()),
    ensures
        sign_product(apply_order(o, l)) == sign_product(l),
    decreases l.len(),
{
    let n = l.len();
    if n > 0 {
        let last = (n - 1) as usize;
        assert(o.contains(last));
        let j = choose|j: int| 0 <= j < o.len() && o[j] == last;
        let o2 = o.remove(j);
        let l2 = l.drop_last();
        assert forall|k: int| 0 <= k < o2.len() implies (#[trigger] o2[k]) < (n - 1) as nat by {
            if k < j {
                assert(o2[k] == o[k]);
                assert(o[k] != o[j]);
            } else {
                assert(o2[k] == o[k + 1]);
                assert(o[k + 1] != o[j]);
            }
        }
        assert(o2.no_duplicates()) by {
            assert forall|x: int, y: int| 0 <= x < o2.len() && 0 <= y < o2.len() && x != y implies o2[x] != o2[y] by {
                let x1 = if x < j { x } else { x + 1 };
                let y1 = if y < j { y } else { y + 1 };
                assert(o2[x] == o[x1]);
                assert(o2[y] == o[y1]);
            }
        }
        assert forall|p: int| 0 <= p < n - 1 implies #[trigger] o2.contains(p as usize) by {
            assert(o.contains(p as usize));
            let k = choose|k: int| 0 <= k < o.len() && o[k] == p as usize;
            if k < j {
                assert(o2[k] == o[k]);
            } else {
                assert(k != j);
                assert(o2[k - 1] == o[k]);
            }
        }
        lemma_product_perm(l2, o2);
        let m = apply_order(o, l);
        let m2 = apply_order(o2, l2);
        assert(m.remove(j) =~= m2) by {
            assert forall|k: int| 0 <= k < m2.len() implies m.remove(j)[k] == m2[k] by {
                if k < j {
                    assert(o2[k] == o[k]);
                } else {
                    assert(o2[k] == o[k + 1]);
                }
            }
        }
        lemma_product_remove(m, j);
        assert(m[j] == l.last());
    }
}

// ---------------------------------------------------------------------------
// Reordering factors.
// ---------------------------------------------------------------------------

/// Every candidate of reordered factors is a candidate of the factors.
proof fn lemma_candidates_of_reordered(
    fs: Seq<FactorModel>,
    out: Seq<Index>,
    symmetries: Seq<(TensorId, Vec<SymmetryGenerator>)>,
    p: Seq<usize>,
    x: (Seq<FactorModel>, int),
)
    requires
        fs.len() <= usize::MAX,
        is_perm(p, fs.len()),
        is_candidate(apply_order(p, fs), out, symmetries, x),
    ensures
        is_candidate(fs, out, symmetries, x),
{
    let n = fs.len();
    let moved = apply_order(p, fs);
    lemma_inverse(p, n);
    let q = inverse(p);
    let (c2, o2) = choose|c: (Seq<FactorModel>, int), o: Seq<usize>|
        is_choice(moved, symmetries, c) && valid_order(moved, o) && #[trigger] candidate_of(c, o, out) == x;
    let signs2 = choose|signs: Seq<int>| #[trigger] choice_by(moved, symmetries, c2.0, signs) && c2.1 == sign_product(signs);
    let vs = apply_order(q, c2.0);
    let signs = apply_order(q, signs2);
    let c = (vs, c2.1);
    let o = apply_order(o2, p);
    // The same body arises.
    assert(apply_order(o, c.0) =~= apply_order(o2, c2.0)) by {
        assert forall|k: int| 0 <= k < o.len() implies #[trigger] apply_order(o, c.0)[k] == apply_order(o2, c2.0)[k] by {
            let m = o2[k] as int;
            assert(m < n);
            assert(o[k] == p[m]);
            assert(q[p[m] as int] == m as usize);
        }
    }
    assert(candidate_of(c, o, out) == x);
    // The order is valid for the original factors.
    assert(valid_order(fs, o)) by {
        assert forall|k: int| 0 <= k < o.len() implies (#[trigger] o[k]) < fs.len() by {
            assert(o2[k] < n);
        }
        assert(o.no_duplicates()) by {
            assert forall|a: int, b: int| 0 <= a < o.len() && 0 <= b < o.len() && a != b implies o[a] != o[b] by {
                assert(o2[a] != o2[b]);
                assert(q[p[o2[a] as int] as int] == o2[a]);
                assert(q[p[o2[b] as int] as int] == o2[b]);
            }
        }
        assert forall|j: int| 0 <= j < fs.len() implies #[trigger] o.contains(j as usize) by {
            let m = q[j];
            assert(p[m as int] == j as usize);
            assert(o2.contains(m));
            let k = choose|k: int| 0 <= k < o2.len() && o2[k] == m;
            assert(o[k] == j as usize);
        }
        assert forall|a: int, b: int| 0 <= a < b < o.len() implies fs[#[trigger] o[a] as int].tensor.0 <= fs[#[trigger] o[b] as int].tensor.0 by {
            assert(moved[o2[a] as int] == fs[o[a] as int]);
            assert(moved[o2[b] as int] == fs[o[b] as int]);
        }
    }
    // The choice is a choice for the original factors.
    assert(choice_by(fs, symmetries, c.0, signs)) by {
        assert forall|j: int| 0 <= j < fs.len() implies crate::symmetry::is_variant(
            fs[j],
            generators_of(symmetries, fs[j].tensor),
            (#[trigger] c.0[j], signs[j]),
        ) by {
            let m = q[j] as int;
            assert(p[m] == j as usize);
            assert(moved[m] == fs[j]);
            assert(c.0[j] == c2.0[m]);
            assert(signs[j] == signs2[m]);
            assert(crate::symmetry::is_variant(moved[m], generators_of(symmetries, moved[m].tensor), (c2.0[m], signs2[m])));
        }
    }
    assert(signs2.len() == n);
    lemma_product_perm(signs2, q);
    assert(choice_by(fs, symmetries, c.0, signs) && c.1 == sign_product(signs));
    assert(is_choice(fs, symmetries, c));
}

/// Reordering factors by a permutation keeps the set of candidates.
pub proof fn lemma_candidates_reorder(
    fs: Seq<FactorModel>,
    out: Seq<Index>,
    symmetries: Seq<(TensorId, Vec<SymmetryGenerator>)>,
    p: Seq<usize>,
)
    requires
        fs.len() <= usize::MAX,
        is_perm(p, fs.len()),
    ensures
        forall|x: (Seq<FactorModel>, int)| #[trigger] is_candidate(apply_order(p, fs), out, symmetries, x)
            <==> is_candidate(fs, out, symmetries, x),
{
    let n = fs.len();
    lemma_inverse(p, n);
    let q = inverse(p);
    let moved = apply_order(p, fs);
    assert(apply_order(q, moved) =~= fs) by {
        assert forall|j: int| 0 <= j < n implies #[trigger] apply_order(q, moved)[j] == fs[j] by {
            assert(p[q[j] as int] == j as usize);
        }
    }
    assert forall|x: (Seq<FactorModel>, int)| #[trigger] is_candidate(moved, out, symmetries, x)
        <==> is_candidate(fs, out, symmetries, x) by {
        if is_candidate(moved, out, symmetries, x) {
            lemma_candidates_of_reordered(fs, out, symmetries, p, x);
        }
        if is_candidate(fs, out, symmetries, x) {
            lemma_candidates_of_reordered(moved, out, symmetries, q, x);
        }
    }
}

/// Terms with the same coefficient and the same candidates have the same
/// canonical form.
pub proof fn lemma_same_candidates(
    t: TermModel,
    u: TermModel,
    out: Seq<Index>,
    symmetries: Seq<(TensorId, Vec<SymmetryGenerator>)>,
)
    requires
        t.coeff == u.coeff,
        forall|x: (Seq<FactorModel>, int)| #[trigger] is_candidate(t.factors, out, symmetries, x)
            <==> is_candidate(u.factors, out, symmetries, x),
    ensures
        canonical_term(t, out, symmetries) == canonical_term(u, out, symmetries),
{
    let pt = |b: Seq<FactorModel>| is_least_candidate(t.factors, out, symmetries, b);
    let pu = |b: Seq<FactorModel>| is_least_candidate(u.factors, out, symmetries, b);
    assert(pt =~= pu) by {
        assert forall|b: Seq<FactorModel>| #[trigger] pt(b) == pu(b) by {
            if pt(b) {
                let s = choose|s: int| is_candidate(t.factors, out, symmetries, (b, s));
                assert(is_candidate(u.factors, out, symmetries, (b, s)));
                assert forall|x: (Seq<FactorModel>, int)| is_candidate(u.factors, out, symmetries, x) implies
                    crate::canon::body_total(b, x.0) != crate::canon::Order::Greater by {
                    assert(is_candidate(t.factors, out, symmetries, x));
                }
            }
            if pu(b) {
                let s = choose|s: int| is_candidate(u.factors, out, symmetries, (b, s));
                assert(is_candidate(t.factors, out, symmetries, (b, s)));
                assert forall|x: (Seq<FactorModel>, int)| is_candidate(t.factors, out, symmetries, x) implies
                    crate::canon::body_total(b, x.0) != crate::canon::Order::Greater by {
                    assert(is_candidate(u.factors, out, symmetries, x));
                }
            }
        }
    }
    assert(has_least_candidate(t.factors, out, symmetries) == has_least_candidate(u.factors, out, symmetries)) by {
        if has_least_candidate(t.factors, out, symmetries) {
            let b = choose|b: Seq<FactorModel>| is_least_candidate(t.factors, out, symmetries, b);
            assert(pt(b));
            assert(pu(b));
        }
        if has_least_candidate(u.factors, out, symmetries) {
            let b = choose|b: Seq<FactorModel>| is_least_candidate(u.factors, out, symmetries, b);
            assert(pu(b));
            assert(pt(b));
        }
    }
    assert(least_candidate(t.factors, out, symmetries) == some_body(pt));
    assert(least_candidate(u.factors, out, symmetries) == some_body(pu));
    let b = least_candidate(t.factors, out, symmetries);
    assert(is_candidate(t.factors, out, symmetries, (b, 1int)) == is_candidate(u.factors, out, symmetries, (b, 1int)));
    assert(is_candidate(t.factors, out, symmetries, (b, -1int)) == is_candidate(u.factors, out, symmetries, (b, -1int)));
}

/// Canonical forms do not depend on the order of a term's factors.
pub proof fn lemma_canonical_term_reorder(
    t: TermModel,
    out: Seq<Index>,
    symmetries: Seq<(TensorId, Vec<SymmetryGenerator>)>,
    p: Seq<usize>,
)
    requires
        t.factors.len() <= usize::MAX,
        is_perm(p, t.factors.len()),
    ensures
        canonical_term(TermModel { coeff: t.coeff, factors: apply_order(p, t.factors) }, out, symmetries)
            == canonical_term(t, out, symmetries),
{
    lemma_candidates_reorder(t.factors, out, symmetries, p);
    lemma_same_candidates(TermModel { coeff: t.coeff, factors: apply_order(p, t.factors) }, t, out, symmetries);
}

// ---------------------------------------------------------------------------
// Renaming dummy indices.
// ---------------------------------------------------------------------------

/// `sigma` renames indices one to one, keeps each index's domain, and leaves
/// the output indices `out` in place.
pub open spec fn is_dummy_renaming(sigma: spec_fn(Index) -> Index, out: Seq<Index>) -> bool {
    &&& forall|a: Index, b: Index| #[trigger] sigma(a) == #[trigger] sigma(b) ==> a == b
    &&& forall|x: Index| #[trigger] out.contains(x) ==> sigma(x) == x
    &&& forall|x: Index| (#[trigger] sigma(x)).domain == x.domain
}

/// A factor with its indices renamed by `sigma`.
pub open spec fn rename_factor(sigma: spec_fn(Index) -> Index, f: FactorModel) -> FactorModel {
    FactorModel { tensor: f.tensor, indices: f.indices.map_values(|x: Index| sigma(x)) }
}

/// Factors with their indices renamed by `sigma`.
pub open spec fn rename_with(sigma: spec_fn(Index) -> Index, fs: Seq<FactorModel>) -> Seq<FactorModel> {
    fs.map_values(|f: FactorModel| rename_factor(sigma, f))
}

/// The keys of a map built from pairs are the pairs' first components.
pub proof fn lemma_pairs_map_keys(s: Seq<(Index, Index)>, x: Index)
    ensures
        pairs_map(s).contains_key(x) <==> exists|i: int| 0 <= i < s.len() && s[i].0 == x,
    decreases s.len(),
{
    if s.len() > 0 {
        lemma_pairs_map_keys(s.drop_last(), x);
        if exists|i: int| 0 <= i < s.drop_last().len() && s.drop_last()[i].0 == x {
            let i = choose|i: int| 0 <= i < s.drop_last().len() && s.drop_last()[i].0 == x;
            assert(s[i].0 == x);
        }
        if exists|i: int| 0 <= i < s.len() && s[i].0 == x {
            let i = choose|i: int| 0 <= i < s.len() && s[i].0 == x;
            if i < s.len() - 1 {
                assert(s.drop_last()[i].0 == x);
            }
        }
    }
}

/// Two renaming states agree through `sigma`.
spec fn states_agree(a: RenameState, b: RenameState, sigma: spec_fn(Index) -> Index) -> bool {
    &&& a.1 == b.1
    &&& forall|x: Index| #[trigger] b.0.contains_key(sigma(x)) == a.0.contains_key(x)
    &&& forall|x: Index| a.0.contains_key(x) ==> b.0[sigma(x)] == #[trigger] a.0[x]
}

proof fn lemma_visit_agree(a: RenameState, b: RenameState, sigma: spec_fn(Index) -> Index, out: Seq<Index>, x: Index)
    requires
        is_dummy_renaming(sigma, out),
        states_agree(a, b, sigma),
    ensures
        states_agree(rename_visit(a, x), rename_visit(b, sigma(x)), sigma),
{
    assert(b.0.contains_key(sigma(x)) == a.0.contains_key(x));
    assert(sigma(x).domain == x.domain);
    let a2 = rename_visit(a, x);
    let b2 = rename_visit(b, sigma(x));
    assert forall|z: Index| #[trigger] b2.0.contains_key(sigma(z)) == a2.0.contains_key(z) by {
        assert(b.0.contains_key(sigma(z)) == a.0.contains_key(z));
        if sigma(z) == sigma(x) {
            assert(z == x);
        }
    }
    assert forall|z: Index| a2.0.contains_key(z) implies b2.0[sigma(z)] == #[trigger] a2.0[z] by {
        if z != x {
            assert(sigma(z) != sigma(x));
            if a.0.contains_key(z) {
                assert(b.0[sigma(z)] == a.0[z]);
            }
        }
    }
}

proof fn lemma_visit_all_agree(a: RenameState, b: RenameState, sigma: spec_fn(Index) -> Index, out: Seq<Index>, s: Seq<Index>)
    requires
        is_dummy_renaming(sigma, out),
        states_agree(a, b, sigma),
    ensures
        states_agree(rename_visit_all(a, s), rename_visit_all(b, s.map_values(|x: Index| sigma(x))), sigma),
    decreases s.len(),
{
    if s.len() > 0 {
        let t = s.map_values(|x: Index| sigma(x));
        assert(t.drop_last() =~= s.drop_last().map_values(|x: Index| sigma(x)));
        lemma_visit_all_agree(a, b, sigma, out, s.drop_last());
        lemma_visit_agree(rename_visit_all(a, s.drop_last()), rename_visit_all(b, t.drop_last()), sigma, out, s.last());
        assert(t.last() == sigma(s.last()));
    }
}

proof fn lemma_visit_factors_agree(
    a: RenameState,
    b: RenameState,
    sigma: spec_fn(Index) -> Index,
    out: Seq<Index>,
    fs: Seq<FactorModel>,
)
    requires
        is_dummy_renaming(sigma, out),
        states_agree(a, b, sigma),
    ensures
        states_agree(rename_visit_factors(a, fs), rename_visit_factors(b, rename_with(sigma, fs)), sigma),
    decreases fs.len(),
{
    if fs.len() > 0 {
        let gs = rename_with(sigma, fs);
        assert(gs.drop_last() =~= rename_with(sigma, fs.drop_last()));
        lemma_visit_factors_agree(a, b, sigma, out, fs.drop_last());
        assert(gs.last() == rename_factor(sigma, fs.last()));
        lemma_visit_all_agree(
            rename_visit_factors(a, fs.drop_last()),
            rename_visit_factors(b, gs.drop_last()),
            sigma,
            out,
            fs.last().indices,
        );
    }
}

/// Normalization forgets how dummy indices were named.
pub proof fn lemma_normalize_rename(fs: Seq<FactorModel>, out: Seq<Index>, sigma: spec_fn(Index) -> Index)
    requires
        is_dummy_renaming(sigma, out),
    ensures
        normalize(rename_with(sigma, fs), out) == normalize(fs, out),
{
    let seed = pairs_map(output_pairs(out));
    let start: RenameState = (seed, out.len() as int);
    assert(states_agree(start, start, sigma)) by {
        assert forall|x: Index| #[trigger] seed.contains_key(sigma(x)) == seed.contains_key(x) by {
            lemma_pairs_map_keys(output_pairs(out), x);
            lemma_pairs_map_keys(output_pairs(out), sigma(x));
            if seed.contains_key(x) {
                let i = choose|i: int| 0 <= i < output_pairs(out).len() && output_pairs(out)[i].0 == x;
                assert(out[i] == x);
                assert(out.contains(x));
            }
            if seed.contains_key(sigma(x)) {
                let i = choose|i: int| 0 <= i < output_pairs(out).len() && output_pairs(out)[i].0 == sigma(x);
                assert(out[i] == sigma(x));
                assert(out.contains(sigma(x)));
                assert(sigma(sigma(x)) == sigma(x));
            }
        }
        assert forall|x: Index| seed.contains_key(x) implies seed[sigma(x)] == #[trigger] seed[x] by {
            lemma_pairs_map_keys(output_pairs(out), x);
            let i = choose|i: int| 0 <= i < output_pairs(out).len() && output_pairs(out)[i].0 == x;
            assert(out[i] == x);
            assert(out.contains(x));
        }
    }
    let gs = rename_with(sigma, fs);
    lemma_visit_factors_agree(start, start, sigma, out, fs);
    let ma = rename_visit_factors(start, fs).0;
    let mb = rename_visit_factors(start, gs).0;
    lemma_visit_factors(start, fs);
    assert(rename_factors(mb, gs) =~= rename_factors(ma, fs)) by {
        assert forall|i: int| 0 <= i < fs.len() implies #[trigger] rename_factors(mb, gs)[i] == rename_factors(ma, fs)[i] by {
            let f = fs[i];
            assert(gs[i] == rename_factor(sigma, f));
            assert(rename_factors(mb, gs)[i].indices =~= rename_factors(ma, fs)[i].indices) by {
                assert forall|j: int| 0 <= j < f.indices.len() implies #[trigger] rename_factors(mb, gs)[i].indices[j]
                    == rename_factors(ma, fs)[i].indices[j] by {
                    assert(ma.contains_key(fs[i].indices[j]));
                }
            }
        }
    }
}

/// The variants of a renamed factor are the renamed variants.
pub proof fn lemma_variant_rename(
    f: FactorModel,
    gens: Seq<SymmetryGenerator>,
    sigma: spec_fn(Index) -> Index,
    w: Seq<int>,
)
    requires
        gens_ok(gens, f.indices.len()),
        is_word(gens.len() as int, w),
    ensures
        variant_by(rename_factor(sigma, f), gens, w) == (rename_factor(sigma, variant_by(f, gens, w).0), variant_by(f, gens, w).1),
{
    let e = word_elem(f.indices.len(), gens, w);
    lemma_word_elem_ok(f.indices.len(), gens, w);
    let g = rename_factor(sigma, f);
    assert(g.indices.len() == f.indices.len());
    assert(permute(g.indices, e.0) =~= permute(f.indices, e.0).map_values(|x: Index| sigma(x))) by {
        assert forall|k: int| 0 <= k < e.0.len() implies #[trigger] permute(g.indices, e.0)[k]
            == permute(f.indices, e.0).map_values(|x: Index| sigma(x))[k] by {
            assert(e.0[k] < f.indices.len());
        }
    }
}

/// Renaming dummies keeps the candidates.
pub proof fn lemma_candidates_rename(
    fs: Seq<FactorModel>,
    out: Seq<Index>,
    symmetries: Seq<(TensorId, Vec<SymmetryGenerator>)>,
    sigma: spec_fn(Index) -> Index,
)
    requires
        symmetries_fit(fs, symmetries),
        is_dummy_renaming(sigma, out),
    ensures
        forall|x: (Seq<FactorModel>, int)| #[trigger] is_candidate(rename_with(sigma, fs), out, symmetries, x)
            <==> is_candidate(fs, out, symmetries, x),
{
    let gs = rename_with(sigma, fs);
    assert forall|x: (Seq<FactorModel>, int)| #[trigger] is_candidate(gs, out, symmetries, x)
        <==> is_candidate(fs, out, symmetries, x) by {
        if is_candidate(fs, out, symmetries, x) {
            lemma_rename_candidate_forward(fs, out, symmetries, sigma, x);
        }
        if is_candidate(gs, out, symmetries, x) {
            lemma_rename_candidate_back(fs, out, symmetries, sigma, x);
        }
    }
}

proof fn lemma_order_rename(fs: Seq<FactorModel>, sigma: spec_fn(Index) -> Index, o: Seq<usize>, vs: Seq<FactorModel>)
    requires
        forall|k: int| 0 <= k < o.len() ==> (#[trigger] o[k]) < vs.len(),
    ensures
        valid_order(rename_with(sigma, fs), o) == valid_order(fs, o),
        apply_order(o, rename_with(sigma, vs)) == rename_with(sigma, apply_order(o, vs)),
{
    assert(apply_order(o, rename_with(sigma, vs)) =~= rename_with(sigma, apply_order(o, vs)));
    let gs = rename_with(sigma, fs);
    if valid_order(fs, o) {
        assert forall|a: int, b: int| 0 <= a < b < o.len() implies gs[#[trigger] o[a] as int].tensor.0 <= gs[#[trigger] o[b] as int].tensor.0 by {
            assert(fs[o[a] as int].tensor.0 <= fs[o[b] as int].tensor.0);
        }
    }
    if valid_order(gs, o) {
        assert forall|a: int, b: int| 0 <= a < b < o.len() implies fs[#[trigger] o[a] as int].tensor.0 <= fs[#[trigger] o[b] as int].tensor.0 by {
            assert(gs[o[a] as int].tensor.0 <= gs[o[b] as int].tensor.0);
        }
    }
}

proof fn lemma_rename_candidate_forward(
    fs: Seq<FactorModel>,
    out: Seq<Index>,
    symmetries: Seq<(TensorId, Vec<SymmetryGenerator>)>,
    sigma: spec_fn(Index) -> Index,
    x: (Seq<FactorModel>, int),
)
    requires
        symmetries_fit(fs, symmetries),
        is_dummy_renaming(sigma, out),
        is_candidate(fs, out, symmetries, x),
    ensures
        is_candidate(rename_with(sigma, fs), out, symmetries, x),
{
    let gs = rename_with(sigma, fs);
    let (c, o) = choose|c: (Seq<FactorModel>, int), o: Seq<usize>|
        is_choice(fs, symmetries, c) && valid_order(fs, o) && #[trigger] candidate_of(c, o, out) == x;
    let signs = choose|signs: Seq<int>| #[trigger] choice_by(fs, symmetries, c.0, signs) && c.1 == sign_product(signs);
    let c2 = (rename_with(sigma, c.0), c.1);
    assert(choice_by(gs, symmetries, c2.0, signs)) by {
        assert forall|i: int| 0 <= i < gs.len() implies is_variant(gs[i], generators_of(symmetries, gs[i].tensor), (#[trigger] c2.0[i], signs[i])) by {
            let gens = generators_of(symmetries, fs[i].tensor);
            assert(is_variant(fs[i], gens, (c.0[i], signs[i])));
            assert(gens_ok(gens, fs[i].indices.len()));
            let w = choose|w: Seq<int>| is_word(gens.len() as int, w) && #[trigger] variant_by(fs[i], gens, w) == (c.0[i], signs[i]);
            lemma_variant_rename(fs[i], gens, sigma, w);
            assert(variant_by(gs[i], gens, w) == (c2.0[i], signs[i]));
        }
    }
    assert(is_choice(gs, symmetries, c2));
    lemma_order_rename(fs, sigma, o, c.0);
    lemma_normalize_rename(apply_order(o, c.0), out, sigma);
    assert(candidate_of(c2, o, out) == x);
}

proof fn lemma_rename_candidate_back(
    fs: Seq<FactorModel>,
    out: Seq<Index>,
    symmetries: Seq<(TensorId, Vec<SymmetryGenerator>)>,
    sigma: spec_fn(Index) -> Index,
    x: (Seq<FactorModel>, int),
)
    requires
        symmetries_fit(fs, symmetries),
        is_dummy_renaming(sigma, out),
        is_candidate(rename_with(sigma, fs), out, symmetries, x),
    ensures
        is_candidate(fs, out, symmetries, x),
{
    let gs = rename_with(sigma, fs);
    let (c2, o) = choose|c: (Seq<FactorModel>, int), o: Seq<usize>|
        is_choice(gs, symmetries, c) && valid_order(gs, o) && #[trigger] candidate_of(c, o, out) == x;
    let signs = choose|signs: Seq<int>| #[trigger] choice_by(gs, symmetries, c2.0, signs) && c2.1 == sign_product(signs);
    let n = fs.len();
    let words = Seq::new(n, |i: int| choose|w: Seq<int>|
        is_word(generators_of(symmetries, fs[i].tensor).len() as int, w)
            && #[trigger] variant_by(gs[i], generators_of(symmetries, fs[i].tensor), w) == (c2.0[i], signs[i]));
    let vs = Seq::new(n, |i: int| variant_by(fs[i], generators_of(symmetries, fs[i].tensor), words[i]).0);
    assert forall|i: int| 0 <= i < n implies {
        &&& is_variant(fs[i], generators_of(symmetries, fs[i].tensor), (#[trigger] vs[i], signs[i]))
        &&& rename_factor(sigma, vs[i]) == c2.0[i]
    } by {
        let gens = generators_of(symmetries, fs[i].tensor);
        assert(gs[i] == rename_factor(sigma, fs[i]));
        assert(is_variant(gs[i], generators_of(symmetries, gs[i].tensor), (c2.0[i], signs[i])));
        let w = words[i];
        assert(is_word(gens.len() as int, w) && variant_by(gs[i], gens, w) == (c2.0[i], signs[i]));
        assert(gens_ok(gens, fs[i].indices.len()));
        lemma_variant_rename(fs[i], gens, sigma, w);
        assert(variant_by(fs[i], gens, w).1 == signs[i]);
    }
    let c = (vs, c2.1);
    assert(choice_by(fs, symmetries, c.0, signs));
    assert(is_choice(fs, symmetries, c));
    assert(rename_with(sigma, vs) =~= c2.0);
    lemma_order_rename(fs, sigma, o, vs);
    lemma_normalize_rename(apply_order(o, vs), out, sigma);
    assert(candidate_of(c, o, out) == x);
}

/// Canonical forms do not depend on how a term's dummy indices are named.
pub proof fn lemma_canonical_term_rename(
    t: TermModel,
    out: Seq<Index>,
    symmetries: Seq<(TensorId, Vec<SymmetryGenerator>)>,
    sigma: spec_fn(Index) -> Index,
)
    requires
        symmetries_fit(t.factors, symmetries),
        is_dummy_renaming(sigma, out),
    ensures
        canonical_term(TermModel { coeff: t.coeff, factors: rename_with(sigma, t.factors) }, out, symmetries)
            == canonical_term(t, out, symmetries),
{
    lemma_candidates_rename(t.factors, out, symmetries, sigma);
    lemma_same_candidates(TermModel { coeff: t.coeff, factors: rename_with(sigma, t.factors) }, t, out, symmetries);
}

// ---------------------------------------------------------------------------
// Declared symmetries of one factor.
// ---------------------------------------------------------------------------

/// The coefficient `c` times the sign `s`, one or minus one.
pub open spec fn signed_coeff(c: (int, int), s: int) -> (int, int) {
    if s == 1 {
        c
    } else {
        rat_neg(c)
    }
}

/// The factors `fs` with factor `i` rearranged by the `k`-th generator declared
/// for its tensor.
pub open spec fn turned_factors(
    fs: Seq<FactorModel>,
    symmetries: Seq<(TensorId, Vec<SymmetryGenerator>)>,
    i: int,
    k: int,
) -> Seq<FactorModel> {
    fs.update(i, apply_generator(fs[i], generators_of(symmetries, fs[i].tensor)[k]))
}

/// The term `t` with factor `i` rearranged by the `k`-th generator declared for
/// its tensor, and its coefficient multiplied by that generator's sign.
pub open spec fn turned_term(
    t: TermModel,
    symmetries: Seq<(TensorId, Vec<SymmetryGenerator>)>,
    i: int,
    k: int,
) -> TermModel {
    let g = generators_of(symmetries, t.factors[i].tensor)[k];
    TermModel { coeff: signed_coeff(t.coeff, g.sign as int), factors: turned_factors(t.factors, symmetries, i, k) }
}

proof fn lemma_sign_product_update(signs: Seq<int>, i: int, a: int)
    requires
        0 <= i < signs.len(),
    ensures
        sign_product(signs.update(i, a * signs[i])) == a * sign_product(signs),
    decreases signs.len(),
{
    let n = signs.len() - 1;
    let u = signs.update(i, a * signs[i]);
    let d = sign_product(signs.drop_last());
    if i == n {
        assert(u.drop_last() =~= signs.drop_last());
        assert(d * (a * signs[n]) == a * (d * signs[n])) by (nonlinear_arith);
    } else {
        assert(u.drop_last() =~= signs.drop_last().update(i, a * signs[i]));
        lemma_sign_product_update(signs.drop_last(), i, a);
        assert(u.last() == signs.last());
        assert((a * d) * signs[n] == a * (d * signs[n])) by (nonlinear_arith);
    }
}

/// Moving the generator's sign between factor `i`'s variant and the choice's sign.
proof fn lemma_choice_turned_one_way(
    fs: Seq<FactorModel>,
    gs: Seq<FactorModel>,
    symmetries: Seq<(TensorId, Vec<SymmetryGenerator>)>,
    i: int,
    sigma: int,
    vs: Seq<FactorModel>,
    signs: Seq<int>,
)
    requires
        gs.len() == fs.len(),
        0 <= i < fs.len(),
        sigma == 1 || sigma == -1,
        forall|j: int| 0 <= j < fs.len() && j != i ==> #[trigger] gs[j] == fs[j],
        gs[i].tensor == fs[i].tensor,
        forall|v: (FactorModel, int)| #[trigger] is_variant(gs[i], generators_of(symmetries, gs[i].tensor), v)
            ==> is_variant(fs[i], generators_of(symmetries, fs[i].tensor), (v.0, sigma * v.1)),
        choice_by(gs, symmetries, vs, signs),
    ensures
        is_choice(fs, symmetries, (vs, sigma * sign_product(signs))),
{
    let signs2 = signs.update(i, sigma * signs[i]);
    assert(choice_by(fs, symmetries, vs, signs2)) by {
        assert forall|j: int| 0 <= j < fs.len() implies is_variant(fs[j], generators_of(symmetries, fs[j].tensor), (#[trigger] vs[j], signs2[j])) by {
            assert(is_variant(gs[j], generators_of(symmetries, gs[j].tensor), (vs[j], signs[j])));
            if j == i {
                assert(is_variant(gs[i], generators_of(symmetries, gs[i].tensor), (vs[i], signs[i])));
            }
        }
    }
    lemma_sign_product_update(signs, i, sigma);
    assert(sign_product(signs2) == sigma * sign_product(signs));
    assert(choice_by(fs, symmetries, (vs, sigma * sign_product(signs)).0, signs2));
}

/// The choices after a generator acts on factor `i` are the choices before,
/// with their signs multiplied by the generator's sign.
proof fn lemma_choices_turned(
    fs: Seq<FactorModel>,
    symmetries: Seq<(TensorId, Vec<SymmetryGenerator>)>,
    i: int,
    k: int,
    c: (Seq<FactorModel>, int),
)
    requires
        symmetries_fit(fs, symmetries),
        0 <= i < fs.len(),
        fs[i].indices.len() <= usize::MAX,
        0 <= k < generators_of(symmetries, fs[i].tensor).len(),
        gens_permute(generators_of(symmetries, fs[i].tensor)),
    ensures
        is_choice(turned_factors(fs, symmetries, i, k), symmetries, c)
            <==> is_choice(fs, symmetries, (c.0, generators_of(symmetries, fs[i].tensor)[k].sign * c.1)),
{
    let gens = generators_of(symmetries, fs[i].tensor);
    let g = gens[k];
    let sigma = g.sign as int;
    let gs = turned_factors(fs, symmetries, i, k);
    assert(gens_ok(gens, fs[i].indices.len()));
    assert(gen_ok(g, fs[i].indices.len()));
    assert(gs[i] == apply_generator(fs[i], g));
    assert forall|v: (FactorModel, int)| #[trigger] is_variant(gs[i], gens, v)
        <==> is_variant(fs[i], gens, (v.0, sigma * v.1)) by {
        lemma_variants_after_generator(fs[i], gens, k, v);
    }
    assert forall|j: int| 0 <= j < fs.len() && j != i implies #[trigger] gs[j] == fs[j] by {}
    if is_choice(gs, symmetries, c) {
        let signs = choose|signs: Seq<int>| #[trigger] choice_by(gs, symmetries, c.0, signs) && c.1 == sign_product(signs);
        lemma_choice_turned_one_way(fs, gs, symmetries, i, sigma, c.0, signs);
    }
    if is_choice(fs, symmetries, (c.0, sigma * c.1)) {
        let signs = choose|signs: Seq<int>| #[trigger] choice_by(fs, symmetries, c.0, signs) && sigma * c.1 == sign_product(signs);
        assert forall|v: (FactorModel, int)| #[trigger] is_variant(fs[i], generators_of(symmetries, fs[i].tensor), v)
            implies is_variant(gs[i], generators_of(symmetries, gs[i].tensor), (v.0, sigma * v.1)) by {
            assert(sigma * (sigma * v.1) == v.1) by (nonlinear_arith)
                requires
                    sigma == 1 || sigma == -1,
            ;
            assert((v.0, sigma * (sigma * v.1)) == v);
            assert(is_variant(gs[i], gens, (v.0, sigma * v.1)) <==> is_variant(fs[i], gens, (v.0, sigma * (sigma * v.1))));
        }
        assert forall|j: int| 0 <= j < gs.len() && j != i implies #[trigger] fs[j] == gs[j] by {}
        lemma_choice_turned_one_way(gs, fs, symmetries, i, sigma, c.0, signs);
        assert(sigma * (sigma * c.1) == c.1) by (nonlinear_arith)
            requires
                sigma == 1 || sigma == -1,
        ;
    }
}

/// The candidates after a generator acts on factor `i` are the candidates
/// before, with their signs multiplied by the generator's sign.
pub proof fn lemma_candidates_turned(
    fs: Seq<FactorModel>,
    out: Seq<Index>,
    symmetries: Seq<(TensorId, Vec<SymmetryGenerator>)>,
    i: int,
    k: int,
)
    requires
        symmetries_fit(fs, symmetries),
        0 <= i < fs.len(),
        fs[i].indices.len() <= usize::MAX,
        0 <= k < generators_of(symmetries, fs[i].tensor).len(),
        gens_permute(generators_of(symmetries, fs[i].tensor)),
    ensures
        forall|x: (Seq<FactorModel>, int)| #[trigger] is_candidate(turned_factors(fs, symmetries, i, k), out, symmetries, x)
            <==> is_candidate(fs, out, symmetries, (x.0, generators_of(symmetries, fs[i].tensor)[k].sign * x.1)),
{
    let gens = generators_of(symmetries, fs[i].tensor);
    let sigma = gens[k].sign as int;
    let gs = turned_factors(fs, symmetries, i, k);
    assert(gens_ok(gens, fs[i].indices.len()));
    assert(gen_ok(gens[k], fs[i].indices.len()));
    assert forall|m: int| 0 <= m < fs.len() implies (#[trigger] gs[m]).tensor == fs[m].tensor by {}
    assert forall|o: Seq<usize>| #[trigger] valid_order(gs, o) == valid_order(fs, o) by {
        if o.len() == fs.len() && forall|j: int| 0 <= j < o.len() ==> (#[trigger] o[j]) < fs.len() {
            assert forall|a: int, b: int| 0 <= a < b < o.len() implies
                (gs[#[trigger] o[a] as int].tensor.0 <= gs[#[trigger] o[b] as int].tensor.0)
                == (fs[o[a] as int].tensor.0 <= fs[o[b] as int].tensor.0) by {
                assert(o[a] < fs.len() && o[b] < fs.len());
            }
        }
    }
    assert forall|x: (Seq<FactorModel>, int)| #[trigger] is_candidate(gs, out, symmetries, x)
        <==> is_candidate(fs, out, symmetries, (x.0, sigma * x.1)) by {
        if is_candidate(gs, out, symmetries, x) {
            let (c, o) = choose|c: (Seq<FactorModel>, int), o: Seq<usize>|
                is_choice(gs, symmetries, c) && valid_order(gs, o) && #[trigger] candidate_of(c, o, out) == x;
            lemma_choices_turned(fs, symmetries, i, k, c);
            assert(valid_order(fs, o));
            assert(candidate_of((c.0, sigma * c.1), o, out) == (x.0, sigma * x.1));
        }
        if is_candidate(fs, out, symmetries, (x.0, sigma * x.1)) {
            let (c, o) = choose|c: (Seq<FactorModel>, int), o: Seq<usize>|
                is_choice(fs, symmetries, c) && valid_order(fs, o) && #[trigger] candidate_of(c, o, out) == (x.0, sigma * x.1);
            let c2 = (c.0, x.1);
            lemma_choices_turned(fs, symmetries, i, k, c2);
            assert(valid_order(gs, o));
            assert(candidate_of(c2, o, out) == x);
        }
    }
}

/// Candidate signs are one or minus one.
pub proof fn lemma_candidate_sign(
    fs: Seq<FactorModel>,
    out: Seq<Index>,
    symmetries: Seq<(TensorId, Vec<SymmetryGenerator>)>,
    x: (Seq<FactorModel>, int),
)
    requires
        symmetries_fit(fs, symmetries),
        is_candidate(fs, out, symmetries, x),
    ensures
        x.1 == 1 || x.1 == -1,
{
    let (c, o) = choose|c: (Seq<FactorModel>, int), o: Seq<usize>|
        is_choice(fs, symmetries, c) && valid_order(fs, o) && #[trigger] candidate_of(c, o, out) == x;
    lemma_choice_sign(fs, symmetries, c);
}

/// Flipping every candidate's sign keeps which body is least.
proof fn lemma_flipped_least(
    t: TermModel,
    u: TermModel,
    out: Seq<Index>,
    symmetries: Seq<(TensorId, Vec<SymmetryGenerator>)>,
    b: Seq<FactorModel>,
)
    requires
        forall|x: (Seq<FactorModel>, int)| #[trigger] is_candidate(u.factors, out, symmetries, x)
            <==> is_candidate(t.factors, out, symmetries, (x.0, -1 * x.1)),
        is_least_candidate(t.factors, out, symmetries, b),
    ensures
        is_least_candidate(u.factors, out, symmetries, b),
{
    let s = choose|s: int| is_candidate(t.factors, out, symmetries, (b, s));
    assert((b, -1 * (-1 * s)) == (b, s));
    assert(is_candidate(u.factors, out, symmetries, (b, -1 * s)));
    assert forall|x: (Seq<FactorModel>, int)| is_candidate(u.factors, out, symmetries, x) implies
        crate::canon::body_total(b, x.0) != crate::canon::Order::Greater by {
        assert(is_candidate(t.factors, out, symmetries, (x.0, -1 * x.1)));
    }
}

/// The same, read backwards.
proof fn lemma_flipped_least_back(
    t: TermModel,
    u: TermModel,
    out: Seq<Index>,
    symmetries: Seq<(TensorId, Vec<SymmetryGenerator>)>,
    b: Seq<FactorModel>,
)
    requires
        forall|x: (Seq<FactorModel>, int)| #[trigger] is_candidate(u.factors, out, symmetries, x)
            <==> is_candidate(t.factors, out, symmetries, (x.0, -1 * x.1)),
        is_least_candidate(u.factors, out, symmetries, b),
    ensures
        is_least_candidate(t.factors, out, symmetries, b),
{
    let s = choose|s: int| is_candidate(u.factors, out, symmetries, (b, s));
    assert(is_candidate(t.factors, out, symmetries, (b, -1 * s)));
    assert forall|x: (Seq<FactorModel>, int)| is_candidate(t.factors, out, symmetries, x) implies
        crate::canon::body_total(b, x.0) != crate::canon::Order::Greater by {
        assert((x.0, -1 * (-1 * x.1)) == x);
        assert(is_candidate(u.factors, out, symmetries, (x.0, -1 * x.1)));
    }
}

/// A term whose candidates are another's with every sign flipped, and whose
/// coefficient is the other's negated, has the same canonical form.
proof fn lemma_flipped_candidates(
    t: TermModel,
    u: TermModel,
    out: Seq<Index>,
    symmetries: Seq<(TensorId, Vec<SymmetryGenerator>)>,
)
    requires
        u.coeff == rat_neg(t.coeff),
        symmetries_fit(t.factors, symmetries),
        forall|x: (Seq<FactorModel>, int)| #[trigger] is_candidate(u.factors, out, symmetries, x)
            <==> is_candidate(t.factors, out, symmetries, (x.0, -1 * x.1)),
    ensures
        canonical_term(u, out, symmetries) == canonical_term(t, out, symmetries),
{
    let pt = |b: Seq<FactorModel>| is_least_candidate(t.factors, out, symmetries, b);
    let pu = |b: Seq<FactorModel>| is_least_candidate(u.factors, out, symmetries, b);
    assert(pt =~= pu) by {
        assert forall|b: Seq<FactorModel>| #[trigger] pt(b) == pu(b) by {
            if pt(b) {
                lemma_flipped_least(t, u, out, symmetries, b);
            }
            if pu(b) {
                lemma_flipped_least_back(t, u, out, symmetries, b);
            }
        }
    }
    assert(has_least_candidate(t.factors, out, symmetries) == has_least_candidate(u.factors, out, symmetries)) by {
        if has_least_candidate(t.factors, out, symmetries) {
            let b = choose|b: Seq<FactorModel>| is_least_candidate(t.factors, out, symmetries, b);
            assert(pt(b));
            assert(pu(b));
        }
        if has_least_candidate(u.factors, out, symmetries) {
            let b = choose|b: Seq<FactorModel>| is_least_candidate(u.factors, out, symmetries, b);
            assert(pu(b));
            assert(pt(b));
        }
    }
    assert(least_candidate(t.factors, out, symmetries) == some_body(pt));
    assert(least_candidate(u.factors, out, symmetries) == some_body(pu));
    let b = least_candidate(t.factors, out, symmetries);
    assert(is_candidate(u.factors, out, symmetries, (b, 1int)) == is_candidate(t.factors, out, symmetries, (b, -1int)));
    assert((b, -1 * -1int) == (b, 1int));
    assert(is_candidate(u.factors, out, symmetries, (b, -1int)) == is_candidate(t.factors, out, symmetries, (b, 1int)));
    if t.coeff.0 != 0 && has_least_candidate(t.factors, out, symmetries) {
        let b0 = choose|b: Seq<FactorModel>| is_least_candidate(t.factors, out, symmetries, b);
        assert(pt(b0));
        assert(pt(b));
        let s = choose|s: int| is_candidate(t.factors, out, symmetries, (b, s));
        lemma_candidate_sign(t.factors, out, symmetries, (b, s));
    }
}

/// Canonical forms do not change when a factor's slots are rearranged by one of
/// the symmetries declared for its tensor and the coefficient is multiplied by
/// that symmetry's sign.
pub proof fn lemma_canonical_term_symmetry(
    t: TermModel,
    out: Seq<Index>,
    symmetries: Seq<(TensorId, Vec<SymmetryGenerator>)>,
    i: int,
    k: int,
)
    requires
        symmetries_fit(t.factors, symmetries),
        0 <= i < t.factors.len(),
        t.factors[i].indices.len() <= usize::MAX,
        0 <= k < generators_of(symmetries, t.factors[i].tensor).len(),
        gens_permute(generators_of(symmetries, t.factors[i].tensor)),
    ensures
        canonical_term(turned_term(t, symmetries, i, k), out, symmetries) == canonical_term(t, out, symmetries),
{
    let gens = generators_of(symmetries, t.factors[i].tensor);
    let sigma = gens[k].sign as int;
    let u = turned_term(t, symmetries, i, k);
    assert(gens_ok(gens, t.factors[i].indices.len()));
    assert(gen_ok(gens[k], t.factors[i].indices.len()));
    lemma_candidates_turned(t.factors, out, symmetries, i, k);
    if sigma == 1 {
        assert forall|x: (Seq<FactorModel>, int)| #[trigger] is_candidate(u.factors, out, symmetries, x)
            <==> is_candidate(t.factors, out, symmetries, x) by {
            assert((x.0, sigma * x.1) == x);
        }
        lemma_same_candidates(u, t, out, symmetries);
    } else {
        lemma_flipped_candidates(t, u, out, symmetries);
    }
}

// ---------------------------------------------------------------------------
// Whole polynomials.
// ---------------------------------------------------------------------------

proof fn lemma_canonical_terms_replace(
    ts: Seq<TermModel>,
    k: int,
    t: TermModel,
    out: Seq<Index>,
    symmetries: Seq<(TensorId, Vec<SymmetryGenerator>)>,
)
    requires
        0 <= k < ts.len(),
        canonical_term(t, out, symmetries) == canonical_term(ts[k], out, symmetries),
    ensures
        canonical_terms(ts.update(k, t), out, symmetries) == canonical_terms(ts, out, symmetries),
    decreases ts.len(),
{
    let us = ts.update(k, t);
    if k < ts.len() - 1 {
        assert(us.drop_last() =~= ts.drop_last().update(k, t));
        assert(ts.drop_last()[k] == ts[k]);
        lemma_canonical_terms_replace(ts.drop_last(), k, t, out, symmetries);
        assert(us.last() == ts.last());
    } else {
        assert(us.drop_last() =~= ts.drop_last());
        assert(us.last() == t);
    }
}

/// Replacing one term of a polynomial by a term with the same canonical form
/// keeps the polynomial's canonical form.
pub proof fn lemma_canonical_poly_replace_term(
    p: PolyModel,
    k: int,
    t: TermModel,
    symmetries: Seq<(TensorId, Vec<SymmetryGenerator>)>,
)
    requires
        0 <= k < p.terms.len(),
        canonical_term(t, p.output, symmetries) == canonical_term(p.terms[k], p.output, symmetries),
    ensures
        canonical_poly(PolyModel { output: p.output, terms: p.terms.update(k, t) }, symmetries) == canonical_poly(p, symmetries),
{
    lemma_canonical_terms_replace(p.terms, k, t, p.output, symmetries);
}

/// Canonical polynomials do not depend on the order of the factors of any
/// one term.
pub proof fn lemma_canonical_poly_reorder_term(
    p: PolyModel,
    k: int,
    symmetries: Seq<(TensorId, Vec<SymmetryGenerator>)>,
    o: Seq<usize>,
)
    requires
        0 <= k < p.terms.len(),
        p.terms[k].factors.len() <= usize::MAX,
        is_perm(o, p.terms[k].factors.len()),
    ensures
        canonical_poly(PolyModel { output: p.output, terms: p.terms.update(k,
            TermModel { coeff: p.terms[k].coeff, factors: apply_order(o, p.terms[k].factors) }) }, symmetries)
            == canonical_poly(p, symmetries),
{
    lemma_canonical_term_reorder(p.terms[k], p.output, symmetries, o);
    lemma_canonical_poly_replace_term(p, k, TermModel { coeff: p.terms[k].coeff, factors: apply_order(o, p.terms[k].factors) }, symmetries);
}

/// Canonical polynomials do not depend on how the dummy indices of any one
/// term are named.
pub proof fn lemma_canonical_poly_rename_term(
    p: PolyModel,
    k: int,
    symmetries: Seq<(TensorId, Vec<SymmetryGenerator>)>,
    sigma: spec_fn(Index) -> Index,
)
    requires
        0 <= k < p.terms.len(),
        symmetries_fit(p.terms[k].factors, symmetries),
        is_dummy_renaming(sigma, p.output),
    ensures
        canonical_poly(PolyModel { output: p.output, terms: p.terms.update(k,
            TermModel { coeff: p.terms[k].coeff, factors: rename_with(sigma, p.terms[k].factors) }) }, symmetries)
            == canonical_poly(p, symmetries),
{
    lemma_canonical_term_rename(p.terms[k], p.output, symmetries, sigma);
    lemma_canonical_poly_replace_term(p, k, TermModel { coeff: p.terms[k].coeff, factors: rename_with(sigma, p.terms[k].factors) }, symmetries);
}

/// Canonical polynomials do not change when a factor of any one term is
/// rearranged by a symmetry declared for its tensor and that term's
/// coefficient is multiplied by the symmetry's sign.
pub proof fn lemma_canonical_poly_symmetry_term(
    p: PolyModel,
    k: int,
    symmetries: Seq<(TensorId, Vec<SymmetryGenerator>)>,
    i: int,
    g: int,
)
    requires
        0 <= k < p.terms.len(),
        symmetries_fit(p.terms[k].factors, symmetries),
        0 <= i < p.terms[k].factors.len(),
        p.terms[k].factors[i].indices.len() <= usize::MAX,
        0 <= g < generators_of(symmetries, p.terms[k].factors[i].tensor).len(),
        gens_permute(generators_of(symmetries, p.terms[k].factors[i].tensor)),
    ensures
        canonical_poly(PolyModel { output: p.output, terms: p.terms.update(k, turned_term(p.terms[k], symmetries, i, g)) }, symmetries)
            == canonical_poly(p, symmetries),
{
    lemma_canonical_term_symmetry(p.terms[k], p.output, symmetries, i, g);
    lemma_canonical_poly_replace_term(p, k, turned_term(p.terms[k], symmetries, i, g), symmetries);
}

} // verus!
