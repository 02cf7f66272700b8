//! Canonical forms are fixed points of canonicalization.

use vstd::prelude::*;

use crate::canon::{
    all_indices, apply_order, body_total, candidate_of, canonical_term, choice_by, generators_of, has_least_candidate,
    is_candidate, is_choice, is_least_candidate, is_perm, least_candidate, lemma_choice_shape, lemma_identity_choice,
    lemma_least_unique, lemma_reordered_len, normalize, output_pairs, renumbered_output, sign_product, some_body,
    symmetries_fit, valid_order, Order, bodies_ascending, body_order, canonical_poly, canonical_terms, canonicalizable,
    lemma_canonical_poly_sorted, lemma_merge_terms_ascending, lemma_nonzero_terms, merge_term, merge_terms, nonzero_terms,
    not_before,
};
use crate::model::{SymmetryGenerator, TensorId};
use crate::symmetry::{
    gens_ok, is_variant, is_word, lemma_permute_twice, lemma_word_concat, lemma_word_elem_ok, variant_by, word_elem,
};
use crate::expand::{
    lemma_visit_factors, pairs_map, rename_factors, rename_visit, rename_visit_all, rename_visit_factors, FactorModel, Index,
    PolyModel, RenameState, TermModel,
};
use crate::search::{first_match, lemma_first_match_ensures, lemma_first_none};
use crate::invariance::{inverse, lemma_candidate_sign, lemma_inverse, lemma_pairs_map_keys, lemma_product_perm, lemma_variant_rename, rename_factor, rename_with};

verus! {

// ---------------------------------------------------------------------------
// Normalizing renamed factors.
// ---------------------------------------------------------------------------

/// `sigma` is one to one on `s` and keeps the domain of each index there.
pub open spec fn renames_on(sigma: spec_fn(Index) -> Index, s: Set<Index>) -> bool {
    &&& forall|a: Index, b: Index| s.contains(a) && s.contains(b) && #[trigger] sigma(a) == #[trigger] sigma(b) ==> a == b
    &&& forall|x: Index| s.contains(x) ==> (#[trigger] sigma(x)).domain == x.domain
}

/// Two renaming states agree through `sigma` on the indices of `s`.
spec fn agree_on(a: RenameState, b: RenameState, sigma: spec_fn(Index) -> Index, s: Set<Index>) -> bool {
    &&& a.1 == b.1
    &&& forall|x: Index| s.contains(x) ==> #[trigger] b.0.contains_key(sigma(x)) == a.0.contains_key(x)
    &&& forall|x: Index| s.contains(x) && a.0.contains_key(x) ==> b.0[sigma(x)] == #[trigger] a.0[x]
}

/// All indices of `fs` lie in `s`.
pub open spec fn indices_in(fs: Seq<FactorModel>, s: Set<Index>) -> bool {
    forall|i: int, j: int| 0 <= i < fs.len() && 0 <= j < fs[i].indices.len() ==> s.contains(#[trigger] fs[i].indices[j])
}

proof fn lemma_visit_agree_on(a: RenameState, b: RenameState, sigma: spec_fn(Index) -> Index, s: Set<Index>, x: Index)
    requires
        renames_on(sigma, s),
        agree_on(a, b, sigma, s),
        s.contains(x),
    ensures
        agree_on(rename_visit(a, x), rename_visit(b, sigma(x)), sigma, s),
{
    assert(b.0.contains_key(sigma(x)) == a.0.contains_key(x));
    assert(sigma(x).domain == x.domain);
    let a2 = rename_visit(a, x);
    let b2 = rename_visit(b, sigma(x));
    assert forall|z: Index| s.contains(z) implies #[trigger] b2.0.contains_key(sigma(z)) == a2.0.contains_key(z) by {
        assert(b.0.contains_key(sigma(z)) == a.0.contains_key(z));
        if sigma(z) == sigma(x) {
            assert(z == x);
        }
    }
    assert forall|z: Index| s.contains(z) && a2.0.contains_key(z) implies b2.0[sigma(z)] == #[trigger] a2.0[z] by {
        if z != x {
            assert(sigma(z) != sigma(x));
            if a.0.contains_key(z) {
                assert(b.0[sigma(z)] == a.0[z]);
            }
        }
    }
}

proof fn lemma_visit_all_agree_on(
    a: RenameState,
    b: RenameState,
    sigma: spec_fn(Index) -> Index,
    s: Set<Index>,
    xs: Seq<Index>,
)
    requires
        renames_on(sigma, s),
        agree_on(a, b, sigma, s),
        forall|i: int| 0 <= i < xs.len() ==> s.contains(#[trigger] xs[i]),
    ensures
        agree_on(rename_visit_all(a, xs), rename_visit_all(b, xs.map_values(|x: Index| sigma(x))), sigma, s),
    decreases xs.len(),
{
    if xs.len() > 0 {
        let t = xs.map_values(|x: Index| sigma(x));
        assert(t.drop_last() =~= xs.drop_last().map_values(|x: Index| sigma(x)));
        assert forall|i: int| 0 <= i < xs.drop_last().len() implies s.contains(#[trigger] xs.drop_last()[i]) by {
            assert(xs.drop_last()[i] == xs[i]);
        }
        lemma_visit_all_agree_on(a, b, sigma, s, xs.drop_last());
        assert(s.contains(xs[xs.len() - 1]));
        lemma_visit_agree_on(rename_visit_all(a, xs.drop_last()), rename_visit_all(b, t.drop_last()), sigma, s, xs.last());
        assert(t.last() == sigma(xs.last()));
    }
}

proof fn lemma_visit_factors_agree_on(
    a: RenameState,
    b: RenameState,
    sigma: spec_fn(Index) -> Index,
    s: Set<Index>,
    fs: Seq<FactorModel>,
)
    requires
        renames_on(sigma, s),
        agree_on(a, b, sigma, s),
        indices_in(fs, s),
    ensures
        agree_on(rename_visit_factors(a, fs), rename_visit_factors(b, rename_with(sigma, fs)), sigma, s),
    decreases fs.len(),
{
    if fs.len() > 0 {
        let gs = rename_with(sigma, fs);
        let front = fs.drop_last();
        assert(gs.drop_last() =~= rename_with(sigma, front));
        assert forall|i: int, j: int| 0 <= i < front.len() && 0 <= j < front[i].indices.len() implies
            s.contains(#[trigger] front[i].indices[j]) by {
            assert(front[i] == fs[i]);
        }
        lemma_visit_factors_agree_on(a, b, sigma, s, front);
        assert(gs.last() == rename_factor(sigma, fs.last()));
        let last = fs.last().indices;
        assert forall|j: int| 0 <= j < last.len() implies s.contains(#[trigger] last[j]) by {
            assert(fs[fs.len() - 1] == fs.last());
            assert(s.contains(fs[fs.len() - 1].indices[j]));
        }
        lemma_visit_all_agree_on(
            rename_visit_factors(a, front),
            rename_visit_factors(b, gs.drop_last()),
            sigma,
            s,
            last,
        );
    }
}

/// A map built from pairs with distinct keys sends each key to its pair's value.
proof fn lemma_pairs_map_value(ps: Seq<(Index, Index)>, i: int)
    requires
        0 <= i < ps.len(),
        forall|a: int, b: int| 0 <= a < b < ps.len() ==> (#[trigger] ps[a]).0 != (#[trigger] ps[b]).0,
    ensures
        pairs_map(ps).contains_key(ps[i].0),
        pairs_map(ps)[ps[i].0] == ps[i].1,
    decreases ps.len(),
{
    if i < ps.len() - 1 {
        let front = ps.drop_last();
        assert forall|a: int, b: int| 0 <= a < b < front.len() implies (#[trigger] front[a]).0 != (#[trigger] front[b]).0 by {
            assert(front[a] == ps[a] && front[b] == ps[b]);
        }
        assert(front[i] == ps[i]);
        lemma_pairs_map_value(front, i);
        assert(ps[i].0 != ps[ps.len() - 1].0);
    }
}

/// Normalizing factors renamed one to one gives the same result as
/// normalizing the factors, when the output is renamed alike.
pub proof fn lemma_normalize_moved(
    w: Seq<FactorModel>,
    out: Seq<Index>,
    out2: Seq<Index>,
    sigma: spec_fn(Index) -> Index,
    s: Set<Index>,
)
    requires
        renames_on(sigma, s),
        indices_in(w, s),
        forall|i: int| 0 <= i < out.len() ==> s.contains(#[trigger] out[i]),
        out.no_duplicates(),
        out2.len() == out.len(),
        forall|i: int| 0 <= i < out.len() ==> #[trigger] out2[i] == sigma(out[i]),
    ensures
        normalize(rename_with(sigma, w), out2) == normalize(w, out),
{
    let pa = output_pairs(out);
    let pb = output_pairs(out2);
    let seed_a = pairs_map(pa);
    let seed_b = pairs_map(pb);
    assert forall|a: int, b: int| 0 <= a < b < pa.len() implies (#[trigger] pa[a]).0 != (#[trigger] pa[b]).0 by {}
    assert forall|a: int, b: int| 0 <= a < b < pb.len() implies (#[trigger] pb[a]).0 != (#[trigger] pb[b]).0 by {
        assert(out[a] != out[b]);
        assert(s.contains(out[a]) && s.contains(out[b]));
    }
    let start_a: RenameState = (seed_a, out.len() as int);
    let start_b: RenameState = (seed_b, out2.len() as int);
    assert(agree_on(start_a, start_b, sigma, s)) by {
        assert forall|x: Index| s.contains(x) implies #[trigger] seed_b.contains_key(sigma(x)) == seed_a.contains_key(x) by {
            lemma_pairs_map_keys(pa, x);
            lemma_pairs_map_keys(pb, sigma(x));
            if seed_a.contains_key(x) {
                let i = choose|i: int| 0 <= i < pa.len() && pa[i].0 == x;
                assert(pb[i].0 == sigma(x));
            }
            if seed_b.contains_key(sigma(x)) {
                let i = choose|i: int| 0 <= i < pb.len() && pb[i].0 == sigma(x);
                assert(sigma(out[i]) == sigma(x));
                assert(s.contains(out[i]));
                assert(out[i] == x);
                assert(pa[i].0 == x);
            }
        }
        assert forall|x: Index| s.contains(x) && seed_a.contains_key(x) implies seed_b[sigma(x)] == #[trigger] seed_a[x] by {
            lemma_pairs_map_keys(pa, x);
            let i = choose|i: int| 0 <= i < pa.len() && pa[i].0 == x;
            lemma_pairs_map_value(pa, i);
            lemma_pairs_map_value(pb, i);
            assert(pb[i].0 == sigma(x));
            assert(s.contains(out[i]));
            assert(sigma(out[i]).domain == out[i].domain);
        }
    }
    let gs = rename_with(sigma, w);
    lemma_visit_factors_agree_on(start_a, start_b, sigma, s, w);
    let ma = rename_visit_factors(start_a, w).0;
    let mb = rename_visit_factors(start_b, gs).0;
    lemma_visit_factors(start_a, w);
    assert(rename_factors(mb, gs) =~= rename_factors(ma, w)) by {
        assert forall|i: int| 0 <= i < w.len() implies #[trigger] rename_factors(mb, gs)[i] == rename_factors(ma, w)[i] by {
            let f = w[i];
            assert(gs[i] == rename_factor(sigma, f));
            assert(rename_factors(mb, gs)[i].indices =~= rename_factors(ma, w)[i].indices) by {
                assert forall|j: int| 0 <= j < f.indices.len() implies #[trigger] rename_factors(mb, gs)[i].indices[j]
                    == rename_factors(ma, w)[i].indices[j] by {
                    assert(ma.contains_key(w[i].indices[j]));
                    assert(s.contains(w[i].indices[j]));
                }
            }
        }
    }
}

// ---------------------------------------------------------------------------
// The renaming that normalization builds.
// ---------------------------------------------------------------------------

/// A renaming state whose map is one to one, keeps domains, and hands out IDs
/// below the next fresh one.
spec fn good_state(st: RenameState) -> bool {
    &&& 0 <= st.1
    &&& forall|k1: Index, k2: Index| st.0.contains_key(k1) && st.0.contains_key(k2) && #[trigger] st.0[k1] == #[trigger] st.0[k2] ==> k1 == k2
    &&& forall|k: Index| st.0.contains_key(k) ==> (#[trigger] st.0[k]).id < st.1 && st.0[k].domain == k.domain
}

proof fn lemma_visit_good(st: RenameState, x: Index)
    requires
        good_state(st),
        st.1 <= u64::MAX,
    ensures
        good_state(rename_visit(st, x)),
        rename_visit(st, x).1 <= st.1 + 1,
        forall|k: Index| st.0.contains_key(k) ==> #[trigger] rename_visit(st, x).0.contains_key(k) && rename_visit(st, x).0[k] == st.0[k],
{
    let r = rename_visit(st, x);
    if !st.0.contains_key(x) {
        assert(r.0[x].id == st.1);
        assert forall|k1: Index, k2: Index| r.0.contains_key(k1) && r.0.contains_key(k2) && #[trigger] r.0[k1] == #[trigger] r.0[k2] implies k1 == k2 by {
            if k1 != x && k2 != x {
                assert(st.0[k1] == st.0[k2]);
            } else if k1 == x && k2 != x {
                assert(st.0[k2].id < st.1);
            } else if k1 != x && k2 == x {
                assert(st.0[k1].id < st.1);
            }
        }
        assert forall|k: Index| r.0.contains_key(k) implies (#[trigger] r.0[k]).id < r.1 && r.0[k].domain == k.domain by {
            if k != x {
                assert(st.0[k].id < st.1);
            }
        }
    }
}

proof fn lemma_visit_all_good(st: RenameState, xs: Seq<Index>)
    requires
        good_state(st),
        st.1 + xs.len() <= u64::MAX + 1,
    ensures
        good_state(rename_visit_all(st, xs)),
        rename_visit_all(st, xs).1 <= st.1 + xs.len(),
        forall|k: Index| st.0.contains_key(k) ==> #[trigger] rename_visit_all(st, xs).0.contains_key(k) && rename_visit_all(st, xs).0[k] == st.0[k],
    decreases xs.len(),
{
    if xs.len() > 0 {
        lemma_visit_all_good(st, xs.drop_last());
        let mid = rename_visit_all(st, xs.drop_last());
        lemma_visit_good(mid, xs.last());
    }
}

proof fn lemma_visit_factors_good(st: RenameState, fs: Seq<FactorModel>)
    requires
        good_state(st),
        st.1 + all_indices(fs).len() <= u64::MAX + 1,
    ensures
        good_state(rename_visit_factors(st, fs)),
        rename_visit_factors(st, fs).1 <= st.1 + all_indices(fs).len(),
        forall|k: Index| st.0.contains_key(k) ==> #[trigger] rename_visit_factors(st, fs).0.contains_key(k) && rename_visit_factors(st, fs).0[k] == st.0[k],
    decreases fs.len(),
{
    if fs.len() > 0 {
        let front = fs.drop_last();
        assert(all_indices(fs) == all_indices(front) + fs.last().indices);
        lemma_visit_factors_good(st, front);
        lemma_visit_all_good(rename_visit_factors(st, front), fs.last().indices);
    }
}

/// The renaming that normalizes `u` against `out`, as a function.
pub open spec fn normal_renaming(u: Seq<FactorModel>, out: Seq<Index>) -> spec_fn(Index) -> Index {
    let m = rename_visit_factors((pairs_map(output_pairs(out)), out.len() as int), u).0;
    |x: Index| m[x]
}

/// The indices that the normalizing renaming of `u` covers.
pub open spec fn normal_domain(u: Seq<FactorModel>, out: Seq<Index>) -> Set<Index> {
    rename_visit_factors((pairs_map(output_pairs(out)), out.len() as int), u).0.dom()
}

/// Normalization renames one to one, sends the `i`-th output index to
/// position `i`, and covers every index of the factors and the output.
pub proof fn lemma_normal_renaming(u: Seq<FactorModel>, out: Seq<Index>)
    requires
        out.no_duplicates(),
        out.len() + all_indices(u).len() <= u64::MAX,
    ensures
        renames_on(normal_renaming(u, out), normal_domain(u, out)),
        indices_in(u, normal_domain(u, out)),
        forall|i: int| 0 <= i < out.len() ==> normal_domain(u, out).contains(#[trigger] out[i])
            && normal_renaming(u, out)(out[i]) == (Index { id: i as u64, domain: out[i].domain }),
        normalize(u, out) == rename_with(normal_renaming(u, out), u),
{
    let pa = output_pairs(out);
    let seed = pairs_map(pa);
    let start: RenameState = (seed, out.len() as int);
    assert forall|a: int, b: int| 0 <= a < b < pa.len() implies (#[trigger] pa[a]).0 != (#[trigger] pa[b]).0 by {}
    assert(good_state(start)) by {
        assert forall|k: Index| seed.contains_key(k) implies (#[trigger] seed[k]).id < start.1 && seed[k].domain == k.domain by {
            lemma_pairs_map_keys(pa, k);
            let i = choose|i: int| 0 <= i < pa.len() && pa[i].0 == k;
            lemma_pairs_map_value(pa, i);
        }
        assert forall|k1: Index, k2: Index| seed.contains_key(k1) && seed.contains_key(k2) && #[trigger] seed[k1] == #[trigger] seed[k2] implies k1 == k2 by {
            lemma_pairs_map_keys(pa, k1);
            lemma_pairs_map_keys(pa, k2);
            let i = choose|i: int| 0 <= i < pa.len() && pa[i].0 == k1;
            let j = choose|j: int| 0 <= j < pa.len() && pa[j].0 == k2;
            lemma_pairs_map_value(pa, i);
            lemma_pairs_map_value(pa, j);
            assert(pa[i].1.id == i as u64 && pa[j].1.id == j as u64);
        }
    }
    lemma_visit_factors_good(start, u);
    lemma_visit_factors(start, u);
    let m = rename_visit_factors(start, u).0;
    let sigma = normal_renaming(u, out);
    let dom = normal_domain(u, out);
    assert forall|i: int| 0 <= i < out.len() implies dom.contains(#[trigger] out[i])
        && sigma(out[i]) == (Index { id: i as u64, domain: out[i].domain }) by {
        lemma_pairs_map_value(pa, i);
    }
    assert forall|i: int, j: int| 0 <= i < u.len() && 0 <= j < u[i].indices.len() implies dom.contains(#[trigger] u[i].indices[j]) by {
        assert(m.contains_key(u[i].indices[j]));
    }
    assert(normalize(u, out) =~= rename_with(sigma, u)) by {
        assert forall|i: int| 0 <= i < u.len() implies #[trigger] normalize(u, out)[i] == rename_with(sigma, u)[i] by {
            assert(normalize(u, out)[i].indices =~= rename_with(sigma, u)[i].indices);
        }
    }
}

// ---------------------------------------------------------------------------
// Variants of variants, and products of signs.
// ---------------------------------------------------------------------------

/// A variant of a variant is the variant that the concatenated word spells,
/// with the product of the signs.
proof fn lemma_variant_of_variant(f: FactorModel, gens: Seq<SymmetryGenerator>, w1: Seq<int>, w2: Seq<int>)
    requires
        f.indices.len() <= usize::MAX,
        gens_ok(gens, f.indices.len()),
        is_word(gens.len() as int, w1),
        is_word(gens.len() as int, w2),
    ensures
        is_word(gens.len() as int, w1 + w2),
        variant_by(variant_by(f, gens, w1).0, gens, w2).0 == variant_by(f, gens, w1 + w2).0,
        variant_by(f, gens, w1 + w2).1 == variant_by(f, gens, w1).1 * variant_by(variant_by(f, gens, w1).0, gens, w2).1,
{
    let r = f.indices.len();
    lemma_word_concat(r, gens, w1, w2);
    lemma_word_elem_ok(r, gens, w1);
    lemma_word_elem_ok(r, gens, w2);
    let e1 = word_elem(r, gens, w1);
    let e2 = word_elem(r, gens, w2);
    let v1 = variant_by(f, gens, w1).0;
    assert(v1.indices.len() == r);
    lemma_permute_twice(f.indices, e1.0, e2.0);
}

/// The product of pointwise products of signs is the product of the products.
proof fn lemma_product_pointwise(a: Seq<int>, b: Seq<int>)
    requires
        a.len() == b.len(),
    ensures
        sign_product(Seq::new(a.len(), |j: int| a[j] * b[j])) == sign_product(a) * sign_product(b),
    decreases a.len(),
{
    let p = Seq::new(a.len(), |j: int| a[j] * b[j]);
    if a.len() > 0 {
        let n = a.len() - 1;
        lemma_product_pointwise(a.drop_last(), b.drop_last());
        assert(p.drop_last() =~= Seq::new(a.drop_last().len(), |j: int| a.drop_last()[j] * b.drop_last()[j]));
        let x = sign_product(a.drop_last());
        let y = sign_product(b.drop_last());
        assert((x * y) * (a[n] * b[n]) == (x * a[n]) * (y * b[n])) by (nonlinear_arith);
    }
}

/// The order that keeps every factor in place.
pub open spec fn identity_order(n: nat) -> Seq<usize> {
    Seq::new(n, |i: int| i as usize)
}

/// Keeping a body in place is a valid order when its tensor IDs ascend.
proof fn lemma_identity_order(fs: Seq<FactorModel>)
    requires
        fs.len() <= usize::MAX,
        forall|i: int, j: int| 0 <= i < j < fs.len() ==> (#[trigger] fs[i]).tensor.0 <= (#[trigger] fs[j]).tensor.0,
    ensures
        valid_order(fs, identity_order(fs.len())),
        apply_order(identity_order(fs.len()), fs) == fs,
{
    let o = identity_order(fs.len());
    assert forall|p: int| 0 <= p < fs.len() implies #[trigger] o.contains(p as usize) by {
        assert(o[p] == p as usize);
    }
    assert forall|i: int, j: int| 0 <= i < j < o.len() implies fs[#[trigger] o[i] as int].tensor.0 <= fs[#[trigger] o[j] as int].tensor.0 by {
        assert(o[i] as int == i && o[j] as int == j);
    }
    assert(apply_order(o, fs) =~= fs);
}

// ---------------------------------------------------------------------------
// The candidates of a normal body.
// ---------------------------------------------------------------------------

/// Every candidate of the body that choice `c` in order `o` gives, taken
/// against the renumbered output, is a candidate of the factors themselves,
/// with its sign multiplied by the sign of `c`.
proof fn lemma_candidates_of_normal_body(
    fs: Seq<FactorModel>,
    out: Seq<Index>,
    symmetries: Seq<(TensorId, Vec<SymmetryGenerator>)>,
    c: (Seq<FactorModel>, int),
    o: Seq<usize>,
    x: (Seq<FactorModel>, int),
)
    requires
        symmetries_fit(fs, symmetries),
        fs.len() <= usize::MAX,
        forall|i: int| 0 <= i < fs.len() ==> (#[trigger] fs[i]).indices.len() <= usize::MAX,
        out.no_duplicates(),
        out.len() + all_indices(fs).len() <= u64::MAX,
        is_choice(fs, symmetries, c),
        valid_order(fs, o),
        is_candidate(normalize(apply_order(o, c.0), out), renumbered_output(out), symmetries, x),
    ensures
        is_candidate(fs, out, symmetries, (x.0, c.1 * x.1)),
{
    let n = fs.len();
    let u = apply_order(o, c.0);
    let b = normalize(u, out);
    let out2 = renumbered_output(out);
    lemma_choice_shape(fs, symmetries, c);
    lemma_reordered_len(fs, c.0, o);
    lemma_normal_renaming(u, out);
    let sigma = normal_renaming(u, out);
    let dom = normal_domain(u, out);
    assert(is_perm(o, n));
    lemma_inverse(o, n);
    let q = inverse(o);
    let (c2, o2) = choose|c2: (Seq<FactorModel>, int), o2: Seq<usize>|
        is_choice(b, symmetries, c2) && valid_order(b, o2) && #[trigger] candidate_of(c2, o2, out2) == x;
    let signs1 = choose|signs: Seq<int>| #[trigger] choice_by(fs, symmetries, c.0, signs) && c.1 == sign_product(signs);
    let signs2 = choose|signs: Seq<int>| #[trigger] choice_by(b, symmetries, c2.0, signs) && c2.1 == sign_product(signs);
    assert(b.len() == n);
    let w1 = Seq::new(n, |i: int| choose|w: Seq<int>| is_word(generators_of(symmetries, fs[i].tensor).len() as int, w)
        && #[trigger] variant_by(fs[i], generators_of(symmetries, fs[i].tensor), w) == (c.0[i], signs1[i]));
    let w2 = Seq::new(n, |j: int| choose|w: Seq<int>| is_word(generators_of(symmetries, b[j].tensor).len() as int, w)
        && #[trigger] variant_by(b[j], generators_of(symmetries, b[j].tensor), w) == (c2.0[j], signs2[j]));
    let y = Seq::new(n, |j: int| variant_by(u[j], generators_of(symmetries, u[j].tensor), w2[j]).0);
    let ysign = Seq::new(n, |j: int| signs1[o[j] as int] * signs2[j]);
    // What each position holds.
    assert forall|j: int| 0 <= j < n implies {
        &&& is_variant(fs[(#[trigger] o[j]) as int], generators_of(symmetries, fs[o[j] as int].tensor), (y[j], ysign[j]))
        &&& c2.0[j] == rename_factor(sigma, y[j])
        &&& b[j].tensor == fs[o[j] as int].tensor
        &&& forall|m: int| 0 <= m < y[j].indices.len() ==> dom.contains(#[trigger] y[j].indices[m])
    } by {
        let i = o[j] as int;
        assert(0 <= i < n);
        let g = generators_of(symmetries, fs[i].tensor);
        assert(u[j] == c.0[i]);
        assert(b[j] == rename_factor(sigma, u[j]));
        assert(gens_ok(g, fs[i].indices.len()));
        assert(is_variant(fs[i], g, (c.0[i], signs1[i])));
        assert(is_word(g.len() as int, w1[i]) && variant_by(fs[i], g, w1[i]) == (c.0[i], signs1[i]));
        assert(is_variant(b[j], g, (c2.0[j], signs2[j])));
        assert(is_word(g.len() as int, w2[j]) && variant_by(b[j], g, w2[j]) == (c2.0[j], signs2[j]));
        lemma_variant_rename(u[j], g, sigma, w2[j]);
        lemma_variant_of_variant(fs[i], g, w1[i], w2[j]);
        assert(variant_by(fs[i], g, w1[i] + w2[j]) == (y[j], ysign[j]));
        // The indices of the variant are indices of `u[j]`.
        let r = u[j].indices.len();
        lemma_word_elem_ok(r, g, w2[j]);
        let e = word_elem(r, g, w2[j]);
        assert forall|m: int| 0 <= m < y[j].indices.len() implies dom.contains(#[trigger] y[j].indices[m]) by {
            assert(y[j].indices[m] == u[j].indices[e.0[m] as int]);
            assert(e.0[m] < r);
        }
    }
    // The choice that puts each variant back at its factor's position.
    let v3 = apply_order(q, y);
    let signs3 = apply_order(q, ysign);
    assert(choice_by(fs, symmetries, v3, signs3)) by {
        assert forall|i: int| 0 <= i < n implies is_variant(fs[i], generators_of(symmetries, fs[i].tensor), (#[trigger] v3[i], signs3[i])) by {
            let j = q[i] as int;
            assert(o[j] == i as usize);
            assert(v3[i] == y[j] && signs3[i] == ysign[j]);
        }
    }
    assert(sign_product(signs3) == c.1 * x.1) by {
        lemma_product_perm(ysign, q);
        let a = apply_order(o, signs1);
        assert(ysign =~= Seq::new(a.len(), |j: int| a[j] * signs2[j]));
        lemma_product_pointwise(a, signs2);
        lemma_product_perm(signs1, o);
    }
    // The order that reaches the same body.
    let o3 = Seq::new(n, |k: int| o[o2[k] as int]);
    assert(valid_order(fs, o3)) by {
        assert forall|k: int| 0 <= k < o3.len() implies (#[trigger] o3[k]) < n by {
            assert(o2[k] < n);
        }
        assert forall|a1: int, a2: int| 0 <= a1 < o3.len() && 0 <= a2 < o3.len() && a1 != a2 implies o3[a1] != o3[a2] by {
            assert(o2[a1] != o2[a2]);
            assert(o2[a1] < n && o2[a2] < n);
        }
        assert forall|p: int| 0 <= p < n implies #[trigger] o3.contains(p as usize) by {
            assert(o.contains(p as usize));
            let j = choose|j: int| 0 <= j < o.len() && o[j] == p as usize;
            assert(o2.contains(j as usize));
            let k = choose|k: int| 0 <= k < o2.len() && o2[k] == j as usize;
            assert(o3[k] == p as usize);
        }
        assert forall|a1: int, a2: int| 0 <= a1 < a2 < o3.len() implies fs[#[trigger] o3[a1] as int].tensor.0 <= fs[#[trigger] o3[a2] as int].tensor.0 by {
            assert(b[o2[a1] as int].tensor.0 <= b[o2[a2] as int].tensor.0);
            assert(o2[a1] < n && o2[a2] < n);
        }
    }
    let big_w = apply_order(o3, v3);
    assert(apply_order(o2, c2.0) =~= rename_with(sigma, big_w)) by {
        assert forall|k: int| 0 <= k < o2.len() implies #[trigger] apply_order(o2, c2.0)[k] == rename_with(sigma, big_w)[k] by {
            let j = o2[k] as int;
            assert(j < n);
            assert(q[o[j] as int] == j as usize);
            assert(big_w[k] == y[j]);
        }
    }
    assert(indices_in(big_w, dom)) by {
        assert forall|k: int, m: int| 0 <= k < big_w.len() && 0 <= m < big_w[k].indices.len() implies dom.contains(#[trigger] big_w[k].indices[m]) by {
            let j = o2[k] as int;
            assert(j < n);
            assert(q[o[j] as int] == j as usize);
            assert(big_w[k] == y[j]);
        }
    }
    assert forall|i: int| 0 <= i < out.len() implies #[trigger] out2[i] == sigma(out[i]) by {}
    assert forall|i: int| 0 <= i < out.len() implies dom.contains(#[trigger] out[i]) by {}
    lemma_normalize_moved(big_w, out, out2, sigma, dom);
    assert(candidate_of((v3, c.1 * x.1), o3, out) == (x.0, c.1 * x.1));
    assert(is_choice(fs, symmetries, (v3, c.1 * x.1)));
}

/// The body that choice `c` in order `o` gives is its own candidate, with sign
/// one, against the renumbered output.
proof fn lemma_normal_body_candidate(
    fs: Seq<FactorModel>,
    out: Seq<Index>,
    symmetries: Seq<(TensorId, Vec<SymmetryGenerator>)>,
    c: (Seq<FactorModel>, int),
    o: Seq<usize>,
)
    requires
        symmetries_fit(fs, symmetries),
        fs.len() <= usize::MAX,
        forall|i: int| 0 <= i < fs.len() ==> (#[trigger] fs[i]).indices.len() <= usize::MAX,
        out.no_duplicates(),
        out.len() + all_indices(fs).len() <= u64::MAX,
        is_choice(fs, symmetries, c),
        valid_order(fs, o),
    ensures
        is_candidate(normalize(apply_order(o, c.0), out), renumbered_output(out), symmetries,
            (normalize(apply_order(o, c.0), out), 1int)),
{
    let n = fs.len();
    let u = apply_order(o, c.0);
    let b = normalize(u, out);
    let out2 = renumbered_output(out);
    lemma_choice_shape(fs, symmetries, c);
    lemma_reordered_len(fs, c.0, o);
    lemma_normal_renaming(u, out);
    let sigma = normal_renaming(u, out);
    let dom = normal_domain(u, out);
    assert(b.len() == n);
    assert forall|j: int| 0 <= j < n implies (#[trigger] b[j]).tensor == fs[o[j] as int].tensor
        && b[j].indices.len() <= usize::MAX by {
        assert(o[j] < n);
        assert(u[j] == c.0[o[j] as int]);
    }
    assert forall|i: int, j: int| 0 <= i < j < b.len() implies (#[trigger] b[i]).tensor.0 <= (#[trigger] b[j]).tensor.0 by {
        assert(b[i].tensor == fs[o[i] as int].tensor);
        assert(b[j].tensor == fs[o[j] as int].tensor);
    }
    lemma_identity_order(b);
    lemma_identity_choice(b, symmetries);
    assert forall|i: int| 0 <= i < out.len() implies #[trigger] out2[i] == sigma(out[i]) by {}
    assert forall|i: int| 0 <= i < out.len() implies dom.contains(#[trigger] out[i]) by {}
    lemma_normalize_moved(u, out, out2, sigma, dom);
    assert(candidate_of((b, 1int), identity_order(n), out2) == (b, 1int));
}

/// Canonicalizing a canonical body again, with any nonzero coefficient, gives
/// it back unchanged.
pub proof fn lemma_canonical_term_fixed(
    t: TermModel,
    out: Seq<Index>,
    symmetries: Seq<(TensorId, Vec<SymmetryGenerator>)>,
    k: (int, int),
)
    requires
        symmetries_fit(t.factors, symmetries),
        t.factors.len() <= usize::MAX,
        forall|i: int| 0 <= i < t.factors.len() ==> (#[trigger] t.factors[i]).indices.len() <= usize::MAX,
        out.no_duplicates(),
        out.len() + all_indices(t.factors).len() <= u64::MAX,
        canonical_term(t, out, symmetries) is Some,
        k.0 != 0,
    ensures
        canonical_term(
            TermModel { coeff: k, factors: canonical_term(t, out, symmetries)->Some_0.factors },
            renumbered_output(out),
            symmetries,
        ) == Some(TermModel { coeff: k, factors: canonical_term(t, out, symmetries)->Some_0.factors }),
{
    let fs = t.factors;
    let out2 = renumbered_output(out);
    let pt = |b: Seq<FactorModel>| is_least_candidate(fs, out, symmetries, b);
    let b0 = choose|b: Seq<FactorModel>| is_least_candidate(fs, out, symmetries, b);
    assert(pt(b0));
    assert(least_candidate(fs, out, symmetries) == some_body(pt));
    let b = least_candidate(fs, out, symmetries);
    assert(pt(b));
    let pos = is_candidate(fs, out, symmetries, (b, 1int));
    let neg = is_candidate(fs, out, symmetries, (b, -1int));
    assert(!(pos && neg));
    let sb = choose|s: int| is_candidate(fs, out, symmetries, (b, s));
    lemma_candidate_sign(fs, out, symmetries, (b, sb));
    let (c, o) = choose|c: (Seq<FactorModel>, int), o: Seq<usize>|
        is_choice(fs, symmetries, c) && valid_order(fs, o) && #[trigger] candidate_of(c, o, out) == (b, sb);
    assert(b == normalize(apply_order(o, c.0), out) && c.1 == sb);
    let u = TermModel { coeff: k, factors: b };
    lemma_normal_body_candidate(fs, out, symmetries, c, o);
    assert forall|x: (Seq<FactorModel>, int)| is_candidate(b, out2, symmetries, x) implies
        body_total(b, x.0) != Order::Greater && is_candidate(fs, out, symmetries, (x.0, sb * x.1)) by {
        lemma_candidates_of_normal_body(fs, out, symmetries, c, o, x);
    }
    assert(is_least_candidate(b, out2, symmetries, b));
    assert(has_least_candidate(b, out2, symmetries));
    lemma_least_unique(b, out2, symmetries, b);
    if is_candidate(b, out2, symmetries, (b, -1int)) {
        assert(is_candidate(fs, out, symmetries, (b, sb * -1)));
        assert(pos && neg);
    }
}

// ---------------------------------------------------------------------------
// Canonical polynomials.
// ---------------------------------------------------------------------------

/// The body of the canonical form of `t`, if it has one.
spec fn canonical_body(t: TermModel, out: Seq<Index>, symmetries: Seq<(TensorId, Vec<SymmetryGenerator>)>) -> Option<Seq<FactorModel>> {
    match canonical_term(t, out, symmetries) {
        Some(c) => Some(c.factors),
        None => None,
    }
}

/// `f` is the body of the canonical form of a term of `ts`.
spec fn body_from(f: Seq<FactorModel>, ts: Seq<TermModel>, out: Seq<Index>, symmetries: Seq<(TensorId, Vec<SymmetryGenerator>)>) -> bool {
    exists|m: int| 0 <= m < ts.len() && #[trigger] canonical_body(ts[m], out, symmetries) == Some(f)
}

/// Each term of `ms` has the body of the canonical form of a term of `ts`.
spec fn bodies_from(ms: Seq<TermModel>, ts: Seq<TermModel>, out: Seq<Index>, symmetries: Seq<(TensorId, Vec<SymmetryGenerator>)>) -> bool {
    forall|i: int| 0 <= i < ms.len() ==> body_from((#[trigger] ms[i]).factors, ts, out, symmetries)
}

proof fn lemma_canonical_terms_from(ts: Seq<TermModel>, out: Seq<Index>, symmetries: Seq<(TensorId, Vec<SymmetryGenerator>)>)
    ensures
        bodies_from(canonical_terms(ts, out, symmetries), ts, out, symmetries),
    decreases ts.len(),
{
    if ts.len() > 0 {
        let front = ts.drop_last();
        lemma_canonical_terms_from(front, out, symmetries);
        let rest = canonical_terms(front, out, symmetries);
        let r = canonical_terms(ts, out, symmetries);
        let last = ts.len() - 1;
        assert(ts[last] == ts.last());
        match canonical_term(ts.last(), out, symmetries) {
            Some(c) => {
                assert(r == rest.push(c));
            },
            None => {
                assert(r == rest);
            },
        }
        assert forall|i: int| 0 <= i < r.len() implies body_from((#[trigger] r[i]).factors, ts, out, symmetries) by {
            if i < rest.len() {
                assert(r[i] == rest[i]);
                assert(body_from(rest[i].factors, front, out, symmetries));
                let m = choose|m: int| 0 <= m < front.len() && #[trigger] canonical_body(front[m], out, symmetries) == Some(rest[i].factors);
                assert(front[m] == ts[m]);
            } else {
                assert(canonical_body(ts[last], out, symmetries) == Some(r[i].factors));
            }
        }
    }
}

proof fn lemma_merge_terms_from(cs: Seq<TermModel>, ts: Seq<TermModel>, out: Seq<Index>, symmetries: Seq<(TensorId, Vec<SymmetryGenerator>)>)
    requires
        bodies_from(cs, ts, out, symmetries),
    ensures
        bodies_from(merge_terms(cs), ts, out, symmetries),
    decreases cs.len(),
{
    if cs.len() > 0 {
        let front = cs.drop_last();
        assert forall|i: int| 0 <= i < front.len() implies body_from((#[trigger] front[i]).factors, ts, out, symmetries) by {
            assert(front[i] == cs[i]);
        }
        lemma_merge_terms_from(front, ts, out, symmetries);
        let acc = merge_terms(front);
        let t = cs.last();
        assert(cs[cs.len() - 1] == t);
        let r = merge_term(acc, t);
        let p = not_before(acc, t);
        lemma_first_match_ensures(acc.len() as int, p);
        assert forall|i: int| 0 <= i < r.len() implies body_from((#[trigger] r[i]).factors, ts, out, symmetries) by {
            match first_match(acc.len() as int, p) {
                Some(j) => {
                    if body_order(acc[j].factors, t.factors) == Order::Equal {
                        assert(r[i].factors == acc[i].factors);
                    } else if i < j {
                        assert(r[i] == acc[i]);
                    } else if i > j {
                        assert(r[i] == acc[i - 1]);
                    } else {
                        assert(r[i] == t);
                    }
                },
                None => {
                    if i < acc.len() {
                        assert(r[i] == acc[i]);
                    } else {
                        assert(r[i] == t);
                    }
                },
            }
        }
    }
}

/// Merging terms whose bodies strictly ascend changes nothing.
proof fn lemma_merge_ascending_fixed(ms: Seq<TermModel>)
    requires
        bodies_ascending(ms),
    ensures
        merge_terms(ms) == ms,
    decreases ms.len(),
{
    if ms.len() > 0 {
        let front = ms.drop_last();
        assert forall|i: int, j: int| 0 <= i < j < front.len() implies body_order((#[trigger] front[i]).factors, (#[trigger] front[j]).factors) == Order::Less by {
            assert(front[i] == ms[i] && front[j] == ms[j]);
        }
        lemma_merge_ascending_fixed(front);
        let t = ms.last();
        let p = not_before(front, t);
        assert forall|k: int| 0 <= k < front.len() implies !#[trigger] p(k) by {
            assert(front[k] == ms[k]);
            assert(ms[ms.len() - 1] == t);
        }
        lemma_first_none(front.len() as int, p);
        assert(front.push(t) =~= ms);
    }
}

/// Keeping the nonzero terms of terms that are all nonzero changes nothing.
proof fn lemma_nonzero_fixed(ms: Seq<TermModel>)
    requires
        forall|i: int| 0 <= i < ms.len() ==> (#[trigger] ms[i]).coeff.0 != 0,
    ensures
        nonzero_terms(ms) == ms,
    decreases ms.len(),
{
    if ms.len() > 0 {
        let front = ms.drop_last();
        assert forall|i: int| 0 <= i < front.len() implies (#[trigger] front[i]).coeff.0 != 0 by {
            assert(front[i] == ms[i]);
        }
        lemma_nonzero_fixed(front);
        assert(ms[ms.len() - 1] == ms.last());
        assert(front.push(ms.last()) =~= ms);
    }
}

/// Canonicalizing terms that are each their own canonical form changes nothing.
proof fn lemma_canonical_terms_fixed(ms: Seq<TermModel>, out: Seq<Index>, symmetries: Seq<(TensorId, Vec<SymmetryGenerator>)>)
    requires
        forall|i: int| 0 <= i < ms.len() ==> canonical_term(#[trigger] ms[i], out, symmetries) == Some(ms[i]),
    ensures
        canonical_terms(ms, out, symmetries) == ms,
    decreases ms.len(),
{
    if ms.len() > 0 {
        let front = ms.drop_last();
        assert forall|i: int| 0 <= i < front.len() implies canonical_term(#[trigger] front[i], out, symmetries) == Some(front[i]) by {
            assert(front[i] == ms[i]);
        }
        lemma_canonical_terms_fixed(front, out, symmetries);
        assert(ms[ms.len() - 1] == ms.last());
        assert(front.push(ms.last()) =~= ms);
    }
}

/// Canonicalizing a canonical polynomial changes nothing.
pub proof fn lemma_canonical_poly_fixed(p: PolyModel, symmetries: Seq<(TensorId, Vec<SymmetryGenerator>)>)
    requires
        canonicalizable(p, symmetries),
        p.output.no_duplicates(),
        forall|k: int| 0 <= k < p.terms.len() ==> (#[trigger] p.terms[k]).factors.len() <= usize::MAX,
        forall|k: int, i: int| 0 <= k < p.terms.len() && 0 <= i < p.terms[k].factors.len() ==>
            (#[trigger] p.terms[k].factors[i]).indices.len() <= usize::MAX,
    ensures
        canonical_poly(canonical_poly(p, symmetries), symmetries) == canonical_poly(p, symmetries),
{
    let cs = canonical_terms(p.terms, p.output, symmetries);
    let ms = nonzero_terms(merge_terms(cs));
    let out2 = renumbered_output(p.output);
    lemma_canonical_poly_sorted(p, symmetries);
    if ms.len() > 0 {
        lemma_merge_terms_ascending(cs);
        lemma_nonzero_terms(merge_terms(cs));
        lemma_canonical_terms_from(p.terms, p.output, symmetries);
        lemma_merge_terms_from(cs, p.terms, p.output, symmetries);
        assert forall|i: int| 0 <= i < ms.len() implies canonical_term(#[trigger] ms[i], out2, symmetries) == Some(ms[i]) by {
            assert(merge_terms(cs).contains(ms[i]));
            let j = choose|j: int| 0 <= j < merge_terms(cs).len() && merge_terms(cs)[j] == ms[i];
            assert(body_from(merge_terms(cs)[j].factors, p.terms, p.output, symmetries));
            let m = choose|m: int| 0 <= m < p.terms.len() && #[trigger] canonical_body(p.terms[m], p.output, symmetries) == Some(ms[i].factors);
            let t = p.terms[m];
            assert(symmetries_fit(t.factors, symmetries));
            assert forall|i2: int| 0 <= i2 < t.factors.len() implies (#[trigger] t.factors[i2]).indices.len() <= usize::MAX by {
                assert(p.terms[m].factors[i2].indices.len() <= usize::MAX);
            }
            lemma_canonical_term_fixed(t, p.output, symmetries, ms[i].coeff);
        }
        lemma_canonical_terms_fixed(ms, out2, symmetries);
        lemma_merge_ascending_fixed(ms);
        lemma_nonzero_fixed(ms);
        assert(renumbered_output(out2) =~= out2);
    }
}

} // verus!
