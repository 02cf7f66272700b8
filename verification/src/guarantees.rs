//! What the main operations are for, stated over all inputs: how costs are
//! charged, how linear combinations scale, what a valid linear combination
//! looks like, which terms are of highest order, and what verification
//! compares.

use vstd::prelude::*;

use crate::canon::{canonical_poly, Order};
use crate::cost::{degree, max_exponent, operation_count, survivors, top_terms, with_exponent, exponent_of, flop_descending, flop_order, leading_run, FlopModel};
use crate::expand::{expand_def, expansion, PolyModel, TermModel};
use crate::id_map::IdMap;
use crate::model::{DomainId, Einsum, LinComb, Problem, Program, SymmetryGenerator, TensorId, ValueDef};
use crate::rational::{is_reduced, rat_mul};
use crate::validate::{kind_error, problem_validation, program_validation};
use crate::validity::lemma_valid_value;
use crate::verify::verification;

verus! {

// ---------------------------------------------------------------------------
// Costs.
// ---------------------------------------------------------------------------

/// An einsum sums over some index: its code declares more indices than its
/// output keeps.
pub open spec fn sums_an_index(e: Einsum) -> bool {
    e.code.output@.len() < e.code.domains@.len()
}

/// An einsum of `n` arguments costs `n - 1` multiplications, and one more
/// addition pass when it sums: never more operations than arguments, never
/// fewer than one less.
pub proof fn lemma_einsum_cost_bounds(e: Einsum)
    requires
        e.args@.len() > 0,
    ensures
        operation_count(ValueDef::Einsum(e)) + 1 >= e.args@.len(),
        operation_count(ValueDef::Einsum(e)) <= e.args@.len(),
        operation_count(ValueDef::Einsum(e)) == e.args@.len() <==> sums_an_index(e),
{
}

/// The summation of an einsum is charged once, however many indices it sums:
/// einsums with as many arguments that both sum cost the same.
pub proof fn lemma_contraction_charged_once(e1: Einsum, e2: Einsum)
    requires
        e1.args@.len() == e2.args@.len(),
        sums_an_index(e1),
        sums_an_index(e2),
    ensures
        operation_count(ValueDef::Einsum(e1)) == operation_count(ValueDef::Einsum(e2)),
{
}

/// Summing costs exactly one operation more than not summing, with as many
/// arguments.
pub proof fn lemma_summing_costs_one(e1: Einsum, e2: Einsum)
    requires
        e1.args@.len() == e2.args@.len(),
        sums_an_index(e1),
        !sums_an_index(e2),
    ensures
        operation_count(ValueDef::Einsum(e1)) == operation_count(ValueDef::Einsum(e2)) + 1,
{
}

/// A linear combination of `n` summands costs `n - 1` additions, and a
/// copy or scaling of one argument costs nothing.
pub proof fn lemma_lincomb_cost(l: LinComb)
    ensures
        l.args@.len() > 0 ==> operation_count(ValueDef::LinComb(l)) + 1 == l.args@.len(),
        l.args@.len() <= 1 ==> operation_count(ValueDef::LinComb(l)) == 0,
{
}

// ---------------------------------------------------------------------------
// Linear combinations scale.
// ---------------------------------------------------------------------------

/// Rational products commute.
proof fn lemma_rat_mul_commutes(a: (int, int), b: (int, int))
    ensures
        rat_mul(a, b) == rat_mul(b, a),
{
    assert(a.0 * b.0 == b.0 * a.0) by (nonlinear_arith);
    assert(a.1 * b.1 == b.1 * a.1) by (nonlinear_arith);
}

/// A linear combination of one summand `c * x` expands exactly as the einsum
/// `c * x` over the same code: each term of `x` comes out with its
/// coefficient multiplied by `c`.
pub proof fn lemma_single_summand_is_scaling(l: LinComb, e: Einsum, values: Seq<PolyModel>)
    requires
        e.code == l.code,
        e.args@ == l.args@,
        l.args@.len() == 1,
        l.coeff@.len() == 1,
        l.code.inputs@.len() >= 1,
        e.coeff@ == l.coeff@[0]@,
    ensures
        expand_def(ValueDef::LinComb(l), values) == expand_def(ValueDef::Einsum(e), values),
{
    let le = expand_def(ValueDef::LinComb(l), values);
    let ee = expand_def(ValueDef::Einsum(e), values);
    assert(crate::expand::lincomb_width(l) == 1);
    assert(crate::expand::einsum_width(e) == 1);
    let lt = crate::expand::lincomb_terms(l, values, 1);
    let et = crate::expand::einsum_terms(e, values, 1);
    let l0 = crate::expand::lincomb_terms(l, values, 0);
    let e0 = crate::expand::einsum_terms(e, values, 0);
    assert(l0.1 == e0.1);
    let input = crate::expand::code_indices(l.code, l.code.inputs@[0]@);
    let renamed = crate::expand::rename_poly(crate::expand::reference_poly(l.args@[0], input, values), input, l0.1);
    assert(lt == (l0.0 + crate::expand::scale_terms(renamed.0.terms, l.coeff@[0]@), renamed.1));
    assert(et == (crate::expand::multiply(e0.0, renamed.0.terms), renamed.1));
    let c = l.coeff@[0]@;
    let unit = TermModel { coeff: c, factors: Seq::empty() };
    assert(e0.0 == seq![unit]);
    assert(seq![unit].drop_last() =~= Seq::<TermModel>::empty());
    let rs = renamed.0.terms;
    assert(crate::expand::multiply(seq![unit].drop_last(), rs) == Seq::<TermModel>::empty());
    assert(seq![unit].last() == unit);
    assert(crate::expand::multiply(seq![unit], rs) =~= rs.map_values(|r: TermModel| crate::expand::term_product(unit, r)));
    assert(l0.0 + crate::expand::scale_terms(rs, c) =~= crate::expand::multiply(seq![unit], rs)) by {
        assert forall|k: int| 0 <= k < rs.len() implies #[trigger] crate::expand::scale_terms(rs, c)[k]
            == crate::expand::term_product(unit, rs[k]) by {
            lemma_rat_mul_commutes(rs[k].coeff, c);
            assert(Seq::<crate::expand::FactorModel>::empty() + rs[k].factors =~= rs[k].factors);
        }
    }
}

// ---------------------------------------------------------------------------
// Valid linear combinations.
// ---------------------------------------------------------------------------

/// In a valid program, every input of a linear combination is a permutation
/// of its output: as many indices, and the same ones.
pub proof fn lemma_valid_lincomb_inputs(
    sizes: IdMap<DomainId, u64>,
    symmetries: IdMap<TensorId, Vec<SymmetryGenerator>>,
    program: Program,
    v: int,
    i: int,
)
    requires
        program_validation(sizes, symmetries, program) is Ok,
        0 <= v < program.values@.len(),
        program.values@[v] is LinComb,
        0 <= i < program.values@[v].code_of().inputs@.len(),
    ensures
        program.values@[v].code_of().inputs@[i]@.len() == program.values@[v].code_of().output@.len(),
        program.values@[v].code_of().inputs@[i]@.to_set() == program.values@[v].code_of().output@.to_set(),
        (program.values@[v]->LinComb_0).coeff@.len() == program.values@[v].args_of().len(),
        program.values@[v].code_of().inputs@.len() == program.values@[v].args_of().len(),
{
    lemma_valid_value(sizes, symmetries, program, v);
    crate::validity::lemma_def_lens(program.values@[v]);
    let l = program.values@[v]->LinComb_0;
    let inputs = l.code.inputs@;
    let p = |j: int| crate::validate::not_output_permutation(l.code, j);
    crate::search::lemma_first_match_ensures(inputs.len() as int, p);
    assert(kind_error(crate::model::ValueId(v as u32), program.values@[v]) is None);
    assert(!p(i));
}

/// In a valid program, an einsum has at least one argument, one input per
/// argument, and every output index occurs in some input.
pub proof fn lemma_valid_einsum(
    sizes: IdMap<DomainId, u64>,
    symmetries: IdMap<TensorId, Vec<SymmetryGenerator>>,
    program: Program,
    v: int,
)
    requires
        program_validation(sizes, symmetries, program) is Ok,
        0 <= v < program.values@.len(),
        program.values@[v] is Einsum,
    ensures
        program.values@[v].args_of().len() > 0,
        program.values@[v].code_of().inputs@.len() == program.values@[v].args_of().len(),
        forall|j: int| #![trigger program.values@[v].code_of().output@[j]] 0 <= j < program.values@[v].code_of().output@.len() ==> exists|a: int, b: int|
            0 <= a < program.values@[v].code_of().inputs@.len() && 0 <= b < program.values@[v].code_of().inputs@[a]@.len()
            && #[trigger] program.values@[v].code_of().inputs@[a]@[b] == program.values@[v].code_of().output@[j],
{
    lemma_valid_value(sizes, symmetries, program, v);
    crate::validity::lemma_def_lens(program.values@[v]);
    let e = program.values@[v]->Einsum_0;
    let output = e.code.output@;
    let p = |j: int| crate::validate::output_not_in_input(e.code, j);
    crate::search::lemma_first_match_ensures(output.len() as int, p);
    assert forall|j: int| #![trigger output[j]] 0 <= j < output.len() implies exists|a: int, b: int|
        0 <= a < e.code.inputs@.len() && 0 <= b < e.code.inputs@[a]@.len() && #[trigger] e.code.inputs@[a]@[b] == output[j] by {
        assert(!p(j));
        assert(crate::validate::in_some_input(e.code, output[j]));
    }
}

// ---------------------------------------------------------------------------
// Highest-order terms.
// ---------------------------------------------------------------------------

proof fn lemma_descending_degrees(ts: Seq<FlopModel>, i: int, j: int)
    requires
        flop_descending(ts),
        0 <= i <= j < ts.len(),
    ensures
        degree(ts[j].1) <= degree(ts[i].1),
{
    if i < j {
        assert(flop_order(ts[i].1, ts[j].1) == Order::Greater);
    }
}

proof fn lemma_leading_run_props(ts: Seq<FlopModel>, d: nat)
    ensures
        leading_run(ts, d) <= ts.len(),
        forall|k: int| 0 <= k < leading_run(ts, d) ==> degree(#[trigger] ts[k].1) == d,
        ts.len() > 0 && degree(ts[0].1) == d ==> leading_run(ts, d) >= 1,
    decreases ts.len(),
{
    if ts.len() > 0 && degree(ts[0].1) == d {
        lemma_leading_run_props(ts.drop_first(), d);
        assert forall|k: int| 0 <= k < leading_run(ts, d) implies degree(#[trigger] ts[k].1) == d by {
            if k > 0 {
                assert(ts[k] == ts.drop_first()[k - 1]);
            }
        }
    }
}

proof fn lemma_with_exponent_props(ts: Seq<FlopModel>, d: DomainId, e: nat)
    ensures
        forall|x: FlopModel| #[trigger] with_exponent(ts, d, e).contains(x) ==> ts.contains(x) && exponent_of(x.1, d) == e,
        (exists|k: int| 0 <= k < ts.len() && exponent_of(ts[k].1, d) == e) ==> with_exponent(ts, d, e).len() > 0,
        forall|x: FlopModel| ts.contains(x) && exponent_of(x.1, d) == e ==> #[trigger] with_exponent(ts, d, e).contains(x),
    decreases ts.len(),
{
    if ts.len() > 0 {
        let front = ts.drop_last();
        lemma_with_exponent_props(front, d, e);
        let w = with_exponent(ts, d, e);
        assert forall|x: FlopModel| ts.contains(x) && exponent_of(x.1, d) == e implies #[trigger] w.contains(x) by {
            let m = choose|m: int| 0 <= m < ts.len() && ts[m] == x;
            if m < ts.len() - 1 {
                assert(front[m] == x);
                assert(front.contains(x));
                let wf = with_exponent(front, d, e);
                assert(wf.contains(x));
                let q = choose|q: int| 0 <= q < wf.len() && wf[q] == x;
                assert(w[q] == x);
            } else {
                assert(ts.last() == x);
                assert(w[w.len() - 1] == x);
            }
        }
        assert forall|x: FlopModel| #[trigger] w.contains(x) implies ts.contains(x) && exponent_of(x.1, d) == e by {
            let k = choose|k: int| 0 <= k < w.len() && w[k] == x;
            if k < with_exponent(front, d, e).len() {
                assert(with_exponent(front, d, e)[k] == x);
                assert(with_exponent(front, d, e).contains(x));
                let m = choose|m: int| 0 <= m < front.len() && front[m] == x;
                assert(ts[m] == x);
            } else {
                assert(ts[ts.len() - 1] == x);
            }
        }
        if exists|k: int| 0 <= k < ts.len() && exponent_of(ts[k].1, d) == e {
            let k = choose|k: int| 0 <= k < ts.len() && exponent_of(ts[k].1, d) == e;
            if k < ts.len() - 1 {
                assert(front[k] == ts[k]);
            }
        }
    }
}

proof fn lemma_max_exponent_attained(ts: Seq<FlopModel>, d: DomainId)
    requires
        ts.len() > 0,
    ensures
        exists|k: int| 0 <= k < ts.len() && exponent_of(ts[k].1, d) == max_exponent(ts, d),
    decreases ts.len(),
{
    let front = ts.drop_last();
    let n = ts.len() - 1;
    assert(ts[n] == ts.last());
    let e = exponent_of(ts.last().1, d);
    if front.len() > 0 {
        lemma_max_exponent_attained(front, d);
        let k = choose|k: int| 0 <= k < front.len() && exponent_of(front[k].1, d) == max_exponent(front, d);
        assert(ts[k] == front[k]);
        if e > max_exponent(front, d) {
            assert(exponent_of(ts[n].1, d) == max_exponent(ts, d));
        } else {
            assert(exponent_of(ts[k].1, d) == max_exponent(ts, d));
        }
    } else {
        assert(max_exponent(front, d) == 0);
        assert(exponent_of(ts[n].1, d) == max_exponent(ts, d));
    }
}

proof fn lemma_survivors_props(ts: Seq<FlopModel>, order: Seq<DomainId>, k: nat)
    requires
        k <= order.len(),
    ensures
        forall|x: FlopModel| #[trigger] survivors(ts, order, k).contains(x) ==> top_terms(ts).contains(x),
        top_terms(ts).len() > 0 ==> survivors(ts, order, k).len() > 0,
    decreases k,
{
    if k > 0 {
        lemma_survivors_props(ts, order, (k - 1) as nat);
        let s = survivors(ts, order, (k - 1) as nat);
        let d = order[k - 1];
        lemma_with_exponent_props(s, d, max_exponent(s, d));
        if s.len() > 0 {
            lemma_max_exponent_attained(s, d);
        }
    }
}

/// The highest-order terms, whatever order of domains breaks ties, are terms
/// of the polynomial of the greatest total degree it has, and there is one
/// whenever the polynomial is not zero.
pub proof fn lemma_highest_order_terms_have_top_degree(ts: Seq<FlopModel>, order: Seq<DomainId>)
    requires
        flop_descending(ts),
    ensures
        forall|x: FlopModel| #[trigger] survivors(ts, order, order.len()).contains(x) ==> ts.contains(x)
            && forall|j: int| 0 <= j < ts.len() ==> degree(#[trigger] ts[j].1) <= degree(x.1),
        ts.len() > 0 ==> survivors(ts, order, order.len()).len() > 0,
{
    lemma_survivors_props(ts, order, order.len());
    if ts.len() > 0 {
        let d = degree(ts[0].1);
        lemma_leading_run_props(ts, d);
        let top = top_terms(ts);
        assert forall|x: FlopModel| #[trigger] survivors(ts, order, order.len()).contains(x) implies ts.contains(x)
            && forall|j: int| 0 <= j < ts.len() ==> degree(#[trigger] ts[j].1) <= degree(x.1) by {
            assert(top.contains(x));
            let m = choose|m: int| 0 <= m < top.len() && top[m] == x;
            assert(ts[m] == x);
            assert(degree(x.1) == d);
            assert forall|j: int| 0 <= j < ts.len() implies degree(#[trigger] ts[j].1) <= degree(x.1) by {
                lemma_descending_degrees(ts, 0, j);
            }
        }
        assert(top.len() > 0);
    }
}

// ---------------------------------------------------------------------------
// Verification compares every output.
// ---------------------------------------------------------------------------

/// When the problem and the candidate are valid, verification accepts exactly
/// when the two programs have as many outputs and each output of the
/// candidate has the canonical form of the reference's output at the same
/// position.
pub proof fn lemma_verification_compares_every_output(problem: Problem, candidate: Program)
    requires
        problem_validation(problem) is Ok,
        program_validation(problem.sizes, problem.symmetries, candidate) is Ok,
    ensures
        verification(problem, candidate) == Ok::<bool, crate::validate::ValidationError>(
            expansion(problem.reference).len() == expansion(candidate).len()
            && forall|o: int| 0 <= o < expansion(candidate).len() ==>
                canonical_poly(#[trigger] expansion(problem.reference)[o], problem.symmetries@)
                    == canonical_poly(expansion(candidate)[o], problem.symmetries@)),
{
    let a = crate::verify::canonical_forms(problem.reference, problem.symmetries);
    let b = crate::verify::canonical_forms(candidate, problem.symmetries);
    let same = expansion(problem.reference).len() == expansion(candidate).len()
        && forall|o: int| 0 <= o < expansion(candidate).len() ==>
            canonical_poly(#[trigger] expansion(problem.reference)[o], problem.symmetries@)
                == canonical_poly(expansion(candidate)[o], problem.symmetries@);
    if same {
        assert(a =~= b) by {
            assert forall|o: int| 0 <= o < a.len() implies a[o] == b[o] by {
                assert(canonical_poly(expansion(problem.reference)[o], problem.symmetries@)
                    == canonical_poly(expansion(candidate)[o], problem.symmetries@));
            }
        }
    }
    if a == b {
        assert(a.len() == b.len());
        assert forall|o: int| 0 <= o < expansion(candidate).len() implies
            canonical_poly(#[trigger] expansion(problem.reference)[o], problem.symmetries@)
                == canonical_poly(expansion(candidate)[o], problem.symmetries@) by {
            assert(a[o] == b[o]);
        }
    }
}

// ---------------------------------------------------------------------------
// Expanding tensors.
// ---------------------------------------------------------------------------

/// Renaming keeps every term's coefficient and the tensors and slot counts of
/// its factors.
proof fn lemma_rename_terms_shape(ts: Seq<TermModel>, seed: Map<crate::expand::Index, crate::expand::Index>, next: int)
    ensures
        crate::expand::rename_terms(ts, seed, next).0.len() == ts.len(),
        forall|k: int| 0 <= k < ts.len() ==> {
            let r = #[trigger] crate::expand::rename_terms(ts, seed, next).0[k];
            &&& r.coeff == ts[k].coeff
            &&& r.factors.len() == ts[k].factors.len()
            &&& forall|j: int| 0 <= j < r.factors.len() ==> (#[trigger] r.factors[j]).tensor == ts[k].factors[j].tensor
                && r.factors[j].indices.len() == ts[k].factors[j].indices.len()
        },
    decreases ts.len(),
{
    if ts.len() > 0 {
        lemma_rename_terms_shape(ts.drop_last(), seed, next);
        let (done, n) = crate::expand::rename_terms(ts.drop_last(), seed, next);
        assert forall|k: int| 0 <= k < ts.len() implies {
            let r = #[trigger] crate::expand::rename_terms(ts, seed, next).0[k];
            &&& r.coeff == ts[k].coeff
            &&& r.factors.len() == ts[k].factors.len()
            &&& forall|j: int| 0 <= j < r.factors.len() ==> (#[trigger] r.factors[j]).tensor == ts[k].factors[j].tensor
                && r.factors[j].indices.len() == ts[k].factors[j].indices.len()
        } by {
            if k < ts.len() - 1 {
                assert(crate::expand::rename_terms(ts, seed, next).0[k] == done[k]);
                assert(ts.drop_last()[k] == ts[k]);
            } else {
                assert(ts.last() == ts[k]);
            }
        }
    }
}

/// One times a rational in lowest terms is that rational.
proof fn lemma_rat_mul_one(c: (int, int))
    requires
        is_reduced(c),
    ensures
        rat_mul(c, (1int, 1int)) == c,
        rat_mul((1int, 1int), c) == c,
{
    crate::rational::lemma_reduce(c.0, c.1);
    let r = crate::rational::reduce(c.0, c.1);
    crate::rational::lemma_reduced_unique(r, c);
}

/// A tensor used with `input` renames to one term, coefficient one, with
/// one factor of that tensor and as many slots as `input`.
proof fn lemma_tensor_use(t: TensorId, input: Seq<crate::expand::Index>, next: int)
    ensures
        crate::expand::rename_poly(crate::expand::tensor_poly(t, input), input, next).0.terms.len() == 1,
        crate::expand::rename_poly(crate::expand::tensor_poly(t, input), input, next).0.terms[0].coeff == (1int, 1int),
        crate::expand::rename_poly(crate::expand::tensor_poly(t, input), input, next).0.terms[0].factors.len() == 1,
        crate::expand::rename_poly(crate::expand::tensor_poly(t, input), input, next).0.terms[0].factors[0].tensor == t,
        crate::expand::rename_poly(crate::expand::tensor_poly(t, input), input, next).0.terms[0].factors[0].indices.len() == input.len(),
{
    let p = crate::expand::tensor_poly(t, input);
    let seed = crate::expand::pairs_map(crate::expand::zip_pairs(p.output, input));
    lemma_rename_terms_shape(p.terms, seed, next);
    let r = crate::expand::rename_terms(p.terms, seed, next).0;
    assert(r[0].factors[0].tensor == p.terms[0].factors[0].tensor);
}

proof fn lemma_lincomb_tensor_terms(l: LinComb, values: Seq<PolyModel>, k: nat)
    requires
        k <= l.args@.len(),
        k <= l.coeff@.len(),
        k <= l.code.inputs@.len(),
        forall|j: int| 0 <= j < k ==> (#[trigger] l.args@[j]) is Tensor && is_reduced(l.coeff@[j]@),
    ensures
        crate::expand::lincomb_terms(l, values, k).0.len() == k,
        forall|j: int| 0 <= j < k ==> {
            let t = #[trigger] crate::expand::lincomb_terms(l, values, k).0[j];
            &&& t.coeff == l.coeff@[j]@
            &&& t.factors.len() == 1
            &&& t.factors[0].tensor == l.args@[j]->Tensor_0
            &&& t.factors[0].indices.len() == l.code.inputs@[j]@.len()
        },
    decreases k,
{
    if k > 0 {
        lemma_lincomb_tensor_terms(l, values, (k - 1) as nat);
        let (prev, next) = crate::expand::lincomb_terms(l, values, (k - 1) as nat);
        let j0 = k - 1;
        assert(l.args@[j0] is Tensor && is_reduced(l.coeff@[j0]@));
        let t = l.args@[j0]->Tensor_0;
        let input = crate::expand::code_indices(l.code, l.code.inputs@[j0]@);
        lemma_tensor_use(t, input, next);
        let renamed = crate::expand::rename_poly(crate::expand::reference_poly(l.args@[j0], input, values), input, next);
        assert(crate::expand::reference_poly(l.args@[j0], input, values) == crate::expand::tensor_poly(t, input));
        let scaled = crate::expand::scale_terms(renamed.0.terms, l.coeff@[j0]@);
        lemma_rat_mul_one(l.coeff@[j0]@);
        assert(scaled.len() == 1);
        lemma_rat_mul_commutes((1int, 1int), l.coeff@[j0]@);
        assert(scaled[0].coeff == l.coeff@[j0]@);
        let all = crate::expand::lincomb_terms(l, values, k).0;
        assert(all == prev + scaled);
        assert forall|j: int| 0 <= j < k implies {
            let t = #[trigger] crate::expand::lincomb_terms(l, values, k).0[j];
            &&& t.coeff == l.coeff@[j]@
            &&& t.factors.len() == 1
            &&& t.factors[0].tensor == l.args@[j]->Tensor_0
            &&& t.factors[0].indices.len() == l.code.inputs@[j]@.len()
        } by {
            if j < k - 1 {
                assert(all[j] == prev[j]);
            } else {
                assert(all[j] == scaled[0]);
            }
        }
    }
}

/// A linear combination of tensors `c_0 T_0 + c_1 T_1 + ...` expands to one
/// term per summand, in order: term `j` is `c_j` times the tensor `T_j`, with
/// as many slots as its input.
pub proof fn lemma_lincomb_of_tensors(l: LinComb, values: Seq<PolyModel>)
    requires
        l.coeff@.len() == l.args@.len(),
        l.code.inputs@.len() == l.args@.len(),
        forall|j: int| 0 <= j < l.args@.len() ==> (#[trigger] l.args@[j]) is Tensor && is_reduced(l.coeff@[j]@),
    ensures
        expand_def(ValueDef::LinComb(l), values).0.terms.len() == l.args@.len(),
        forall|j: int| 0 <= j < l.args@.len() ==> {
            let t = #[trigger] expand_def(ValueDef::LinComb(l), values).0.terms[j];
            &&& t.coeff == l.coeff@[j]@
            &&& t.factors.len() == 1
            &&& t.factors[0].tensor == l.args@[j]->Tensor_0
            &&& t.factors[0].indices.len() == l.code.inputs@[j]@.len()
        },
{
    assert(crate::expand::lincomb_width(l) == l.args@.len());
    lemma_lincomb_tensor_terms(l, values, l.args@.len());
}

proof fn lemma_einsum_tensor_terms(e: Einsum, values: Seq<PolyModel>, k: nat)
    requires
        k <= e.args@.len(),
        k <= e.code.inputs@.len(),
        is_reduced(e.coeff@),
        forall|j: int| 0 <= j < k ==> (#[trigger] e.args@[j]) is Tensor,
    ensures
        crate::expand::einsum_terms(e, values, k).0.len() == 1,
        crate::expand::einsum_terms(e, values, k).0[0].coeff == e.coeff@,
        crate::expand::einsum_terms(e, values, k).0[0].factors.len() == k,
        forall|j: int| 0 <= j < k ==> {
            let f = #[trigger] crate::expand::einsum_terms(e, values, k).0[0].factors[j];
            &&& f.tensor == e.args@[j]->Tensor_0
            &&& f.indices.len() == e.code.inputs@[j]@.len()
        },
    decreases k,
{
    if k > 0 {
        lemma_einsum_tensor_terms(e, values, (k - 1) as nat);
        let (prev, next) = crate::expand::einsum_terms(e, values, (k - 1) as nat);
        let j0 = k - 1;
        assert(e.args@[j0] is Tensor);
        let t = e.args@[j0]->Tensor_0;
        let input = crate::expand::code_indices(e.code, e.code.inputs@[j0]@);
        lemma_tensor_use(t, input, next);
        assert(crate::expand::reference_poly(e.args@[j0], input, values) == crate::expand::tensor_poly(t, input));
        let rs = crate::expand::rename_poly(crate::expand::tensor_poly(t, input), input, next).0.terms;
        let m = crate::expand::multiply(prev, rs);
        assert(prev.drop_last() =~= Seq::<TermModel>::empty());
        assert(crate::expand::multiply(prev.drop_last(), rs) == Seq::<TermModel>::empty());
        assert(m =~= seq![crate::expand::term_product(prev[0], rs[0])]);
        lemma_rat_mul_one(e.coeff@);
        let f = prev[0].factors + rs[0].factors;
        assert forall|j: int| 0 <= j < k implies {
            let g = #[trigger] crate::expand::einsum_terms(e, values, k).0[0].factors[j];
            &&& g.tensor == e.args@[j]->Tensor_0
            &&& g.indices.len() == e.code.inputs@[j]@.len()
        } by {
            if j < k - 1 {
                assert(f[j] == prev[0].factors[j]);
            } else {
                assert(f[j] == rs[0].factors[0]);
            }
        }
    }
}

/// An einsum `c * T_0 * T_1 * ...` of tensors expands to one term: `c` times
/// the tensors in argument order, each with as many slots as its input.
pub proof fn lemma_einsum_of_tensors(e: Einsum, values: Seq<PolyModel>)
    requires
        e.code.inputs@.len() == e.args@.len(),
        is_reduced(e.coeff@),
        forall|j: int| 0 <= j < e.args@.len() ==> (#[trigger] e.args@[j]) is Tensor,
    ensures
        expand_def(ValueDef::Einsum(e), values).0.terms.len() == 1,
        expand_def(ValueDef::Einsum(e), values).0.terms[0].coeff == e.coeff@,
        expand_def(ValueDef::Einsum(e), values).0.terms[0].factors.len() == e.args@.len(),
        forall|j: int| 0 <= j < e.args@.len() ==> {
            let f = #[trigger] expand_def(ValueDef::Einsum(e), values).0.terms[0].factors[j];
            &&& f.tensor == e.args@[j]->Tensor_0
            &&& f.indices.len() == e.code.inputs@[j]@.len()
        },
{
    assert(crate::expand::einsum_width(e) == e.args@.len());
    lemma_einsum_tensor_terms(e, values, e.args@.len());
}

/// A linear combination `1 * x` of one earlier value keeps that value's
/// terms: as many, in order, with their own coefficients and tensors.
pub proof fn lemma_unit_summand_keeps_terms(l: LinComb, values: Seq<PolyModel>)
    requires
        l.args@.len() == 1,
        l.coeff@.len() == 1,
        l.code.inputs@.len() >= 1,
        l.coeff@[0]@ == (1int, 1int),
        l.args@[0] is Value,
        (l.args@[0]->Value_0).0 < values.len(),
        forall|k: int| 0 <= k < values[(l.args@[0]->Value_0).0 as int].terms.len()
            ==> is_reduced((#[trigger] values[(l.args@[0]->Value_0).0 as int].terms[k]).coeff),
    ensures
        expand_def(ValueDef::LinComb(l), values).0.terms.len() == values[(l.args@[0]->Value_0).0 as int].terms.len(),
        forall|k: int| 0 <= k < values[(l.args@[0]->Value_0).0 as int].terms.len() ==> {
            let t = #[trigger] expand_def(ValueDef::LinComb(l), values).0.terms[k];
            let u = values[(l.args@[0]->Value_0).0 as int].terms[k];
            &&& t.coeff == u.coeff
            &&& t.factors.len() == u.factors.len()
            &&& forall|j: int| 0 <= j < t.factors.len() ==> (#[trigger] t.factors[j]).tensor == u.factors[j].tensor
        },
{
    let src = values[(l.args@[0]->Value_0).0 as int];
    assert(crate::expand::lincomb_width(l) == 1);
    let l0 = crate::expand::lincomb_terms(l, values, 0);
    let input = crate::expand::code_indices(l.code, l.code.inputs@[0]@);
    assert(crate::expand::reference_poly(l.args@[0], input, values) == src);
    let seed = crate::expand::pairs_map(crate::expand::zip_pairs(src.output, input));
    lemma_rename_terms_shape(src.terms, seed, l0.1);
    let rs = crate::expand::rename_terms(src.terms, seed, l0.1).0;
    let all = crate::expand::lincomb_terms(l, values, 1).0;
    assert(all =~= crate::expand::scale_terms(rs, (1int, 1int)));
    assert forall|k: int| 0 <= k < src.terms.len() implies {
        let t = #[trigger] expand_def(ValueDef::LinComb(l), values).0.terms[k];
        let u = src.terms[k];
        &&& t.coeff == u.coeff
        &&& t.factors.len() == u.factors.len()
        &&& forall|j: int| 0 <= j < t.factors.len() ==> (#[trigger] t.factors[j]).tensor == u.factors[j].tensor
    } by {
        assert(is_reduced(src.terms[k].coeff));
        lemma_rat_mul_one(src.terms[k].coeff);
        assert(all[k].coeff == rat_mul(rs[k].coeff, (1int, 1int)));
    }
}

proof fn lemma_max_exponent_bound(ts: Seq<FlopModel>, d: DomainId, x: FlopModel)
    requires
        ts.contains(x),
    ensures
        exponent_of(x.1, d) <= max_exponent(ts, d),
    decreases ts.len(),
{
    let m = choose|m: int| 0 <= m < ts.len() && ts[m] == x;
    if m < ts.len() - 1 {
        assert(ts.drop_last()[m] == x);
        lemma_max_exponent_bound(ts.drop_last(), d, x);
    } else {
        assert(ts.last() == x);
    }
}

/// `x` and `y` have the same exponent of each of the first `k` domains of `order`.
pub open spec fn agree_on_first(x: FlopModel, y: FlopModel, order: Seq<DomainId>, k: int) -> bool {
    forall|i: int| 0 <= i < k ==> exponent_of(x.1, #[trigger] order[i]) == exponent_of(y.1, order[i])
}

/// `x` is at least `y` in the exponents of the first `k` domains of `order`,
/// compared lexicographically.
pub open spec fn lex_at_least(x: FlopModel, y: FlopModel, order: Seq<DomainId>, k: int) -> bool {
    forall|m: int| 0 <= m < k && #[trigger] agree_on_first(x, y, order, m) ==> exponent_of(x.1, order[m]) >= exponent_of(y.1, order[m])
}

proof fn lemma_survivors_ties(ts: Seq<FlopModel>, order: Seq<DomainId>, k: nat)
    requires
        k <= order.len(),
    ensures
        forall|x: FlopModel, y: FlopModel| #[trigger] survivors(ts, order, k).contains(x) && #[trigger] top_terms(ts).contains(y)
            ==> lex_at_least(x, y, order, k as int),
        forall|x: FlopModel, y: FlopModel| #[trigger] survivors(ts, order, k).contains(x) && #[trigger] top_terms(ts).contains(y)
            && agree_on_first(x, y, order, k as int) ==> survivors(ts, order, k).contains(y),
    decreases k,
{
    if k > 0 {
        lemma_survivors_ties(ts, order, (k - 1) as nat);
        lemma_survivors_props(ts, order, (k - 1) as nat);
        let s = survivors(ts, order, (k - 1) as nat);
        let d = order[k - 1];
        let mx = max_exponent(s, d);
        lemma_with_exponent_props(s, d, mx);
        let sk = survivors(ts, order, k);
        assert(sk == with_exponent(s, d, mx));
        assert forall|x: FlopModel, y: FlopModel| #[trigger] sk.contains(x) && #[trigger] top_terms(ts).contains(y)
            implies lex_at_least(x, y, order, k as int) by {
            assert(s.contains(x));
            assert(lex_at_least(x, y, order, k - 1));
            assert forall|m: int| 0 <= m < k && #[trigger] agree_on_first(x, y, order, m) implies
                exponent_of(x.1, order[m]) >= exponent_of(y.1, order[m]) by {
                if m < k - 1 {
                } else {
                    assert(s.contains(y));
                    lemma_max_exponent_bound(s, d, y);
                }
            }
        }
        assert forall|x: FlopModel, y: FlopModel| #[trigger] sk.contains(x) && #[trigger] top_terms(ts).contains(y)
            && agree_on_first(x, y, order, k as int) implies sk.contains(y) by {
            assert(s.contains(x));
            assert(agree_on_first(x, y, order, k - 1));
            assert(s.contains(y));
            assert(exponent_of(y.1, order[k - 1]) == exponent_of(x.1, order[k - 1]));
        }
    }
}

proof fn lemma_leading_run_covers(ts: Seq<FlopModel>, d: nat, m: int)
    requires
        0 <= m < ts.len(),
        forall|k: int| 0 <= k <= m ==> degree(#[trigger] ts[k].1) == d,
    ensures
        leading_run(ts, d) > m,
    decreases m,
{
    assert(degree(ts[0].1) == d);
    if m > 0 {
        assert forall|k: int| 0 <= k <= m - 1 implies degree(#[trigger] ts.drop_first()[k].1) == d by {
            assert(ts.drop_first()[k] == ts[k + 1]);
        }
        lemma_leading_run_covers(ts.drop_first(), d, m - 1);
    }
}

/// A term of the greatest total degree is among the leading terms.
proof fn lemma_top_degree_is_leading(ts: Seq<FlopModel>, y: FlopModel)
    requires
        flop_descending(ts),
        ts.contains(y),
        forall|j: int| 0 <= j < ts.len() ==> degree(#[trigger] ts[j].1) <= degree(y.1),
    ensures
        top_terms(ts).contains(y),
{
    let m = choose|m: int| 0 <= m < ts.len() && ts[m] == y;
    let d = degree(ts[0].1);
    lemma_descending_degrees(ts, 0, m);
    assert(degree(ts[0].1) <= degree(y.1));
    assert forall|k: int| 0 <= k <= m implies degree(#[trigger] ts[k].1) == d by {
        lemma_descending_degrees(ts, 0, k);
        lemma_descending_degrees(ts, k, m);
    }
    lemma_leading_run_covers(ts, d, m);
    lemma_leading_run_props(ts, d);
    assert(top_terms(ts)[m] == y);
}

/// Among the terms of the greatest total degree, the highest-order terms are
/// exactly those whose exponents of the domains of `order`, most significant
/// first, are lexicographically greatest: each is at least every term of that
/// degree, and every term of that degree with the same exponents is one.
pub proof fn lemma_highest_order_terms_break_ties(ts: Seq<FlopModel>, order: Seq<DomainId>, x: FlopModel, y: FlopModel)
    requires
        flop_descending(ts),
        survivors(ts, order, order.len()).contains(x),
        ts.contains(y),
        forall|j: int| 0 <= j < ts.len() ==> degree(#[trigger] ts[j].1) <= degree(y.1),
    ensures
        lex_at_least(x, y, order, order.len() as int),
        agree_on_first(x, y, order, order.len() as int) ==> survivors(ts, order, order.len()).contains(y),
{
    lemma_top_degree_is_leading(ts, y);
    lemma_survivors_ties(ts, order, order.len());
}

} // verus!
