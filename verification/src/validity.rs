//! What a successful validation guarantees about a program's expansion.

use vstd::prelude::*;

use crate::canon::{generators_of, symmetries_fit};
use crate::expand::{
    def_expandable, einsum_terms, einsum_width, expand_def, expand_values, expandable, ids_fit, lincomb_terms,
    lincomb_width, multiply, reference_poly, rename_factors, rename_poly, rename_terms, rename_visit_factors,
    scale_terms, tensor_poly, term_product, FactorModel, PolyModel, TermModel,
};
use crate::id_map::{has_key, lookup, IdMap};
use crate::model::{DomainId, Program, SymmetryGenerator, TensorId, ValueDef, ValueRef};
use crate::search::lemma_first_match_ensures;
use crate::symmetry::{gen_ok, gens_ok};
use crate::validate::{
    argument_step, arguments_result, code_error, generator_error, generators_error, interface, is_permutation,
    kind_error, lacks_domain, def_output_interface, program_validation, symmetries_error, symmetry_entry_error,
    value_result, values_result, RankMap,
};

verus! {

// ---------------------------------------------------------------------------
// Ranks fixed by validation.
// ---------------------------------------------------------------------------

/// The tensor ranks that validating the values of `program` fixes.
pub open spec fn program_ranks(
    sizes: IdMap<DomainId, u64>,
    symmetries: IdMap<TensorId, Vec<SymmetryGenerator>>,
    program: Program,
) -> RankMap {
    match values_result(sizes, symmetries, program.values@, program.values@.len()) {
        Ok(r) => r,
        Err(_) => Map::empty(),
    }
}

/// Every rank of `r` is also in `s`, with the same value.
pub open spec fn ranks_grow(r: RankMap, s: RankMap) -> bool {
    forall|t: TensorId| #[trigger] r.contains_key(t) ==> s.contains_key(t) && s[t] == r[t]
}

proof fn lemma_arguments(
    symmetries: IdMap<TensorId, Vec<SymmetryGenerator>>,
    values: Seq<ValueDef>,
    v: int,
    n: nat,
    ranks: RankMap,
)
    requires
        arguments_result(symmetries, values, v, n, ranks) is Ok,
    ensures
        ranks_grow(ranks, arguments_result(symmetries, values, v, n, ranks)->Ok_0),
        forall|a: int| 0 <= a < n ==> (#[trigger] arguments_result(symmetries, values, v, a as nat, ranks)) is Ok,
        forall|a: int| 0 <= a < n ==> #[trigger] argument_step(symmetries, values, v, a, arguments_result(symmetries, values, v, a as nat, ranks)->Ok_0) is Ok,
        forall|a: int| 0 <= a < n ==> ranks_grow(
            argument_step(symmetries, values, v, a, (#[trigger] arguments_result(symmetries, values, v, a as nat, ranks))->Ok_0)->Ok_0,
            arguments_result(symmetries, values, v, n, ranks)->Ok_0,
        ),
    decreases n,
{
    if n > 0 {
        let m = (n - 1) as nat;
        lemma_arguments(symmetries, values, v, m, ranks);
        let r = arguments_result(symmetries, values, v, m, ranks)->Ok_0;
        let s = arguments_result(symmetries, values, v, n, ranks)->Ok_0;
        assert(argument_step(symmetries, values, v, m as int, r) == Ok::<RankMap, crate::validate::ValidationError>(s));
        assert(ranks_grow(r, s));
        assert forall|a: int| 0 <= a < n implies #[trigger] argument_step(symmetries, values, v, a, arguments_result(symmetries, values, v, a as nat, ranks)->Ok_0) is Ok by {
            if a < m {
            } else {
                assert(a == m);
            }
        }
        assert forall|a: int| 0 <= a < n implies ranks_grow(
            argument_step(symmetries, values, v, a, (#[trigger] arguments_result(symmetries, values, v, a as nat, ranks))->Ok_0)->Ok_0,
            s,
        ) by {
            if a < m {
                let x = argument_step(symmetries, values, v, a, arguments_result(symmetries, values, v, a as nat, ranks)->Ok_0)->Ok_0;
                assert(ranks_grow(x, r));
                assert forall|t: TensorId| #[trigger] x.contains_key(t) implies s.contains_key(t) && s[t] == x[t] by {
                    assert(r.contains_key(t));
                }
            }
        }
        assert forall|t: TensorId| #[trigger] ranks.contains_key(t) implies s.contains_key(t) && s[t] == ranks[t] by {
            assert(r.contains_key(t));
        }
    }
}

proof fn lemma_values(
    sizes: IdMap<DomainId, u64>,
    symmetries: IdMap<TensorId, Vec<SymmetryGenerator>>,
    values: Seq<ValueDef>,
    n: nat,
)
    requires
        values_result(sizes, symmetries, values, n) is Ok,
    ensures
        forall|v: int| 0 <= v < n ==> (#[trigger] values_result(sizes, symmetries, values, v as nat)) is Ok,
        forall|v: int| 0 <= v < n ==> #[trigger] value_result(sizes, symmetries, values, v, values_result(sizes, symmetries, values, v as nat)->Ok_0) is Ok,
        forall|v: int| 0 <= v < n ==> ranks_grow(
            value_result(sizes, symmetries, values, v, (#[trigger] values_result(sizes, symmetries, values, v as nat))->Ok_0)->Ok_0,
            values_result(sizes, symmetries, values, n)->Ok_0,
        ),
    decreases n,
{
    if n > 0 {
        let m = (n - 1) as nat;
        lemma_values(sizes, symmetries, values, m);
        let r = values_result(sizes, symmetries, values, m)->Ok_0;
        let s = values_result(sizes, symmetries, values, n)->Ok_0;
        assert(value_result(sizes, symmetries, values, m as int, r) == Ok::<RankMap, crate::validate::ValidationError>(s));
        assert forall|v: int| 0 <= v < n implies #[trigger] value_result(sizes, symmetries, values, v, values_result(sizes, symmetries, values, v as nat)->Ok_0) is Ok by {
            if v == m {
            }
        }
        assert forall|v: int| 0 <= v < n implies ranks_grow(
            value_result(sizes, symmetries, values, v, (#[trigger] values_result(sizes, symmetries, values, v as nat))->Ok_0)->Ok_0,
            s,
        ) by {
            if v < m {
                let x = value_result(sizes, symmetries, values, v, values_result(sizes, symmetries, values, v as nat)->Ok_0)->Ok_0;
                assert(ranks_grow(x, r));
                let def = values[m as int];
                if code_error(sizes, crate::model::ValueId(m as u32), def.code_of(), def.args_of().len() as usize) is None
                    && kind_error(crate::model::ValueId(m as u32), def) is None {
                    lemma_arguments(symmetries, values, m as int, def.args_of().len(), r);
                }
                assert forall|t: TensorId| #[trigger] x.contains_key(t) implies s.contains_key(t) && s[t] == x[t] by {
                    assert(r.contains_key(t));
                }
            } else {
                let def = values[m as int];
                assert(v == m);
            }
        }
    }
}

/// A valid program's values pass all their checks from the ranks fixed before them.
pub proof fn lemma_valid_prefix(
    sizes: IdMap<DomainId, u64>,
    symmetries: IdMap<TensorId, Vec<SymmetryGenerator>>,
    program: Program,
)
    requires
        program_validation(sizes, symmetries, program) is Ok,
    ensures
        values_result(sizes, symmetries, program.values@, program.values@.len()) is Ok,
        program_ranks(sizes, symmetries, program) == values_result(sizes, symmetries, program.values@, program.values@.len())->Ok_0,
        forall|o: int| 0 <= o < program.outputs@.len() ==> (#[trigger] program.outputs@[o]).0 < program.values@.len(),
        symmetries_error(symmetries, program_ranks(sizes, symmetries, program)) is None,
{
    let values = program.values@;
    let outputs = program.outputs@;
    let s = sizes@;
    lemma_first_match_ensures(s.len() as int, |i: int| s[i].1 == 0);
    lemma_first_match_ensures(outputs.len() as int, |o: int| outputs[o].0 >= values.len());
    assert forall|o: int| 0 <= o < outputs.len() implies (#[trigger] outputs[o]).0 < values.len() by {
        assert(!(|o: int| outputs[o].0 >= values.len())(o));
    }
}

/// Each value of a valid program passes the checks on its code and its kind.
pub proof fn lemma_valid_value(
    sizes: IdMap<DomainId, u64>,
    symmetries: IdMap<TensorId, Vec<SymmetryGenerator>>,
    program: Program,
    v: int,
)
    requires
        program_validation(sizes, symmetries, program) is Ok,
        0 <= v < program.values@.len(),
    ensures
        code_error(sizes, crate::model::ValueId(v as u32), program.values@[v].code_of(), program.values@[v].args_of().len() as usize) is None,
        kind_error(crate::model::ValueId(v as u32), program.values@[v]) is None,
{
    let values = program.values@;
    lemma_valid_prefix(sizes, symmetries, program);
    lemma_values(sizes, symmetries, values, values.len());
    assert(value_result(sizes, symmetries, values, v, (values_result(sizes, symmetries, values, v as nat))->Ok_0) is Ok);
}

/// The lengths in a definition fit in `usize`.
pub proof fn lemma_def_lens(def: ValueDef)
    ensures
        def.args_of().len() <= usize::MAX,
        def.code_of().inputs@.len() <= usize::MAX,
        def.code_of().output@.len() <= usize::MAX,
        forall|a: int| 0 <= a < def.code_of().inputs@.len() ==> (#[trigger] def.code_of().inputs@[a])@.len() <= usize::MAX,
{
    let code = def.code_of();
    match def {
        ValueDef::Einsum(e) => {
            assert(e.args.len() == e.args@.len());
        },
        ValueDef::LinComb(l) => {
            assert(l.args.len() == l.args@.len());
        },
    }
    assert(code.inputs.len() == code.inputs@.len());
    assert(code.output.len() == code.output@.len());
    assert forall|a: int| 0 <= a < code.inputs@.len() implies (#[trigger] code.inputs@[a])@.len() <= usize::MAX by {
        assert(code.inputs@[a].len() == code.inputs@[a]@.len());
    }
}

/// An argument that passed its check is fixed in the ranks after all checks.
proof fn lemma_arg_fixed(
    symmetries: IdMap<TensorId, Vec<SymmetryGenerator>>,
    values: Seq<ValueDef>,
    v: int,
    k: nat,
    rv: RankMap,
    a: int,
)
    requires
        arguments_result(symmetries, values, v, k, rv) is Ok,
        0 <= a < k,
    ensures
        match values[v].args_of()[a] {
            ValueRef::Tensor(t) => {
                let whole = arguments_result(symmetries, values, v, k, rv)->Ok_0;
                whole.contains_key(t) && whole[t] == values[v].code_of().inputs@[a]@.len()
            },
            ValueRef::Value(r) => r.0 < v && interface(values[v].code_of(), values[v].code_of().inputs@[a]@)
                == def_output_interface(values[r.0 as int]),
        },
{
    lemma_arguments(symmetries, values, v, k, rv);
    lemma_def_lens(values[v]);
    assert(values[v].code_of().inputs@[a]@.len() <= usize::MAX) by {
        assert(values[v].code_of().inputs@[a].len() == values[v].code_of().inputs@[a]@.len());
    }
    let ra = (arguments_result(symmetries, values, v, a as nat, rv))->Ok_0;
    assert(argument_step(symmetries, values, v, a, ra) is Ok);
    let after = argument_step(symmetries, values, v, a, ra)->Ok_0;
    let whole = arguments_result(symmetries, values, v, k, rv)->Ok_0;
    assert(ranks_grow(after, whole));
    match values[v].args_of()[a] {
        ValueRef::Tensor(t) => {
            assert(after.contains_key(t));
        },
        ValueRef::Value(r) => {},
    }
}

/// Each argument of a valid program's value fits: a tensor has the rank that
/// validation fixed for it, and a value is earlier and as wide as its input.
#[verifier::spinoff_prover]
pub proof fn lemma_valid_arg(
    sizes: IdMap<DomainId, u64>,
    symmetries: IdMap<TensorId, Vec<SymmetryGenerator>>,
    program: Program,
    v: int,
    a: int,
)
    requires
        program_validation(sizes, symmetries, program) is Ok,
        0 <= v < program.values@.len(),
        0 <= a < program.values@[v].args_of().len(),
    ensures
        a < program.values@[v].code_of().inputs@.len(),
        tensor_arg_ok(program_ranks(sizes, symmetries, program), program.values@, v, program.values@[v].args_of()[a], a),
{
    let values = program.values@;
    let n = values.len();
    lemma_valid_value(sizes, symmetries, program, v);
    lemma_def_lens(values[v]);
    lemma_valid_prefix(sizes, symmetries, program);
    let ranks = program_ranks(sizes, symmetries, program);
    lemma_values(sizes, symmetries, values, n);
    let rv = (values_result(sizes, symmetries, values, v as nat))->Ok_0;
    let k = values[v].args_of().len();
    assert(value_result(sizes, symmetries, values, v, rv) == arguments_result(symmetries, values, v, k, rv));
    let whole = arguments_result(symmetries, values, v, k, rv)->Ok_0;
    assert(ranks_grow(whole, ranks));
    lemma_arg_fixed(symmetries, values, v, k, rv, a);
    match values[v].args_of()[a] {
        ValueRef::Tensor(t) => {
            assert(whole.contains_key(t));
        },
        ValueRef::Value(r) => {
            assert(interface(values[v].code_of(), values[v].code_of().inputs@[a]@).len() == values[v].code_of().inputs@[a]@.len());
            assert(def_output_interface(values[r.0 as int]).len() == values[r.0 as int].code_of().output@.len());
        },
    }
}

/// In a valid program, the generators of every tensor with a fixed rank act
/// on that many slots.
pub proof fn lemma_valid_generators(
    sizes: IdMap<DomainId, u64>,
    symmetries: IdMap<TensorId, Vec<SymmetryGenerator>>,
    program: Program,
    t: TensorId,
)
    requires
        program_validation(sizes, symmetries, program) is Ok,
        program_ranks(sizes, symmetries, program).contains_key(t),
    ensures
        gens_ok(generators_of(symmetries@, t), program_ranks(sizes, symmetries, program)[t] as nat),
{
    lemma_valid_prefix(sizes, symmetries, program);
    let ranks = program_ranks(sizes, symmetries, program);
    let entries = symmetries@;
    lemma_first_match_ensures(entries.len() as int, |i: int| symmetry_entry_error(entries, i, ranks) is Some);
    match lookup(entries, t) {
        Some(g) => {
            let i = crate::id_map::key_position(entries, t);
            assert(!(|i: int| symmetry_entry_error(entries, i, ranks) is Some)(i));
            assert(entries[i].1 == g);
            let gens = g@;
            lemma_first_match_ensures(gens.len() as int, |k: int| generator_error(t, k, gens[k], ranks[t]) is Some);
            assert forall|k: int| 0 <= k < gens.len() implies gen_ok(#[trigger] gens[k], ranks[t] as nat) by {
                assert(!(|k: int| generator_error(t, k, gens[k], ranks[t]) is Some)(k));
                assert(is_permutation(gens[k].permutation@, ranks[t]));
            }
        },
        None => {},
    }
}

/// A tensor argument has the rank fixed for its tensor; a value argument
/// refers to an earlier value whose output has as many indices as the input
/// it is bound to.
pub open spec fn tensor_arg_ok(ranks: RankMap, values: Seq<ValueDef>, v: int, arg: ValueRef, a: int) -> bool {
    match arg {
        ValueRef::Tensor(t) => ranks.contains_key(t) && ranks[t] == values[v].code_of().inputs@[a]@.len(),
        ValueRef::Value(r) => r.0 < v && values[r.0 as int].code_of().output@.len() == values[v].code_of().inputs@[a]@.len(),
    }
}

// ---------------------------------------------------------------------------
// Expansion keeps the ranks that validation fixed.
// ---------------------------------------------------------------------------

/// Every factor names a tensor whose rank is fixed, with that many indices.
pub open spec fn factors_ranked(fs: Seq<FactorModel>, ranks: RankMap) -> bool {
    forall|i: int| 0 <= i < fs.len() ==> ranks.contains_key((#[trigger] fs[i]).tensor) && fs[i].indices.len() == ranks[fs[i].tensor]
}

/// Every term has ranked factors.
pub open spec fn terms_ranked(ts: Seq<TermModel>, ranks: RankMap) -> bool {
    forall|k: int| 0 <= k < ts.len() ==> factors_ranked((#[trigger] ts[k]).factors, ranks)
}

proof fn lemma_rename_terms_ranked(ts: Seq<TermModel>, seed: Map<crate::expand::Index, crate::expand::Index>, next: int, ranks: RankMap)
    requires
        terms_ranked(ts, ranks),
    ensures
        terms_ranked(rename_terms(ts, seed, next).0, ranks),
    decreases ts.len(),
{
    if ts.len() > 0 {
        let rest = ts.drop_last();
        assert forall|k: int| 0 <= k < rest.len() implies factors_ranked((#[trigger] rest[k]).factors, ranks) by {
            assert(rest[k] == ts[k]);
        }
        lemma_rename_terms_ranked(rest, seed, next, ranks);
        let (done, n) = rename_terms(rest, seed, next);
        let last = ts.last();
        assert(factors_ranked(ts[ts.len() - 1].factors, ranks));
        let state = rename_visit_factors((seed, n), last.factors);
        let renamed = rename_factors(state.0, last.factors);
        assert(factors_ranked(renamed, ranks)) by {
            assert forall|i: int| 0 <= i < renamed.len() implies ranks.contains_key((#[trigger] renamed[i]).tensor) && renamed[i].indices.len() == ranks[renamed[i].tensor] by {
                assert(last.factors[i] == ts[ts.len() - 1].factors[i]);
            }
        }
        let all = rename_terms(ts, seed, next).0;
        assert forall|k: int| 0 <= k < all.len() implies factors_ranked((#[trigger] all[k]).factors, ranks) by {
            if k < done.len() {
                assert(all[k] == done[k]);
            }
        }
    }
}

proof fn lemma_multiply_ranked(left: Seq<TermModel>, right: Seq<TermModel>, ranks: RankMap)
    requires
        terms_ranked(left, ranks),
        terms_ranked(right, ranks),
    ensures
        terms_ranked(multiply(left, right), ranks),
    decreases left.len(),
{
    if left.len() > 0 {
        let rest = left.drop_last();
        assert forall|k: int| 0 <= k < rest.len() implies factors_ranked((#[trigger] rest[k]).factors, ranks) by {
            assert(rest[k] == left[k]);
        }
        lemma_multiply_ranked(rest, right, ranks);
        let l = left.last();
        assert(factors_ranked(left[left.len() - 1].factors, ranks));
        let front = multiply(rest, right);
        let back = right.map_values(|r: TermModel| term_product(l, r));
        assert forall|k: int| 0 <= k < back.len() implies factors_ranked((#[trigger] back[k]).factors, ranks) by {
            assert(factors_ranked(right[k].factors, ranks));
            let fs = l.factors + right[k].factors;
            assert(back[k].factors == fs);
            assert forall|i: int| 0 <= i < fs.len() implies ranks.contains_key((#[trigger] fs[i]).tensor) && fs[i].indices.len() == ranks[fs[i].tensor] by {
                if i < l.factors.len() {
                    assert(fs[i] == l.factors[i]);
                } else {
                    assert(fs[i] == right[k].factors[i - l.factors.len()]);
                }
            }
        }
        let all = multiply(left, right);
        assert(all == front + back);
        assert forall|k: int| 0 <= k < all.len() implies factors_ranked((#[trigger] all[k]).factors, ranks) by {
            if k < front.len() {
                assert(all[k] == front[k]);
            } else {
                assert(all[k] == back[k - front.len()]);
            }
        }
    }
}

/// An argument denotes ranked terms: a tensor of the input's rank, or an
/// earlier value with ranked terms.
pub open spec fn ref_ranked(arg: ValueRef, width: nat, values: Seq<PolyModel>, ranks: RankMap) -> bool {
    match arg {
        ValueRef::Tensor(t) => ranks.contains_key(t) && ranks[t] == width,
        ValueRef::Value(r) => r.0 < values.len() && terms_ranked(values[r.0 as int].terms, ranks),
    }
}

proof fn lemma_renamed_ref_ranked(
    arg: ValueRef,
    input: Seq<crate::expand::Index>,
    values: Seq<PolyModel>,
    next: int,
    ranks: RankMap,
)
    requires
        ref_ranked(arg, input.len(), values, ranks),
    ensures
        terms_ranked(rename_poly(reference_poly(arg, input, values), input, next).0.terms, ranks),
{
    let p = reference_poly(arg, input, values);
    match arg {
        ValueRef::Tensor(t) => {
            let ts = tensor_poly(t, input).terms;
            assert forall|k: int| 0 <= k < ts.len() implies factors_ranked((#[trigger] ts[k]).factors, ranks) by {
                assert(k == 0);
                let fs = ts[0].factors;
                assert forall|i: int| 0 <= i < fs.len() implies ranks.contains_key((#[trigger] fs[i]).tensor) && fs[i].indices.len() == ranks[fs[i].tensor] by {
                    assert(i == 0);
                }
            }
        },
        ValueRef::Value(r) => {},
    }
    lemma_rename_terms_ranked(p.terms, crate::expand::pairs_map(crate::expand::zip_pairs(p.output, input)), next, ranks);
}

proof fn lemma_einsum_ranked(e: crate::model::Einsum, values: Seq<PolyModel>, k: nat, ranks: RankMap)
    requires
        k <= einsum_width(e),
        forall|j: int| 0 <= j < k ==> ref_ranked(#[trigger] e.args@[j], e.code.inputs@[j]@.len(), values, ranks),
    ensures
        terms_ranked(einsum_terms(e, values, k).0, ranks),
    decreases k,
{
    if k == 0 {
        let ts = einsum_terms(e, values, k).0;
        assert forall|x: int| 0 <= x < ts.len() implies factors_ranked((#[trigger] ts[x]).factors, ranks) by {
            assert(ts[x].factors.len() == 0);
        }
    } else {
        lemma_einsum_ranked(e, values, (k - 1) as nat, ranks);
        let (terms, next) = einsum_terms(e, values, (k - 1) as nat);
        let input = crate::expand::code_indices(e.code, e.code.inputs@[k - 1]@);
        assert(ref_ranked(e.args@[k - 1], e.code.inputs@[k - 1]@.len(), values, ranks));
        lemma_renamed_ref_ranked(e.args@[k - 1], input, values, next, ranks);
        let renamed = rename_poly(reference_poly(e.args@[k - 1], input, values), input, next).0;
        lemma_multiply_ranked(terms, renamed.terms, ranks);
    }
}

proof fn lemma_lincomb_ranked(l: crate::model::LinComb, values: Seq<PolyModel>, k: nat, ranks: RankMap)
    requires
        k <= lincomb_width(l),
        forall|j: int| 0 <= j < k ==> ref_ranked(#[trigger] l.args@[j], l.code.inputs@[j]@.len(), values, ranks),
    ensures
        terms_ranked(lincomb_terms(l, values, k).0, ranks),
    decreases k,
{
    if k > 0 {
        lemma_lincomb_ranked(l, values, (k - 1) as nat, ranks);
        let (terms, next) = lincomb_terms(l, values, (k - 1) as nat);
        let input = crate::expand::code_indices(l.code, l.code.inputs@[k - 1]@);
        assert(ref_ranked(l.args@[k - 1], l.code.inputs@[k - 1]@.len(), values, ranks));
        lemma_renamed_ref_ranked(l.args@[k - 1], input, values, next, ranks);
        let renamed = rename_poly(reference_poly(l.args@[k - 1], input, values), input, next).0;
        let scaled = scale_terms(renamed.terms, l.coeff@[k - 1]@);
        assert forall|x: int| 0 <= x < scaled.len() implies factors_ranked((#[trigger] scaled[x]).factors, ranks) by {
            assert(factors_ranked(renamed.terms[x].factors, ranks));
        }
        let all = terms + scaled;
        assert forall|x: int| 0 <= x < all.len() implies factors_ranked((#[trigger] all[x]).factors, ranks) by {
            if x < terms.len() {
                assert(all[x] == terms[x]);
            } else {
                assert(all[x] == scaled[x - terms.len()]);
            }
        }
    }
}

/// Every value that a valid program expands to has ranked terms.
pub proof fn lemma_expansion_ranked(
    sizes: IdMap<DomainId, u64>,
    symmetries: IdMap<TensorId, Vec<SymmetryGenerator>>,
    program: Program,
    n: nat,
)
    requires
        program_validation(sizes, symmetries, program) is Ok,
        n <= program.values@.len(),
    ensures
        expand_values(program, n).len() == n,
        forall|v: int| 0 <= v < n ==> terms_ranked((#[trigger] expand_values(program, n)[v]).terms, program_ranks(sizes, symmetries, program)),
    decreases n,
{
    if n > 0 {
        let m = (n - 1) as nat;
        let ranks = program_ranks(sizes, symmetries, program);
        lemma_expansion_ranked(sizes, symmetries, program, m);
        let done = expand_values(program, m);
        let def = program.values@[m as int];
        let code = def.code_of();
        let args = def.args_of();
        assert forall|j: int| 0 <= j < args.len() implies ref_ranked(#[trigger] args[j], code.inputs@[j]@.len(), done, ranks) by {
            lemma_valid_arg(sizes, symmetries, program, m as int, j);
            match args[j] {
                ValueRef::Tensor(t) => {},
                ValueRef::Value(r) => {
                    assert(terms_ranked(done[r.0 as int].terms, ranks));
                },
            }
        }
        match def {
            ValueDef::Einsum(e) => {
                lemma_einsum_ranked(e, done, einsum_width(e), ranks);
            },
            ValueDef::LinComb(l) => {
                lemma_lincomb_ranked(l, done, lincomb_width(l), ranks);
            },
        }
        let all = expand_values(program, n);
        assert forall|v: int| 0 <= v < n implies terms_ranked((#[trigger] all[v]).terms, ranks) by {
            if v < m {
                assert(all[v] == done[v]);
            }
        }
    }
}

/// A valid program whose fresh index IDs fit in `u64` can be expanded.
pub proof fn lemma_valid_expandable(
    sizes: IdMap<DomainId, u64>,
    symmetries: IdMap<TensorId, Vec<SymmetryGenerator>>,
    program: Program,
)
    requires
        program_validation(sizes, symmetries, program) is Ok,
        forall|v: int| 0 <= v < program.values@.len() ==> #[trigger] ids_fit(program, v),
    ensures
        expandable(program),
{
    lemma_valid_prefix(sizes, symmetries, program);
    let values = program.values@;
    assert forall|v: int| 0 <= v < values.len() implies def_expandable(values, v) by {
        lemma_valid_value(sizes, symmetries, program, v);
        let code = values[v].code_of();
        let args = values[v].args_of();
        assert(!exists|x: crate::model::IndexId| lacks_domain(code, x));
        assert forall|x: crate::model::IndexId| #[trigger] crate::validate::uses_index(code, x) implies has_key(code.domains@, x) by {
            assert(!lacks_domain(code, x));
        }
        assert forall|k: int| 0 <= k < args.len() && 0 <= k < code.inputs@.len() implies match #[trigger] args[k] {
            ValueRef::Tensor(_) => true,
            ValueRef::Value(r) => r.0 < v && values[r.0 as int].code_of().output@.len() == code.inputs@[k]@.len(),
        } by {
            lemma_valid_arg(sizes, symmetries, program, v, k);
        }
    }
}

/// The factors of every term of every output of a valid program's
/// expansion carry symmetry generators that act on them.
pub proof fn lemma_valid_symmetries_fit(
    sizes: IdMap<DomainId, u64>,
    symmetries: IdMap<TensorId, Vec<SymmetryGenerator>>,
    program: Program,
    v: int,
    k: int,
)
    requires
        program_validation(sizes, symmetries, program) is Ok,
        0 <= v < program.values@.len(),
        0 <= k < expand_values(program, program.values@.len())[v].terms.len(),
    ensures
        symmetries_fit(expand_values(program, program.values@.len())[v].terms[k].factors, symmetries@),
{
    let n = program.values@.len();
    let ranks = program_ranks(sizes, symmetries, program);
    lemma_expansion_ranked(sizes, symmetries, program, n);
    let fs = expand_values(program, n)[v].terms[k].factors;
    assert(factors_ranked(fs, ranks));
    assert forall|i: int| 0 <= i < fs.len() implies gens_ok(generators_of(symmetries@, #[trigger] fs[i].tensor), fs[i].indices.len()) by {
        assert(ranks.contains_key(fs[i].tensor));
        lemma_valid_generators(sizes, symmetries, program, fs[i].tensor);
    }
}

} // verus!
