//! What validation does not read: the values of domain sizes beyond whether
//! they are zero, and the symmetries of tensors that no value uses.

use vstd::prelude::*;

use crate::id_map::{has_key, IdMap};
use crate::model::{DomainId, Problem, Program, SymmetryGenerator, TensorId, ValueDef, ValueRef};
use crate::search::{lemma_first_found, lemma_first_match_agree, lemma_first_none};
use crate::validate::{
    arguments_result, bad_domain_entry, code_error, generators_error, problem_validation, program_validation,
    symmetries_error, symmetry_entry_error, value_result, values_result, RankMap, ValidationError,
};

verus! {

// ---------------------------------------------------------------------------
// Domain sizes.
// ---------------------------------------------------------------------------

/// `a` and `b` declare the same domains in the same order, and a size is zero
/// in one exactly when it is zero in the other.
pub open spec fn same_domains_and_zeros(a: IdMap<DomainId, u64>, b: IdMap<DomainId, u64>) -> bool {
    &&& a@.len() == b@.len()
    &&& forall|i: int| 0 <= i < a@.len() ==> (#[trigger] a@[i]).0 == b@[i].0 && (a@[i].1 == 0) == (b@[i].1 == 0)
}

proof fn lemma_same_keys(a: IdMap<DomainId, u64>, b: IdMap<DomainId, u64>, d: DomainId)
    requires
        same_domains_and_zeros(a, b),
    ensures
        has_key(a@, d) == has_key(b@, d),
{
    if has_key(a@, d) {
        let i = choose|i: int| 0 <= i < a@.len() && #[trigger] a@[i].0 == d;
        assert(b@[i].0 == d);
    }
    if has_key(b@, d) {
        let i = choose|i: int| 0 <= i < b@.len() && #[trigger] b@[i].0 == d;
        assert(a@[i].0 == b@[i].0);
    }
}

proof fn lemma_values_ignore_sizes(
    a: IdMap<DomainId, u64>,
    b: IdMap<DomainId, u64>,
    symmetries: IdMap<TensorId, Vec<SymmetryGenerator>>,
    values: Seq<ValueDef>,
    n: nat,
)
    requires
        same_domains_and_zeros(a, b),
    ensures
        values_result(a, symmetries, values, n) == values_result(b, symmetries, values, n),
    decreases n,
{
    if n > 0 {
        lemma_values_ignore_sizes(a, b, symmetries, values, (n - 1) as nat);
        let v = n - 1;
        let code = values[v].code_of();
        assert forall|d: DomainId| has_key(a@, d) == has_key(b@, d) by {
            lemma_same_keys(a, b, d);
        }
        assert((|i: int| bad_domain_entry(a, code, i)) =~= (|i: int| bad_domain_entry(b, code, i)));
        assert forall|nargs: usize, value: crate::model::ValueId| code_error(a, value, code, nargs) == code_error(b, value, code, nargs) by {
            assert((|i: int| bad_domain_entry(a, code, i)) == (|i: int| bad_domain_entry(b, code, i)));
        }
        match values_result(a, symmetries, values, (n - 1) as nat) {
            Ok(r) => {
                assert(value_result(a, symmetries, values, v, r) == value_result(b, symmetries, values, v, r));
            },
            Err(_) => {},
        }
    }
}

/// Validation reads of the domain sizes only which domains are declared and
/// whether each size is zero: changing sizes to other sizes, zero exactly
/// where they were zero, changes no validation result.
pub proof fn lemma_validation_ignores_size_values(
    a: IdMap<DomainId, u64>,
    b: IdMap<DomainId, u64>,
    symmetries: IdMap<TensorId, Vec<SymmetryGenerator>>,
    program: Program,
)
    requires
        same_domains_and_zeros(a, b),
    ensures
        program_validation(a, symmetries, program) == program_validation(b, symmetries, program),
{
    let sa = a@;
    let sb = b@;
    lemma_first_match_agree(sa.len() as int, |i: int| sa[i].1 == 0, |i: int| sb[i].1 == 0);
    lemma_values_ignore_sizes(a, b, symmetries, program.values@, program.values@.len());
    if let Some(i) = crate::search::first_match(sa.len() as int, |i: int| sa[i].1 == 0) {
        crate::search::lemma_first_match_ensures(sa.len() as int, |i: int| sa[i].1 == 0);
        assert(sa[i].0 == sb[i].0);
    }
}

/// Costing reads of a problem's domain sizes only what validation reads: for
/// problems that differ only in sizes, zero exactly where the other is zero,
/// the problem and any candidate validate alike. The FLOP polynomial that
/// `symbolic_flops` returns (`flop_terms_of` of the candidate's values) does
/// not involve the problem at all.
pub proof fn lemma_flops_ignore_size_values(p: Problem, q: Problem, candidate: Program)
    requires
        q.symmetries == p.symmetries,
        q.reference == p.reference,
        same_domains_and_zeros(p.sizes, q.sizes),
    ensures
        problem_validation(q) == problem_validation(p),
        program_validation(q.sizes, q.symmetries, candidate) == program_validation(p.sizes, p.symmetries, candidate),
{
    lemma_validation_ignores_size_values(p.sizes, q.sizes, p.symmetries, p.reference);
    lemma_validation_ignores_size_values(p.sizes, q.sizes, p.symmetries, candidate);
}

// ---------------------------------------------------------------------------
// Symmetries of unused tensors.
// ---------------------------------------------------------------------------

/// No value of `program` takes tensor `t` as an argument.
pub open spec fn tensor_unused(program: Program, t: TensorId) -> bool {
    forall|v: int, k: int| 0 <= v < program.values@.len() && 0 <= k < program.values@[v].args_of().len()
        ==> #[trigger] program.values@[v].args_of()[k] != ValueRef::Tensor(t)
}

/// The symmetry entries of `s` other than that of `t`, in order.
pub open spec fn entries_without(s: Seq<(TensorId, Vec<SymmetryGenerator>)>, t: TensorId) -> Seq<(TensorId, Vec<SymmetryGenerator>)> {
    s.filter(|e: (TensorId, Vec<SymmetryGenerator>)| e.0 != t)
}

proof fn lemma_key_without(s: Seq<(TensorId, Vec<SymmetryGenerator>)>, t: TensorId, u: TensorId)
    requires
        u != t,
    ensures
        has_key(s, u) == has_key(entries_without(s, t), u),
    decreases s.len(),
{
    reveal(Seq::filter);
    if s.len() > 0 {
        let front = s.drop_last();
        lemma_key_without(front, t, u);
        let f = entries_without(front, t);
        let w = entries_without(s, t);
        if has_key(s, u) {
            let i = choose|i: int| 0 <= i < s.len() && #[trigger] s[i].0 == u;
            if i < s.len() - 1 {
                assert(front[i].0 == u);
                let j = choose|j: int| 0 <= j < f.len() && #[trigger] f[j].0 == u;
                assert(w[j] == f[j]);
            } else {
                assert(w[w.len() - 1] == s.last());
            }
        }
        if has_key(w, u) {
            let j = choose|j: int| 0 <= j < w.len() && #[trigger] w[j].0 == u;
            if j < f.len() {
                assert(w[j] == f[j]);
                let i = choose|i: int| 0 <= i < front.len() && #[trigger] front[i].0 == u;
                assert(s[i] == front[i]);
            } else {
                assert(s[s.len() - 1].0 == u);
            }
        }
    }
}

proof fn lemma_arguments_ignore_unused(
    a: IdMap<TensorId, Vec<SymmetryGenerator>>,
    b: IdMap<TensorId, Vec<SymmetryGenerator>>,
    t: TensorId,
    values: Seq<ValueDef>,
    v: int,
    n: nat,
    ranks: RankMap,
)
    requires
        0 <= v < values.len(),
        n <= values[v].args_of().len(),
        forall|k: int| 0 <= k < values[v].args_of().len() ==> #[trigger] values[v].args_of()[k] != ValueRef::Tensor(t),
        forall|u: TensorId| u != t ==> has_key(a@, u) == has_key(b@, u),
        !ranks.contains_key(t),
    ensures
        arguments_result(a, values, v, n, ranks) == arguments_result(b, values, v, n, ranks),
        arguments_result(a, values, v, n, ranks) matches Ok(r) ==> !r.contains_key(t),
    decreases n,
{
    if n > 0 {
        lemma_arguments_ignore_unused(a, b, t, values, v, (n - 1) as nat, ranks);
        let k = n - 1;
        assert(values[v].args_of()[k] != ValueRef::Tensor(t));
        match values[v].args_of()[k] {
            ValueRef::Tensor(u) => {
                assert(has_key(a@, u) == has_key(b@, u));
            },
            ValueRef::Value(_) => {},
        }
    }
}

proof fn lemma_values_ignore_unused(
    sizes: IdMap<DomainId, u64>,
    a: IdMap<TensorId, Vec<SymmetryGenerator>>,
    b: IdMap<TensorId, Vec<SymmetryGenerator>>,
    t: TensorId,
    program: Program,
    n: nat,
)
    requires
        n <= program.values@.len(),
        tensor_unused(program, t),
        forall|u: TensorId| u != t ==> has_key(a@, u) == has_key(b@, u),
    ensures
        values_result(sizes, a, program.values@, n) == values_result(sizes, b, program.values@, n),
        values_result(sizes, a, program.values@, n) matches Ok(r) ==> !r.contains_key(t),
    decreases n,
{
    if n > 0 {
        let values = program.values@;
        lemma_values_ignore_unused(sizes, a, b, t, program, (n - 1) as nat);
        let v = n - 1;
        if let Ok(r) = values_result(sizes, a, values, (n - 1) as nat) {
            assert forall|k: int| 0 <= k < values[v].args_of().len() implies #[trigger] values[v].args_of()[k] != ValueRef::Tensor(t) by {
                assert(program.values@[v].args_of()[k] != ValueRef::Tensor(t));
            }
            lemma_arguments_ignore_unused(a, b, t, values, v, values[v].args_of().len(), r);
        }
    }
}

/// The error in a symmetry entry, given the ranks fixed by validation.
spec fn entry_error(e: (TensorId, Vec<SymmetryGenerator>), ranks: RankMap) -> Option<ValidationError> {
    if ranks.contains_key(e.0) {
        generators_error(e.0, e.1@, ranks[e.0])
    } else {
        None
    }
}

/// The first error among the entries `es`, in order.
spec fn first_entry_error(es: Seq<(TensorId, Vec<SymmetryGenerator>)>, ranks: RankMap) -> Option<ValidationError>
    decreases es.len(),
{
    if es.len() == 0 {
        None
    } else {
        match first_entry_error(es.drop_last(), ranks) {
            Some(x) => Some(x),
            None => entry_error(es.last(), ranks),
        }
    }
}

proof fn lemma_first_entry_error(es: Seq<(TensorId, Vec<SymmetryGenerator>)>, ranks: RankMap)
    ensures
        first_entry_error(es, ranks) is None ==> forall|j: int| 0 <= j < es.len() ==> #[trigger] entry_error(es[j], ranks) is None,
        first_entry_error(es, ranks) matches Some(x) ==> exists|i: int| 0 <= i < es.len() && entry_error(es[i], ranks) == Some(x)
            && forall|j: int| 0 <= j < i ==> #[trigger] entry_error(es[j], ranks) is None,
    decreases es.len(),
{
    if es.len() > 0 {
        let front = es.drop_last();
        lemma_first_entry_error(front, ranks);
        assert forall|j: int| 0 <= j < front.len() implies #[trigger] es[j] == front[j] by {}
        if let Some(x) = first_entry_error(front, ranks) {
            let i = choose|i: int| 0 <= i < front.len() && entry_error(front[i], ranks) == Some(x)
                && forall|j: int| 0 <= j < i ==> #[trigger] entry_error(front[j], ranks) is None;
            assert(es[i] == front[i]);
            assert forall|j: int| 0 <= j < i implies #[trigger] entry_error(es[j], ranks) is None by {
                assert(es[j] == front[j]);
            }
        } else {
            assert(es[es.len() - 1] == es.last());
            assert forall|j: int| 0 <= j < es.len() - 1 implies #[trigger] entry_error(es[j], ranks) is None by {
                assert(es[j] == front[j]);
            }
        }
    }
}

proof fn lemma_symmetries_error_entries(s: IdMap<TensorId, Vec<SymmetryGenerator>>, ranks: RankMap)
    ensures
        symmetries_error(s, ranks) == first_entry_error(s@, ranks),
{
    let es = s@;
    let p = |i: int| symmetry_entry_error(es, i, ranks) is Some;
    lemma_first_entry_error(es, ranks);
    assert forall|j: int| 0 <= j < es.len() implies #[trigger] symmetry_entry_error(es, j, ranks) == entry_error(es[j], ranks) by {}
    match first_entry_error(es, ranks) {
        Some(x) => {
            let i = choose|i: int| 0 <= i < es.len() && entry_error(es[i], ranks) == Some(x)
                && forall|j: int| 0 <= j < i ==> #[trigger] entry_error(es[j], ranks) is None;
            assert forall|j: int| 0 <= j < i implies !#[trigger] p(j) by {
                assert(entry_error(es[j], ranks) is None);
            }
            assert(p(i));
            lemma_first_found(i, es.len() as int, p);
        },
        None => {
            assert forall|j: int| 0 <= j < es.len() implies !#[trigger] p(j) by {
                assert(entry_error(es[j], ranks) is None);
            }
            lemma_first_none(es.len() as int, p);
        },
    }
}

proof fn lemma_first_entry_error_without(es: Seq<(TensorId, Vec<SymmetryGenerator>)>, t: TensorId, ranks: RankMap)
    requires
        !ranks.contains_key(t),
    ensures
        first_entry_error(es, ranks) == first_entry_error(entries_without(es, t), ranks),
    decreases es.len(),
{
    reveal(Seq::filter);
    if es.len() > 0 {
        let front = es.drop_last();
        lemma_first_entry_error_without(front, t, ranks);
        let w = entries_without(es, t);
        if es.last().0 != t {
            assert(w == entries_without(front, t).push(es.last()));
            assert(w.drop_last() =~= entries_without(front, t));
        } else {
            assert(w == entries_without(front, t));
        }
    }
}

/// Validation does not read the symmetries declared for a tensor that no
/// value of the program uses: adding, removing or changing that entry, to
/// anything at all, changes no validation result.
pub proof fn lemma_validation_ignores_unused_symmetries(
    sizes: IdMap<DomainId, u64>,
    a: IdMap<TensorId, Vec<SymmetryGenerator>>,
    b: IdMap<TensorId, Vec<SymmetryGenerator>>,
    t: TensorId,
    program: Program,
)
    requires
        tensor_unused(program, t),
        entries_without(a@, t) == entries_without(b@, t),
    ensures
        program_validation(sizes, a, program) == program_validation(sizes, b, program),
{
    assert forall|u: TensorId| u != t implies has_key(a@, u) == has_key(b@, u) by {
        lemma_key_without(a@, t, u);
        lemma_key_without(b@, t, u);
    }
    lemma_values_ignore_unused(sizes, a, b, t, program, program.values@.len());
    if let Ok(r) = values_result(sizes, a, program.values@, program.values@.len()) {
        lemma_symmetries_error_entries(a, r);
        lemma_symmetries_error_entries(b, r);
        lemma_first_entry_error_without(a@, t, r);
        lemma_first_entry_error_without(b@, t, r);
    }
}

} // verus!
