//! Validation of problem declarations and reference programs.

use vstd::prelude::*;

use crate::id_map::{has_key, lookup, IdMap};
use crate::model::{
    Code, DomainId, Einsum, IndexId, LinComb, Problem, Program, SymmetryGenerator, TensorId, ValueDef, ValueId, ValueRef,
};
use crate::search::{first_match, lemma_first_found, lemma_first_none};

verus! {

/// A reason that a [`Problem`] is not well formed.
#[derive(Clone, Debug, PartialEq, Eq)]
pub enum ValidationError {
    ZeroDomainSize { domain: DomainId },
    ProgramTooLarge { values: usize },
    ArgumentCountMismatch { value: ValueId, inputs: usize, args: usize },
    MissingIndexDomain { value: ValueId, index: IndexId },
    UnusedIndexDomain { value: ValueId, index: IndexId },
    UndeclaredDomain { value: ValueId, index: IndexId, domain: DomainId },
    DuplicateOutputIndex { value: ValueId, index: IndexId },
    UndeclaredTensor { value: ValueId, tensor: TensorId },
    InvalidValueReference { value: ValueId, referenced: ValueId },
    InconsistentTensorRank { value: ValueId, tensor: TensorId, expected: usize, actual: usize },
    ValueInterfaceMismatch { value: ValueId, argument: usize, referenced: ValueId },
    EmptyEinsum { value: ValueId },
    EinsumOutputNotInput { value: ValueId, index: IndexId },
    CoefficientCountMismatch { value: ValueId, coefficients: usize, args: usize },
    InvalidLinCombInput { value: ValueId, input: usize },
    InvalidOutput { output: usize, value: ValueId },
    InvalidSymmetrySign { tensor: TensorId, generator: usize, sign: i8 },
    SymmetryRankMismatch { tensor: TensorId, generator: usize, expected: usize, actual: usize },
    InvalidSymmetryPermutation { tensor: TensorId, generator: usize },
}

// ---------------------------------------------------------------------------
// What validation decides.
// ---------------------------------------------------------------------------

/// The tensor ranks fixed so far by the values already checked.
pub type RankMap = Map<TensorId, usize>;

/// `x` occurs in an input or in the output of `code`.
pub open spec fn uses_index(code: Code, x: IndexId) -> bool {
    ||| exists|i: int, j: int| 0 <= i < code.inputs@.len() && 0 <= j < code.inputs@[i]@.len() && #[trigger] code.inputs@[i]@[j] == x
    ||| code.output@.contains(x)
}

/// `x` occurs in an input of `code`.
pub open spec fn in_some_input(code: Code, x: IndexId) -> bool {
    exists|i: int, j: int| 0 <= i < code.inputs@.len() && 0 <= j < code.inputs@[i]@.len() && #[trigger] code.inputs@[i]@[j] == x
}

/// `x` is used by `code` but has no domain.
pub open spec fn lacks_domain(code: Code, x: IndexId) -> bool {
    uses_index(code, x) && !has_key(code.domains@, x)
}

/// The used index with the smallest ID that has no domain.
pub open spec fn first_lacking_domain(code: Code) -> IndexId {
    choose|x: IndexId| lacks_domain(code, x) && forall|y: IndexId| lacks_domain(code, y) ==> x.0 <= y.0
}

/// The domain that `code` assigns to `x`.
pub open spec fn domain_of(code: Code, x: IndexId) -> DomainId {
    lookup(code.domains@, x).unwrap()
}

/// The domains of the indices `ids`, in order.
pub open spec fn interface(code: Code, ids: Seq<IndexId>) -> Seq<DomainId> {
    ids.map_values(|x: IndexId| domain_of(code, x))
}

/// The domains of the output of a definition, in order.
pub open spec fn def_output_interface(def: ValueDef) -> Seq<DomainId> {
    interface(def.code_of(), def.code_of().output@)
}

/// The element at `j` occurs earlier in `s`.
pub open spec fn repeats_earlier(s: Seq<IndexId>, j: int) -> bool {
    s.subrange(0, j).contains(s[j])
}

/// Domain entry `i` of `code` names an undeclared domain or an unused index.
pub open spec fn bad_domain_entry(sizes: IdMap<DomainId, u64>, code: Code, i: int) -> bool {
    !has_key(sizes@, code.domains@[i].1) || !uses_index(code, code.domains@[i].0)
}

/// The error found in the indexing code of value `v`, if any.
pub open spec fn code_error(sizes: IdMap<DomainId, u64>, v: ValueId, code: Code, nargs: usize) -> Option<ValidationError> {
    let output = code.output@;
    let entries = code.domains@;
    if code.inputs@.len() != nargs {
        Some(ValidationError::ArgumentCountMismatch { value: v, inputs: code.inputs@.len() as usize, args: nargs })
    } else if let Some(j) = first_match(output.len() as int, |j: int| repeats_earlier(code.output@, j)) {
        Some(ValidationError::DuplicateOutputIndex { value: v, index: output[j] })
    } else if exists|x: IndexId| lacks_domain(code, x) {
        Some(ValidationError::MissingIndexDomain { value: v, index: first_lacking_domain(code) })
    } else if let Some(i) = first_match(entries.len() as int, |i: int| bad_domain_entry(sizes, code, i)) {
        if !has_key(sizes@, entries[i].1) {
            Some(ValidationError::UndeclaredDomain { value: v, index: entries[i].0, domain: entries[i].1 })
        } else {
            Some(ValidationError::UnusedIndexDomain { value: v, index: entries[i].0 })
        }
    } else {
        None
    }
}

/// Output position `j` of `code` names an index that no input uses.
pub open spec fn output_not_in_input(code: Code, j: int) -> bool {
    !in_some_input(code, code.output@[j])
}

/// Input `i` of `code` is not a permutation of its output.
pub open spec fn not_output_permutation(code: Code, i: int) -> bool {
    code.inputs@[i]@.len() != code.output@.len() || code.inputs@[i]@.to_set() != code.output@.to_set()
}

/// The error specific to the kind of definition of value `v`, if any.
pub open spec fn kind_error(v: ValueId, def: ValueDef) -> Option<ValidationError> {
    match def {
        ValueDef::Einsum(e) => {
            let output = e.code.output@;
            if e.args@.len() == 0 {
                Some(ValidationError::EmptyEinsum { value: v })
            } else if let Some(j) = first_match(output.len() as int, |j: int| output_not_in_input(e.code, j)) {
                Some(ValidationError::EinsumOutputNotInput { value: v, index: output[j] })
            } else {
                None
            }
        },
        ValueDef::LinComb(l) => {
            let inputs = l.code.inputs@;
            let output = l.code.output@;
            if l.coeff@.len() != l.args@.len() {
                Some(ValidationError::CoefficientCountMismatch { value: v, coefficients: l.coeff@.len() as usize, args: l.args@.len() as usize })
            } else if let Some(i) = first_match(inputs.len() as int, |i: int| not_output_permutation(l.code, i)) {
                Some(ValidationError::InvalidLinCombInput { value: v, input: i as usize })
            } else {
                None
            }
        },
    }
}

/// Checks argument `a` of value `v` against the ranks fixed so far.
pub open spec fn argument_step(
    symmetries: IdMap<TensorId, Vec<SymmetryGenerator>>,
    values: Seq<ValueDef>,
    v: int,
    a: int,
    ranks: RankMap,
) -> Result<RankMap, ValidationError> {
    let value = ValueId(v as u32);
    let code = values[v].code_of();
    let indices = code.inputs@[a]@;
    match values[v].args_of()[a] {
        ValueRef::Tensor(t) => {
            if !has_key(symmetries@, t) {
                Err(ValidationError::UndeclaredTensor { value, tensor: t })
            } else if ranks.contains_key(t) {
                if ranks[t] != indices.len() {
                    Err(ValidationError::InconsistentTensorRank { value, tensor: t, expected: ranks[t], actual: indices.len() as usize })
                } else {
                    Ok(ranks)
                }
            } else {
                Ok(ranks.insert(t, indices.len() as usize))
            }
        },
        ValueRef::Value(r) => {
            if r.0 >= v {
                Err(ValidationError::InvalidValueReference { value, referenced: r })
            } else if interface(code, indices) != def_output_interface(values[r.0 as int]) {
                Err(ValidationError::ValueInterfaceMismatch { value, argument: a as usize, referenced: r })
            } else {
                Ok(ranks)
            }
        },
    }
}

/// Checks the first `n` arguments of value `v`, in order.
pub open spec fn arguments_result(
    symmetries: IdMap<TensorId, Vec<SymmetryGenerator>>,
    values: Seq<ValueDef>,
    v: int,
    n: nat,
    ranks: RankMap,
) -> Result<RankMap, ValidationError>
    decreases n,
{
    if n == 0 {
        Ok(ranks)
    } else {
        match arguments_result(symmetries, values, v, (n - 1) as nat, ranks) {
            Err(e) => Err(e),
            Ok(r) => argument_step(symmetries, values, v, n - 1, r),
        }
    }
}

/// Checking the arguments of value `v` gets through the first `a` of them
/// with the ranks `m`, and then fails on argument `a` with `e`.
pub open spec fn arguments_fail_at(
    symmetries: IdMap<TensorId, Vec<SymmetryGenerator>>,
    values: Seq<ValueDef>,
    v: int,
    ranks: RankMap,
    a: int,
    m: RankMap,
    e: ValidationError,
) -> bool {
    &&& 0 <= a
    &&& arguments_result(symmetries, values, v, a as nat, ranks) == Ok::<RankMap, ValidationError>(m)
    &&& argument_step(symmetries, values, v, a, m) == Err::<RankMap, ValidationError>(e)
}

/// Checks value `v` given the ranks fixed by the values before it.
pub open spec fn value_result(
    sizes: IdMap<DomainId, u64>,
    symmetries: IdMap<TensorId, Vec<SymmetryGenerator>>,
    values: Seq<ValueDef>,
    v: int,
    ranks: RankMap,
) -> Result<RankMap, ValidationError> {
    let value = ValueId(v as u32);
    let def = values[v];
    if let Some(e) = code_error(sizes, value, def.code_of(), def.args_of().len() as usize) {
        Err(e)
    } else if let Some(e) = kind_error(value, def) {
        Err(e)
    } else {
        arguments_result(symmetries, values, v, def.args_of().len(), ranks)
    }
}

/// Checks the first `n` values, in order, returning the tensor ranks they fix.
pub open spec fn values_result(
    sizes: IdMap<DomainId, u64>,
    symmetries: IdMap<TensorId, Vec<SymmetryGenerator>>,
    values: Seq<ValueDef>,
    n: nat,
) -> Result<RankMap, ValidationError>
    decreases n,
{
    if n == 0 {
        Ok(Map::empty())
    } else {
        match values_result(sizes, symmetries, values, (n - 1) as nat) {
            Err(e) => Err(e),
            Ok(r) => value_result(sizes, symmetries, values, n - 1, r),
        }
    }
}

/// `p` lists each of `0..rank` exactly once.
pub open spec fn is_permutation(p: Seq<usize>, rank: usize) -> bool {
    &&& forall|j: int| 0 <= j < p.len() ==> p[j] < rank
    &&& p.no_duplicates()
}

/// The error in generator `g` of tensor `t` of rank `rank`, if any.
pub open spec fn generator_error(t: TensorId, g: int, generator: SymmetryGenerator, rank: usize) -> Option<ValidationError> {
    let p = generator.permutation@;
    if generator.sign != 1 && generator.sign != -1 {
        Some(ValidationError::InvalidSymmetrySign { tensor: t, generator: g as usize, sign: generator.sign })
    } else if p.len() != rank {
        Some(ValidationError::SymmetryRankMismatch { tensor: t, generator: g as usize, expected: rank, actual: p.len() as usize })
    } else if !is_permutation(p, rank) {
        Some(ValidationError::InvalidSymmetryPermutation { tensor: t, generator: g as usize })
    } else {
        None
    }
}

/// The first error among the generators of a tensor of rank `rank`, if any.
pub open spec fn generators_error(t: TensorId, generators: Seq<SymmetryGenerator>, rank: usize) -> Option<ValidationError> {
    if let Some(g) = first_match(generators.len() as int, |g: int| generator_error(t, g, generators[g], rank) is Some) {
        generator_error(t, g, generators[g], rank)
    } else {
        None
    }
}

/// The error in the symmetries of the tensor declared at entry `i`, if any.
/// Tensors that no value uses have no rank and are not checked.
pub open spec fn symmetry_entry_error(entries: Seq<(TensorId, Vec<SymmetryGenerator>)>, i: int, ranks: RankMap) -> Option<ValidationError> {
    let t = entries[i].0;
    if ranks.contains_key(t) {
        generators_error(t, entries[i].1@, ranks[t])
    } else {
        None
    }
}

/// The first error among the declared symmetries, in tensor order, if any.
pub open spec fn symmetries_error(symmetries: IdMap<TensorId, Vec<SymmetryGenerator>>, ranks: RankMap) -> Option<ValidationError> {
    let entries = symmetries@;
    if let Some(i) = first_match(entries.len() as int, |i: int| symmetry_entry_error(entries, i, ranks) is Some) {
        symmetry_entry_error(entries, i, ranks)
    } else {
        None
    }
}

/// What validating `program` under the given sizes and symmetries decides:
/// the first failed check, in the order the checks are made.
pub open spec fn program_validation(
    sizes: IdMap<DomainId, u64>,
    symmetries: IdMap<TensorId, Vec<SymmetryGenerator>>,
    program: Program,
) -> Result<(), ValidationError> {
    let s = sizes@;
    let values = program.values@;
    let outputs = program.outputs@;
    if let Some(i) = first_match(s.len() as int, |i: int| s[i].1 == 0) {
        Err(ValidationError::ZeroDomainSize { domain: s[i].0 })
    } else if values.len() > 0 && values.len() - 1 > u32::MAX {
        Err(ValidationError::ProgramTooLarge { values: values.len() as usize })
    } else {
        match values_result(sizes, symmetries, values, values.len()) {
            Err(e) => Err(e),
            Ok(ranks) => {
                if let Some(o) = first_match(outputs.len() as int, |o: int| outputs[o].0 >= values.len()) {
                    Err(ValidationError::InvalidOutput { output: o as usize, value: outputs[o] })
                } else if let Some(e) = symmetries_error(symmetries, ranks) {
                    Err(e)
                } else {
                    Ok(())
                }
            },
        }
    }
}

/// What validating `problem` decides.
pub open spec fn problem_validation(problem: Problem) -> Result<(), ValidationError> {
    program_validation(problem.sizes, problem.symmetries, problem.reference)
}

// ---------------------------------------------------------------------------
// The checks.
// ---------------------------------------------------------------------------

/// The tensor ranks held in `m` are those of `r`.
pub open spec fn same_ranks(m: Seq<(TensorId, usize)>, r: RankMap) -> bool {
    forall|t: TensorId| #[trigger] lookup(m, t) == (if r.contains_key(t) { Some(r[t]) } else { None })
}

fn contains_index(ids: &Vec<IndexId>, x: IndexId) -> (b: bool)
    ensures
        b == ids@.contains(x),
{
    let mut i: usize = 0;
    while i < ids.len()
        invariant
            i <= ids@.len(),
            forall|k: int| 0 <= k < i ==> ids@[k] != x,
        decreases ids@.len() - i,
    {
        if ids[i] == x {
            return true;
        }
        i = i + 1;
    }
    false
}

fn occurs_in_input(code: &Code, x: IndexId) -> (b: bool)
    ensures
        b == in_some_input(*code, x),
{
    let mut i: usize = 0;
    while i < code.inputs.len()
        invariant
            i <= code.inputs@.len(),
            forall|a: int, b: int| 0 <= a < i && 0 <= b < code.inputs@[a]@.len() ==> #[trigger] code.inputs@[a]@[b] != x,
        decreases code.inputs@.len() - i,
    {
        if contains_index(&code.inputs[i], x) {
            return true;
        }
        i = i + 1;
    }
    false
}

fn is_used(code: &Code, x: IndexId) -> (b: bool)
    ensures
        b == uses_index(*code, x),
{
    occurs_in_input(code, x) || contains_index(&code.output, x)
}

/// `best` is the smallest ID among the indices of `seen` that lack a domain.
spec fn smallest_lacking(best: Option<IndexId>, seen: Set<IndexId>, domains: Seq<(IndexId, DomainId)>) -> bool {
    match best {
        None => forall|x: IndexId| seen.contains(x) ==> has_key(domains, x),
        Some(b) => {
            &&& seen.contains(b)
            &&& !has_key(domains, b)
            &&& forall|x: IndexId| seen.contains(x) && !has_key(domains, x) ==> b.0 <= x.0
        },
    }
}

fn smallest_lacking_in(ids: &Vec<IndexId>, domains: &IdMap<IndexId, DomainId>, best: Option<IndexId>, Ghost(seen): Ghost<Set<IndexId>>) -> (r: Option<IndexId>)
    requires
        smallest_lacking(best, seen, domains@),
    ensures
        smallest_lacking(r, seen + ids@.to_set(), domains@),
{
    let mut best = best;
    let mut i: usize = 0;
    while i < ids.len()
        invariant
            i <= ids@.len(),
            smallest_lacking(best, seen + ids@.subrange(0, i as int).to_set(), domains@),
        decreases ids@.len() - i,
    {
        let x = ids[i];
        let ghost before = seen + ids@.subrange(0, i as int).to_set();
        let ghost after = seen + ids@.subrange(0, i + 1).to_set();
        assert(after =~= before.insert(x)) by {
            let p = ids@.subrange(0, i as int);
            let q = ids@.subrange(0, i + 1);
            assert forall|y: IndexId| q.contains(y) <==> (p.contains(y) || y == x) by {
                if q.contains(y) {
                    let k = choose|k: int| 0 <= k < q.len() && q[k] == y;
                    if k < i {
                        assert(p[k] == y);
                    }
                }
                if p.contains(y) {
                    let k = choose|k: int| 0 <= k < p.len() && p[k] == y;
                    assert(q[k] == y);
                }
                if y == x {
                    assert(q[i as int] == y);
                }
            }
        }
        if !domains.contains_key(&x) {
            match best {
                Some(b) => {
                    if x.0 < b.0 {
                        best = Some(x);
                    }
                },
                None => {
                    best = Some(x);
                },
            }
        }
        i = i + 1;
    }
    assert(ids@.subrange(0, ids@.len() as int) =~= ids@);
    best
}

/// The indices seen in the first `n` inputs.
spec fn input_indices(code: Code, n: int) -> Set<IndexId> {
    Set::new(|x: IndexId| exists|i: int, j: int| 0 <= i < n && 0 <= j < code.inputs@[i]@.len() && #[trigger] code.inputs@[i]@[j] == x)
}

#[verifier::loop_isolation(false)]
fn validate_code(sizes: &IdMap<DomainId, u64>, value: ValueId, code: &Code, nargs: usize) -> (r: Result<(), ValidationError>)
    ensures
        r == (match code_error(*sizes, value, *code, nargs) {
            Some(e) => Err(e),
            None => Ok(()),
        }),
{
    if code.inputs.len() != nargs {
        return Err(ValidationError::ArgumentCountMismatch { value, inputs: code.inputs.len(), args: nargs });
    }

    let ghost output = code.output@;
    let ghost repeated = |j: int| repeats_earlier(code.output@, j);
    let mut j: usize = 0;
    while j < code.output.len()
        invariant
            output == code.output@,
            repeated == (|j: int| repeats_earlier(code.output@, j)),
            j <= output.len(),
            forall|k: int| 0 <= k < j ==> !#[trigger] repeated(k),
        decreases output.len() - j,
    {
        let mut k: usize = 0;
        while k < j
            invariant
                output == code.output@,
                repeated == (|j: int| repeats_earlier(code.output@, j)),
                forall|k: int| 0 <= k < j ==> !#[trigger] repeated(k),
                j < output.len(),
                k <= j,
                forall|l: int| 0 <= l < k ==> output[l] != output[j as int],
            decreases j - k,
        {
            if code.output[k] == code.output[j] {
                proof {
                    assert(output.subrange(0, j as int)[k as int] == output[j as int]);
                    lemma_first_found(j as int, output.len() as int, repeated);
                }
                return Err(ValidationError::DuplicateOutputIndex { value, index: code.output[j] });
            }
            k = k + 1;
        }
        assert(!repeated(j as int)) by {
            if output.subrange(0, j as int).contains(output[j as int]) {
                let l = choose|l: int| 0 <= l < j && output.subrange(0, j as int)[l] == output[j as int];
                assert(output[l] == output[j as int]);
            }
        }
        j = j + 1;
    }
    proof {
        lemma_first_none(output.len() as int, repeated);
    }

    let mut best: Option<IndexId> = None;
    let mut i: usize = 0;
    while i < code.inputs.len()
        invariant
            i <= code.inputs@.len(),
            smallest_lacking(best, input_indices(*code, i as int), code.domains@),
        decreases code.inputs@.len() - i,
    {
        let ghost seen = input_indices(*code, i as int);
        best = smallest_lacking_in(&code.inputs[i], &code.domains, best, Ghost(seen));
        assert(seen + code.inputs@[i as int]@.to_set() =~= input_indices(*code, i + 1)) by {
            assert forall|x: IndexId| input_indices(*code, i + 1).contains(x) implies
                (seen + code.inputs@[i as int]@.to_set()).contains(x) by {
                let (a, b) = choose|a: int, b: int| 0 <= a < i + 1 && 0 <= b < code.inputs@[a]@.len() && #[trigger] code.inputs@[a]@[b] == x;
                if a < i {
                    assert(seen.contains(x));
                } else {
                    assert(code.inputs@[i as int]@.contains(x));
                }
            }
            assert forall|x: IndexId| (seen + code.inputs@[i as int]@.to_set()).contains(x) implies
                input_indices(*code, i + 1).contains(x) by {
                if seen.contains(x) {
                    let (a, b) = choose|a: int, b: int| 0 <= a < i && 0 <= b < code.inputs@[a]@.len() && #[trigger] code.inputs@[a]@[b] == x;
                    assert(code.inputs@[a]@[b] == x);
                } else {
                    let b = choose|b: int| 0 <= b < code.inputs@[i as int]@.len() && code.inputs@[i as int]@[b] == x;
                    assert(code.inputs@[i as int]@[b] == x);
                }
            }
        }
        i = i + 1;
    }
    let ghost seen = input_indices(*code, i as int);
    best = smallest_lacking_in(&code.output, &code.domains, best, Ghost(seen));
    proof {
        assert forall|x: IndexId| (seen + code.output@.to_set()).contains(x) <==> uses_index(*code, x) by {
            if uses_index(*code, x) && !code.output@.contains(x) {
                let (a, b) = choose|a: int, b: int| 0 <= a < code.inputs@.len() && 0 <= b < code.inputs@[a]@.len() && #[trigger] code.inputs@[a]@[b] == x;
                assert(seen.contains(x));
            }
        }
    }
    if let Some(index) = best {
        proof {
            assert(lacks_domain(*code, index));
            let other = first_lacking_domain(*code);
            assert(lacks_domain(*code, other));
            assert(index.0 <= other.0);
            assert(other.0 <= index.0);
        }
        return Err(ValidationError::MissingIndexDomain { value, index });
    }
    assert(!exists|x: IndexId| lacks_domain(*code, x)) by {
        assert forall|x: IndexId| !lacks_domain(*code, x) by {
            if uses_index(*code, x) {
                assert((seen + code.output@.to_set()).contains(x));
            }
        }
    }

    let entries = code.domains.entries();
    let ghost bad = |i: int| bad_domain_entry(*sizes, *code, i);
    let mut i: usize = 0;
    while i < entries.len()
        invariant
            entries@ == code.domains@,
            bad == (|i: int| bad_domain_entry(*sizes, *code, i)),
            i <= entries@.len(),
            forall|k: int| 0 <= k < i ==> !#[trigger] bad(k),
        decreases entries@.len() - i,
    {
        let (index, domain) = entries[i];
        if !sizes.contains_key(&domain) {
            proof {
                lemma_first_found(i as int, entries@.len() as int, bad);
            }
            return Err(ValidationError::UndeclaredDomain { value, index, domain });
        }
        if !is_used(code, index) {
            proof {
                lemma_first_found(i as int, entries@.len() as int, bad);
            }
            return Err(ValidationError::UnusedIndexDomain { value, index });
        }
        i = i + 1;
    }
    proof {
        lemma_first_none(entries@.len() as int, bad);
    }
    Ok(())
}

fn same_index_set(a: &Vec<IndexId>, b: &Vec<IndexId>) -> (r: bool)
    ensures
        r == (a@.to_set() == b@.to_set()),
{
    let mut i: usize = 0;
    while i < a.len()
        invariant
            i <= a@.len(),
            forall|k: int| 0 <= k < i ==> b@.contains(#[trigger] a@[k]),
        decreases a@.len() - i,
    {
        if !contains_index(b, a[i]) {
            assert(a@.to_set().contains(a@[i as int]));
            assert(!b@.to_set().contains(a@[i as int]));
            return false;
        }
        i = i + 1;
    }
    let mut j: usize = 0;
    while j < b.len()
        invariant
            j <= b@.len(),
            forall|k: int| 0 <= k < a@.len() ==> b@.contains(#[trigger] a@[k]),
            forall|k: int| 0 <= k < j ==> a@.contains(#[trigger] b@[k]),
        decreases b@.len() - j,
    {
        if !contains_index(a, b[j]) {
            assert(b@.to_set().contains(b@[j as int]));
            assert(!a@.to_set().contains(b@[j as int]));
            return false;
        }
        j = j + 1;
    }
    assert(a@.to_set() =~= b@.to_set()) by {
        assert forall|x: IndexId| a@.to_set().contains(x) implies b@.to_set().contains(x) by {
            let k = choose|k: int| 0 <= k < a@.len() && a@[k] == x;
            assert(b@.contains(a@[k]));
        }
        assert forall|x: IndexId| b@.to_set().contains(x) implies a@.to_set().contains(x) by {
            let k = choose|k: int| 0 <= k < b@.len() && b@[k] == x;
            assert(a@.contains(b@[k]));
        }
    }
    true
}

/// Checks what is specific to an einsum: it has arguments, and every output
/// index occurs in an input.
#[verifier::loop_isolation(false)]
fn validate_einsum(value: ValueId, einsum: &Einsum) -> (r: Result<(), ValidationError>)
    ensures
        r == (match kind_error(value, ValueDef::Einsum(*einsum)) {
            Some(e) => Err(e),
            None => Ok(()),
        }),
{
    if einsum.args.len() == 0 {
        return Err(ValidationError::EmptyEinsum { value });
    }
    let ghost bad = |j: int| output_not_in_input(einsum.code, j);
    let mut j: usize = 0;
    while j < einsum.code.output.len()
        invariant
            bad == (|j: int| output_not_in_input(einsum.code, j)),
            j <= einsum.code.output@.len(),
            forall|k: int| 0 <= k < j ==> !#[trigger] bad(k),
        decreases einsum.code.output@.len() - j,
    {
        let index = einsum.code.output[j];
        if !occurs_in_input(&einsum.code, index) {
            proof {
                lemma_first_found(j as int, einsum.code.output@.len() as int, bad);
            }
            return Err(ValidationError::EinsumOutputNotInput { value, index });
        }
        j = j + 1;
    }
    proof {
        lemma_first_none(einsum.code.output@.len() as int, bad);
    }
    Ok(())
}

/// Checks what is specific to a linear combination: one coefficient per
/// argument, and every input a permutation of the output.
#[verifier::loop_isolation(false)]
fn validate_lincomb(value: ValueId, lincomb: &LinComb) -> (r: Result<(), ValidationError>)
    ensures
        r == (match kind_error(value, ValueDef::LinComb(*lincomb)) {
            Some(e) => Err(e),
            None => Ok(()),
        }),
{
    if lincomb.coeff.len() != lincomb.args.len() {
        return Err(ValidationError::CoefficientCountMismatch {
            value,
            coefficients: lincomb.coeff.len(),
            args: lincomb.args.len(),
        });
    }
    let ghost bad = |i: int| not_output_permutation(lincomb.code, i);
    let mut i: usize = 0;
    while i < lincomb.code.inputs.len()
        invariant
            bad == (|i: int| not_output_permutation(lincomb.code, i)),
            i <= lincomb.code.inputs@.len(),
            forall|k: int| 0 <= k < i ==> !#[trigger] bad(k),
        decreases lincomb.code.inputs@.len() - i,
    {
        let indices = &lincomb.code.inputs[i];
        if indices.len() != lincomb.code.output.len() || !same_index_set(indices, &lincomb.code.output) {
            proof {
                lemma_first_found(i as int, lincomb.code.inputs@.len() as int, bad);
            }
            return Err(ValidationError::InvalidLinCombInput { value, input: i });
        }
        i = i + 1;
    }
    proof {
        lemma_first_none(lincomb.code.inputs@.len() as int, bad);
    }
    Ok(())
}

fn validate_kind(value: ValueId, def: &ValueDef) -> (r: Result<(), ValidationError>)
    ensures
        r == (match kind_error(value, *def) {
            Some(e) => Err(e),
            None => Ok(()),
        }),
{
    match def {
        ValueDef::Einsum(einsum) => validate_einsum(value, einsum),
        ValueDef::LinComb(lincomb) => validate_lincomb(value, lincomb),
    }
}

fn input_interface(code: &Code, ids: &Vec<IndexId>) -> (r: Vec<DomainId>)
    requires
        forall|j: int| 0 <= j < ids@.len() ==> has_key(code.domains@, #[trigger] ids@[j]),
    ensures
        r@ == interface(*code, ids@),
{
    let mut r: Vec<DomainId> = Vec::new();
    let mut j: usize = 0;
    while j < ids.len()
        invariant
            j <= ids@.len(),
            forall|j: int| 0 <= j < ids@.len() ==> has_key(code.domains@, #[trigger] ids@[j]),
            r@ =~= interface(*code, ids@.subrange(0, j as int)),
        decreases ids@.len() - j,
    {
        let domain = *code.domains.get(&ids[j]).unwrap();
        r.push(domain);
        j = j + 1;
        assert(r@ =~= interface(*code, ids@.subrange(0, j as int)));
    }
    assert(ids@.subrange(0, ids@.len() as int) =~= ids@);
    r
}

/// The domains of the output of `code`, in order.
fn output_interface(code: &Code) -> (r: Vec<DomainId>)
    requires
        forall|j: int| 0 <= j < code.output@.len() ==> has_key(code.domains@, #[trigger] code.output@[j]),
    ensures
        r@ == interface(*code, code.output@),
{
    input_interface(code, &code.output)
}

fn same_domains(a: &Vec<DomainId>, b: &Vec<DomainId>) -> (r: bool)
    ensures
        r == (a@ == b@),
{
    if a.len() != b.len() {
        return false;
    }
    let mut i: usize = 0;
    while i < a.len()
        invariant
            a@.len() == b@.len(),
            i <= a@.len(),
            forall|k: int| 0 <= k < i ==> a@[k] == b@[k],
        decreases a@.len() - i,
    {
        if a[i] != b[i] {
            return false;
        }
        i = i + 1;
    }
    assert(a@ =~= b@);
    true
}

/// Every index of input `a` of a code that passed its checks has a domain.
proof fn lemma_input_domains(sizes: IdMap<DomainId, u64>, value: ValueId, code: Code, nargs: usize, a: int)
    requires
        code_error(sizes, value, code, nargs) is None,
        0 <= a < code.inputs@.len(),
    ensures
        forall|j: int| 0 <= j < code.inputs@[a]@.len() ==> has_key(code.domains@, #[trigger] code.inputs@[a]@[j]),
{
    assert forall|j: int| 0 <= j < code.inputs@[a]@.len() implies has_key(code.domains@, #[trigger] code.inputs@[a]@[j]) by {
        let x = code.inputs@[a]@[j];
        assert(uses_index(code, x));
        assert(!lacks_domain(code, x));
    }
}

/// Every output index of a code that passed its checks has a domain.
proof fn lemma_output_domains(sizes: IdMap<DomainId, u64>, value: ValueId, code: Code, nargs: usize)
    requires
        code_error(sizes, value, code, nargs) is None,
    ensures
        forall|j: int| 0 <= j < code.output@.len() ==> has_key(code.domains@, #[trigger] code.output@[j]),
{
    assert forall|j: int| 0 <= j < code.output@.len() implies has_key(code.domains@, #[trigger] code.output@[j]) by {
        let x = code.output@[j];
        assert(code.output@.contains(x));
        assert(uses_index(code, x));
        assert(!lacks_domain(code, x));
    }
}

#[verifier::loop_isolation(false)]
fn validate_arguments(
    sizes: &IdMap<DomainId, u64>,
    symmetries: &IdMap<TensorId, Vec<SymmetryGenerator>>,
    values: &Vec<ValueDef>,
    v: usize,
    interfaces: &Vec<Vec<DomainId>>,
    ranks: &mut IdMap<TensorId, usize>,
    Ghost(known): Ghost<RankMap>,
) -> (r: Result<(), ValidationError>)
    requires
        v < values@.len(),
        v <= u32::MAX,
        code_error(*sizes, ValueId(v as u32), values@[v as int].code_of(), values@[v as int].args_of().len() as usize) is None,
        interfaces@.len() == v,
        forall|k: int| 0 <= k < v ==> (#[trigger] interfaces@[k])@ == def_output_interface(values@[k]),
        same_ranks(old(ranks)@, known),
    ensures
        match arguments_result(*symmetries, values@, v as int, values@[v as int].args_of().len(), known) {
            Ok(after) => r is Ok && same_ranks(final(ranks)@, after),
            Err(e) => {
                &&& r == Err::<(), ValidationError>(e)
                &&& exists|a: int, m: RankMap| a < values@[v as int].args_of().len()
                    && #[trigger] arguments_fail_at(*symmetries, values@, v as int, known, a, m, e)
                    && same_ranks(final(ranks)@, m)
            },
        },
{
    let value = ValueId(v as u32);
    let (code, args) = values[v].parts();
    let ghost mut current = known;
    let mut a: usize = 0;
    while a < args.len()
        invariant
            a <= args@.len(),
            arguments_result(*symmetries, values@, v as int, a as nat, known) == Ok::<RankMap, ValidationError>(current),
            same_ranks(ranks@, current),
        decreases args@.len() - a,
    {
        proof {
            lemma_input_domains(*sizes, value, *code, args@.len() as usize, a as int);
        }
        let indices = &code.inputs[a];
        match args[a] {
            ValueRef::Tensor(tensor) => {
                if !symmetries.contains_key(&tensor) {
                    proof {
                        lemma_arguments_error_persists(*symmetries, values@, v as int, known, a as nat, args@.len());
                        assert(arguments_fail_at(*symmetries, values@, v as int, known, a as int, current,
                            arguments_result(*symmetries, values@, v as int, args@.len(), known)->Err_0));
                    }
                    return Err(ValidationError::UndeclaredTensor { value, tensor });
                }
                let actual = indices.len();
                let expected = match ranks.get(&tensor) {
                    Some(r) => Some(*r),
                    None => None,
                };
                match expected {
                    Some(expected) => {
                        if actual != expected {
                            proof {
                                lemma_arguments_error_persists(*symmetries, values@, v as int, known, a as nat, args@.len());
                                assert(arguments_fail_at(*symmetries, values@, v as int, known, a as int, current,
                                    arguments_result(*symmetries, values@, v as int, args@.len(), known)->Err_0));
                            }
                            return Err(ValidationError::InconsistentTensorRank { value, tensor, expected, actual });
                        }
                    },
                    None => {
                        let ghost previous = ranks@;
                        let ghost old_current = current;
                        ranks.insert(tensor, actual);
                        proof {
                            current = current.insert(tensor, actual);
                            assert forall|t: TensorId| #[trigger] lookup(ranks@, t) == (if current.contains_key(t) { Some(current[t]) } else { None }) by {
                                if t != tensor {
                                    assert(lookup(ranks@, t) == lookup(previous, t));
                                    assert(lookup(previous, t) == (if old_current.contains_key(t) { Some(old_current[t]) } else { None }));
                                }
                            }
                        }
                    },
                }
            },
            ValueRef::Value(referenced) => {
                if referenced.0 as usize >= interfaces.len() {
                    proof {
                        lemma_arguments_error_persists(*symmetries, values@, v as int, known, a as nat, args@.len());
                        assert(arguments_fail_at(*symmetries, values@, v as int, known, a as int, current,
                            arguments_result(*symmetries, values@, v as int, args@.len(), known)->Err_0));
                    }
                    return Err(ValidationError::InvalidValueReference { value, referenced });
                }
                let actual = input_interface(code, indices);
                if !same_domains(&actual, &interfaces[referenced.0 as usize]) {
                    proof {
                        lemma_arguments_error_persists(*symmetries, values@, v as int, known, a as nat, args@.len());
                        assert(arguments_fail_at(*symmetries, values@, v as int, known, a as int, current,
                            arguments_result(*symmetries, values@, v as int, args@.len(), known)->Err_0));
                    }
                    return Err(ValidationError::ValueInterfaceMismatch { value, argument: a, referenced });
                }
            },
        }
        a = a + 1;
    }
    Ok(())
}

/// Once checking an argument fails, checking more arguments fails the same way.
proof fn lemma_arguments_error_persists(
    symmetries: IdMap<TensorId, Vec<SymmetryGenerator>>,
    values: Seq<ValueDef>,
    v: int,
    ranks: RankMap,
    a: nat,
    n: nat,
)
    requires
        a < n,
        arguments_result(symmetries, values, v, (a + 1) as nat, ranks) is Err,
    ensures
        arguments_result(symmetries, values, v, n, ranks) == arguments_result(symmetries, values, v, (a + 1) as nat, ranks),
    decreases n - a,
{
    if n > a + 1 {
        lemma_arguments_error_persists(symmetries, values, v, ranks, a, (n - 1) as nat);
    }
}

/// Once checking a value fails, checking more values fails the same way.
proof fn lemma_values_error_persists(
    sizes: IdMap<DomainId, u64>,
    symmetries: IdMap<TensorId, Vec<SymmetryGenerator>>,
    values: Seq<ValueDef>,
    v: nat,
    n: nat,
)
    requires
        v < n,
        values_result(sizes, symmetries, values, v + 1) is Err,
    ensures
        values_result(sizes, symmetries, values, n) == values_result(sizes, symmetries, values, v + 1),
    decreases n - v,
{
    if n > v + 1 {
        lemma_values_error_persists(sizes, symmetries, values, v, (n - 1) as nat);
    }
}

#[verifier::loop_isolation(false)]
fn validate_generators(tensor: TensorId, generators: &Vec<SymmetryGenerator>, rank: usize) -> (r: Result<(), ValidationError>)
    ensures
        r == (match generators_error(tensor, generators@, rank) {
            Some(e) => Err(e),
            None => Ok(()),
        }),
{
    let ghost bad = |g: int| generator_error(tensor, g, generators@[g], rank) is Some;
    let mut g: usize = 0;
    while g < generators.len()
        invariant
            bad == (|g: int| generator_error(tensor, g, generators@[g], rank) is Some),
            g <= generators@.len(),
            forall|k: int| 0 <= k < g ==> !#[trigger] bad(k),
        decreases generators@.len() - g,
    {
        let symmetry = &generators[g];
        if symmetry.sign != 1 && symmetry.sign != -1 {
            proof {
                lemma_first_found(g as int, generators@.len() as int, bad);
            }
            return Err(ValidationError::InvalidSymmetrySign { tensor, generator: g, sign: symmetry.sign });
        }
        if symmetry.permutation.len() != rank {
            proof {
                lemma_first_found(g as int, generators@.len() as int, bad);
            }
            return Err(ValidationError::SymmetryRankMismatch {
                tensor,
                generator: g,
                expected: rank,
                actual: symmetry.permutation.len(),
            });
        }
        let ghost p = symmetry.permutation@;
        let mut seen = vec![false; rank];
        let mut j: usize = 0;
        while j < symmetry.permutation.len()
            invariant
                p == symmetry.permutation@,
                p.len() == rank,
                seen@.len() == rank,
                j <= rank,
                forall|k: int| 0 <= k < j ==> p[k] < rank,
                p.subrange(0, j as int).no_duplicates(),
                forall|x: int| 0 <= x < rank ==> seen@[x] == p.subrange(0, j as int).contains(x as usize),
                bad == (|g: int| generator_error(tensor, g, generators@[g], rank) is Some),
                forall|k: int| 0 <= k < g ==> !#[trigger] bad(k),
                g < generators@.len(),
                *symmetry == generators@[g as int],
                symmetry.sign == 1 || symmetry.sign == -1,
            decreases rank - j,
        {
            let axis = symmetry.permutation[j];
            if axis >= rank || seen[axis] {
                proof {
                    if axis < rank {
                        let l = choose|l: int| 0 <= l < j && p.subrange(0, j as int)[l] == axis;
                        assert(p[l] == p[j as int]);
                        assert(!p.no_duplicates());
                    }
                    lemma_first_found(g as int, generators@.len() as int, bad);
                }
                return Err(ValidationError::InvalidSymmetryPermutation { tensor, generator: g });
            }
            seen.set(axis, true);
            let ghost before = p.subrange(0, j as int);
            j = j + 1;
            proof {
                let after = p.subrange(0, j as int);
                assert(after =~= before.push(axis));
                assert forall|x: int| 0 <= x < rank implies seen@[x] == after.contains(x as usize) by {
                    if x == axis {
                        assert(after[j - 1] == axis);
                    }
                    if after.contains(x as usize) && x != axis {
                        let l = choose|l: int| 0 <= l < after.len() && after[l] == x as usize;
                        assert(before[l] == x as usize);
                    }
                    if before.contains(x as usize) {
                        let l = choose|l: int| 0 <= l < before.len() && before[l] == x as usize;
                        assert(after[l] == x as usize);
                    }
                }
                assert forall|a: int, b: int| 0 <= a < after.len() && 0 <= b < after.len() && a != b implies after[a] != after[b] by {
                    if a == j - 1 && b < j - 1 {
                        assert(before.contains(after[b]));
                    } else if b == j - 1 && a < j - 1 {
                        assert(before.contains(after[a]));
                    }
                }
            }
        }
        assert(p.subrange(0, rank as int) =~= p);
        g = g + 1;
    }
    proof {
        lemma_first_none(generators@.len() as int, bad);
    }
    Ok(())
}

fn validate_symmetries(
    symmetries: &IdMap<TensorId, Vec<SymmetryGenerator>>,
    ranks: &IdMap<TensorId, usize>,
    Ghost(known): Ghost<RankMap>,
) -> (r: Result<(), ValidationError>)
    requires
        same_ranks(ranks@, known),
    ensures
        r == (match symmetries_error(*symmetries, known) {
            Some(e) => Err(e),
            None => Ok(()),
        }),
{
    let entries = symmetries.entries();
    let ghost bad = |i: int| symmetry_entry_error(symmetries@, i, known) is Some;
    let mut i: usize = 0;
    while i < entries.len()
        invariant
            entries@ == symmetries@,
            same_ranks(ranks@, known),
            bad == (|i: int| symmetry_entry_error(symmetries@, i, known) is Some),
            i <= entries@.len(),
            forall|k: int| 0 <= k < i ==> !#[trigger] bad(k),
        decreases entries@.len() - i,
    {
        let tensor = entries[i].0;
        let rank = match ranks.get(&tensor) {
            Some(r) => Some(*r),
            None => None,
        };
        assert(lookup(ranks@, tensor) == (if known.contains_key(tensor) { Some(known[tensor]) } else { None }));
        if let Some(rank) = rank {
            match validate_generators(tensor, &entries[i].1, rank) {
                Err(e) => {
                    proof {
                        lemma_first_found(i as int, entries@.len() as int, bad);
                    }
                    return Err(e);
                },
                Ok(()) => {},
            }
        }
        i = i + 1;
    }
    proof {
        lemma_first_none(entries@.len() as int, bad);
    }
    Ok(())
}

/// Validate `program` under the given domain sizes and tensor symmetries.
#[verifier::loop_isolation(false)]
pub fn validate_program(
    sizes: &IdMap<DomainId, u64>,
    symmetries: &IdMap<TensorId, Vec<SymmetryGenerator>>,
    program: &Program,
) -> (r: Result<(), ValidationError>)
    ensures
        r == program_validation(*sizes, *symmetries, *program),
{
    let entries = sizes.entries();
    let ghost zero = |i: int| sizes@[i].1 == 0;
    let mut i: usize = 0;
    while i < entries.len()
        invariant
            entries@ == sizes@,
            zero == (|i: int| sizes@[i].1 == 0),
            i <= entries@.len(),
            forall|k: int| 0 <= k < i ==> !#[trigger] zero(k),
        decreases entries@.len() - i,
    {
        if entries[i].1 == 0 {
            proof {
                lemma_first_found(i as int, entries@.len() as int, zero);
            }
            return Err(ValidationError::ZeroDomainSize { domain: entries[i].0 });
        }
        i = i + 1;
    }
    proof {
        lemma_first_none(entries@.len() as int, zero);
    }

    let count = program.values.len();
    if count > 0 && count - 1 > 0xffff_ffffusize {
        return Err(ValidationError::ProgramTooLarge { values: count });
    }

    let mut ranks: IdMap<TensorId, usize> = IdMap::new();
    let ghost mut known: RankMap = Map::empty();
    let mut interfaces: Vec<Vec<DomainId>> = Vec::new();
    let mut v: usize = 0;
    while v < count
        invariant
            count == program.values@.len(),
            count == 0 || count - 1 <= u32::MAX,
            v <= count,
            values_result(*sizes, *symmetries, program.values@, v as nat) == Ok::<RankMap, ValidationError>(known),
            same_ranks(ranks@, known),
            interfaces@.len() == v,
            forall|k: int| 0 <= k < v ==> (#[trigger] interfaces@[k])@ == def_output_interface(program.values@[k]),
        decreases count - v,
    {
        let value = ValueId(v as u32);
        let definition = &program.values[v];
        let (code, args) = definition.parts();
        match validate_code(sizes, value, code, args.len()) {
            Err(e) => {
                proof {
                    lemma_values_error_persists(*sizes, *symmetries, program.values@, v as nat, count as nat);
                }
                return Err(e);
            },
            Ok(()) => {},
        }
        match validate_kind(value, definition) {
            Err(e) => {
                proof {
                    lemma_values_error_persists(*sizes, *symmetries, program.values@, v as nat, count as nat);
                }
                return Err(e);
            },
            Ok(()) => {},
        }
        let ghost before = known;
        match validate_arguments(sizes, symmetries, &program.values, v, &interfaces, &mut ranks, Ghost(known)) {
            Err(e) => {
                proof {
                    lemma_values_error_persists(*sizes, *symmetries, program.values@, v as nat, count as nat);
                }
                return Err(e);
            },
            Ok(()) => {},
        }
        proof {
            known = arguments_result(*symmetries, program.values@, v as int, definition.args_of().len(), before)->Ok_0;
            lemma_output_domains(*sizes, value, *code, args@.len() as usize);
        }
        let interface = output_interface(code);
        interfaces.push(interface);
        v = v + 1;
    }

    let ghost outside = |o: int| program.outputs@[o].0 >= program.values@.len();
    let mut o: usize = 0;
    while o < program.outputs.len()
        invariant
            count == program.values@.len(),
            interfaces@.len() == count,
            outside == (|o: int| program.outputs@[o].0 >= program.values@.len()),
            o <= program.outputs@.len(),
            forall|k: int| 0 <= k < o ==> !#[trigger] outside(k),
        decreases program.outputs@.len() - o,
    {
        let value = program.outputs[o];
        if value.0 as usize >= interfaces.len() {
            proof {
                lemma_first_found(o as int, program.outputs@.len() as int, outside);
            }
            return Err(ValidationError::InvalidOutput { output: o, value });
        }
        o = o + 1;
    }
    proof {
        lemma_first_none(program.outputs@.len() as int, outside);
    }

    validate_symmetries(symmetries, &ranks, Ghost(known))
}

/// Validate a problem and its trusted reference program.
pub fn validate(problem: &Problem) -> (r: Result<(), ValidationError>)
    ensures
        r == problem_validation(*problem),
{
    validate_program(&problem.sizes, &problem.symmetries, &problem.reference)
}

} // verus!
