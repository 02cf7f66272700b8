//! Exact equivalence verification for tensor programs.

use vstd::prelude::*;

use crate::canon::{all_indices, canonical_poly, canonicalizable, canonicalize};
use crate::expand::{expand, expand_values, expansion, factors_view, ids_fit, polys_view, terms_view, Factor, PolyModel, Polynomial, Term};
use crate::id_map::IdMap;
use crate::model::{Problem, Program, SymmetryGenerator, TensorId};
use crate::symmetry::same_indices;
use crate::validate::{problem_validation, program_validation, validate, validate_program, ValidationError};
use crate::validity::{lemma_valid_expandable, lemma_valid_prefix, lemma_valid_symmetries_fit};

verus! {

/// The fresh index IDs used while expanding `program`, and while
/// canonicalizing each term of its outputs, fit in `u64`.
pub open spec fn expansion_fits(program: Program) -> bool {
    &&& forall|v: int| 0 <= v < program.values@.len() ==> #[trigger] ids_fit(program, v)
    &&& forall|o: int, k: int| 0 <= o < expansion(program).len() && 0 <= k < expansion(program)[o].terms.len() ==>
        expansion(program)[o].output.len() + all_indices((#[trigger] expansion(program)[o].terms[k]).factors).len() <= u64::MAX
}

/// The canonical forms of the outputs of `program`.
pub open spec fn canonical_forms(program: Program, symmetries: IdMap<TensorId, Vec<SymmetryGenerator>>) -> Seq<PolyModel> {
    expansion(program).map_values(|p: PolyModel| canonical_poly(p, symmetries@))
}

/// What verifying `candidate` against `problem` decides: the first
/// validation error of the problem, else of the candidate under the problem's
/// sizes and symmetries; else whether every output of the candidate has the
/// canonical form of the matching reference output.
pub open spec fn verification(problem: Problem, candidate: Program) -> Result<bool, ValidationError> {
    match problem_validation(problem) {
        Err(e) => Err(e),
        Ok(_) => match program_validation(problem.sizes, problem.symmetries, candidate) {
            Err(e) => Err(e),
            Ok(_) => Ok(canonical_forms(problem.reference, problem.symmetries) == canonical_forms(candidate, problem.symmetries)),
        },
    }
}

fn same_factors(a: &Vec<Factor>, b: &Vec<Factor>) -> (r: bool)
    ensures
        r == (factors_view(a@) == factors_view(b@)),
{
    if a.len() != b.len() {
        return false;
    }
    let mut i: usize = 0;
    while i < a.len()
        invariant
            i <= a@.len(),
            a@.len() == b@.len(),
            forall|k: int| 0 <= k < i ==> a@[k]@ == b@[k]@,
        decreases a@.len() - i,
    {
        if a[i].tensor != b[i].tensor || !same_indices(&a[i].indices, &b[i].indices) {
            assert(factors_view(a@)[i as int] != factors_view(b@)[i as int]);
            return false;
        }
        i = i + 1;
    }
    assert(factors_view(a@) =~= factors_view(b@));
    true
}

fn same_terms(a: &Vec<Term>, b: &Vec<Term>) -> (r: bool)
    ensures
        r == (terms_view(a@) == terms_view(b@)),
{
    if a.len() != b.len() {
        return false;
    }
    let mut i: usize = 0;
    while i < a.len()
        invariant
            i <= a@.len(),
            a@.len() == b@.len(),
            forall|k: int| 0 <= k < i ==> a@[k]@ == b@[k]@,
        decreases a@.len() - i,
    {
        if !a[i].coeff.equals(&b[i].coeff) || !same_factors(&a[i].factors, &b[i].factors) {
            assert(terms_view(a@)[i as int] != terms_view(b@)[i as int]);
            return false;
        }
        i = i + 1;
    }
    assert(terms_view(a@) =~= terms_view(b@));
    true
}

fn same_polynomials(a: &Vec<Polynomial>, b: &Vec<Polynomial>) -> (r: bool)
    ensures
        r == (polys_view(a@) == polys_view(b@)),
{
    if a.len() != b.len() {
        return false;
    }
    let mut i: usize = 0;
    while i < a.len()
        invariant
            i <= a@.len(),
            a@.len() == b@.len(),
            forall|k: int| 0 <= k < i ==> a@[k]@ == b@[k]@,
        decreases a@.len() - i,
    {
        if !same_indices(&a[i].output, &b[i].output) || !same_terms(&a[i].terms, &b[i].terms) {
            assert(polys_view(a@)[i as int] != polys_view(b@)[i as int]);
            return false;
        }
        i = i + 1;
    }
    assert(polys_view(a@) =~= polys_view(b@));
    true
}

/// Canonicalizes every polynomial of `polynomials`.
fn canonicalize_all(polynomials: &Vec<Polynomial>, symmetries: &IdMap<TensorId, Vec<SymmetryGenerator>>) -> (r: Vec<Polynomial>)
    requires
        forall|o: int| 0 <= o < polynomials@.len() ==> canonicalizable(#[trigger] polynomials@[o]@, symmetries@),
    ensures
        polys_view(r@) == polys_view(polynomials@).map_values(|p: PolyModel| canonical_poly(p, symmetries@)),
{
    let mut r: Vec<Polynomial> = Vec::new();
    let mut i: usize = 0;
    while i < polynomials.len()
        invariant
            i <= polynomials@.len(),
            forall|o: int| 0 <= o < polynomials@.len() ==> canonicalizable(#[trigger] polynomials@[o]@, symmetries@),
            polys_view(r@) =~= polys_view(polynomials@).map_values(|p: PolyModel| canonical_poly(p, symmetries@)).subrange(0, i as int),
        decreases polynomials@.len() - i,
    {
        let copy = polynomials[i].clone();
        proof {
            assert(canonicalizable(polynomials@[i as int]@, symmetries@));
        }
        let canonical = canonicalize(copy, symmetries);
        let ghost before = polys_view(r@);
        r.push(canonical);
        proof {
            assert(polys_view(r@) =~= before.push(canonical_poly(polynomials@[i as int]@, symmetries@)));
        }
        i = i + 1;
    }
    r
}

/// The outputs of a valid program that fits in `u64` can be canonicalized.
proof fn lemma_outputs_canonicalizable(problem: Problem, program: Program)
    requires
        program_validation(problem.sizes, problem.symmetries, program) is Ok,
        expansion_fits(program),
    ensures
        forall|o: int| 0 <= o < expansion(program).len() ==> canonicalizable(#[trigger] expansion(program)[o], problem.symmetries@),
{
    lemma_valid_prefix(problem.sizes, problem.symmetries, program);
    let n = program.values@.len();
    assert forall|o: int| 0 <= o < expansion(program).len() implies canonicalizable(#[trigger] expansion(program)[o], problem.symmetries@) by {
        let v = program.outputs@[o].0 as int;
        assert(expansion(program)[o] == expand_values(program, n)[v]);
        let p = expansion(program)[o];
        assert forall|k: int| 0 <= k < p.terms.len() implies {
            &&& crate::canon::symmetries_fit(#[trigger] p.terms[k].factors, problem.symmetries@)
            &&& p.output.len() + all_indices(p.terms[k].factors).len() <= u64::MAX
        } by {
            lemma_valid_symmetries_fit(problem.sizes, problem.symmetries, program, v, k);
            assert(expansion(program)[o].output.len() + all_indices(expansion(program)[o].terms[k].factors).len() <= u64::MAX);
        }
    }
}

/// Verify that a candidate is valid under `problem` and exactly equivalent to
/// its trusted reference program.
pub fn verify(problem: &Problem, candidate: &Program) -> (r: Result<bool, ValidationError>)
    requires
        problem_validation(*problem) is Ok && program_validation(problem.sizes, problem.symmetries, *candidate) is Ok
            ==> expansion_fits(problem.reference) && expansion_fits(*candidate),
    ensures
        r == verification(*problem, *candidate),
{
    match validate(problem) {
        Err(e) => {
            return Err(e);
        },
        Ok(()) => {},
    }
    match validate_program(&problem.sizes, &problem.symmetries, candidate) {
        Err(e) => {
            return Err(e);
        },
        Ok(()) => {},
    }
    proof {
        lemma_valid_expandable(problem.sizes, problem.symmetries, problem.reference);
        lemma_valid_expandable(problem.sizes, problem.symmetries, *candidate);
        lemma_outputs_canonicalizable(*problem, problem.reference);
        lemma_outputs_canonicalizable(*problem, *candidate);
    }
    let expanded_reference = expand(&problem.reference);
    let expanded_candidate = expand(candidate);
    proof {
        assert forall|o: int| 0 <= o < expanded_reference@.len() implies canonicalizable(#[trigger] expanded_reference@[o]@, problem.symmetries@) by {
            assert(polys_view(expanded_reference@)[o] == expanded_reference@[o]@);
            assert(canonicalizable(expansion(problem.reference)[o], problem.symmetries@));
        }
        assert forall|o: int| 0 <= o < expanded_candidate@.len() implies canonicalizable(#[trigger] expanded_candidate@[o]@, problem.symmetries@) by {
            assert(polys_view(expanded_candidate@)[o] == expanded_candidate@[o]@);
            assert(canonicalizable(expansion(*candidate)[o], problem.symmetries@));
        }
    }
    let reference = canonicalize_all(&expanded_reference, &problem.symmetries);
    let other = canonicalize_all(&expanded_candidate, &problem.symmetries);
    Ok(same_polynomials(&reference, &other))
}

/// A valid problem's reference program verifies against itself.
pub proof fn lemma_reference_verifies(problem: Problem)
    requires
        problem_validation(problem) is Ok,
    ensures
        verification(problem, problem.reference) == Ok::<bool, ValidationError>(true),
{
}

/// Exchanging the reference and a valid candidate gives the same answer.
pub proof fn lemma_verification_symmetric(problem: Problem, candidate: Program)
    requires
        verification(problem, candidate) is Ok,
    ensures
        verification((Problem { sizes: problem.sizes, symmetries: problem.symmetries, reference: candidate }), problem.reference)
            == verification(problem, candidate),
{
}

/// Two candidates that both verify against a problem verify against each
/// other.
pub proof fn lemma_verification_transitive(problem: Problem, first: Program, second: Program)
    requires
        verification(problem, first) == Ok::<bool, ValidationError>(true),
        verification(problem, second) == Ok::<bool, ValidationError>(true),
    ensures
        verification((Problem { sizes: problem.sizes, symmetries: problem.symmetries, reference: first }), second)
            == Ok::<bool, ValidationError>(true),
{
}

} // verus!
