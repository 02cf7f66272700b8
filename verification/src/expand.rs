//! Expansion of tensor SSA into exact sums of tensor products.

use vstd::prelude::*;

use crate::id_map::{has_key, lookup};
use crate::model::{Code, DomainId, Einsum, IndexId, LinComb, Program, TensorId, ValueDef, ValueRef};
use crate::rational::{rat_mul, Coefficient};
use crate::validate::{domain_of, uses_index};

verus! {

/// One index identity in an expanded polynomial.
///
/// An index is free when it occurs in `Polynomial::output`; every other index
/// is local to that polynomial's terms.
#[derive(Clone, Copy, Debug, PartialEq, Eq, Hash, PartialOrd, Ord, Structural)]
pub struct Index {
    pub id: u64,
    pub domain: DomainId,
}

/// One occurrence of a problem tensor.
#[derive(Debug, PartialEq, Eq, Hash)]
pub struct Factor {
    pub tensor: TensorId,
    pub indices: Vec<Index>,
}

/// One term in an expanded tensor polynomial.
#[derive(Debug, PartialEq, Eq)]
pub struct Term {
    pub coeff: Coefficient,
    pub factors: Vec<Factor>,
}

/// An exact polynomial with an explicit ordered list of free indices.
///
/// `output` is expansion bookkeeping. Canonicalization may discard it for an
/// empty polynomial because all zeros are treated as equal.
#[derive(Debug, PartialEq, Eq)]
pub struct Polynomial {
    pub output: Vec<Index>,
    pub terms: Vec<Term>,
}

/// A factor as a mathematical value.
pub struct FactorModel {
    pub tensor: TensorId,
    pub indices: Seq<Index>,
}

/// A term as a mathematical value.
pub struct TermModel {
    pub coeff: (int, int),
    pub factors: Seq<FactorModel>,
}

/// A polynomial as a mathematical value.
pub struct PolyModel {
    pub output: Seq<Index>,
    pub terms: Seq<TermModel>,
}

impl View for Factor {
    type V = FactorModel;

    open spec fn view(&self) -> FactorModel {
        FactorModel { tensor: self.tensor, indices: self.indices@ }
    }
}

impl View for Term {
    type V = TermModel;

    open spec fn view(&self) -> TermModel {
        TermModel { coeff: self.coeff@, factors: self.factors@.map_values(|f: Factor| f@) }
    }
}

impl View for Polynomial {
    type V = PolyModel;

    open spec fn view(&self) -> PolyModel {
        PolyModel { output: self.output@, terms: self.terms@.map_values(|t: Term| t@) }
    }
}

impl Clone for Factor {
    fn clone(&self) -> (r: Self)
        ensures
            r@ == self@,
    {
        let indices = self.indices.clone();
        assert(indices@ =~= self.indices@);
        Factor { tensor: self.tensor, indices }
    }
}

impl Clone for Term {
    fn clone(&self) -> (r: Self)
        ensures
            r@ == self@,
    {
        let factors = self.factors.clone();
        assert(factors@.map_values(|f: Factor| f@) =~= self.factors@.map_values(|f: Factor| f@));
        Term { coeff: self.coeff.clone(), factors }
    }
}

impl Clone for Polynomial {
    fn clone(&self) -> (r: Self)
        ensures
            r@ == self@,
    {
        let output = self.output.clone();
        let terms = self.terms.clone();
        assert(output@ =~= self.output@);
        assert(terms@.map_values(|t: Term| t@) =~= self.terms@.map_values(|t: Term| t@));
        Polynomial { output, terms }
    }
}

// ---------------------------------------------------------------------------
// What expansion computes.
// ---------------------------------------------------------------------------

/// The expanded index for local index `x` of `code`: same number, its domain.
pub open spec fn code_index(code: Code, x: IndexId) -> Index {
    Index { id: x.0 as u64, domain: domain_of(code, x) }
}

/// The expanded indices for the local indices `ids` of `code`.
pub open spec fn code_indices(code: Code, ids: Seq<IndexId>) -> Seq<Index> {
    ids.map_values(|x: IndexId| code_index(code, x))
}

/// The first number above every index declared by `code`: the largest
/// declared ID plus one, or zero. (Declared IDs ascend.)
pub open spec fn first_private_id(code: Code) -> int {
    let d = code.domains@;
    if d.len() == 0 {
        0
    } else {
        d.last().0.0 + 1
    }
}

/// The pairs of `a` and `b` at equal positions, up to the shorter length.
pub open spec fn zip_pairs<A, B>(a: Seq<A>, b: Seq<B>) -> Seq<(A, B)> {
    Seq::new(if a.len() <= b.len() { a.len() } else { b.len() }, |i: int| (a[i], b[i]))
}

/// The map of the given pairs, a later pair for a key replacing an earlier.
pub open spec fn pairs_map(s: Seq<(Index, Index)>) -> Map<Index, Index>
    decreases s.len(),
{
    if s.len() == 0 {
        Map::empty()
    } else {
        pairs_map(s.drop_last()).insert(s.last().0, s.last().1)
    }
}

/// Renaming state: the renaming so far and the next fresh ID.
pub type RenameState = (Map<Index, Index>, int);

/// Visits `x`: an index not yet renamed gets the next fresh ID, same domain.
pub open spec fn rename_visit(state: RenameState, x: Index) -> RenameState {
    if state.0.contains_key(x) {
        state
    } else {
        (state.0.insert(x, Index { id: state.1 as u64, domain: x.domain }), state.1 + 1)
    }
}

/// Visits `s` in order.
pub open spec fn rename_visit_all(state: RenameState, s: Seq<Index>) -> RenameState
    decreases s.len(),
{
    if s.len() == 0 {
        state
    } else {
        rename_visit(rename_visit_all(state, s.drop_last()), s.last())
    }
}

/// Visits the indices of `factors`, factor by factor and slot by slot.
pub open spec fn rename_visit_factors(state: RenameState, factors: Seq<FactorModel>) -> RenameState
    decreases factors.len(),
{
    if factors.len() == 0 {
        state
    } else {
        rename_visit_all(rename_visit_factors(state, factors.drop_last()), factors.last().indices)
    }
}

/// Applies the renaming `m` to every index of `factors`.
pub open spec fn rename_factors(m: Map<Index, Index>, factors: Seq<FactorModel>) -> Seq<FactorModel> {
    factors.map_values(|f: FactorModel| FactorModel { tensor: f.tensor, indices: f.indices.map_values(|x: Index| m[x]) })
}

/// Renames one term: starting from `seed`, every index not seeded gets a
/// fresh ID in order of first occurrence. Returns the next fresh ID too.
pub open spec fn rename_term(t: TermModel, seed: Map<Index, Index>, next: int) -> (TermModel, int) {
    let state = rename_visit_factors((seed, next), t.factors);
    (TermModel { coeff: t.coeff, factors: rename_factors(state.0, t.factors) }, state.1)
}

/// Renames each term in turn from the same seed, threading the fresh IDs.
pub open spec fn rename_terms(terms: Seq<TermModel>, seed: Map<Index, Index>, next: int) -> (Seq<TermModel>, int)
    decreases terms.len(),
{
    if terms.len() == 0 {
        (Seq::empty(), next)
    } else {
        let (done, n) = rename_terms(terms.drop_last(), seed, next);
        let (t, n2) = rename_term(terms.last(), seed, n);
        (done.push(t), n2)
    }
}

/// Renames a polynomial for a use whose free indices are `input`: its own
/// free indices become `input`, and its other indices get fresh IDs.
pub open spec fn rename_poly(p: PolyModel, input: Seq<Index>, next: int) -> (PolyModel, int) {
    let (terms, n) = rename_terms(p.terms, pairs_map(zip_pairs(p.output, input)), next);
    (PolyModel { output: input, terms }, n)
}

/// The product of two terms: coefficients multiplied, factors concatenated.
pub open spec fn term_product(a: TermModel, b: TermModel) -> TermModel {
    TermModel { coeff: rat_mul(a.coeff, b.coeff), factors: a.factors + b.factors }
}

/// Every left term times every right term, left-major.
pub open spec fn multiply(left: Seq<TermModel>, right: Seq<TermModel>) -> Seq<TermModel>
    decreases left.len(),
{
    if left.len() == 0 {
        Seq::empty()
    } else {
        multiply(left.drop_last(), right) + right.map_values(|r: TermModel| term_product(left.last(), r))
    }
}

/// A term with coefficient one and the single factor `t[input]`.
pub open spec fn tensor_poly(t: TensorId, input: Seq<Index>) -> PolyModel {
    PolyModel {
        output: input,
        terms: seq![TermModel { coeff: (1int, 1int), factors: seq![FactorModel { tensor: t, indices: input }] }],
    }
}

/// The polynomial that a reference denotes, before renaming for its use.
pub open spec fn reference_poly(r: ValueRef, input: Seq<Index>, values: Seq<PolyModel>) -> PolyModel {
    match r {
        ValueRef::Tensor(t) => tensor_poly(t, input),
        ValueRef::Value(v) => values[v.0 as int],
    }
}

/// Multiplies in the first `k` arguments of an einsum; returns the terms and
/// the next fresh ID.
pub open spec fn einsum_terms(e: Einsum, values: Seq<PolyModel>, k: nat) -> (Seq<TermModel>, int)
    decreases k,
{
    if k == 0 {
        (seq![TermModel { coeff: e.coeff@, factors: Seq::empty() }], first_private_id(e.code))
    } else {
        let (terms, next) = einsum_terms(e, values, (k - 1) as nat);
        let input = code_indices(e.code, e.code.inputs@[k - 1]@);
        let (renamed, n) = rename_poly(reference_poly(e.args@[k - 1], input, values), input, next);
        (multiply(terms, renamed.terms), n)
    }
}

/// The number of arguments an einsum pairs with code inputs.
pub open spec fn einsum_width(e: Einsum) -> nat {
    if e.args@.len() <= e.code.inputs@.len() { e.args@.len() } else { e.code.inputs@.len() }
}

/// The number of terms a linear combination pairs with coefficients and inputs.
pub open spec fn lincomb_width(l: LinComb) -> nat {
    let a = if l.coeff@.len() <= l.args@.len() { l.coeff@.len() } else { l.args@.len() };
    if a <= l.code.inputs@.len() { a } else { l.code.inputs@.len() }
}

/// Every term scaled by `c` on the right.
pub open spec fn scale_terms(terms: Seq<TermModel>, c: (int, int)) -> Seq<TermModel> {
    terms.map_values(|t: TermModel| TermModel { coeff: rat_mul(t.coeff, c), factors: t.factors })
}

/// Adds up the first `k` summands of a linear combination; returns the terms
/// and the next fresh ID.
pub open spec fn lincomb_terms(l: LinComb, values: Seq<PolyModel>, k: nat) -> (Seq<TermModel>, int)
    decreases k,
{
    if k == 0 {
        (Seq::empty(), first_private_id(l.code))
    } else {
        let (terms, next) = lincomb_terms(l, values, (k - 1) as nat);
        let input = code_indices(l.code, l.code.inputs@[k - 1]@);
        let (renamed, n) = rename_poly(reference_poly(l.args@[k - 1], input, values), input, next);
        (terms + scale_terms(renamed.terms, l.coeff@[k - 1]@), n)
    }
}

/// The expansion of one definition given the expansions of earlier values,
/// with the last fresh ID used plus one.
pub open spec fn expand_def(def: ValueDef, values: Seq<PolyModel>) -> (PolyModel, int) {
    match def {
        ValueDef::Einsum(e) => {
            let (terms, n) = einsum_terms(e, values, einsum_width(e));
            (PolyModel { output: code_indices(e.code, e.code.output@), terms }, n)
        },
        ValueDef::LinComb(l) => {
            let (terms, n) = lincomb_terms(l, values, lincomb_width(l));
            (PolyModel { output: code_indices(l.code, l.code.output@), terms }, n)
        },
    }
}

/// The expansions of the first `n` values of `program`.
pub open spec fn expand_values(program: Program, n: nat) -> Seq<PolyModel>
    decreases n,
{
    if n == 0 {
        Seq::empty()
    } else {
        let done = expand_values(program, (n - 1) as nat);
        done.push(expand_def(program.values@[n - 1], done).0)
    }
}

/// The expansion of every requested output of `program`.
pub open spec fn expansion(program: Program) -> Seq<PolyModel> {
    let values = expand_values(program, program.values@.len());
    program.outputs@.map_values(|o: crate::model::ValueId| values[o.0 as int])
}

/// What expansion needs to run: every referenced value comes earlier and
/// produces as many free indices as the use supplies, every used index has a
/// domain, every output names a value, and fresh IDs fit in `u64`.
pub open spec fn expandable(program: Program) -> bool {
    let values = program.values@;
    &&& forall|o: int| 0 <= o < program.outputs@.len() ==> (#[trigger] program.outputs@[o]).0 < values.len()
    &&& forall|v: int| 0 <= v < values.len() ==> def_expandable(values, v)
    &&& forall|v: int| 0 <= v < values.len() ==> #[trigger] ids_fit(program, v)
}

/// The fresh IDs used while expanding value `v` fit in `u64`.
pub open spec fn ids_fit(program: Program, v: int) -> bool {
    expand_def(program.values@[v], expand_values(program, v as nat)).1 <= u64::MAX
}

/// Definition `v` only references earlier values of matching width, and
/// every index it uses has a domain.
pub open spec fn def_expandable(values: Seq<ValueDef>, v: int) -> bool {
    let code = values[v].code_of();
    let args = values[v].args_of();
    &&& forall|x: IndexId| #[trigger] uses_index(code, x) ==> has_key(code.domains@, x)
    &&& forall|k: int| 0 <= k < args.len() && 0 <= k < code.inputs@.len() ==> match #[trigger] args[k] {
        ValueRef::Tensor(_) => true,
        ValueRef::Value(r) => r.0 < v && values[r.0 as int].code_of().output@.len() == code.inputs@[k]@.len(),
    }
}

// ---------------------------------------------------------------------------
// Facts about renaming.
// ---------------------------------------------------------------------------

/// A key without a pair is absent.
proof fn lemma_pairs_map_absent(s: Seq<(Index, Index)>, x: Index)
    requires
        forall|j: int| 0 <= j < s.len() ==> (#[trigger] s[j]).0 != x,
    ensures
        !pairs_map(s).contains_key(x),
    decreases s.len(),
{
    if s.len() > 0 {
        assert forall|j: int| 0 <= j < s.drop_last().len() implies (#[trigger] s.drop_last()[j]).0 != x by {
            assert(s[j].0 != x);
        }
        lemma_pairs_map_absent(s.drop_last(), x);
        assert(s[s.len() - 1].0 != x);
    }
}

/// A key maps to the value of its last pair.
proof fn lemma_pairs_map_last(s: Seq<(Index, Index)>, x: Index, i: int)
    requires
        0 <= i < s.len(),
        s[i].0 == x,
        forall|j: int| i < j < s.len() ==> (#[trigger] s[j]).0 != x,
    ensures
        pairs_map(s).contains_key(x),
        pairs_map(s)[x] == s[i].1,
    decreases s.len(),
{
    if i < s.len() - 1 {
        assert(s[s.len() - 1].0 != x);
        assert forall|j: int| i < j < s.drop_last().len() implies (#[trigger] s.drop_last()[j]).0 != x by {
            assert(s[j].0 != x);
        }
        lemma_pairs_map_last(s.drop_last(), x, i);
    }
}

/// Adding a pair maps its key to its value.
proof fn lemma_pairs_map_push(s: Seq<(Index, Index)>, p: (Index, Index))
    ensures
        pairs_map(s.push(p)) == pairs_map(s).insert(p.0, p.1),
{
    assert(s.push(p).drop_last() =~= s);
}

/// Visiting only adds renamings, renames every visited index, and never
/// lowers the next fresh ID.
proof fn lemma_visit_all(state: RenameState, s: Seq<Index>)
    ensures
        rename_visit_all(state, s).1 >= state.1,
        forall|k: Index| state.0.contains_key(k) ==> #[trigger] rename_visit_all(state, s).0.contains_key(k),
        forall|j: int| 0 <= j < s.len() ==> rename_visit_all(state, s).0.contains_key(#[trigger] s[j]),
    decreases s.len(),
{
    if s.len() > 0 {
        lemma_visit_all(state, s.drop_last());
        assert forall|j: int| 0 <= j < s.len() implies rename_visit_all(state, s).0.contains_key(#[trigger] s[j]) by {
            if j < s.len() - 1 {
                assert(s.drop_last()[j] == s[j]);
            }
        }
    }
}

/// Visiting a prefix uses no more fresh IDs than visiting the whole.
proof fn lemma_visit_all_prefix(state: RenameState, s: Seq<Index>, k: int)
    requires
        0 <= k <= s.len(),
    ensures
        rename_visit_all(state, s.subrange(0, k)).1 <= rename_visit_all(state, s).1,
    decreases s.len(),
{
    if k < s.len() {
        lemma_visit_all_prefix(state, s.drop_last(), k);
        assert(s.drop_last().subrange(0, k) =~= s.subrange(0, k));
    } else {
        assert(s.subrange(0, k) =~= s);
    }
}

/// Visiting factors only adds renamings, renames every index of every
/// factor, and never lowers the next fresh ID.
pub proof fn lemma_visit_factors(state: RenameState, fs: Seq<FactorModel>)
    ensures
        rename_visit_factors(state, fs).1 >= state.1,
        forall|k: Index| state.0.contains_key(k) ==> #[trigger] rename_visit_factors(state, fs).0.contains_key(k),
        forall|i: int, j: int| 0 <= i < fs.len() && 0 <= j < fs[i].indices.len() ==> rename_visit_factors(state, fs).0.contains_key(#[trigger] fs[i].indices[j]),
    decreases fs.len(),
{
    if fs.len() > 0 {
        let mid = rename_visit_factors(state, fs.drop_last());
        lemma_visit_factors(state, fs.drop_last());
        lemma_visit_all(mid, fs.last().indices);
        assert forall|i: int, j: int| 0 <= i < fs.len() && 0 <= j < fs[i].indices.len() implies
            rename_visit_factors(state, fs).0.contains_key(#[trigger] fs[i].indices[j]) by {
            if i < fs.len() - 1 {
                assert(fs.drop_last()[i] == fs[i]);
                assert(mid.0.contains_key(fs.drop_last()[i].indices[j]));
            }
        }
    }
}

/// Visiting a prefix of the factors uses no more fresh IDs than visiting all.
proof fn lemma_visit_factors_prefix(state: RenameState, fs: Seq<FactorModel>, k: int)
    requires
        0 <= k <= fs.len(),
    ensures
        rename_visit_factors(state, fs.subrange(0, k)).1 <= rename_visit_factors(state, fs).1,
    decreases fs.len(),
{
    if k < fs.len() {
        lemma_visit_factors_prefix(state, fs.drop_last(), k);
        assert(fs.drop_last().subrange(0, k) =~= fs.subrange(0, k));
        lemma_visit_all(rename_visit_factors(state, fs.drop_last()), fs.last().indices);
    } else {
        assert(fs.subrange(0, k) =~= fs);
    }
}

/// Renaming a prefix of the terms uses no more fresh IDs than renaming all,
/// and renaming never lowers the next fresh ID.
proof fn lemma_rename_terms_prefix(terms: Seq<TermModel>, seed: Map<Index, Index>, next: int, k: int)
    requires
        0 <= k <= terms.len(),
    ensures
        next <= rename_terms(terms.subrange(0, k), seed, next).1 <= rename_terms(terms, seed, next).1,
    decreases terms.len(),
{
    if k < terms.len() {
        lemma_rename_terms_prefix(terms.drop_last(), seed, next, k);
        assert(terms.drop_last().subrange(0, k) =~= terms.subrange(0, k));
        let n = rename_terms(terms.drop_last(), seed, next).1;
        lemma_visit_factors((seed, n), terms.last().factors);
    } else {
        assert(terms.subrange(0, k) =~= terms);
        if k > 0 {
            lemma_rename_terms_prefix(terms.drop_last(), seed, next, k - 1);
            assert(terms.drop_last().subrange(0, k - 1) =~= terms.drop_last());
            let n = rename_terms(terms.drop_last(), seed, next).1;
            lemma_visit_factors((seed, n), terms.last().factors);
        }
    }
}

// ---------------------------------------------------------------------------
// Expansion.
// ---------------------------------------------------------------------------

/// The mathematical values of a list of terms.
pub open spec fn terms_view(s: Seq<Term>) -> Seq<TermModel> {
    s.map_values(|t: Term| t@)
}

/// The mathematical values of a list of factors.
pub open spec fn factors_view(s: Seq<Factor>) -> Seq<FactorModel> {
    s.map_values(|f: Factor| f@)
}

/// Returns the renaming of `x` held by `pairs`, if any.
fn find_renamed(pairs: &Vec<(Index, Index)>, x: Index) -> (r: Option<Index>)
    ensures
        r matches Some(y) ==> pairs_map(pairs@).contains_key(x) && pairs_map(pairs@)[x] == y,
        r is None ==> !pairs_map(pairs@).contains_key(x),
{
    let mut i = pairs.len();
    while i > 0
        invariant
            i <= pairs@.len(),
            forall|j: int| i <= j < pairs@.len() ==> (#[trigger] pairs@[j]).0 != x,
        decreases i,
    {
        i = i - 1;
        if pairs[i].0 == x {
            proof {
                lemma_pairs_map_last(pairs@, x, i as int);
            }
            return Some(pairs[i].1);
        }
    }
    proof {
        lemma_pairs_map_absent(pairs@, x);
    }
    None
}

fn copy_pairs(pairs: &Vec<(Index, Index)>) -> (r: Vec<(Index, Index)>)
    ensures
        r@ == pairs@,
{
    let mut r: Vec<(Index, Index)> = Vec::new();
    let mut i: usize = 0;
    while i < pairs.len()
        invariant
            i <= pairs@.len(),
            r@ =~= pairs@.subrange(0, i as int),
        decreases pairs@.len() - i,
    {
        r.push(pairs[i]);
        i = i + 1;
    }
    assert(r@ =~= pairs@);
    r
}

/// Wrap local IDs without changing their numeric identities.
fn code_indices_of(ids: &Vec<IndexId>, code: &Code) -> (r: Vec<Index>)
    requires
        forall|j: int| 0 <= j < ids@.len() ==> has_key(code.domains@, #[trigger] ids@[j]),
    ensures
        r@ == code_indices(*code, ids@),
{
    let mut r: Vec<Index> = Vec::new();
    let mut j: usize = 0;
    while j < ids.len()
        invariant
            j <= ids@.len(),
            forall|j: int| 0 <= j < ids@.len() ==> has_key(code.domains@, #[trigger] ids@[j]),
            r@ =~= code_indices(*code, ids@.subrange(0, j as int)),
        decreases ids@.len() - j,
    {
        let id = ids[j];
        let domain = *code.domains.get(&id).unwrap();
        r.push(Index { id: id.0 as u64, domain });
        j = j + 1;
        assert(r@ =~= code_indices(*code, ids@.subrange(0, j as int)));
    }
    assert(ids@.subrange(0, ids@.len() as int) =~= ids@);
    r
}

fn next_private_id(code: &Code) -> (r: u64)
    ensures
        r == first_private_id(*code),
{
    let entries = code.domains.entries();
    if entries.len() == 0 {
        0
    } else {
        entries[entries.len() - 1].0.0 as u64 + 1
    }
}

/// Renames the indices of `factors_in`: an index the renaming `seed` knows
/// keeps its renaming, and every other gets a fresh ID from `next_id`, in
/// order of first occurrence.
pub(crate) fn rename_in_factors(factors_in: &Vec<Factor>, seed: &Vec<(Index, Index)>, next_id: &mut u64) -> (r: Vec<Factor>)
    requires
        rename_visit_factors((pairs_map(seed@), *old(next_id) as int), factors_view(factors_in@)).1 <= u64::MAX,
    ensures
        factors_view(r@) == rename_factors(
            rename_visit_factors((pairs_map(seed@), *old(next_id) as int), factors_view(factors_in@)).0,
            factors_view(factors_in@),
        ),
        *final(next_id) as int == rename_visit_factors((pairs_map(seed@), *old(next_id) as int), factors_view(factors_in@)).1,
{
    let ghost fs = factors_view(factors_in@);
    let ghost seed_map = pairs_map(seed@);
    let ghost before = *next_id as int;
    let ghost term_total = rename_visit_factors((seed_map, before), fs).1;
    let mut rename = copy_pairs(&seed);
    let mut f: usize = 0;
    while f < factors_in.len()
        invariant
            fs == factors_view(factors_in@),
            term_total == rename_visit_factors((seed_map, before), fs).1,
            term_total <= u64::MAX,
            f <= factors_in@.len(),
            (pairs_map(rename@), *next_id as int) == rename_visit_factors((seed_map, before), fs.subrange(0, f as int)),
        decreases factors_in@.len() - f,
    {
        let factor = &factors_in[f];
        let ghost state0 = (pairs_map(rename@), *next_id as int);
        proof {
            lemma_visit_factors_prefix((seed_map, before), fs, f + 1);
            assert(fs.subrange(0, f + 1).drop_last() =~= fs.subrange(0, f as int));
            assert(fs.subrange(0, f + 1).last() == factor@);
        }
        let ghost factor_total = rename_visit_all(state0, factor.indices@).1;
        let mut x: usize = 0;
        while x < factor.indices.len()
            invariant
                factor_total == rename_visit_all(state0, factor.indices@).1,
                factor_total <= u64::MAX,
                x <= factor.indices@.len(),
                (pairs_map(rename@), *next_id as int) == rename_visit_all(state0, factor.indices@.subrange(0, x as int)),
            decreases factor.indices@.len() - x,
        {
            let index = factor.indices[x];
            proof {
                lemma_visit_all_prefix(state0, factor.indices@, x + 1);
                assert(factor.indices@.subrange(0, x + 1).drop_last() =~= factor.indices@.subrange(0, x as int));
            }
            let ghost prefix = factor.indices@.subrange(0, x as int);
            let ghost grown = factor.indices@.subrange(0, x + 1);
            assert(grown.drop_last() =~= prefix);
            assert(grown.last() == index);
            if find_renamed(&rename, index).is_none() {
                let fresh = Index { id: *next_id, domain: index.domain };
                proof {
                    lemma_pairs_map_push(rename@, (index, fresh));
                }
                rename.push((index, fresh));
                *next_id = *next_id + 1;
            }
            x = x + 1;
        }
        assert(factor.indices@.subrange(0, x as int) =~= factor.indices@);
        f = f + 1;
    }
    assert(fs.subrange(0, f as int) =~= fs);
    let ghost m = pairs_map(rename@);
    proof {
        lemma_visit_factors((seed_map, before), fs);
    }

    let mut renamed: Vec<Factor> = Vec::new();
    let mut f: usize = 0;
    while f < factors_in.len()
        invariant
            fs == factors_view(factors_in@),
            m == pairs_map(rename@),
            m == rename_visit_factors((seed_map, before), fs).0,
            forall|i: int, j: int| 0 <= i < fs.len() && 0 <= j < fs[i].indices.len() ==> m.contains_key(#[trigger] fs[i].indices[j]),
            f <= factors_in@.len(),
            factors_view(renamed@) =~= rename_factors(m, fs.subrange(0, f as int)),
        decreases factors_in@.len() - f,
    {
        let factor = &factors_in[f];
        assert(fs[f as int] == factor@);
        assert forall|j: int| 0 <= j < factor.indices@.len() implies m.contains_key(#[trigger] factor.indices@[j]) by {
            assert(fs[f as int].indices[j] == factor.indices@[j]);
        }
        let mut indices: Vec<Index> = Vec::new();
        let mut x: usize = 0;
        while x < factor.indices.len()
            invariant
                m == pairs_map(rename@),
                f < fs.len(),
                fs[f as int] == factor@,
                forall|j: int| 0 <= j < factor.indices@.len() ==> m.contains_key(#[trigger] factor.indices@[j]),
                x <= factor.indices@.len(),
                indices@ =~= factor.indices@.subrange(0, x as int).map_values(|y: Index| m[y]),
            decreases factor.indices@.len() - x,
        {
            let index = factor.indices[x];
            assert(m.contains_key(factor.indices@[x as int]));
            let renamed = find_renamed(&rename, index).unwrap();
            indices.push(renamed);
            x = x + 1;
            assert(indices@ =~= factor.indices@.subrange(0, x as int).map_values(|y: Index| m[y]));
        }
        assert(factor.indices@.subrange(0, x as int) =~= factor.indices@);
        let ghost previous = factors_view(renamed@);
        assert(indices@ =~= fs[f as int].indices.map_values(|y: Index| m[y]));
        renamed.push(Factor { tensor: factor.tensor, indices });
        assert(factors_view(renamed@) =~= previous.push(FactorModel { tensor: fs[f as int].tensor, indices: fs[f as int].indices.map_values(|y: Index| m[y]) }));
        f = f + 1;
        assert(factors_view(renamed@) =~= rename_factors(m, fs.subrange(0, f as int)));
    }
    assert(fs.subrange(0, f as int) =~= fs);
    renamed
}

/// Seed, grow, and apply one complete index rename.
pub fn rename_polynomial(polynomial: Polynomial, input: Vec<Index>, next_id: &mut u64) -> (r: Polynomial)
    requires
        rename_poly(polynomial@, input@, *old(next_id) as int).1 <= u64::MAX,
    ensures
        (r@, *final(next_id) as int) == rename_poly(polynomial@, input@, *old(next_id) as int),
{
    let ghost start = *next_id as int;
    let ghost poly = polynomial@;
    let mut seed: Vec<(Index, Index)> = Vec::new();
    let mut i: usize = 0;
    while i < polynomial.output.len() && i < input.len()
        invariant
            i <= polynomial.output@.len(),
            i <= input@.len(),
            seed@ =~= zip_pairs(polynomial.output@, input@).subrange(0, i as int),
        decreases input@.len() - i,
    {
        seed.push((polynomial.output[i], input[i]));
        i = i + 1;
    }
    assert(seed@ =~= zip_pairs(polynomial.output@, input@));
    let ghost seed_map = pairs_map(seed@);
    let ghost total = rename_poly(poly, input@, start).1;

    let mut terms: Vec<Term> = Vec::new();
    let mut t: usize = 0;
    while t < polynomial.terms.len()
        invariant
            poly == polynomial@,
            seed_map == pairs_map(seed@),
            seed_map == pairs_map(zip_pairs(poly.output, input@)),
            total == rename_terms(poly.terms, seed_map, start).1,
            total <= u64::MAX,
            t <= polynomial.terms@.len(),
            (terms_view(terms@), *next_id as int) == rename_terms(poly.terms.subrange(0, t as int), seed_map, start),
        decreases polynomial.terms@.len() - t,
    {
        let term = &polynomial.terms[t];
        let ghost tv = term@;
        let ghost before = *next_id as int;
        proof {
            lemma_rename_terms_prefix(poly.terms, seed_map, start, t + 1);
            assert(poly.terms.subrange(0, t + 1).drop_last() =~= poly.terms.subrange(0, t as int));
            assert(poly.terms.subrange(0, t + 1).last() == tv);
        }
        let ghost term_total = rename_term(tv, seed_map, before).1;
        let factors = rename_in_factors(&term.factors, &seed, next_id);
        let renamed_term = Term { coeff: term.coeff.clone(), factors };
        terms.push(renamed_term);
        t = t + 1;
        assert(terms_view(terms@) =~= rename_terms(poly.terms.subrange(0, t as int), seed_map, start).0);
    }
    assert(poly.terms.subrange(0, t as int) =~= poly.terms);
    Polynomial { output: input, terms }
}

/// Multiply two term lists by distributing every left term over every right term.
fn multiply_terms(left: &Vec<Term>, right: &Vec<Term>) -> (r: Vec<Term>)
    ensures
        terms_view(r@) == multiply(terms_view(left@), terms_view(right@)),
{
    let ghost lv = terms_view(left@);
    let ghost rv = terms_view(right@);
    let mut product: Vec<Term> = Vec::new();
    let mut i: usize = 0;
    while i < left.len()
        invariant
            lv == terms_view(left@),
            rv == terms_view(right@),
            i <= left@.len(),
            terms_view(product@) =~= multiply(lv.subrange(0, i as int), rv),
        decreases left@.len() - i,
    {
        let left_term = &left[i];
        let ghost base = terms_view(product@);
        let mut j: usize = 0;
        while j < right.len()
            invariant
                lv == terms_view(left@),
                rv == terms_view(right@),
                i < left@.len(),
                j <= right@.len(),
                left_term@ == lv[i as int],
                terms_view(product@) =~= base + rv.subrange(0, j as int).map_values(|r: TermModel| term_product(lv[i as int], r)),
            decreases right@.len() - j,
        {
            let right_term = &right[j];
            let mut factors = left_term.factors.clone();
            let mut k: usize = 0;
            while k < right_term.factors.len()
                invariant
                    k <= right_term.factors@.len(),
                    factors_view(factors@) =~= factors_view(left_term.factors@) + factors_view(right_term.factors@).subrange(0, k as int),
                decreases right_term.factors@.len() - k,
            {
                let factor = right_term.factors[k].clone();
                let ghost before = factors_view(factors@);
                factors.push(factor);
                assert(factors_view(factors@) =~= before.push(right_term.factors@[k as int]@));
                assert(factors_view(right_term.factors@).subrange(0, k + 1) =~= factors_view(right_term.factors@).subrange(0, k as int).push(right_term.factors@[k as int]@));
                k = k + 1;
                assert(factors_view(factors@) =~= factors_view(left_term.factors@) + factors_view(right_term.factors@).subrange(0, k as int));
            }
            let term = Term { coeff: left_term.coeff.times(&right_term.coeff), factors };
            assert(term@ == term_product(lv[i as int], rv[j as int])) by {
                assert(factors_view(right_term.factors@).subrange(0, k as int) =~= factors_view(right_term.factors@));
            }
            let ghost before = terms_view(product@);
            product.push(term);
            assert(terms_view(product@) =~= before.push(term_product(lv[i as int], rv[j as int])));
            assert(rv.subrange(0, j + 1).map_values(|r: TermModel| term_product(lv[i as int], r)) =~= rv.subrange(0, j as int).map_values(|r: TermModel| term_product(lv[i as int], r)).push(term_product(lv[i as int], rv[j as int])));
            j = j + 1;
            assert(terms_view(product@) =~= base + rv.subrange(0, j as int).map_values(|r: TermModel| term_product(lv[i as int], r)));
        }
        assert(rv.subrange(0, j as int) =~= rv);
        assert(lv.subrange(0, i + 1).drop_last() =~= lv.subrange(0, i as int));
        i = i + 1;
    }
    assert(lv.subrange(0, i as int) =~= lv);
    product
}

/// The mathematical values of a list of polynomials.
pub open spec fn polys_view(s: Seq<Polynomial>) -> Seq<PolyModel> {
    s.map_values(|p: Polynomial| p@)
}

/// Turn one reference into a polynomial before renaming it for this use.
fn reference_polynomial(reference: ValueRef, input: &Vec<Index>, values: &Vec<Polynomial>) -> (r: Polynomial)
    requires
        reference matches ValueRef::Value(v) ==> v.0 < values@.len(),
    ensures
        r@ == reference_poly(reference, input@, polys_view(values@)),
{
    match reference {
        ValueRef::Tensor(tensor) => {
            let output = input.clone();
            let indices = input.clone();
            assert(output@ =~= input@);
            assert(indices@ =~= input@);
            let factor = Factor { tensor, indices };
            let mut factors = Vec::new();
            factors.push(factor);
            let mut terms = Vec::new();
            terms.push(Term { coeff: Coefficient::from_integer(1), factors });
            let r = Polynomial { output, terms };
            assert(r@.terms =~= tensor_poly(tensor, input@).terms) by {
                assert(r@.terms[0].factors =~= tensor_poly(tensor, input@).terms[0].factors);
            }
            r
        },
        ValueRef::Value(value) => values[value.0 as usize].clone(),
    }
}

/// Multiplying in more arguments never lowers the next fresh ID.
proof fn lemma_einsum_next_grows(e: Einsum, values: Seq<PolyModel>, k: nat, n: nat)
    requires
        k <= n,
    ensures
        einsum_terms(e, values, k).1 <= einsum_terms(e, values, n).1,
    decreases n,
{
    if k < n {
        lemma_einsum_next_grows(e, values, k, (n - 1) as nat);
        let (terms, next) = einsum_terms(e, values, (n - 1) as nat);
        let input = code_indices(e.code, e.code.inputs@[n - 1]@);
        let p = reference_poly(e.args@[n - 1], input, values);
        lemma_rename_terms_prefix(p.terms, pairs_map(zip_pairs(p.output, input)), next, 0);
    }
}

/// Adding more summands never lowers the next fresh ID.
proof fn lemma_lincomb_next_grows(l: LinComb, values: Seq<PolyModel>, k: nat, n: nat)
    requires
        k <= n,
    ensures
        lincomb_terms(l, values, k).1 <= lincomb_terms(l, values, n).1,
    decreases n,
{
    if k < n {
        lemma_lincomb_next_grows(l, values, k, (n - 1) as nat);
        let (terms, next) = lincomb_terms(l, values, (n - 1) as nat);
        let input = code_indices(l.code, l.code.inputs@[n - 1]@);
        let p = reference_poly(l.args@[n - 1], input, values);
        lemma_rename_terms_prefix(p.terms, pairs_map(zip_pairs(p.output, input)), next, 0);
    }
}

/// The arguments of a definition that passed the checks only reference
/// earlier values of matching width, and its indices all have domains.
pub open spec fn args_expandable(code: Code, args: Seq<ValueRef>, width: nat, values: Seq<PolyModel>) -> bool {
    &&& forall|x: IndexId| #[trigger] uses_index(code, x) ==> has_key(code.domains@, x)
    &&& width <= args.len()
    &&& width <= code.inputs@.len()
    &&& forall|k: int| 0 <= k < width ==> match #[trigger] args[k] {
        ValueRef::Tensor(_) => true,
        ValueRef::Value(r) => r.0 < values.len() && values[r.0 as int].output.len() == code.inputs@[k]@.len(),
    }
}

proof fn lemma_input_has_domains(code: Code, k: int)
    requires
        forall|x: IndexId| #[trigger] uses_index(code, x) ==> has_key(code.domains@, x),
        0 <= k < code.inputs@.len(),
    ensures
        forall|j: int| 0 <= j < code.inputs@[k]@.len() ==> has_key(code.domains@, #[trigger] code.inputs@[k]@[j]),
{
    assert forall|j: int| 0 <= j < code.inputs@[k]@.len() implies has_key(code.domains@, #[trigger] code.inputs@[k]@[j]) by {
        assert(uses_index(code, code.inputs@[k]@[j]));
    }
}

proof fn lemma_output_has_domains(code: Code)
    requires
        forall|x: IndexId| #[trigger] uses_index(code, x) ==> has_key(code.domains@, x),
    ensures
        forall|j: int| 0 <= j < code.output@.len() ==> has_key(code.domains@, #[trigger] code.output@[j]),
{
    assert forall|j: int| 0 <= j < code.output@.len() implies has_key(code.domains@, #[trigger] code.output@[j]) by {
        assert(code.output@.contains(code.output@[j]));
        assert(uses_index(code, code.output@[j]));
    }
}

fn expand_einsum(einsum: &Einsum, values: &Vec<Polynomial>) -> (r: Polynomial)
    requires
        args_expandable(einsum.code, einsum.args@, einsum_width(*einsum), polys_view(values@)),
        einsum_terms(*einsum, polys_view(values@), einsum_width(*einsum)).1 <= u64::MAX,
    ensures
        r@ == expand_def(ValueDef::Einsum(*einsum), polys_view(values@)).0,
{
    let ghost vals = polys_view(values@);
    let width = if einsum.args.len() <= einsum.code.inputs.len() { einsum.args.len() } else { einsum.code.inputs.len() };
    let mut next_id = next_private_id(&einsum.code);
    let mut terms: Vec<Term> = Vec::new();
    let first = Term { coeff: einsum.coeff.clone(), factors: Vec::new() };
    assert(first@.factors =~= Seq::<FactorModel>::empty());
    terms.push(first);
    assert(terms_view(terms@) =~= einsum_terms(*einsum, vals, 0).0);
    let mut k: usize = 0;
    while k < width
        invariant
            vals == polys_view(values@),
            width == einsum_width(*einsum),
            args_expandable(einsum.code, einsum.args@, width as nat, vals),
            einsum_terms(*einsum, vals, width as nat).1 <= u64::MAX,
            k <= width,
            (terms_view(terms@), next_id as int) == einsum_terms(*einsum, vals, k as nat),
        decreases width - k,
    {
        proof {
            lemma_input_has_domains(einsum.code, k as int);
            lemma_einsum_next_grows(*einsum, vals, (k + 1) as nat, width as nat);
        }
        let input = code_indices_of(&einsum.code.inputs[k], &einsum.code);
        let reference = einsum.args[k];
        let polynomial = reference_polynomial(reference, &input, values);
        let renamed = rename_polynomial(polynomial, input, &mut next_id);
        terms = multiply_terms(&terms, &renamed.terms);
        k = k + 1;
    }
    proof {
        lemma_output_has_domains(einsum.code);
    }
    let output = code_indices_of(&einsum.code.output, &einsum.code);
    Polynomial { output, terms }
}

fn expand_lincomb(lincomb: &LinComb, values: &Vec<Polynomial>) -> (r: Polynomial)
    requires
        args_expandable(lincomb.code, lincomb.args@, lincomb_width(*lincomb), polys_view(values@)),
        lincomb_width(*lincomb) <= lincomb.coeff@.len(),
        lincomb_terms(*lincomb, polys_view(values@), lincomb_width(*lincomb)).1 <= u64::MAX,
    ensures
        r@ == expand_def(ValueDef::LinComb(*lincomb), polys_view(values@)).0,
{
    let ghost vals = polys_view(values@);
    let a = if lincomb.coeff.len() <= lincomb.args.len() { lincomb.coeff.len() } else { lincomb.args.len() };
    let width = if a <= lincomb.code.inputs.len() { a } else { lincomb.code.inputs.len() };
    let mut next_id = next_private_id(&lincomb.code);
    let mut terms: Vec<Term> = Vec::new();
    assert(terms_view(terms@) =~= lincomb_terms(*lincomb, vals, 0).0);
    let mut k: usize = 0;
    while k < width
        invariant
            vals == polys_view(values@),
            width == lincomb_width(*lincomb),
            width <= lincomb.coeff@.len(),
            args_expandable(lincomb.code, lincomb.args@, width as nat, vals),
            lincomb_terms(*lincomb, vals, width as nat).1 <= u64::MAX,
            k <= width,
            (terms_view(terms@), next_id as int) == lincomb_terms(*lincomb, vals, k as nat),
        decreases width - k,
    {
        proof {
            lemma_input_has_domains(lincomb.code, k as int);
            lemma_lincomb_next_grows(*lincomb, vals, (k + 1) as nat, width as nat);
        }
        let input = code_indices_of(&lincomb.code.inputs[k], &lincomb.code);
        let reference = lincomb.args[k];
        let coefficient = &lincomb.coeff[k];
        let polynomial = reference_polynomial(reference, &input, values);
        let renamed = rename_polynomial(polynomial, input, &mut next_id);
        let ghost base = terms_view(terms@);
        let ghost scaled = scale_terms(renamed@.terms, coefficient@);
        let mut t: usize = 0;
        while t < renamed.terms.len()
            invariant
                t <= renamed.terms@.len(),
                scaled == scale_terms(renamed@.terms, coefficient@),
                terms_view(terms@) =~= base + scaled.subrange(0, t as int),
            decreases renamed.terms@.len() - t,
        {
            let term = &renamed.terms[t];
            let factors = term.factors.clone();
            assert(factors_view(factors@) =~= factors_view(term.factors@));
            let scaled_term = Term { coeff: term.coeff.times(coefficient), factors };
            let ghost before = terms_view(terms@);
            terms.push(scaled_term);
            assert(terms_view(terms@) =~= before.push(scaled[t as int]));
            assert(scaled.subrange(0, t + 1) =~= scaled.subrange(0, t as int).push(scaled[t as int]));
            t = t + 1;
            assert(terms_view(terms@) =~= base + scaled.subrange(0, t as int));
        }
        assert(scaled.subrange(0, t as int) =~= scaled);
        k = k + 1;
    }
    proof {
        lemma_output_has_domains(lincomb.code);
    }
    let output = code_indices_of(&lincomb.code.output, &lincomb.code);
    Polynomial { output, terms }
}

/// Every expanded value has the free indices of its definition's output.
proof fn lemma_expanded_outputs(program: Program, n: nat)
    requires
        n <= program.values@.len(),
    ensures
        expand_values(program, n).len() == n,
        forall|r: int| 0 <= r < n ==> (#[trigger] expand_values(program, n)[r]).output.len() == program.values@[r].code_of().output@.len(),
    decreases n,
{
    if n > 0 {
        lemma_expanded_outputs(program, (n - 1) as nat);
        let done = expand_values(program, (n - 1) as nat);
        assert forall|r: int| 0 <= r < n implies (#[trigger] expand_values(program, n)[r]).output.len() == program.values@[r].code_of().output@.len() by {
            if r < n - 1 {
                assert(expand_values(program, n)[r] == done[r]);
            }
        }
    }
}

/// Expand every requested output of a program.
pub fn expand(program: &Program) -> (r: Vec<Polynomial>)
    requires
        expandable(*program),
    ensures
        polys_view(r@) == expansion(*program),
{
    let mut values: Vec<Polynomial> = Vec::new();
    let mut v: usize = 0;
    while v < program.values.len()
        invariant
            expandable(*program),
            v <= program.values@.len(),
            polys_view(values@) =~= expand_values(*program, v as nat),
        decreases program.values@.len() - v,
    {
        let ghost vals = polys_view(values@);
        proof {
            lemma_expanded_outputs(*program, v as nat);
            assert(def_expandable(program.values@, v as int));
            assert(ids_fit(*program, v as int));
        }
        let polynomial = match &program.values[v] {
            ValueDef::Einsum(einsum) => {
                proof {
                    assert(program.values@[v as int].code_of() == einsum.code);
                    assert(program.values@[v as int].args_of() == einsum.args@);
                    assert forall|k: int| 0 <= k < einsum_width(*einsum) implies match #[trigger] einsum.args@[k] {
                        ValueRef::Tensor(_) => true,
                        ValueRef::Value(r) => r.0 < vals.len() && vals[r.0 as int].output.len() == einsum.code.inputs@[k]@.len(),
                    } by {
                        assert(program.values@[v as int].args_of()[k] == einsum.args@[k]);
                    }
                }
                expand_einsum(einsum, &values)
            },
            ValueDef::LinComb(lincomb) => {
                proof {
                    assert(program.values@[v as int].code_of() == lincomb.code);
                    assert(program.values@[v as int].args_of() == lincomb.args@);
                    assert forall|k: int| 0 <= k < lincomb_width(*lincomb) implies match #[trigger] lincomb.args@[k] {
                        ValueRef::Tensor(_) => true,
                        ValueRef::Value(r) => r.0 < vals.len() && vals[r.0 as int].output.len() == lincomb.code.inputs@[k]@.len(),
                    } by {
                        assert(program.values@[v as int].args_of()[k] == lincomb.args@[k]);
                    }
                }
                expand_lincomb(lincomb, &values)
            },
        };
        values.push(polynomial);
        v = v + 1;
        assert(polys_view(values@) =~= expand_values(*program, v as nat));
    }
    let ghost vals = polys_view(values@);
    proof {
        lemma_expanded_outputs(*program, program.values@.len());
    }
    let mut result: Vec<Polynomial> = Vec::new();
    let mut o: usize = 0;
    while o < program.outputs.len()
        invariant
            expandable(*program),
            vals == polys_view(values@),
            vals == expand_values(*program, program.values@.len()),
            values@.len() == program.values@.len(),
            o <= program.outputs@.len(),
            polys_view(result@) =~= expansion(*program).subrange(0, o as int),
        decreases program.outputs@.len() - o,
    {
        let value = program.outputs[o];
        let copy = values[value.0 as usize].clone();
        let ghost before = polys_view(result@);
        result.push(copy);
        assert(polys_view(result@) =~= before.push(vals[value.0 as int]));
        o = o + 1;
        assert(polys_view(result@) =~= expansion(*program).subrange(0, o as int));
    }
    assert(expansion(*program).subrange(0, o as int) =~= expansion(*program));
    result
}

} // verus!
