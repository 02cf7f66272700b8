//! Floating-point operation counts for tensor SSA programs.
//!
//! Every SSA definition is charged once. Tensor multiplications and additions
//! are counted, while multiplication by numeric coefficients, copying, and
//! initialization are ignored.

use vstd::prelude::*;

use crate::canon::Order;
use crate::id_map::{has_key, key_position, keys_increasing, lemma_lookup_at, lemma_same_lookups, lookup, IdKey, IdMap};
use crate::model::{Code, DomainId, IndexId, Problem, Program, ValueDef};
use crate::validate::{problem_validation, program_validation, validate, validate_program, ValidationError};

verus! {

/// A failure to evaluate the numerical FLOP cost of a program.
#[derive(Clone, Debug, PartialEq, Eq)]
pub enum CostError {
    Invalid(ValidationError),
    ZeroTotalFlops,
}

impl From<ValidationError> for CostError {
    fn from(error: ValidationError) -> (r: Self) {
        CostError::Invalid(error)
    }
}

impl vstd::std_specs::convert::FromSpecImpl<ValidationError> for CostError {
    open spec fn obeys_from_spec() -> bool {
        true
    }

    open spec fn from_spec(error: ValidationError) -> Self {
        CostError::Invalid(error)
    }
}

// ---------------------------------------------------------------------------
// What one definition costs.
// ---------------------------------------------------------------------------

/// The operations one definition is charged: one fewer than its arguments
/// (none without arguments), and for an einsum one more when it sums over an
/// index that is not in its output.
pub open spec fn operation_count(def: ValueDef) -> nat {
    match def {
        ValueDef::Einsum(e) => (if e.args@.len() > 0 { (e.args@.len() - 1) as nat } else { 0nat })
            + if e.code.output@.len() < e.code.domains@.len() { 1nat } else { 0nat },
        ValueDef::LinComb(l) => if l.args@.len() > 0 { (l.args@.len() - 1) as nat } else { 0nat },
    }
}

/// The operations one definition is charged.
pub fn count_operations(def: &ValueDef) -> (r: usize)
    ensures
        r == operation_count(*def),
{
    match def {
        ValueDef::Einsum(e) => {
            let arguments = if e.args.len() > 0 { e.args.len() - 1 } else { 0 };
            let contraction = if e.code.output.len() < e.code.domains.len() { 1 } else { 0 };
            arguments + contraction
        },
        ValueDef::LinComb(l) => if l.args.len() > 0 { l.args.len() - 1 } else { 0 },
    }
}

/// The number of indices in `entries` whose domain is `d`.
pub open spec fn domain_count(entries: Seq<(IndexId, DomainId)>, d: DomainId) -> nat
    decreases entries.len(),
{
    if entries.len() == 0 {
        0
    } else {
        domain_count(entries.drop_last(), d) + if entries.last().1 == d { 1nat } else { 0nat }
    }
}

/// The exponent of domain `d` among `entries`, if it occurs.
pub open spec fn count_of(entries: Seq<(IndexId, DomainId)>, d: DomainId) -> Option<usize> {
    if domain_count(entries, d) > 0 {
        Some(domain_count(entries, d) as usize)
    } else {
        None
    }
}

/// `p` lists, by ascending domain, every domain of `entries` with the number
/// of its indices: the size product that the loops over `entries` run.
pub open spec fn is_monomial(p: Seq<(DomainId, usize)>, entries: Seq<(IndexId, DomainId)>) -> bool {
    &&& keys_increasing(p)
    &&& forall|d: DomainId| #[trigger] lookup(p, d) == count_of(entries, d)
}

/// The monomial of a definition's code.
pub open spec fn monomial(code: Code) -> Seq<(DomainId, usize)> {
    choose|p: Seq<(DomainId, usize)>| is_monomial(p, code.domains@)
}

/// There is one monomial per code.
pub proof fn lemma_monomial_unique(p: Seq<(DomainId, usize)>, code: Code)
    requires
        is_monomial(p, code.domains@),
    ensures
        monomial(code) == p,
{
    let q = monomial(code);
    assert(is_monomial(q, code.domains@));
    lemma_same_lookups(p, q);
}

/// The total degree of a monomial: the sum of its exponents.
pub open spec fn degree(p: Seq<(DomainId, usize)>) -> nat
    decreases p.len(),
{
    if p.len() == 0 {
        0
    } else {
        degree(p.drop_last()) + p.last().1 as nat
    }
}

/// The exponent of `d` in `p`; zero when `d` is absent.
pub open spec fn exponent_of(p: Seq<(DomainId, usize)>, d: DomainId) -> nat {
    match lookup(p, d) {
        Some(e) => e as nat,
        None => 0,
    }
}

proof fn lemma_degree_update(p: Seq<(DomainId, usize)>, i: int, x: (DomainId, usize))
    requires
        0 <= i < p.len(),
    ensures
        degree(p.update(i, x)) + p[i].1 == degree(p) + x.1,
    decreases p.len(),
{
    if i < p.len() - 1 {
        assert(p.update(i, x).drop_last() =~= p.drop_last().update(i, x));
        lemma_degree_update(p.drop_last(), i, x);
    } else {
        assert(p.update(i, x).drop_last() =~= p.drop_last());
    }
}

proof fn lemma_degree_insert(p: Seq<(DomainId, usize)>, i: int, x: (DomainId, usize))
    requires
        0 <= i <= p.len(),
    ensures
        degree(p.insert(i, x)) == degree(p) + x.1,
    decreases p.len(),
{
    if i < p.len() {
        assert(p.insert(i, x).drop_last() =~= p.drop_last().insert(i, x));
        lemma_degree_insert(p.drop_last(), i, x);
    } else {
        assert(p.insert(i, x).drop_last() =~= p);
    }
}

proof fn lemma_degree_bounds(p: Seq<(DomainId, usize)>, i: int)
    requires
        0 <= i <= p.len(),
    ensures
        degree(p.subrange(0, i)) <= degree(p),
        i < p.len() ==> p[i].1 <= degree(p),
    decreases p.len(),
{
    if i < p.len() {
        lemma_degree_bounds(p.drop_last(), if i == p.len() - 1 { i } else { i });
        if i < p.len() - 1 {
            assert(p.drop_last().subrange(0, i) =~= p.subrange(0, i));
            assert(p.drop_last()[i] == p[i]);
        } else {
            assert(p.drop_last() =~= p.subrange(0, i));
        }
    } else {
        assert(p.subrange(0, i) =~= p);
    }
}

/// Adds one index in domain `d` to the monomial `powers`.
fn bump(powers: &mut Vec<(DomainId, usize)>, d: DomainId)
    requires
        keys_increasing(old(powers)@),
        degree(old(powers)@) < usize::MAX,
    ensures
        keys_increasing(final(powers)@),
        degree(final(powers)@) == degree(old(powers)@) + 1,
        forall|x: DomainId| #[trigger] lookup(final(powers)@, x) == (if x == d {
            Some((exponent_of(old(powers)@, d) + 1) as usize)
        } else {
            lookup(old(powers)@, x)
        }),
{
    let ghost before = powers@;
    let mut i: usize = 0;
    while i < powers.len() && powers[i].0.0 < d.0
        invariant
            i <= before.len(),
            powers@ == before,
            forall|k: int| 0 <= k < i ==> (#[trigger] before[k]).0.0 < d.0,
        decreases before.len() - i,
    {
        i = i + 1;
    }
    if i < powers.len() && powers[i].0.0 == d.0 {
        let c = powers[i].1;
        proof {
            lemma_degree_bounds(before, i as int);
            lemma_lookup_at(before, i as int);
        }
        powers.set(i, (d, c + 1));
        proof {
            lemma_degree_update(before, i as int, (d, (c + 1) as usize));
            let after = powers@;
            assert(keys_increasing(after)) by {
                assert forall|a: int, b: int| 0 <= a < b < after.len() implies #[trigger] after[a].0.key_of() < #[trigger] after[b].0.key_of() by {
                    assert(before[a].0.key_of() < before[b].0.key_of());
                }
            }
            lemma_lookup_at(after, i as int);
            assert forall|x: DomainId| #[trigger] lookup(after, x) == (if x == d {
                Some((exponent_of(before, d) + 1) as usize)
            } else {
                lookup(before, x)
            }) by {
                if x != d {
                    if has_key(before, x) {
                        let q = key_position(before, x);
                        lemma_lookup_at(before, q);
                        lemma_lookup_at(after, q);
                    }
                    if has_key(after, x) {
                        let q = key_position(after, x);
                        lemma_lookup_at(after, q);
                        lemma_lookup_at(before, q);
                    }
                }
            }
        }
    } else {
        let ghost absent = !has_key(before, d);
        proof {
            if has_key(before, d) {
                let q = key_position(before, d);
                if q < i {
                    assert(before[q].0.0 < d.0);
                } else if q > i {
                    assert(before[i as int].0.key_of() < before[q].0.key_of());
                }
            }
        }
        powers.insert(i, (d, 1));
        proof {
            lemma_degree_insert(before, i as int, (d, 1usize));
            let after = powers@;
            assert(after == before.insert(i as int, (d, 1usize)));
            assert(keys_increasing(after)) by {
                assert forall|a: int, b: int| 0 <= a < b < after.len() implies #[trigger] after[a].0.key_of() < #[trigger] after[b].0.key_of() by {
                    if b < i {
                        assert(before[a].0.key_of() < before[b].0.key_of());
                    } else if b == i {
                        assert(before[a].0.0 < d.0);
                    } else if a < i {
                        assert(before[a].0.key_of() < before[b - 1].0.key_of());
                    } else if a == i {
                        assert(i < before.len());
                        assert(before[i as int].0.0 >= d.0);
                        assert(before[i as int].0.0 != d.0);
                        if b - 1 > i {
                            assert(before[i as int].0.key_of() < before[b - 1].0.key_of());
                        }
                    } else {
                        assert(before[a - 1].0.key_of() < before[b - 1].0.key_of());
                    }
                }
            }
            lemma_lookup_at(after, i as int);
            assert forall|x: DomainId| #[trigger] lookup(after, x) == (if x == d {
                Some((exponent_of(before, d) + 1) as usize)
            } else {
                lookup(before, x)
            }) by {
                if x != d {
                    if has_key(before, x) {
                        let q = key_position(before, x);
                        lemma_lookup_at(before, q);
                        if q < i {
                            assert(after[q] == before[q]);
                            lemma_lookup_at(after, q);
                        } else {
                            assert(after[q + 1] == before[q]);
                            lemma_lookup_at(after, q + 1);
                        }
                    }
                    if has_key(after, x) {
                        let q = key_position(after, x);
                        lemma_lookup_at(after, q);
                        if q < i {
                            assert(after[q] == before[q]);
                            lemma_lookup_at(before, q);
                        } else {
                            assert(q != i);
                            assert(after[q] == before[q - 1]);
                            lemma_lookup_at(before, q - 1);
                        }
                    }
                }
            }
        }
    }
}

proof fn lemma_domain_count_push(entries: Seq<(IndexId, DomainId)>, e: (IndexId, DomainId), d: DomainId)
    ensures
        domain_count(entries.push(e), d) == domain_count(entries, d) + if e.1 == d { 1nat } else { 0nat },
{
    assert(entries.push(e).drop_last() =~= entries);
}

proof fn lemma_domain_count_bound(entries: Seq<(IndexId, DomainId)>, d: DomainId)
    ensures
        domain_count(entries, d) <= entries.len(),
    decreases entries.len(),
{
    if entries.len() > 0 {
        lemma_domain_count_bound(entries.drop_last(), d);
    }
}

/// The monomial of `code`: each domain with the number of its indices.
fn code_monomial(code: &Code) -> (r: IdMap<DomainId, usize>)
    ensures
        is_monomial(r@, code.domains@),
        r@ == monomial(*code),
        degree(r@) == code.domains@.len(),
        degree(r@) <= usize::MAX,
{
    let entries = code.domains.entries();
    let mut powers: Vec<(DomainId, usize)> = Vec::new();
    let mut i: usize = 0;
    while i < entries.len()
        invariant
            entries@ == code.domains@,
            i <= entries@.len(),
            keys_increasing(powers@),
            degree(powers@) == i,
            forall|d: DomainId| #[trigger] lookup(powers@, d) == count_of(entries@.subrange(0, i as int), d),
        decreases entries@.len() - i,
    {
        let d = entries[i].1;
        let ghost before = powers@;
        bump(&mut powers, d);
        proof {
            let old_part = entries@.subrange(0, i as int);
            let new_part = entries@.subrange(0, i + 1);
            assert(new_part =~= old_part.push(entries@[i as int]));
            assert forall|x: DomainId| #[trigger] lookup(powers@, x) == count_of(new_part, x) by {
                lemma_domain_count_push(old_part, entries@[i as int], x);
                lemma_domain_count_bound(new_part, x);
                if x == d {
                    assert(lookup(before, d) == count_of(old_part, d));
                }
            }
        }
        i = i + 1;
    }
    proof {
        assert(entries@.subrange(0, i as int) =~= code.domains@);
        lemma_monomial_unique(powers@, *code);
    }
    IdMap::from_sorted(powers)
}

// ---------------------------------------------------------------------------
// Ordering monomials.
// ---------------------------------------------------------------------------

/// Lexicographic order on monomials as lists of (domain, exponent) pairs in
/// ascending domain order; a proper prefix comes first.
pub open spec fn lex_powers(a: Seq<(DomainId, usize)>, b: Seq<(DomainId, usize)>) -> Order
    decreases a.len(),
{
    if a.len() == 0 {
        if b.len() == 0 { Order::Equal } else { Order::Less }
    } else if b.len() == 0 {
        Order::Greater
    } else if a[0].0.0 < b[0].0.0 {
        Order::Less
    } else if a[0].0.0 > b[0].0.0 {
        Order::Greater
    } else if a[0].1 < b[0].1 {
        Order::Less
    } else if a[0].1 > b[0].1 {
        Order::Greater
    } else {
        lex_powers(a.drop_first(), b.drop_first())
    }
}

/// Monomials are ordered by total degree, then lexicographically.
pub open spec fn flop_order(a: Seq<(DomainId, usize)>, b: Seq<(DomainId, usize)>) -> Order {
    if degree(a) < degree(b) {
        Order::Less
    } else if degree(a) > degree(b) {
        Order::Greater
    } else {
        lex_powers(a, b)
    }
}

proof fn lemma_lex_powers(a: Seq<(DomainId, usize)>, b: Seq<(DomainId, usize)>, c: Seq<(DomainId, usize)>)
    ensures
        lex_powers(a, b) == Order::Equal <==> a == b,
        lex_powers(b, a) == crate::canon::flip(lex_powers(a, b)),
        lex_powers(a, b) == Order::Greater && lex_powers(b, c) == Order::Greater ==> lex_powers(a, c) == Order::Greater,
    decreases a.len(),
{
    if a.len() > 0 && b.len() > 0 && c.len() > 0 {
        lemma_lex_powers(a.drop_first(), b.drop_first(), c.drop_first());
    } else if a.len() > 0 && b.len() > 0 {
        lemma_lex_powers(a.drop_first(), b.drop_first(), c);
    }
    if a.len() > 0 && b.len() > 0 && a[0].0.0 == b[0].0.0 && a[0].1 == b[0].1 && a.drop_first() == b.drop_first() {
        assert(a[0].0 == b[0].0);
        assert(a =~= seq![a[0]] + a.drop_first());
        assert(b =~= seq![b[0]] + b.drop_first());
    }
    if a.len() == 0 && b.len() == 0 {
        assert(a =~= b);
    }
}

/// The order on monomials is total: ties are equal monomials, it flips when
/// its arguments swap, and it is transitive.
pub proof fn lemma_flop_order(a: Seq<(DomainId, usize)>, b: Seq<(DomainId, usize)>, c: Seq<(DomainId, usize)>)
    ensures
        flop_order(a, b) == Order::Equal <==> a == b,
        flop_order(b, a) == crate::canon::flip(flop_order(a, b)),
        flop_order(a, b) == Order::Greater && flop_order(b, c) == Order::Greater ==> flop_order(a, c) == Order::Greater,
{
    lemma_lex_powers(a, b, c);
    lemma_lex_powers(b, a, c);
}

fn powers_degree(p: &IdMap<DomainId, usize>) -> (r: usize)
    requires
        degree(p@) <= usize::MAX,
    ensures
        r == degree(p@),
{
    let entries = p.entries();
    let mut sum: usize = 0;
    let mut i: usize = 0;
    while i < entries.len()
        invariant
            entries@ == p@,
            degree(p@) <= usize::MAX,
            i <= entries@.len(),
            sum == degree(entries@.subrange(0, i as int)),
        decreases entries@.len() - i,
    {
        proof {
            lemma_degree_bounds(entries@, i + 1);
            assert(entries@.subrange(0, i + 1).drop_last() =~= entries@.subrange(0, i as int));
        }
        sum = sum + entries[i].1;
        i = i + 1;
    }
    proof {
        assert(entries@.subrange(0, i as int) =~= entries@);
    }
    sum
}

fn compare_powers(a: &IdMap<DomainId, usize>, b: &IdMap<DomainId, usize>) -> (r: Order)
    ensures
        r == lex_powers(a@, b@),
{
    let x = a.entries();
    let y = b.entries();
    let mut i: usize = 0;
    assert(x@.skip(0) =~= x@);
    assert(y@.skip(0) =~= y@);
    loop
        invariant
            x@ == a@,
            y@ == b@,
            i <= x@.len(),
            i <= y@.len(),
            lex_powers(a@, b@) == lex_powers(x@.skip(i as int), y@.skip(i as int)),
        decreases x@.len() - i,
    {
        if i == x.len() {
            return if i == y.len() { Order::Equal } else { Order::Less };
        }
        if i == y.len() {
            return Order::Greater;
        }
        assert(x@.skip(i as int)[0] == x@[i as int]);
        assert(y@.skip(i as int)[0] == y@[i as int]);
        if x[i].0.0 < y[i].0.0 {
            return Order::Less;
        }
        if x[i].0.0 > y[i].0.0 {
            return Order::Greater;
        }
        if x[i].1 < y[i].1 {
            return Order::Less;
        }
        if x[i].1 > y[i].1 {
            return Order::Greater;
        }
        assert(x@.skip(i as int).drop_first() =~= x@.skip(i + 1));
        assert(y@.skip(i as int).drop_first() =~= y@.skip(i + 1));
        i = i + 1;
    }
}

fn compare_monomials(a: &IdMap<DomainId, usize>, b: &IdMap<DomainId, usize>) -> (r: Order)
    requires
        degree(a@) <= usize::MAX,
        degree(b@) <= usize::MAX,
    ensures
        r == flop_order(a@, b@),
{
    let da = powers_degree(a);
    let db = powers_degree(b);
    if da < db {
        Order::Less
    } else if da > db {
        Order::Greater
    } else {
        compare_powers(a, b)
    }
}

// ---------------------------------------------------------------------------
// Symbolic FLOP polynomials.
// ---------------------------------------------------------------------------

/// A term as a mathematical value: its coefficient and its monomial.
pub type FlopModel = (nat, Seq<(DomainId, usize)>);

/// An exact term in a symbolic FLOP count.
///
/// A term represents `coefficient * product(D_domain ^ exponent)`, where each
/// `D_domain` is the size of one problem domain.
#[derive(Debug, PartialEq, Eq)]
pub struct FlopTerm {
    coefficient: u128,
    powers: IdMap<DomainId, usize>,
}

impl View for FlopTerm {
    type V = FlopModel;

    closed spec fn view(&self) -> FlopModel {
        (self.coefficient as nat, self.powers@)
    }
}

impl FlopTerm {
    /// The total degree fits in `usize`.
    #[verifier::type_invariant]
    closed spec fn degree_fits(&self) -> bool {
        degree(self.powers@) <= usize::MAX
    }

    /// The coefficient fits in `u128` and the total degree in `usize`.
    pub closed spec fn fits(&self) -> bool {
        &&& self.coefficient as nat == self@.0
        &&& degree(self@.1) <= usize::MAX
    }

    /// Return the integer multiplier of this term.
    pub fn coefficient(&self) -> (r: u128)
        ensures
            r == self@.0,
    {
        self.coefficient
    }

    /// Return the exponent of every domain size present in this term.
    pub fn powers(&self) -> (r: &IdMap<DomainId, usize>)
        ensures
            r@ == self@.1,
    {
        &self.powers
    }

    /// Return the exponent of `domain`, or zero when it is absent.
    pub fn exponent(&self, domain: DomainId) -> (r: usize)
        ensures
            r == exponent_of(self@.1, domain),
    {
        match self.powers.get(&domain) {
            Some(e) => *e,
            None => 0,
        }
    }

    /// Return the degree of this term when all domain sizes scale together.
    pub fn total_degree(&self) -> (r: usize)
        ensures
            r == degree(self@.1),
    {
        proof {
            use_type_invariant(self);
        }
        powers_degree(&self.powers)
    }
}

impl Clone for FlopTerm {
    fn clone(&self) -> (r: Self)
        ensures
            r@ == self@,
    {
        proof {
            use_type_invariant(self);
        }
        let powers = self.powers.clone();
        proof {
            assert forall|i: int| 0 <= i < powers@.len() implies #[trigger] powers@[i] == self.powers@[i] by {
                assert(powers@[i].0 == self.powers@[i].0);
                assert(cloned::<usize>(self.powers@[i].1, powers@[i].1));
            }
            assert(powers@ =~= self.powers@);
        }
        FlopTerm { coefficient: self.coefficient, powers }
    }
}

/// The mathematical values of a list of terms.
pub open spec fn flop_views(s: Seq<FlopTerm>) -> Seq<FlopModel> {
    s.map_values(|t: FlopTerm| t@)
}

/// An exact sparse polynomial in problem-domain sizes.
///
/// Terms are canonicalized by combining equal powers and are ordered by
/// descending total degree. In the text form, `D0`, `D1`, and so on denote
/// the sizes of `DomainId(0)`, `DomainId(1)`, and so on.
#[derive(Debug, PartialEq, Eq)]
pub struct SymbolicFlops {
    terms: Vec<FlopTerm>,
}

impl View for SymbolicFlops {
    type V = Seq<FlopModel>;

    closed spec fn view(&self) -> Seq<FlopModel> {
        flop_views(self.terms@)
    }
}

impl Clone for SymbolicFlops {
    fn clone(&self) -> (r: Self)
        ensures
            r@ == self@,
    {
        let terms = self.terms.clone();
        proof {
            assert(flop_views(terms@) =~= flop_views(self.terms@));
        }
        SymbolicFlops { terms }
    }
}

impl Default for SymbolicFlops {
    fn default() -> (r: Self)
        ensures
            r@ == Seq::<FlopModel>::empty(),
    {
        let r = SymbolicFlops { terms: Vec::new() };
        assert(r@ =~= Seq::<FlopModel>::empty());
        r
    }
}

/// The number of leading terms whose total degree is `d`.
pub open spec fn leading_run(ts: Seq<FlopModel>, d: nat) -> nat
    decreases ts.len(),
{
    if ts.len() == 0 || degree(ts[0].1) != d {
        0
    } else {
        1 + leading_run(ts.drop_first(), d)
    }
}

/// The leading terms that share the first term's total degree.
pub open spec fn top_terms(ts: Seq<FlopModel>) -> Seq<FlopModel> {
    if ts.len() == 0 {
        Seq::empty()
    } else {
        ts.take(leading_run(ts, degree(ts[0].1)) as int)
    }
}

/// The largest exponent of `d` among `ts`; zero for no terms.
pub open spec fn max_exponent(ts: Seq<FlopModel>, d: DomainId) -> nat
    decreases ts.len(),
{
    if ts.len() == 0 {
        0
    } else {
        let rest = max_exponent(ts.drop_last(), d);
        let e = exponent_of(ts.last().1, d);
        if e > rest { e } else { rest }
    }
}

/// The terms of `ts` whose exponent of `d` is `e`, in order.
pub open spec fn with_exponent(ts: Seq<FlopModel>, d: DomainId, e: nat) -> Seq<FlopModel>
    decreases ts.len(),
{
    if ts.len() == 0 {
        Seq::empty()
    } else {
        let rest = with_exponent(ts.drop_last(), d, e);
        if exponent_of(ts.last().1, d) == e {
            rest.push(ts.last())
        } else {
            rest
        }
    }
}

/// The highest-order terms after breaking ties by the first `k` domains of
/// `order`: each keeps the terms with the largest exponent of its domain.
pub open spec fn survivors(ts: Seq<FlopModel>, order: Seq<DomainId>, k: nat) -> Seq<FlopModel>
    decreases k,
{
    if k == 0 {
        top_terms(ts)
    } else {
        let s = survivors(ts, order, (k - 1) as nat);
        with_exponent(s, order[k - 1], max_exponent(s, order[k - 1]))
    }
}

impl SymbolicFlops {
    /// Return the nonzero terms in this FLOP polynomial.
    pub fn terms(&self) -> (r: &Vec<FlopTerm>)
        ensures
            flop_views(r@) == self@,
    {
        &self.terms
    }

    /// Return whether this program has no modeled FLOPs.
    pub fn is_zero(&self) -> (r: bool)
        ensures
            r == (self@.len() == 0),
    {
        self.terms.len() == 0
    }

    /// Return the scaling degree when every domain size grows uniformly.
    ///
    /// The zero polynomial has no degree.
    pub fn uniform_degree(&self) -> (r: Option<usize>)
        ensures
            r == (if self@.len() == 0 { None } else { Some(degree(self@[0].1) as usize) }),
            self@.len() > 0 ==> degree(self@[0].1) <= usize::MAX,
    {
        if self.terms.len() == 0 {
            None
        } else {
            let d = self.terms[0].total_degree();
            Some(d)
        }
    }

    /// Return the largest exponent of one domain size.
    ///
    /// The zero polynomial has no degree in any domain. A nonzero polynomial
    /// independent of `domain` has degree zero.
    pub fn degree_in(&self, domain: DomainId) -> (r: Option<usize>)
        ensures
            r == (if self@.len() == 0 { None } else { Some(max_exponent(self@, domain) as usize) }),
    {
        if self.terms.len() == 0 {
            return None;
        }
        let mut best: usize = 0;
        let mut i: usize = 0;
        while i < self.terms.len()
            invariant
                i <= self.terms@.len(),
                best as nat == max_exponent(flop_views(self.terms@).subrange(0, i as int), domain),
            decreases self.terms@.len() - i,
        {
            let e = self.terms[i].exponent(domain);
            proof {
                let views = flop_views(self.terms@);
                assert(views.subrange(0, i + 1).drop_last() =~= views.subrange(0, i as int));
                assert(views.subrange(0, i + 1).last() == self.terms@[i as int]@);
            }
            if e > best {
                best = e;
            }
            i = i + 1;
        }
        proof {
            assert(flop_views(self.terms@).subrange(0, i as int) =~= self@);
        }
        Some(best)
    }

    /// Return the highest-order terms using the given domain order to break ties.
    ///
    /// Total degree is compared first. Terms tied on total degree are then
    /// compared lexicographically by exponent, with domains listed from most
    /// significant to least significant. An empty or partial `domain_order`
    /// can leave multiple terms tied. The zero polynomial returns an empty
    /// vector.
    pub fn highest_order_terms<'a>(&'a self, domain_order: &[DomainId]) -> (r: Vec<&'a FlopTerm>)
        ensures
            r@.map_values(|t: &FlopTerm| t@) == survivors(self@, domain_order@, domain_order@.len()),
    {
        let ghost all = self@;
        let mut kept: Vec<&FlopTerm> = Vec::new();
        if self.terms.len() > 0 {
            let d = self.terms[0].total_degree();
            let mut i: usize = 0;
            while i < self.terms.len() && self.terms[i].total_degree() == d
                invariant
                    all == flop_views(self.terms@),
                    all.len() > 0,
                    d == degree(all[0].1),
                    i <= all.len(),
                    forall|k: int| 0 <= k < i ==> degree(#[trigger] all[k].1) == d,
                    kept@.map_values(|t: &FlopTerm| t@) =~= all.take(i as int),
                decreases all.len() - i,
            {
                let ghost before = kept@;
                kept.push(&self.terms[i]);
                proof {
                    assert(all[i as int] == self.terms@[i as int]@);
                    assert(kept@.map_values(|t: &FlopTerm| t@) =~= before.map_values(|t: &FlopTerm| t@).push(all[i as int]));
                    assert(all.take(i + 1) =~= all.take(i as int).push(all[i as int]));
                }
                i = i + 1;
            }
            proof {
                lemma_leading_run(all, d as nat, i as int);
            }
        } else {
            assert(kept@.map_values(|t: &FlopTerm| t@) =~= top_terms(all));
        }
        let mut k: usize = 0;
        while k < domain_order.len()
            invariant
                all == self@,
                k <= domain_order@.len(),
                kept@.map_values(|t: &FlopTerm| t@) == survivors(all, domain_order@, k as nat),
            decreases domain_order@.len() - k,
        {
            let domain = domain_order[k];
            let ghost s = survivors(all, domain_order@, k as nat);
            let mut best: usize = 0;
            let mut i: usize = 0;
            while i < kept.len()
                invariant
                    s == kept@.map_values(|t: &FlopTerm| t@),
                    i <= kept@.len(),
                    best as nat == max_exponent(s.subrange(0, i as int), domain),
                decreases kept@.len() - i,
            {
                let e = kept[i].exponent(domain);
                proof {
                    assert(s.subrange(0, i + 1).drop_last() =~= s.subrange(0, i as int));
                }
                if e > best {
                    best = e;
                }
                i = i + 1;
            }
            proof {
                assert(s.subrange(0, i as int) =~= s);
            }
            let mut next: Vec<&FlopTerm> = Vec::new();
            let mut j: usize = 0;
            while j < kept.len()
                invariant
                    s == kept@.map_values(|t: &FlopTerm| t@),
                    j <= kept@.len(),
                    best as nat == max_exponent(s, domain),
                    next@.map_values(|t: &FlopTerm| t@) == with_exponent(s.subrange(0, j as int), domain, best as nat),
                decreases kept@.len() - j,
            {
                let ghost before = next@;
                proof {
                    assert(s.subrange(0, j + 1).drop_last() =~= s.subrange(0, j as int));
                }
                if kept[j].exponent(domain) == best {
                    next.push(kept[j]);
                    proof {
                        assert(next@.map_values(|t: &FlopTerm| t@) =~= before.map_values(|t: &FlopTerm| t@).push(kept@[j as int]@));
                    }
                }
                j = j + 1;
            }
            proof {
                assert(s.subrange(0, j as int) =~= s);
            }
            kept = next;
            k = k + 1;
        }
        kept
    }
}

proof fn lemma_leading_run(ts: Seq<FlopModel>, d: nat, i: int)
    requires
        0 <= i <= ts.len(),
        forall|k: int| 0 <= k < i ==> degree(#[trigger] ts[k].1) == d,
        i == ts.len() || degree(ts[i].1) != d,
    ensures
        leading_run(ts, d) == i,
    decreases i,
{
    if i > 0 {
        assert forall|k: int| 0 <= k < i - 1 implies degree(#[trigger] ts.drop_first()[k].1) == d by {
            assert(ts.drop_first()[k] == ts[k + 1]);
        }
        if i < ts.len() {
            assert(ts.drop_first()[i - 1] == ts[i]);
        }
        lemma_leading_run(ts.drop_first(), d, i - 1);
        assert(degree(ts[0].1) == d);
    }
}

// ---------------------------------------------------------------------------
// The FLOP polynomial of a program.
// ---------------------------------------------------------------------------

/// A definition is charged when it costs at least one operation.
pub open spec fn charged(def: ValueDef) -> bool {
    operation_count(def) > 0
}

/// Some charged definition of `values` has monomial `p`.
pub open spec fn is_flop_monomial(values: Seq<ValueDef>, p: Seq<(DomainId, usize)>) -> bool {
    exists|v: int| 0 <= v < values.len() && charged(#[trigger] values[v]) && monomial(values[v].code_of()) == p
}

/// The operations charged to definitions of `values` with monomial `p`.
pub open spec fn monomial_weight(values: Seq<ValueDef>, p: Seq<(DomainId, usize)>) -> nat
    decreases values.len(),
{
    if values.len() == 0 {
        0
    } else {
        monomial_weight(values.drop_last(), p) + if charged(values.last()) && monomial(values.last().code_of()) == p {
            operation_count(values.last())
        } else {
            0nat
        }
    }
}

/// Terms in strictly descending monomial order.
pub open spec fn flop_descending(ts: Seq<FlopModel>) -> bool {
    forall|i: int, j: int| 0 <= i < j < ts.len() ==> flop_order((#[trigger] ts[i]).1, (#[trigger] ts[j]).1) == Order::Greater
}

/// `ts` is the FLOP polynomial of `values`: one term per monomial of a
/// charged definition, whose coefficient is the operations charged to that
/// monomial, in descending order of total degree and then of monomial.
pub open spec fn flop_terms_of(values: Seq<ValueDef>, ts: Seq<FlopModel>) -> bool {
    &&& flop_descending(ts)
    &&& forall|i: int| 0 <= i < ts.len() ==> is_flop_monomial(values, (#[trigger] ts[i]).1) && ts[i].0 == monomial_weight(values, ts[i].1)
    &&& forall|p: Seq<(DomainId, usize)>| is_flop_monomial(values, p) ==> exists|i: int| 0 <= i < ts.len() && (#[trigger] ts[i]).1 == p
}

/// Some term of `ts` has monomial `p`.
pub open spec fn present(ts: Seq<FlopModel>, p: Seq<(DomainId, usize)>) -> bool {
    exists|i: int| 0 <= i < ts.len() && ts[i].1 == p
}

/// The coefficient of monomial `p` in `ts`; zero when absent.
pub open spec fn weight_in(ts: Seq<FlopModel>, p: Seq<(DomainId, usize)>) -> nat {
    if present(ts, p) {
        ts[choose|i: int| 0 <= i < ts.len() && ts[i].1 == p].0
    } else {
        0
    }
}

proof fn lemma_weight_at(ts: Seq<FlopModel>, i: int)
    requires
        flop_descending(ts),
        0 <= i < ts.len(),
    ensures
        present(ts, ts[i].1),
        weight_in(ts, ts[i].1) == ts[i].0,
{
    let j = choose|j: int| 0 <= j < ts.len() && ts[j].1 == ts[i].1;
    if j != i {
        lemma_flop_order(ts[i].1, ts[j].1, ts[j].1);
        if i < j {
            assert(flop_order(ts[i].1, ts[j].1) == Order::Greater);
        } else {
            assert(flop_order(ts[j].1, ts[i].1) == Order::Greater);
        }
    }
}

/// The one term with coefficient `c` and monomial `p` joins `ts`.
fn term_order(t: &FlopTerm, p: &IdMap<DomainId, usize>) -> (r: Order)
    requires
        degree(p@) <= usize::MAX,
    ensures
        r == flop_order(t@.1, p@),
{
    proof {
        use_type_invariant(t);
    }
    compare_monomials(&t.powers, p)
}

/// Adds `coefficient` times the monomial `powers` to the sorted terms.
fn add_term(terms: &mut Vec<FlopTerm>, coefficient: u128, powers: IdMap<DomainId, usize>)
    requires
        flop_descending(flop_views(old(terms)@)),
        degree(powers@) <= usize::MAX,
        weight_in(flop_views(old(terms)@), powers@) + coefficient <= u128::MAX,
    ensures
        flop_descending(flop_views(final(terms)@)),
        forall|q: Seq<(DomainId, usize)>| #[trigger] present(flop_views(final(terms)@), q) <==> present(flop_views(old(terms)@), q) || q == powers@,
        forall|q: Seq<(DomainId, usize)>| #[trigger] weight_in(flop_views(final(terms)@), q)
            == weight_in(flop_views(old(terms)@), q) + if q == powers@ { coefficient as nat } else { 0nat },
{
    let ghost before = flop_views(terms@);
    let ghost p = powers@;
    let mut i: usize = 0;
    while i < terms.len() && term_order(&terms[i], &powers) == Order::Greater
        invariant
            before == flop_views(terms@),
            p == powers@,
            degree(p) <= usize::MAX,
            i <= terms@.len(),
            forall|k: int| 0 <= k < i ==> flop_order((#[trigger] before[k]).1, p) == Order::Greater,
        decreases terms@.len() - i,
    {
        i = i + 1;
    }
    if i < terms.len() && term_order(&terms[i], &powers) == Order::Equal {
        proof {
            lemma_flop_order(before[i as int].1, p, p);
            lemma_weight_at(before, i as int);
        }
        let existing = terms.remove(i);
        proof {
            use_type_invariant(&existing);
        }
        let merged = FlopTerm { coefficient: existing.coefficient + coefficient, powers: existing.powers };
        terms.insert(i, merged);
        proof {
            assert(flop_views(terms@) =~= before.update(i as int, ((before[i as int].0 + coefficient) as nat, p)));
            lemma_update_term(before, i as int, coefficient as nat, p);
        }
    } else {
        proof {
            if i < terms.len() {
                lemma_flop_order(before[i as int].1, p, p);
                assert(flop_order(p, before[i as int].1) == Order::Greater);
            }
        }
        let term = FlopTerm { coefficient, powers };
        terms.insert(i, term);
        proof {
            assert(flop_views(terms@) =~= before.insert(i as int, (coefficient as nat, p)));
            lemma_insert_term(before, i as int, coefficient as nat, p);
        }
    }
}

proof fn lemma_update_term(before: Seq<FlopModel>, i: int, c: nat, p: Seq<(DomainId, usize)>)
    requires
        flop_descending(before),
        0 <= i < before.len(),
        before[i].1 == p,
    ensures
        flop_descending(before.update(i, ((before[i].0 + c) as nat, p))),
        forall|q: Seq<(DomainId, usize)>| #[trigger] present(before.update(i, ((before[i].0 + c) as nat, p)), q) <==> present(before, q) || q == p,
        forall|q: Seq<(DomainId, usize)>| #[trigger] weight_in(before.update(i, ((before[i].0 + c) as nat, p)), q)
            == weight_in(before, q) + if q == p { c } else { 0nat },
{
    let after = before.update(i, ((before[i].0 + c) as nat, p));
    lemma_weight_at(before, i);
    assert(flop_descending(after)) by {
        assert forall|x: int, y: int| 0 <= x < y < after.len() implies flop_order((#[trigger] after[x]).1, (#[trigger] after[y]).1) == Order::Greater by {
            assert(after[x].1 == before[x].1);
            assert(after[y].1 == before[y].1);
        }
    }
    assert forall|q: Seq<(DomainId, usize)>| #[trigger] present(after, q) <==> present(before, q) || q == p by {
        if present(after, q) {
            let j = choose|j: int| 0 <= j < after.len() && after[j].1 == q;
            assert(before[j].1 == q);
        }
        if present(before, q) {
            let j = choose|j: int| 0 <= j < before.len() && before[j].1 == q;
            assert(after[j].1 == q);
        }
        if q == p {
            assert(after[i].1 == q);
        }
    }
    assert forall|q: Seq<(DomainId, usize)>| #[trigger] weight_in(after, q) == weight_in(before, q) + if q == p { c } else { 0nat } by {
        if present(before, q) {
            let j = choose|j: int| 0 <= j < before.len() && before[j].1 == q;
            lemma_weight_at(before, j);
            lemma_weight_at(after, j);
            if q == p && j != i {
                lemma_flop_order(before[i].1, before[j].1, before[j].1);
                if i < j {
                    assert(flop_order(before[i].1, before[j].1) == Order::Greater);
                } else {
                    assert(flop_order(before[j].1, before[i].1) == Order::Greater);
                }
            }
        } else {
            if present(after, q) {
                let j = choose|j: int| 0 <= j < after.len() && after[j].1 == q;
                assert(before[j].1 == q);
            }
        }
    }
}

proof fn lemma_insert_term(before: Seq<FlopModel>, i: int, c: nat, p: Seq<(DomainId, usize)>)
    requires
        flop_descending(before),
        0 <= i <= before.len(),
        forall|k: int| 0 <= k < i ==> flop_order((#[trigger] before[k]).1, p) == Order::Greater,
        i < before.len() ==> flop_order(p, before[i].1) == Order::Greater,
    ensures
        flop_descending(before.insert(i, (c, p))),
        forall|q: Seq<(DomainId, usize)>| #[trigger] present(before.insert(i, (c, p)), q) <==> present(before, q) || q == p,
        forall|q: Seq<(DomainId, usize)>| #[trigger] weight_in(before.insert(i, (c, p)), q)
            == weight_in(before, q) + if q == p { c } else { 0nat },
{
    let after = before.insert(i, (c, p));
    assert(!present(before, p)) by {
        if present(before, p) {
            let j = choose|j: int| 0 <= j < before.len() && before[j].1 == p;
            lemma_flop_order(p, p, p);
            if j > i {
                assert(flop_order(before[i].1, before[j].1) == Order::Greater);
                lemma_flop_order(p, before[i].1, before[j].1);
            }
        }
    }
    assert(flop_descending(after)) by {
        assert forall|x: int, y: int| 0 <= x < y < after.len() implies flop_order((#[trigger] after[x]).1, (#[trigger] after[y]).1) == Order::Greater by {
            if y < i {
                assert(after[x] == before[x] && after[y] == before[y]);
            } else if y == i {
                assert(after[x] == before[x]);
            } else if x < i {
                assert(after[x] == before[x] && after[y] == before[y - 1]);
                if y - 1 > i {
                    assert(flop_order(before[i].1, before[y - 1].1) == Order::Greater);
                    lemma_flop_order(p, before[i].1, before[y - 1].1);
                }
                lemma_flop_order(before[x].1, p, before[y - 1].1);
            } else if x == i {
                assert(after[y] == before[y - 1]);
                if y - 1 > i {
                    assert(flop_order(before[i].1, before[y - 1].1) == Order::Greater);
                    lemma_flop_order(p, before[i].1, before[y - 1].1);
                }
            } else {
                assert(after[x] == before[x - 1] && after[y] == before[y - 1]);
            }
        }
    }
    assert forall|q: Seq<(DomainId, usize)>| #[trigger] present(after, q) <==> present(before, q) || q == p by {
        if present(after, q) {
            let j = choose|j: int| 0 <= j < after.len() && after[j].1 == q;
            if j < i {
                assert(before[j].1 == q);
            } else if j > i {
                assert(before[j - 1].1 == q);
            }
        }
        if present(before, q) {
            let j = choose|j: int| 0 <= j < before.len() && before[j].1 == q;
            if j < i {
                assert(after[j].1 == q);
            } else {
                assert(after[j + 1].1 == q);
            }
        }
        if q == p {
            assert(after[i].1 == q);
        }
    }
    assert forall|q: Seq<(DomainId, usize)>| #[trigger] weight_in(after, q) == weight_in(before, q) + if q == p { c } else { 0nat } by {
        if q == p {
            lemma_weight_at(after, i);
        } else if present(before, q) {
            let j = choose|j: int| 0 <= j < before.len() && before[j].1 == q;
            lemma_weight_at(before, j);
            if j < i {
                assert(after[j] == before[j]);
                lemma_weight_at(after, j);
            } else {
                assert(after[j + 1] == before[j]);
                lemma_weight_at(after, j + 1);
            }
        } else {
            if present(after, q) {
                let j = choose|j: int| 0 <= j < after.len() && after[j].1 == q;
                if j < i {
                    assert(before[j].1 == q);
                } else if j > i {
                    assert(before[j - 1].1 == q);
                }
            }
        }
    }
}

proof fn lemma_weight_absent(values: Seq<ValueDef>, p: Seq<(DomainId, usize)>)
    requires
        !is_flop_monomial(values, p),
    ensures
        monomial_weight(values, p) == 0,
    decreases values.len(),
{
    if values.len() > 0 {
        let rest = values.drop_last();
        assert(!is_flop_monomial(rest, p)) by {
            if is_flop_monomial(rest, p) {
                let v = choose|v: int| 0 <= v < rest.len() && charged(#[trigger] rest[v]) && monomial(rest[v].code_of()) == p;
                assert(values[v] == rest[v]);
            }
        }
        lemma_weight_absent(rest, p);
        assert(values.last() == values[values.len() - 1]);
    }
}

proof fn lemma_weight_bound(values: Seq<ValueDef>, p: Seq<(DomainId, usize)>)
    ensures
        monomial_weight(values, p) <= values.len() * usize::MAX,
    decreases values.len(),
{
    if values.len() > 0 {
        lemma_weight_bound(values.drop_last(), p);
        crate::validity::lemma_def_lens(values.last());
        assert(operation_count(values.last()) <= usize::MAX);
        assert((values.len() - 1) * usize::MAX + usize::MAX == values.len() * usize::MAX) by (nonlinear_arith);
    }
}

proof fn lemma_prefix_step(values: Seq<ValueDef>, v: int, p: Seq<(DomainId, usize)>)
    requires
        0 <= v < values.len(),
    ensures
        monomial_weight(values.subrange(0, v + 1), p) == monomial_weight(values.subrange(0, v), p)
            + if charged(values[v]) && monomial(values[v].code_of()) == p { operation_count(values[v]) } else { 0nat },
        is_flop_monomial(values.subrange(0, v + 1), p) <==> is_flop_monomial(values.subrange(0, v), p)
            || (charged(values[v]) && monomial(values[v].code_of()) == p),
{
    let s = values.subrange(0, v);
    let s1 = values.subrange(0, v + 1);
    assert(s1.drop_last() =~= s);
    assert(s1.last() == values[v]);
    if is_flop_monomial(s1, p) {
        let w = choose|w: int| 0 <= w < s1.len() && charged(#[trigger] s1[w]) && monomial(s1[w].code_of()) == p;
        if w < v {
            assert(s[w] == s1[w]);
        }
    }
    if is_flop_monomial(s, p) {
        let w = choose|w: int| 0 <= w < s.len() && charged(#[trigger] s[w]) && monomial(s[w].code_of()) == p;
        assert(s1[w] == s[w]);
    }
    if charged(values[v]) && monomial(values[v].code_of()) == p {
        assert(s1[v] == values[v]);
    }
}

/// Calculate a candidate's exact FLOP count as a polynomial in domain sizes.
///
/// Every SSA definition is charged once. Tensor multiplications and additions
/// are counted, while multiplication by numeric coefficients, copying, and
/// initialization are ignored. Equal monomials are combined. A computation
/// containing only unmodeled operations returns the zero polynomial.
pub fn symbolic_flops(problem: &Problem, candidate: &Program) -> (r: Result<SymbolicFlops, ValidationError>)
    ensures
        match problem_validation(*problem) {
            Err(e) => r == Err::<SymbolicFlops, ValidationError>(e),
            Ok(_) => match program_validation(problem.sizes, problem.symmetries, *candidate) {
                Err(e) => r == Err::<SymbolicFlops, ValidationError>(e),
                Ok(_) => r is Ok && flop_terms_of(candidate.values@, r->Ok_0@) && flop_positive(r->Ok_0@),
            },
        },
{
    match validate(problem) {
        Err(e) => {
            return Err(e);
        },
        Ok(()) => {},
    }
    match validate_program(&problem.sizes, &problem.symmetries, candidate) {
        Err(e) => {
            return Err(e);
        },
        Ok(()) => {},
    }
    let ghost values = candidate.values@;
    proof {
        crate::search::lemma_first_match_ensures(problem.sizes@.len() as int, |i: int| problem.sizes@[i].1 == 0);
        assert(values.len() <= u32::MAX + 1);
    }
    let mut terms: Vec<FlopTerm> = Vec::new();
    let mut v: usize = 0;
    while v < candidate.values.len()
        invariant
            values == candidate.values@,
            values.len() <= u32::MAX + 1,
            v <= values.len(),
            flop_descending(flop_views(terms@)),
            forall|q: Seq<(DomainId, usize)>| #[trigger] present(flop_views(terms@), q) <==> is_flop_monomial(values.subrange(0, v as int), q),
            forall|q: Seq<(DomainId, usize)>| #[trigger] weight_in(flop_views(terms@), q) == monomial_weight(values.subrange(0, v as int), q),
            forall|u: int| 0 <= u < v && charged(#[trigger] values[u]) ==>
                is_monomial(monomial(values[u].code_of()), values[u].code_of().domains@),
        decreases values.len() - v,
    {
        let def = &candidate.values[v];
        let operations = count_operations(def);
        let ghost before = flop_views(terms@);
        if operations > 0 {
            let (code, _) = def.parts();
            let powers = code_monomial(code);
            proof {
                lemma_weight_bound(values.subrange(0, v as int), powers@);
                assert(v * usize::MAX + usize::MAX <= u128::MAX) by (nonlinear_arith)
                    requires
                        v + 1 <= 0x1_0000_0000,
                ;
            }
            add_term(&mut terms, operations as u128, powers);
            proof {
                assert(values[v as int] == *def);
            }
        }
        proof {
            assert forall|q: Seq<(DomainId, usize)>| #[trigger] present(flop_views(terms@), q) <==> is_flop_monomial(values.subrange(0, v + 1), q) by {
                lemma_prefix_step(values, v as int, q);
            }
            assert forall|q: Seq<(DomainId, usize)>| #[trigger] weight_in(flop_views(terms@), q) == monomial_weight(values.subrange(0, v + 1), q) by {
                lemma_prefix_step(values, v as int, q);
            }
        }
        v = v + 1;
    }
    let result = SymbolicFlops { terms };
    proof {
        assert(values.subrange(0, v as int) =~= values);
        let ts = result@;
        assert forall|i: int| 0 <= i < ts.len() implies is_flop_monomial(values, (#[trigger] ts[i]).1) && ts[i].0 == monomial_weight(values, ts[i].1) by {
            lemma_weight_at(ts, i);
        }
        assert forall|p: Seq<(DomainId, usize)>| is_flop_monomial(values, p) implies exists|i: int| 0 <= i < ts.len() && (#[trigger] ts[i]).1 == p by {
            assert(present(ts, p));
        }
        assert forall|u: int| 0 <= u < values.len() implies (#[trigger] values[u]).code_of().domains@.len() <= usize::MAX by {
            values[u].code_of().domains.lemma_len_fits();
        }
        lemma_flop_terms_positive(values, ts);
    }
    Ok(result)
}

proof fn lemma_descending_rest(a: Seq<FlopModel>, q: Seq<(DomainId, usize)>)
    requires
        flop_descending(a),
        a.len() > 0,
    ensures
        flop_descending(a.drop_first()),
        present(a.drop_first(), q) <==> present(a, q) && q != a[0].1,
{
    let a1 = a.drop_first();
    assert forall|x: int, y: int| 0 <= x < y < a1.len() implies flop_order((#[trigger] a1[x]).1, (#[trigger] a1[y]).1) == Order::Greater by {
        assert(a1[x] == a[x + 1] && a1[y] == a[y + 1]);
    }
    if present(a1, q) {
        let j = choose|j: int| 0 <= j < a1.len() && a1[j].1 == q;
        assert(a[j + 1].1 == q);
        assert(flop_order(a[0].1, a[j + 1].1) == Order::Greater);
        lemma_flop_order(q, q, q);
    }
    if present(a, q) && q != a[0].1 {
        let j = choose|j: int| 0 <= j < a.len() && a[j].1 == q;
        assert(j != 0);
        assert(a1[j - 1].1 == q);
    }
}

proof fn lemma_descending_same(a: Seq<FlopModel>, b: Seq<FlopModel>)
    requires
        flop_descending(a),
        flop_descending(b),
        forall|q: Seq<(DomainId, usize)>| #[trigger] present(a, q) <==> present(b, q),
    ensures
        a.len() == b.len(),
        forall|i: int| 0 <= i < a.len() ==> (#[trigger] a[i]).1 == b[i].1,
    decreases a.len(),
{
    if a.len() > 0 && b.len() > 0 {
        let x = a[0].1;
        let y = b[0].1;
        assert(present(a, x));
        assert(present(b, y));
        assert(present(b, x));
        assert(present(a, y));
        let j = choose|j: int| 0 <= j < b.len() && b[j].1 == x;
        let i = choose|i: int| 0 <= i < a.len() && a[i].1 == y;
        if x != y {
            lemma_flop_order(x, y, x);
            if j > 0 {
                assert(flop_order(b[0].1, b[j].1) == Order::Greater);
            }
            if i > 0 {
                assert(flop_order(a[0].1, a[i].1) == Order::Greater);
            }
            assert(false);
        }
        assert forall|q: Seq<(DomainId, usize)>| #[trigger] present(a.drop_first(), q) <==> present(b.drop_first(), q) by {
            lemma_descending_rest(a, q);
            lemma_descending_rest(b, q);
        }
        lemma_descending_rest(a, x);
        lemma_descending_rest(b, x);
        lemma_descending_same(a.drop_first(), b.drop_first());
        assert forall|k: int| 0 <= k < a.len() implies (#[trigger] a[k]).1 == b[k].1 by {
            if k > 0 {
                assert(a[k] == a.drop_first()[k - 1]);
                assert(b[k] == b.drop_first()[k - 1]);
            }
        }
    } else if a.len() > 0 {
        assert(present(a, a[0].1));
        assert(present(b, a[0].1));
        let j = choose|j: int| 0 <= j < b.len() && b[j].1 == a[0].1;
        assert(false);
    } else if b.len() > 0 {
        assert(present(b, b[0].1));
        assert(present(a, b[0].1));
        let j = choose|j: int| 0 <= j < a.len() && a[j].1 == b[0].1;
        assert(false);
    }
}

/// Every coefficient is positive and every exponent listed is positive.
pub open spec fn flop_positive(ts: Seq<FlopModel>) -> bool {
    forall|i: int| 0 <= i < ts.len() ==> (#[trigger] ts[i]).0 > 0
        && forall|j: int| 0 <= j < ts[i].1.len() ==> (#[trigger] ts[i].1[j]).1 > 0
}

proof fn lemma_weight_positive(values: Seq<ValueDef>, p: Seq<(DomainId, usize)>, v: int)
    requires
        0 <= v < values.len(),
        charged(values[v]),
        monomial(values[v].code_of()) == p,
    ensures
        monomial_weight(values, p) > 0,
    decreases values.len(),
{
    if v < values.len() - 1 {
        assert(values.drop_last()[v] == values[v]);
        lemma_weight_positive(values.drop_last(), p, v);
    }
}

/// The FLOP polynomial of definitions whose monomials exist has positive
/// coefficients and no zero exponent.
proof fn lemma_flop_terms_positive(values: Seq<ValueDef>, ts: Seq<FlopModel>)
    requires
        flop_terms_of(values, ts),
        forall|v: int| 0 <= v < values.len() && charged(#[trigger] values[v]) ==>
            is_monomial(monomial(values[v].code_of()), values[v].code_of().domains@),
        forall|v: int| 0 <= v < values.len() ==> (#[trigger] values[v]).code_of().domains@.len() <= usize::MAX,
    ensures
        flop_positive(ts),
{
    assert forall|i: int| 0 <= i < ts.len() implies (#[trigger] ts[i]).0 > 0
        && forall|j: int| 0 <= j < ts[i].1.len() ==> (#[trigger] ts[i].1[j]).1 > 0 by {
        assert(is_flop_monomial(values, ts[i].1));
        let v = choose|v: int| 0 <= v < values.len() && charged(#[trigger] values[v]) && monomial(values[v].code_of()) == ts[i].1;
        lemma_weight_positive(values, ts[i].1, v);
        let p = ts[i].1;
        let entries = values[v].code_of().domains@;
        assert(is_monomial(p, entries));
        assert forall|j: int| 0 <= j < p.len() implies (#[trigger] p[j]).1 > 0 by {
            lemma_lookup_at(p, j);
            assert(lookup(p, p[j].0) == count_of(entries, p[j].0));
            lemma_domain_count_bound(entries, p[j].0);
        }
    }
}

/// The FLOP polynomial of a list of definitions is unique.
pub proof fn lemma_flop_terms_unique(values: Seq<ValueDef>, a: Seq<FlopModel>, b: Seq<FlopModel>)
    requires
        flop_terms_of(values, a),
        flop_terms_of(values, b),
    ensures
        a == b,
{
    assert forall|q: Seq<(DomainId, usize)>| #[trigger] present(a, q) <==> present(b, q) by {
        if present(a, q) {
            let i = choose|i: int| 0 <= i < a.len() && a[i].1 == q;
            assert(is_flop_monomial(values, a[i].1));
            let j = choose|j: int| 0 <= j < b.len() && (#[trigger] b[j]).1 == q;
        }
        if present(b, q) {
            let i = choose|i: int| 0 <= i < b.len() && b[i].1 == q;
            assert(is_flop_monomial(values, b[i].1));
            let j = choose|j: int| 0 <= j < a.len() && (#[trigger] a[j]).1 == q;
        }
    }
    lemma_descending_same(a, b);
    assert forall|i: int| 0 <= i < a.len() implies a[i] == b[i] by {
        assert(a[i].1 == b[i].1);
        assert(a[i].0 == monomial_weight(values, a[i].1));
        assert(b[i].0 == monomial_weight(values, b[i].1));
    }
    assert(a =~= b);
}

} // verus!
