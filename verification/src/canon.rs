//! Canonicalization of expanded tensor polynomials.

use vstd::prelude::*;

use crate::expand::{
    factors_view, pairs_map, rename_factors, rename_in_factors, rename_visit_all, rename_visit_factors, Factor,
    FactorModel, Index, Polynomial, RenameState, Term, TermModel, PolyModel, terms_view,
};
use crate::id_map::{lookup, IdMap};
use crate::model::{SymmetryGenerator, TensorId};
use crate::rational::{rat_add, rat_neg};
use crate::search::{first_match, lemma_first_found, lemma_first_none};
use crate::symmetry::{
    variant_count,
    factor_symmetry_candidates, gens_ok, identity_perm, is_variant, is_word, lemma_variant_shape, permute,
    variant_by, variant_view, variant_views,
};

verus! {

/// The result of comparing two term bodies.
#[derive(Clone, Copy, Debug, PartialEq, Eq, Structural)]
pub enum Order {
    Less,
    Equal,
    Greater,
}

// ---------------------------------------------------------------------------
// The order on term bodies.
// ---------------------------------------------------------------------------

/// Indices are ordered by ID, then by domain.
pub open spec fn index_order(a: Index, b: Index) -> Order {
    if a.id < b.id {
        Order::Less
    } else if a.id > b.id {
        Order::Greater
    } else if a.domain.0 < b.domain.0 {
        Order::Less
    } else if a.domain.0 > b.domain.0 {
        Order::Greater
    } else {
        Order::Equal
    }
}

/// Lexicographic order on ID sequences; a proper prefix comes first.
pub open spec fn lex_ids(a: Seq<u32>, b: Seq<u32>) -> Order
    decreases a.len(),
{
    if a.len() == 0 {
        if b.len() == 0 { Order::Equal } else { Order::Less }
    } else if b.len() == 0 {
        Order::Greater
    } else if a[0] < b[0] {
        Order::Less
    } else if a[0] > b[0] {
        Order::Greater
    } else {
        lex_ids(a.drop_first(), b.drop_first())
    }
}

/// Lexicographic order on index sequences; a proper prefix comes first.
pub open spec fn lex_indices(a: Seq<Index>, b: Seq<Index>) -> Order
    decreases a.len(),
{
    if a.len() == 0 {
        if b.len() == 0 { Order::Equal } else { Order::Less }
    } else if b.len() == 0 {
        Order::Greater
    } else if index_order(a[0], b[0]) != Order::Equal {
        index_order(a[0], b[0])
    } else {
        lex_indices(a.drop_first(), b.drop_first())
    }
}

/// The tensor IDs of a body, in factor order.
pub open spec fn tensor_ids(fs: Seq<FactorModel>) -> Seq<u32> {
    fs.map_values(|f: FactorModel| f.tensor.0)
}

/// The indices of a body, factor by factor and slot by slot.
pub open spec fn all_indices(fs: Seq<FactorModel>) -> Seq<Index>
    decreases fs.len(),
{
    if fs.len() == 0 {
        Seq::empty()
    } else {
        all_indices(fs.drop_last()) + fs.last().indices
    }
}

/// Bodies are compared by all their tensor IDs first, then all their indices.
pub open spec fn body_order(a: Seq<FactorModel>, b: Seq<FactorModel>) -> Order {
    match lex_ids(tensor_ids(a), tensor_ids(b)) {
        Order::Equal => lex_indices(all_indices(a), all_indices(b)),
        o => o,
    }
}

/// The flipped comparison.
pub open spec fn flip(o: Order) -> Order {
    match o {
        Order::Less => Order::Greater,
        Order::Equal => Order::Equal,
        Order::Greater => Order::Less,
    }
}

proof fn lemma_lex_ids(a: Seq<u32>, b: Seq<u32>, c: Seq<u32>)
    ensures
        lex_ids(a, b) == Order::Equal <==> a == b,
        lex_ids(b, a) == flip(lex_ids(a, b)),
        lex_ids(a, b) == Order::Less && lex_ids(b, c) == Order::Less ==> lex_ids(a, c) == Order::Less,
    decreases a.len(),
{
    if a.len() > 0 && b.len() > 0 && c.len() > 0 {
        lemma_lex_ids(a.drop_first(), b.drop_first(), c.drop_first());
    } else if a.len() > 0 && b.len() > 0 {
        lemma_lex_ids(a.drop_first(), b.drop_first(), c);
    }
    if a.len() > 0 && b.len() > 0 && a[0] == b[0] && a.drop_first() == b.drop_first() {
        assert(a =~= seq![a[0]] + a.drop_first());
        assert(b =~= seq![b[0]] + b.drop_first());
    }
    if a.len() == 0 && b.len() == 0 {
        assert(a =~= b);
    }
}

proof fn lemma_lex_indices(a: Seq<Index>, b: Seq<Index>, c: Seq<Index>)
    ensures
        lex_indices(a, b) == Order::Equal <==> a == b,
        lex_indices(b, a) == flip(lex_indices(a, b)),
        lex_indices(a, b) == Order::Less && lex_indices(b, c) == Order::Less ==> lex_indices(a, c) == Order::Less,
    decreases a.len(),
{
    if a.len() > 0 && b.len() > 0 && c.len() > 0 {
        lemma_lex_indices(a.drop_first(), b.drop_first(), c.drop_first());
    } else if a.len() > 0 && b.len() > 0 {
        lemma_lex_indices(a.drop_first(), b.drop_first(), c);
    }
    if a.len() > 0 && b.len() > 0 && a[0] == b[0] && a.drop_first() == b.drop_first() {
        assert(a =~= seq![a[0]] + a.drop_first());
        assert(b =~= seq![b[0]] + b.drop_first());
    }
    if a.len() == 0 && b.len() == 0 {
        assert(a =~= b);
    }
}

/// The order on bodies is a total preorder whose ties share tensor IDs and indices.
pub proof fn lemma_body_order(a: Seq<FactorModel>, b: Seq<FactorModel>, c: Seq<FactorModel>)
    ensures
        body_order(a, b) == Order::Equal <==> tensor_ids(a) == tensor_ids(b) && all_indices(a) == all_indices(b),
        body_order(b, a) == flip(body_order(a, b)),
        body_order(a, b) == Order::Less && body_order(b, c) == Order::Less ==> body_order(a, c) == Order::Less,
        body_order(a, b) == Order::Equal && body_order(b, c) == Order::Less ==> body_order(a, c) == Order::Less,
        body_order(a, b) == Order::Less && body_order(b, c) == Order::Equal ==> body_order(a, c) == Order::Less,
{
    lemma_lex_ids(tensor_ids(a), tensor_ids(b), tensor_ids(c));
    lemma_lex_ids(tensor_ids(b), tensor_ids(c), tensor_ids(a));
    lemma_lex_ids(tensor_ids(a), tensor_ids(c), tensor_ids(b));
    lemma_lex_indices(all_indices(a), all_indices(b), all_indices(c));
    lemma_lex_indices(all_indices(b), all_indices(c), all_indices(a));
    lemma_lex_indices(all_indices(a), all_indices(c), all_indices(b));
}

fn body_tensor_ids(fs: &Vec<Factor>) -> (r: Vec<u32>)
    ensures
        r@ == tensor_ids(factors_view(fs@)),
{
    let mut r: Vec<u32> = Vec::new();
    let mut i: usize = 0;
    while i < fs.len()
        invariant
            i <= fs@.len(),
            r@ =~= tensor_ids(factors_view(fs@)).subrange(0, i as int),
        decreases fs@.len() - i,
    {
        r.push(fs[i].tensor.0);
        i = i + 1;
        assert(r@ =~= tensor_ids(factors_view(fs@)).subrange(0, i as int));
    }
    assert(tensor_ids(factors_view(fs@)).subrange(0, i as int) =~= tensor_ids(factors_view(fs@)));
    r
}

fn body_indices(fs: &Vec<Factor>) -> (r: Vec<Index>)
    ensures
        r@ == all_indices(factors_view(fs@)),
{
    let mut r: Vec<Index> = Vec::new();
    let mut i: usize = 0;
    while i < fs.len()
        invariant
            i <= fs@.len(),
            r@ =~= all_indices(factors_view(fs@).subrange(0, i as int)),
        decreases fs@.len() - i,
    {
        let ghost before = r@;
        let factor = &fs[i];
        let mut j: usize = 0;
        while j < factor.indices.len()
            invariant
                j <= factor.indices@.len(),
                r@ =~= before + factor.indices@.subrange(0, j as int),
            decreases factor.indices@.len() - j,
        {
            r.push(factor.indices[j]);
            j = j + 1;
            assert(r@ =~= before + factor.indices@.subrange(0, j as int));
        }
        assert(factor.indices@.subrange(0, j as int) =~= factor.indices@);
        assert(factors_view(fs@).subrange(0, i + 1).drop_last() =~= factors_view(fs@).subrange(0, i as int));
        i = i + 1;
    }
    assert(factors_view(fs@).subrange(0, i as int) =~= factors_view(fs@));
    r
}

fn compare_ids(a: &Vec<u32>, b: &Vec<u32>) -> (r: Order)
    ensures
        r == lex_ids(a@, b@),
{
    let mut i: usize = 0;
    assert(a@.skip(0) =~= a@);
    assert(b@.skip(0) =~= b@);
    loop
        invariant
            i <= a@.len(),
            i <= b@.len(),
            lex_ids(a@, b@) == lex_ids(a@.skip(i as int), b@.skip(i as int)),
        decreases a@.len() - i,
    {
        if i == a.len() {
            return if i == b.len() { Order::Equal } else { Order::Less };
        }
        if i == b.len() {
            return Order::Greater;
        }
        if a[i] < b[i] {
            return Order::Less;
        }
        if a[i] > b[i] {
            return Order::Greater;
        }
        assert(a@.skip(i as int).drop_first() =~= a@.skip(i + 1));
        assert(b@.skip(i as int).drop_first() =~= b@.skip(i + 1));
        i = i + 1;
    }
}

fn compare_index(a: Index, b: Index) -> (r: Order)
    ensures
        r == index_order(a, b),
{
    if a.id < b.id {
        Order::Less
    } else if a.id > b.id {
        Order::Greater
    } else if a.domain.0 < b.domain.0 {
        Order::Less
    } else if a.domain.0 > b.domain.0 {
        Order::Greater
    } else {
        Order::Equal
    }
}

fn compare_indices(a: &Vec<Index>, b: &Vec<Index>) -> (r: Order)
    ensures
        r == lex_indices(a@, b@),
{
    let mut i: usize = 0;
    assert(a@.skip(0) =~= a@);
    assert(b@.skip(0) =~= b@);
    loop
        invariant
            i <= a@.len(),
            i <= b@.len(),
            lex_indices(a@, b@) == lex_indices(a@.skip(i as int), b@.skip(i as int)),
        decreases a@.len() - i,
    {
        if i == a.len() {
            return if i == b.len() { Order::Equal } else { Order::Less };
        }
        if i == b.len() {
            return Order::Greater;
        }
        let o = compare_index(a[i], b[i]);
        if o != Order::Equal {
            return o;
        }
        assert(a@.skip(i as int).drop_first() =~= a@.skip(i + 1));
        assert(b@.skip(i as int).drop_first() =~= b@.skip(i + 1));
        i = i + 1;
    }
}

fn compare_bodies(left: &Vec<Factor>, right: &Vec<Factor>) -> (r: Order)
    ensures
        r == body_order(factors_view(left@), factors_view(right@)),
{
    let o = compare_ids(&body_tensor_ids(left), &body_tensor_ids(right));
    if o != Order::Equal {
        return o;
    }
    compare_indices(&body_indices(left), &body_indices(right))
}

/// Compare term bodies by all tensor IDs first, then all factor indices.
pub fn compare_term_bodies(left: &Term, right: &Term) -> (r: Order)
    ensures
        r == body_order(left@.factors, right@.factors),
{
    compare_bodies(&left.factors, &right.factors)
}

// ---------------------------------------------------------------------------
// Index normalization.
// ---------------------------------------------------------------------------

/// The renaming that fixes output index identities by position.
pub open spec fn output_pairs(out: Seq<Index>) -> Seq<(Index, Index)> {
    Seq::new(out.len(), |i: int| (out[i], Index { id: i as u64, domain: out[i].domain }))
}

/// Output identities fixed by position, then every other index renamed by
/// first occurrence in factor-and-slot order, from `out.len()` up.
pub open spec fn normalize(fs: Seq<FactorModel>, out: Seq<Index>) -> Seq<FactorModel> {
    rename_factors(rename_visit_factors((pairs_map(output_pairs(out)), out.len() as int), fs).0, fs)
}

/// Visiting indices uses at most one fresh ID per index.
pub proof fn lemma_visit_all_bound(state: RenameState, s: Seq<Index>)
    ensures
        rename_visit_all(state, s).1 <= state.1 + s.len(),
    decreases s.len(),
{
    if s.len() > 0 {
        lemma_visit_all_bound(state, s.drop_last());
    }
}

/// Renaming uses at most one fresh ID per index occurrence.
pub proof fn lemma_visit_factors_bound(state: RenameState, fs: Seq<FactorModel>)
    ensures
        rename_visit_factors(state, fs).1 <= state.1 + all_indices(fs).len(),
    decreases fs.len(),
{
    if fs.len() > 0 {
        lemma_visit_factors_bound(state, fs.drop_last());
        lemma_visit_all_bound(rename_visit_factors(state, fs.drop_last()), fs.last().indices);
    }
}

/// Fix output identities by position, then rename every dummy by first
/// occurrence in factor-and-slot order.
fn normalize_indices(factors: &Vec<Factor>, output: &Vec<Index>) -> (r: Vec<Factor>)
    requires
        output@.len() + all_indices(factors_view(factors@)).len() <= u64::MAX,
    ensures
        factors_view(r@) == normalize(factors_view(factors@), output@),
{
    let mut seed: Vec<(Index, Index)> = Vec::new();
    let mut i: usize = 0;
    while i < output.len()
        invariant
            i <= output@.len(),
            seed@ =~= output_pairs(output@).subrange(0, i as int),
        decreases output@.len() - i,
    {
        let index = output[i];
        seed.push((index, Index { id: i as u64, domain: index.domain }));
        i = i + 1;
        assert(seed@ =~= output_pairs(output@).subrange(0, i as int));
    }
    assert(seed@ =~= output_pairs(output@));
    let mut next_id = output.len() as u64;
    proof {
        lemma_visit_factors_bound((pairs_map(seed@), next_id as int), factors_view(factors@));
    }
    rename_in_factors(factors, &seed, &mut next_id)
}

// ---------------------------------------------------------------------------
// Factor orders.
// ---------------------------------------------------------------------------

/// `o` lists every position of `fs` exactly once, with tensor IDs ascending.
pub open spec fn valid_order(fs: Seq<FactorModel>, o: Seq<usize>) -> bool {
    &&& o.len() == fs.len()
    &&& forall|j: int| 0 <= j < o.len() ==> (#[trigger] o[j]) < fs.len()
    &&& o.no_duplicates()
    &&& forall|p: int| 0 <= p < fs.len() ==> #[trigger] o.contains(p as usize)
    &&& forall|i: int, j: int| 0 <= i < j < o.len() ==> fs[#[trigger] o[i] as int].tensor.0 <= fs[#[trigger] o[j] as int].tensor.0
}

/// The number of `false` entries of `s`.
pub open spec fn count_false(s: Seq<bool>) -> nat
    decreases s.len(),
{
    if s.len() == 0 {
        0
    } else {
        count_false(s.drop_last()) + if s.last() { 0nat } else { 1nat }
    }
}

proof fn lemma_count_false_set(s: Seq<bool>, p: int)
    requires
        0 <= p < s.len(),
        !s[p],
    ensures
        count_false(s.update(p, true)) + 1 == count_false(s),
    decreases s.len(),
{
    if p == s.len() - 1 {
        assert(s.update(p, true).drop_last() =~= s.drop_last());
    } else {
        assert(s.update(p, true).drop_last() =~= s.drop_last().update(p, true));
        lemma_count_false_set(s.drop_last(), p);
    }
}

proof fn lemma_count_false_zero(s: Seq<bool>)
    requires
        count_false(s) == 0,
    ensures
        forall|p: int| 0 <= p < s.len() ==> #[trigger] s[p],
    decreases s.len(),
{
    if s.len() > 0 {
        lemma_count_false_zero(s.drop_last());
        assert forall|p: int| 0 <= p < s.len() implies #[trigger] s[p] by {
            if p < s.len() - 1 {
                assert(s.drop_last()[p] == s[p]);
            }
        }
    }
}

/// The state of a partly built order: `prefix` lists distinct positions in
/// ascending tensor order, `used` marks them, and every unused position has a
/// tensor ID no smaller than those already placed.
pub open spec fn prefix_ok(fs: Seq<FactorModel>, prefix: Seq<usize>, used: Seq<bool>) -> bool {
    &&& fs.len() <= usize::MAX
    &&& used.len() == fs.len()
    &&& forall|j: int| 0 <= j < prefix.len() ==> (#[trigger] prefix[j]) < fs.len()
    &&& prefix.no_duplicates()
    &&& forall|p: int| 0 <= p < fs.len() ==> (#[trigger] used[p] <==> prefix.contains(p as usize))
    &&& prefix.len() + count_false(used) == fs.len()
    &&& forall|i: int, j: int| 0 <= i < j < prefix.len() ==> fs[#[trigger] prefix[i] as int].tensor.0 <= fs[#[trigger] prefix[j] as int].tensor.0
    &&& forall|i: int, p: int| 0 <= i < prefix.len() && 0 <= p < fs.len() && !#[trigger] used[p] ==> fs[#[trigger] prefix[i] as int].tensor.0 <= fs[p].tensor.0
}

/// Appends to `result` every valid order that begins with `prefix`.
fn extend_orders(factors: &Vec<Factor>, prefix: &mut Vec<usize>, used: &mut Vec<bool>, result: &mut Vec<Vec<usize>>)
    requires
        prefix_ok(factors_view(factors@), old(prefix)@, old(used)@),
        forall|k: int| 0 <= k < old(result)@.len() ==> valid_order(factors_view(factors@), #[trigger] old(result)@[k]@),
    ensures
        final(prefix)@ == old(prefix)@,
        final(used)@ == old(used)@,
        final(result)@.len() > old(result)@.len(),
        forall|k: int| 0 <= k < old(result)@.len() ==> #[trigger] final(result)@[k] == old(result)@[k],
        forall|k: int| 0 <= k < final(result)@.len() ==> valid_order(factors_view(factors@), #[trigger] final(result)@[k]@),
        forall|o: Seq<usize>| valid_order(factors_view(factors@), o) && o.subrange(0, old(prefix)@.len() as int) == old(prefix)@
            ==> exists|k: int| 0 <= k < final(result)@.len() && #[trigger] final(result)@[k]@ == o,
        forall|k: int| old(result)@.len() <= k < final(result)@.len()
            ==> (#[trigger] final(result)@[k])@.subrange(0, old(prefix)@.len() as int) == old(prefix)@,
        forall|j: int, k: int| old(result)@.len() <= j < k < final(result)@.len()
            ==> (#[trigger] final(result)@[j])@ != (#[trigger] final(result)@[k])@,
    decreases count_false(old(used)@),
{
    let ghost fs = factors_view(factors@);
    let ghost start = prefix@;
    let n = factors.len();
    let mut least: Option<u32> = None;
    let mut p: usize = 0;
    while p < n
        invariant
            n == fs.len(),
            fs == factors_view(factors@),
            p <= n,
            used@.len() == n,
            least matches Some(m) ==> exists|q: int| 0 <= q < p && !used@[q] && fs[q].tensor.0 == m,
            least matches Some(m) ==> forall|q: int| 0 <= q < p && !used@[q] ==> m <= #[trigger] fs[q].tensor.0,
            least is None ==> forall|q: int| 0 <= q < p ==> #[trigger] used@[q],
        decreases n - p,
    {
        if !used[p] {
            let t = factors[p].tensor.0;
            least = match least {
                Some(m) => if t < m { Some(t) } else { Some(m) },
                None => Some(t),
            };
        }
        p = p + 1;
    }
    match least {
        None => {
            proof {
                assert(count_false(used@) == 0) by {
                    if count_false(used@) > 0 {
                        lemma_count_false_zero_exists(used@);
                    }
                }
            }
            let order = prefix.clone();
            proof {
                assert(order@ =~= prefix@);
                assert forall|q: int| 0 <= q < fs.len() implies #[trigger] order@.contains(q as usize) by {
                    assert(used@[q]);
                }
                assert(valid_order(fs, order@));
            }
            let ghost old_result = result@;
            result.push(order);
            proof {
                assert forall|o: Seq<usize>| valid_order(fs, o) && o.subrange(0, start.len() as int) == start
                    implies exists|k: int| 0 <= k < result@.len() && #[trigger] result@[k]@ == o by {
                    assert(o =~= o.subrange(0, start.len() as int));
                    assert(result@[result@.len() - 1]@ == o);
                }
                assert forall|k: int| 0 <= k < result@.len() implies valid_order(fs, #[trigger] result@[k]@) by {
                    if k < old_result.len() {
                        assert(result@[k] == old_result[k]);
                    }
                }
                assert(result@[result@.len() - 1]@.subrange(0, start.len() as int) =~= start);
            }
        },
        Some(m) => {
            let ghost entry = result@;
            let ghost xm = choose|x: int| 0 <= x < n && !used@[x] && fs[x].tensor.0 == m;
            let mut q: usize = 0;
            while q < n
                invariant
                    n == fs.len(),
                    fs == factors_view(factors@),
                    q <= n,
                    prefix@ == start,
                    prefix_ok(fs, prefix@, used@),
                    exists|x: int| 0 <= x < n && !used@[x] && fs[x].tensor.0 == m,
                    forall|x: int| 0 <= x < n && !used@[x] ==> m <= #[trigger] fs[x].tensor.0,
                    used@ == old(used)@,
                    result@.len() >= entry.len(),
                    0 <= xm < n,
                    !used@[xm],
                    fs[xm].tensor.0 == m,
                    q > xm ==> result@.len() > entry.len(),
                    forall|k: int| 0 <= k < entry.len() ==> #[trigger] result@[k] == entry[k],
                    forall|k: int| 0 <= k < entry.len() ==> #[trigger] entry[k] == old(result)@[k] || k >= old(result)@.len(),
                    entry == old(result)@,
                    forall|k: int| 0 <= k < result@.len() ==> valid_order(fs, #[trigger] result@[k]@),
                    forall|o: Seq<usize>| valid_order(fs, o) && o.subrange(0, start.len() as int) == start && o[start.len() as int] < q
                        ==> exists|k: int| 0 <= k < result@.len() && #[trigger] result@[k]@ == o,
                    forall|k: int| entry.len() <= k < result@.len() ==> (#[trigger] result@[k])@.subrange(0, start.len() as int) == start
                        && result@[k]@.len() > start.len() && result@[k]@[start.len() as int] < q,
                    forall|j: int, k: int| entry.len() <= j < k < result@.len() ==> (#[trigger] result@[j])@ != (#[trigger] result@[k])@,
                decreases n - q,
            {
                if !used[q] && factors[q].tensor.0 == m {
                    let ghost before = result@;
                    proof {
                        lemma_prefix_push(fs, prefix@, used@, q as int, m);
                    }
                    used.set(q, true);
                    prefix.push(q);
                    extend_orders(factors, prefix, used, result);
                    prefix.pop();
                    used.set(q, false);
                    proof {
                        assert(prefix@ =~= start);
                        assert(used@ =~= old(used)@);
                        let pushed = start.push(q);
                        assert forall|k: int| before.len() <= k < result@.len() implies
                            result@[k]@.len() > start.len() && result@[k]@[start.len() as int] == q
                            && (#[trigger] result@[k])@.subrange(0, start.len() as int) == start by {
                            assert(result@[k]@.subrange(0, pushed.len() as int) == pushed);
                            assert(valid_order(fs, result@[k]@));
                            assert(result@[k]@.subrange(0, pushed.len() as int)[start.len() as int] == q);
                            assert(result@[k]@.subrange(0, start.len() as int) =~= result@[k]@.subrange(0, pushed.len() as int).subrange(0, start.len() as int));
                        }
                        assert forall|k: int| entry.len() <= k < result@.len() implies (#[trigger] result@[k])@.subrange(0, start.len() as int) == start
                            && result@[k]@.len() > start.len() && result@[k]@[start.len() as int] < q + 1 by {
                            if k < before.len() {
                                assert(result@[k] == before[k]);
                            }
                        }
                        assert forall|j: int, k: int| entry.len() <= j < k < result@.len() implies (#[trigger] result@[j])@ != (#[trigger] result@[k])@ by {
                            if k >= before.len() && j < before.len() {
                                assert(result@[j] == before[j]);
                                assert(result@[j]@[start.len() as int] < q);
                                assert(result@[k]@[start.len() as int] == q);
                            } else if k < before.len() {
                                assert(result@[j] == before[j]);
                                assert(result@[k] == before[k]);
                            }
                        }
                        assert forall|o: Seq<usize>| valid_order(fs, o) && o.subrange(0, start.len() as int) == start && o[start.len() as int] < q + 1
                            implies exists|k: int| 0 <= k < result@.len() && #[trigger] result@[k]@ == o by {
                            if o[start.len() as int] == q {
                                assert(o.subrange(0, start.len() + 1 as int) =~= start.push(q));
                            } else {
                                let k = choose|k: int| 0 <= k < before.len() && #[trigger] before[k]@ == o;
                                assert(result@[k] == before[k]);
                            }
                        }
                    }
                } else {
                    proof {
                        assert forall|o: Seq<usize>| valid_order(fs, o) && o.subrange(0, start.len() as int) == start && o[start.len() as int] < q + 1
                            implies exists|k: int| 0 <= k < result@.len() && #[trigger] result@[k]@ == o by {
                            if o[start.len() as int] == q {
                                lemma_order_continues(fs, o, start, used@);
                                lemma_next_in_order(fs, o, start, used@, m);
                            }
                        }
                    }
                }
                q = q + 1;
            }
            proof {
                assert forall|o: Seq<usize>| valid_order(fs, o) && o.subrange(0, start.len() as int) == start
                    implies exists|k: int| 0 <= k < result@.len() && #[trigger] result@[k]@ == o by {
                    lemma_order_continues(fs, o, start, used@);
                }
            }
        },
    }
}

proof fn lemma_count_false_zero_exists(s: Seq<bool>)
    requires
        count_false(s) > 0,
    ensures
        exists|p: int| 0 <= p < s.len() && !s[p],
    decreases s.len(),
{
    if s.last() {
        lemma_count_false_zero_exists(s.drop_last());
        let p = choose|p: int| 0 <= p < s.drop_last().len() && !s.drop_last()[p];
        assert(!s[p]);
    } else {
        assert(!s[s.len() - 1]);
    }
}

/// Placing an unused position of least tensor ID keeps the state valid.
proof fn lemma_prefix_push(fs: Seq<FactorModel>, prefix: Seq<usize>, used: Seq<bool>, q: int, m: u32)
    requires
        prefix_ok(fs, prefix, used),
        0 <= q < fs.len(),
        !used[q],
        fs[q].tensor.0 == m,
        forall|x: int| 0 <= x < fs.len() && !used[x] ==> m <= #[trigger] fs[x].tensor.0,
    ensures
        prefix_ok(fs, prefix.push(q as usize), used.update(q, true)),
        count_false(used.update(q, true)) < count_false(used),
{
    lemma_count_false_set(used, q);
    let np = prefix.push(q as usize);
    let nu = used.update(q, true);
    assert(!prefix.contains(q as usize));
    assert forall|p: int| 0 <= p < fs.len() implies (#[trigger] nu[p] <==> np.contains(p as usize)) by {
        if p == q {
            assert(np[np.len() - 1] == q as usize);
        } else {
            assert(nu[p] == used[p]);
            assert(used[p] <==> prefix.contains(p as usize));
            if np.contains(p as usize) {
                let j = choose|j: int| 0 <= j < np.len() && np[j] == p as usize;
                assert(j < prefix.len());
                assert(prefix[j] == p as usize);
            }
            if prefix.contains(p as usize) {
                let j = choose|j: int| 0 <= j < prefix.len() && prefix[j] == p as usize;
                assert(np[j] == p as usize);
            }
        }
    }
    assert(np.no_duplicates()) by {
        assert forall|i: int, j: int| 0 <= i < np.len() && 0 <= j < np.len() && i != j implies np[i] != np[j] by {
            if i == np.len() - 1 && j < prefix.len() {
                assert(prefix.contains(prefix[j]));
            } else if j == np.len() - 1 && i < prefix.len() {
                assert(prefix.contains(prefix[i]));
            }
        }
    }
    assert forall|i: int, j: int| 0 <= i < j < np.len() implies fs[#[trigger] np[i] as int].tensor.0 <= fs[#[trigger] np[j] as int].tensor.0 by {
        if j == np.len() - 1 {
            assert(np[i] == prefix[i]);
        } else {
            assert(np[i] == prefix[i]);
            assert(np[j] == prefix[j]);
        }
    }
    assert forall|i: int, p: int| 0 <= i < np.len() && 0 <= p < fs.len() && !#[trigger] nu[p] implies fs[#[trigger] np[i] as int].tensor.0 <= fs[p].tensor.0 by {
        assert(p != q);
        assert(!used[p]);
        assert(m <= fs[p].tensor.0);
        if i < prefix.len() {
            assert(np[i] == prefix[i]);
        }
    }
}

/// In a valid order extending `prefix`, the next position is unused and has
/// the least tensor ID among unused positions.
proof fn lemma_next_in_order(fs: Seq<FactorModel>, o: Seq<usize>, prefix: Seq<usize>, used: Seq<bool>, m: u32)
    requires
        prefix_ok(fs, prefix, used),
        valid_order(fs, o),
        o.subrange(0, prefix.len() as int) == prefix,
        prefix.len() < o.len(),
        exists|x: int| 0 <= x < fs.len() && !used[x] && fs[x].tensor.0 == m,
        forall|x: int| 0 <= x < fs.len() && !used[x] ==> m <= #[trigger] fs[x].tensor.0,
    ensures
        !used[o[prefix.len() as int] as int],
        fs[o[prefix.len() as int] as int].tensor.0 == m,
{
    let k = prefix.len() as int;
    let q = o[k];
    if used[q as int] {
        assert(prefix.contains(q));
        let j = choose|j: int| 0 <= j < prefix.len() && prefix[j] == q;
        assert(o[j] == prefix[j]);
    }
    let x = choose|x: int| 0 <= x < fs.len() && !used[x] && fs[x].tensor.0 == m;
    assert(o.contains(x as usize));
    let j = choose|j: int| 0 <= j < o.len() && o[j] == x as usize;
    if j < k {
        assert(o[j] == prefix[j]);
        assert(prefix.contains(x as usize));
    }
    if j > k {
        assert(fs[o[k] as int].tensor.0 <= fs[o[j] as int].tensor.0);
    }
    assert(m <= fs[o[k] as int].tensor.0);
}

/// A valid order extending a prefix that leaves positions unused continues
/// with an unused position of least tensor ID.
proof fn lemma_order_continues(fs: Seq<FactorModel>, o: Seq<usize>, prefix: Seq<usize>, used: Seq<bool>)
    requires
        prefix_ok(fs, prefix, used),
        valid_order(fs, o),
        o.subrange(0, prefix.len() as int) == prefix,
        exists|x: int| 0 <= x < fs.len() && !used[x],
    ensures
        prefix.len() < o.len(),
        o[prefix.len() as int] < fs.len(),
{
    let x = choose|x: int| 0 <= x < fs.len() && !used[x];
    assert(o.contains(x as usize));
    let j = choose|j: int| 0 <= j < o.len() && o[j] == x as usize;
    if j < prefix.len() {
        assert(o[j] == prefix[j]);
        assert(prefix.contains(x as usize));
    }
}

/// Generate all factor orders that have sorted tensor IDs, each once.
///
/// Factors with unequal tensor IDs have a fixed relative order. All orders
/// among occurrences of the same tensor are retained because index
/// normalization can distinguish them.
pub fn factor_order_candidates(factors: &Vec<Factor>) -> (r: Vec<Vec<usize>>)
    ensures
        r@.len() > 0,
        forall|k: int| 0 <= k < r@.len() ==> valid_order(factors_view(factors@), #[trigger] r@[k]@),
        forall|o: Seq<usize>| valid_order(factors_view(factors@), o) ==> exists|k: int| 0 <= k < r@.len() && #[trigger] r@[k]@ == o,
        forall|j: int, k: int| 0 <= j < k < r@.len() ==> (#[trigger] r@[j])@ != (#[trigger] r@[k])@,
{
    let ghost fs = factors_view(factors@);
    let mut used: Vec<bool> = Vec::new();
    let mut p: usize = 0;
    while p < factors.len()
        invariant
            p <= factors@.len(),
            used@.len() == p,
            count_false(used@) == p,
            forall|q: int| 0 <= q < p ==> !#[trigger] used@[q],
        decreases factors@.len() - p,
    {
        let ghost before = used@;
        used.push(false);
        proof {
            assert(used@.drop_last() =~= before);
        }
        p = p + 1;
    }
    let mut prefix: Vec<usize> = Vec::new();
    let mut result: Vec<Vec<usize>> = Vec::new();
    proof {
        assert(prefix_ok(fs, prefix@, used@));
    }
    extend_orders(factors, &mut prefix, &mut used, &mut result);
    proof {
        assert forall|o: Seq<usize>| valid_order(fs, o) implies exists|k: int| 0 <= k < result@.len() && #[trigger] result@[k]@ == o by {
            assert(o.subrange(0, 0) =~= prefix@);
        }
    }
    result
}

// ---------------------------------------------------------------------------
// Symmetry choices.
// ---------------------------------------------------------------------------

/// The symmetry generators declared for tensor `t`; none when it has no entry.
pub open spec fn generators_of(symmetries: Seq<(TensorId, Vec<SymmetryGenerator>)>, t: TensorId) -> Seq<SymmetryGenerator> {
    match lookup(symmetries, t) {
        Some(g) => g@,
        None => Seq::empty(),
    }
}

/// The generators of every factor's tensor act on that factor's slots.
pub open spec fn symmetries_fit(fs: Seq<FactorModel>, symmetries: Seq<(TensorId, Vec<SymmetryGenerator>)>) -> bool {
    forall|i: int| 0 <= i < fs.len() ==> gens_ok(generators_of(symmetries, #[trigger] fs[i].tensor), fs[i].indices.len())
}

/// The product of a list of signs.
pub open spec fn sign_product(signs: Seq<int>) -> int
    decreases signs.len(),
{
    if signs.len() == 0 {
        1
    } else {
        sign_product(signs.drop_last()) * signs.last()
    }
}

/// `vs` replaces each factor of `fs` by one of its signed variants, whose
/// signs are `signs`.
pub open spec fn choice_by(
    fs: Seq<FactorModel>,
    symmetries: Seq<(TensorId, Vec<SymmetryGenerator>)>,
    vs: Seq<FactorModel>,
    signs: Seq<int>,
) -> bool {
    &&& vs.len() == fs.len()
    &&& signs.len() == fs.len()
    &&& forall|i: int| 0 <= i < fs.len() ==> is_variant(fs[i], generators_of(symmetries, fs[i].tensor), (#[trigger] vs[i], signs[i]))
}

/// `c` replaces each factor by one of its signed variants, with the product of
/// their signs.
pub open spec fn is_choice(
    fs: Seq<FactorModel>,
    symmetries: Seq<(TensorId, Vec<SymmetryGenerator>)>,
    c: (Seq<FactorModel>, int),
) -> bool {
    exists|signs: Seq<int>| #[trigger] choice_by(fs, symmetries, c.0, signs) && c.1 == sign_product(signs)
}

/// A choice held in memory, as a mathematical value.
pub open spec fn choice_view(c: (Vec<Factor>, i8)) -> (Seq<FactorModel>, int) {
    (factors_view(c.0@), c.1 as int)
}

/// The mathematical values of a list of choices.
pub open spec fn choice_views(s: Seq<(Vec<Factor>, i8)>) -> Seq<(Seq<FactorModel>, int)> {
    s.map_values(|c: (Vec<Factor>, i8)| choice_view(c))
}

/// A choice for the first factors extended by a variant of the next.
pub open spec fn extend_choice(c: (Seq<FactorModel>, int), v: (FactorModel, int)) -> (Seq<FactorModel>, int) {
    (c.0.push(v.0), c.1 * v.1)
}

proof fn lemma_choice_extend(
    fs: Seq<FactorModel>,
    symmetries: Seq<(TensorId, Vec<SymmetryGenerator>)>,
    i: int,
    c: (Seq<FactorModel>, int),
    v: (FactorModel, int),
)
    requires
        0 <= i < fs.len(),
        is_choice(fs.subrange(0, i), symmetries, c),
        is_variant(fs[i], generators_of(symmetries, fs[i].tensor), v),
    ensures
        is_choice(fs.subrange(0, i + 1), symmetries, extend_choice(c, v)),
{
    let signs = choose|signs: Seq<int>| #[trigger] choice_by(fs.subrange(0, i), symmetries, c.0, signs) && c.1 == sign_product(signs);
    let ns = signs.push(v.1);
    let nv = c.0.push(v.0);
    let pre = fs.subrange(0, i + 1);
    assert(ns.drop_last() =~= signs);
    assert forall|j: int| 0 <= j < pre.len() implies is_variant(pre[j], generators_of(symmetries, pre[j].tensor), (#[trigger] nv[j], ns[j])) by {
        if j < i {
            assert(fs.subrange(0, i)[j] == pre[j]);
            assert(is_variant(fs.subrange(0, i)[j], generators_of(symmetries, fs.subrange(0, i)[j].tensor), (c.0[j], signs[j])));
        }
    }
    assert(choice_by(pre, symmetries, nv, ns));
    assert(sign_product(ns) == sign_product(signs) * v.1);
    assert(extend_choice(c, v) == (nv, sign_product(ns)));
    assert(choice_by(pre, symmetries, extend_choice(c, v).0, ns));
}

proof fn lemma_choice_split(
    fs: Seq<FactorModel>,
    symmetries: Seq<(TensorId, Vec<SymmetryGenerator>)>,
    i: int,
    c: (Seq<FactorModel>, int),
) -> (parts: ((Seq<FactorModel>, int), (FactorModel, int)))
    requires
        0 <= i < fs.len(),
        is_choice(fs.subrange(0, i + 1), symmetries, c),
    ensures
        is_choice(fs.subrange(0, i), symmetries, parts.0),
        is_variant(fs[i], generators_of(symmetries, fs[i].tensor), parts.1),
        extend_choice(parts.0, parts.1) == c,
{
    let pre = fs.subrange(0, i + 1);
    let signs = choose|signs: Seq<int>| #[trigger] choice_by(pre, symmetries, c.0, signs) && c.1 == sign_product(signs);
    let first = (c.0.drop_last(), sign_product(signs.drop_last()));
    let last = (c.0.last(), signs.last());
    let short = fs.subrange(0, i);
    assert forall|j: int| 0 <= j < short.len() implies is_variant(short[j], generators_of(symmetries, short[j].tensor), (#[trigger] c.0.drop_last()[j], signs.drop_last()[j])) by {
        assert(short[j] == pre[j]);
        assert(is_variant(pre[j], generators_of(symmetries, pre[j].tensor), (c.0[j], signs[j])));
    }
    assert(choice_by(short, symmetries, c.0.drop_last(), signs.drop_last()));
    assert(pre[i] == fs[i]);
    assert(is_variant(pre[i], generators_of(symmetries, pre[i].tensor), (c.0[i], signs[i])));
    assert(c.0.drop_last().push(c.0.last()) =~= c.0);
    assert(choice_by(short, symmetries, first.0, signs.drop_last()));
    assert(first.1 == sign_product(signs.drop_last()));
    assert(is_choice(short, symmetries, first));
    (first, last)
}

/// Signs of choices are one or minus one.
pub proof fn lemma_choice_sign(fs: Seq<FactorModel>, symmetries: Seq<(TensorId, Vec<SymmetryGenerator>)>, c: (Seq<FactorModel>, int))
    requires
        symmetries_fit(fs, symmetries),
        is_choice(fs, symmetries, c),
    ensures
        c.1 == 1 || c.1 == -1,
{
    let signs = choose|signs: Seq<int>| #[trigger] choice_by(fs, symmetries, c.0, signs) && c.1 == sign_product(signs);
    lemma_signs_product(fs, symmetries, c.0, signs);
}

proof fn lemma_signs_product(fs: Seq<FactorModel>, symmetries: Seq<(TensorId, Vec<SymmetryGenerator>)>, vs: Seq<FactorModel>, signs: Seq<int>)
    requires
        symmetries_fit(fs, symmetries),
        choice_by(fs, symmetries, vs, signs),
    ensures
        sign_product(signs) == 1 || sign_product(signs) == -1,
    decreases fs.len(),
{
    if fs.len() > 0 {
        let n = fs.len() - 1;
        let short = fs.drop_last();
        assert forall|i: int| 0 <= i < short.len() implies gens_ok(generators_of(symmetries, #[trigger] short[i].tensor), short[i].indices.len()) by {
            assert(short[i] == fs[i]);
        }
        assert forall|j: int| 0 <= j < short.len() implies is_variant(short[j], generators_of(symmetries, short[j].tensor), (#[trigger] vs.drop_last()[j], signs.drop_last()[j])) by {
            assert(short[j] == fs[j]);
            assert(is_variant(fs[j], generators_of(symmetries, fs[j].tensor), (vs[j], signs[j])));
        }
        lemma_signs_product(short, symmetries, vs.drop_last(), signs.drop_last());
        assert(gens_ok(generators_of(symmetries, fs[n].tensor), fs[n].indices.len()));
        assert(is_variant(fs[n], generators_of(symmetries, fs[n].tensor), (vs[n], signs[n])));
        lemma_variant_shape(fs[n], generators_of(symmetries, fs[n].tensor), (vs[n], signs[n]));
    }
}

/// The generators declared for `t`, or `none` when it has no entry.
fn generators_for<'a>(
    symmetries: &'a IdMap<TensorId, Vec<SymmetryGenerator>>,
    t: TensorId,
    none: &'a Vec<SymmetryGenerator>,
) -> (r: &'a Vec<SymmetryGenerator>)
    requires
        none@.len() == 0,
    ensures
        r@ == generators_of(symmetries@, t),
{
    match symmetries.get(&t) {
        Some(g) => g,
        None => {
            assert(none@ =~= Seq::<SymmetryGenerator>::empty());
            none
        },
    }
}

/// The number of choices of one signed variant for each factor: the product
/// of the factors' variant counts.
pub open spec fn choice_count(fs: Seq<FactorModel>, symmetries: Seq<(TensorId, Vec<SymmetryGenerator>)>) -> nat
    decreases fs.len(),
{
    if fs.len() == 0 {
        1
    } else {
        choice_count(fs.drop_last(), symmetries) * variant_count(fs.last(), generators_of(symmetries, fs.last().tensor))
    }
}

/// `l` lists every signed variant of `f` under `gens` exactly once, `f`
/// itself with sign one first.
pub open spec fn lists_variants(l: Seq<(FactorModel, int)>, f: FactorModel, gens: Seq<SymmetryGenerator>) -> bool {
    &&& l.len() >= 1
    &&& l[0] == (f, 1int)
    &&& l.no_duplicates()
    &&& forall|j: int| 0 <= j < l.len() ==> is_variant(f, gens, #[trigger] l[j])
    &&& forall|v: (FactorModel, int)| is_variant(f, gens, v) ==> #[trigger] l.contains(v)
}

/// Position `y` of block `x`, for blocks of `m` positions.
pub open spec fn block_pos(x: int, y: int, m: int) -> int {
    x * m + y
}

/// The signed Cartesian product of the lists `ls`, left-major: for each entry
/// of the product of all lists but the last, in order, that entry extended by
/// each entry of the last list, in order.
pub open spec fn signed_product(ls: Seq<Seq<(FactorModel, int)>>) -> Seq<(Seq<FactorModel>, int)>
    decreases ls.len(),
{
    if ls.len() == 0 {
        seq![(Seq::<FactorModel>::empty(), 1int)]
    } else {
        let prev = signed_product(ls.drop_last());
        let last = ls.last();
        Seq::new(prev.len() * last.len(), |k: int| extend_choice(prev[k / last.len() as int], last[k % last.len() as int]))
    }
}

proof fn lemma_block_before(x: int, y: int, m: int, a: int)
    requires
        0 <= x < a,
        0 <= y < m,
    ensures
        block_pos(x, y, m) < a * m,
{
    assert(x * m + y < a * m) by (nonlinear_arith)
        requires
            0 <= x < a,
            0 <= y < m,
    ;
}

proof fn lemma_block_split(k: int, m: int, n: int)
    requires
        0 <= k < n * m,
        m > 0,
    ensures
        0 <= k / m < n,
        0 <= k % m < m,
        k == block_pos(k / m, k % m, m),
{
    vstd::arithmetic::div_mod::lemma_fundamental_div_mod(k, m);
    vstd::arithmetic::div_mod::lemma_mod_bound(k, m);
    vstd::arithmetic::div_mod::lemma_div_pos_is_pos(k, m);
    let x = k / m;
    assert(x * m == m * x) by (nonlinear_arith);
    assert(x < n) by (nonlinear_arith)
        requires
            x * m <= k,
            k < n * m,
            m > 0,
    ;
}

/// Generate the signed Cartesian product of all factor symmetry variants: one
/// entry for each way of picking a variant of every factor, the unchanged
/// factors with sign one first.
pub fn symmetry_candidates(factors: &Vec<Factor>, symmetries: &IdMap<TensorId, Vec<SymmetryGenerator>>) -> (r: Vec<(Vec<Factor>, i8)>)
    requires
        symmetries_fit(factors_view(factors@), symmetries@),
    ensures
        forall|k: int| 0 <= k < r@.len() ==> is_choice(factors_view(factors@), symmetries@, #[trigger] choice_view(r@[k])),
        forall|c: (Seq<FactorModel>, int)| is_choice(factors_view(factors@), symmetries@, c) ==> #[trigger] choice_views(r@).contains(c),
        r@.len() == choice_count(factors_view(factors@), symmetries@),
        r@.len() >= 1,
        choice_view(r@[0]) == (factors_view(factors@), 1int),
        exists|ls: Seq<Seq<(FactorModel, int)>>| {
            &&& ls.len() == factors@.len()
            &&& forall|i: int| 0 <= i < ls.len() ==> lists_variants(#[trigger] ls[i], factors_view(factors@)[i],
                generators_of(symmetries@, factors_view(factors@)[i].tensor))
            &&& choice_views(r@) == signed_product(ls)
        },
{
    let ghost fs = factors_view(factors@);
    let ghost sym = symmetries@;
    let empty: Vec<SymmetryGenerator> = Vec::new();
    let mut product: Vec<(Vec<Factor>, i8)> = Vec::new();
    product.push((Vec::new(), 1i8));
    proof {
        assert(choice_by(fs.subrange(0, 0), sym, Seq::empty(), Seq::empty()));
        assert(choice_view(product@[0]) == (Seq::<FactorModel>::empty(), 1int)) by {
            assert(factors_view(product@[0].0@) =~= Seq::<FactorModel>::empty());
        }
        assert(sign_product(Seq::<int>::empty()) == 1);
        assert(choice_by(fs.subrange(0, 0), sym, choice_view(product@[0]).0, Seq::<int>::empty()));
        assert(fs.subrange(0, 0) =~= Seq::<FactorModel>::empty());
        assert forall|c: (Seq<FactorModel>, int)| is_choice(fs.subrange(0, 0), sym, c) implies #[trigger] choice_views(product@).contains(c) by {
            let signs = choose|signs: Seq<int>| #[trigger] choice_by(fs.subrange(0, 0), sym, c.0, signs) && c.1 == sign_product(signs);
            assert(c.0 =~= Seq::<FactorModel>::empty());
            assert(signs =~= Seq::<int>::empty());
            assert(choice_views(product@)[0] == c);
        }
    }
    let ghost mut lists: Seq<Seq<(FactorModel, int)>> = Seq::empty();
    proof {
        assert(choice_views(product@) =~= signed_product(lists));
    }
    let mut i: usize = 0;
    while i < factors.len()
        invariant
            i <= factors@.len(),
            lists.len() == i,
            forall|j: int| 0 <= j < i ==> lists_variants(#[trigger] lists[j], fs[j], generators_of(sym, fs[j].tensor)),
            choice_views(product@) == signed_product(lists),
            empty@.len() == 0,
            fs == factors_view(factors@),
            sym == symmetries@,
            symmetries_fit(fs, sym),
            forall|k: int| 0 <= k < product@.len() ==> is_choice(fs.subrange(0, i as int), sym, #[trigger] choice_view(product@[k])),
            forall|k: int| 0 <= k < product@.len() ==> (#[trigger] product@[k]).1 == 1 || product@[k].1 == -1,
            forall|c: (Seq<FactorModel>, int)| is_choice(fs.subrange(0, i as int), sym, c) ==> #[trigger] choice_views(product@).contains(c),
            product@.len() == choice_count(fs.subrange(0, i as int), sym),
            product@.len() >= 1,
            choice_view(product@[0]) == (fs.subrange(0, i as int), 1int),
        decreases factors@.len() - i,
    {
        let factor = &factors[i];
        let generators = generators_for(symmetries, factor.tensor, &empty);
        let ghost gens = generators_of(sym, fs[i as int].tensor);
        proof {
            assert(fs[i as int] == factor@);
            assert(generators@ =~= gens);
            assert(gens_ok(gens, fs[i as int].indices.len()));
        }
        let variants = factor_symmetry_candidates(factor, generators);
        let mut next: Vec<(Vec<Factor>, i8)> = Vec::new();
        let mut a: usize = 0;
        while a < product.len()
            invariant
                i < factors@.len(),
                fs == factors_view(factors@),
                sym == symmetries@,
                symmetries_fit(fs, sym),
                gens == generators_of(sym, fs[i as int].tensor),
                gens_ok(gens, fs[i as int].indices.len()),
                a <= product@.len(),
                forall|k: int| 0 <= k < product@.len() ==> is_choice(fs.subrange(0, i as int), sym, #[trigger] choice_view(product@[k])),
                forall|k: int| 0 <= k < product@.len() ==> (#[trigger] product@[k]).1 == 1 || product@[k].1 == -1,
                forall|k: int| 0 <= k < variants@.len() ==> is_variant(fs[i as int], gens, #[trigger] variant_view(variants@[k])),
                forall|k: int| 0 <= k < next@.len() ==> is_choice(fs.subrange(0, i + 1), sym, #[trigger] choice_view(next@[k])),
                forall|k: int| 0 <= k < next@.len() ==> (#[trigger] next@[k]).1 == 1 || next@[k].1 == -1,
                forall|x: int, y: int| 0 <= x < a && 0 <= y < variants@.len() ==>
                    #[trigger] choice_views(next@).contains(extend_choice(choice_view(product@[x]), #[trigger] variant_view(variants@[y]))),
                variants@.len() >= 1,
                variant_view(variants@[0]) == (fs[i as int], 1int),
                product@.len() >= 1,
                choice_view(product@[0]) == (fs.subrange(0, i as int), 1int),
                next@.len() == a * variants@.len(),
                a > 0 ==> choice_view(next@[0]) == (fs.subrange(0, i + 1), 1int),
                forall|x: int, y: int| 0 <= x < a && 0 <= y < variants@.len() ==>
                    choice_view(next@[#[trigger] block_pos(x, y, variants@.len() as int)])
                        == extend_choice(choice_view(product@[x]), variant_view(variants@[y])),
            decreases product@.len() - a,
        {
            let mut b: usize = 0;
            while b < variants.len()
                invariant
                    i < factors@.len(),
                    fs == factors_view(factors@),
                    sym == symmetries@,
                    symmetries_fit(fs, sym),
                    gens == generators_of(sym, fs[i as int].tensor),
                    gens_ok(gens, fs[i as int].indices.len()),
                    a < product@.len(),
                    b <= variants@.len(),
                    forall|k: int| 0 <= k < product@.len() ==> is_choice(fs.subrange(0, i as int), sym, #[trigger] choice_view(product@[k])),
                    forall|k: int| 0 <= k < product@.len() ==> (#[trigger] product@[k]).1 == 1 || product@[k].1 == -1,
                    forall|k: int| 0 <= k < variants@.len() ==> is_variant(fs[i as int], gens, #[trigger] variant_view(variants@[k])),
                    forall|k: int| 0 <= k < next@.len() ==> is_choice(fs.subrange(0, i + 1), sym, #[trigger] choice_view(next@[k])),
                    forall|k: int| 0 <= k < next@.len() ==> (#[trigger] next@[k]).1 == 1 || next@[k].1 == -1,
                    forall|x: int, y: int| 0 <= x < a && 0 <= y < variants@.len() ==>
                        #[trigger] choice_views(next@).contains(extend_choice(choice_view(product@[x]), #[trigger] variant_view(variants@[y]))),
                    forall|y: int| 0 <= y < b ==>
                        #[trigger] choice_views(next@).contains(extend_choice(choice_view(product@[a as int]), variant_view(variants@[y]))),
                    variants@.len() >= 1,
                    variant_view(variants@[0]) == (fs[i as int], 1int),
                    product@.len() >= 1,
                    choice_view(product@[0]) == (fs.subrange(0, i as int), 1int),
                    next@.len() == a * variants@.len() + b,
                    a > 0 || b > 0 ==> choice_view(next@[0]) == (fs.subrange(0, i + 1), 1int),
                    forall|x: int, y: int| 0 <= x < a && 0 <= y < variants@.len() ==>
                        choice_view(next@[#[trigger] block_pos(x, y, variants@.len() as int)])
                            == extend_choice(choice_view(product@[x]), variant_view(variants@[y])),
                    forall|y: int| 0 <= y < b ==>
                        choice_view(next@[#[trigger] block_pos(a as int, y, variants@.len() as int)])
                            == extend_choice(choice_view(product@[a as int]), variant_view(variants@[y])),
                decreases variants@.len() - b,
            {
                let mut chosen = product[a].0.clone();
                let variant = variants[b].0.clone();
                proof {
                    assert(is_variant(fs[i as int], gens, variant_view(variants@[b as int])));
                    lemma_variant_shape(fs[i as int], gens, variant_view(variants@[b as int]));
                    assert(is_choice(fs.subrange(0, i as int), sym, choice_view(product@[a as int])));
                    lemma_choice_extend(fs, sym, i as int, choice_view(product@[a as int]), variant_view(variants@[b as int]));
                    assert(product@[a as int].1 == 1 || product@[a as int].1 == -1);
                    assert(variant_view(variants@[b as int]).1 == 1 || variant_view(variants@[b as int]).1 == -1);
                    assert(variants@[b as int].1 == 1 || variants@[b as int].1 == -1);
                    let x = product@[a as int].1;
                    let y = variants@[b as int].1;
                    assert(x * y == 1 || x * y == -1) by (nonlinear_arith)
                        requires
                            x == 1 || x == -1,
                            y == 1 || y == -1,
                    ;
                }
                let ghost before = chosen@;
                chosen.push(variant);
                let sign = product[a].1 * variants[b].1;
                let element = (chosen, sign);
                assert(sign == 1 || sign == -1);
                proof {
                    assert(factors_view(element.0@) =~= factors_view(product@[a as int].0@).push(variants@[b as int].0@)) by {
                        assert(factors_view(before) =~= factors_view(product@[a as int].0@));
                    }
                    assert(choice_view(element) == extend_choice(choice_view(product@[a as int]), variant_view(variants@[b as int])));
                }
                let ghost old_next = next@;
                next.push(element);
                proof {
                    if a > 0 || b > 0 {
                        assert(old_next.len() >= 1) by (nonlinear_arith)
                            requires
                                old_next.len() == a * variants@.len() + b,
                                a > 0 || b > 0,
                                variants@.len() >= 1,
                        ;
                        assert(next@[0] == old_next[0]);
                    } else {
                        assert(old_next.len() == 0) by {
                            assert(0 * variants@.len() == 0);
                        }
                        assert(fs.subrange(0, i as int).push(fs[i as int]) =~= fs.subrange(0, i + 1));
                        assert(choice_view(next@[0]) == (fs.subrange(0, i + 1), 1int));
                    }
                    assert(choice_views(next@) =~= choice_views(old_next).push(choice_view(element)));
                    assert(choice_views(next@)[next@.len() - 1] == choice_view(element));
                    assert forall|x: int, y: int| 0 <= x < a && 0 <= y < variants@.len() implies
                        #[trigger] choice_views(next@).contains(extend_choice(choice_view(product@[x]), #[trigger] variant_view(variants@[y]))) by {
                        let z = extend_choice(choice_view(product@[x]), variant_view(variants@[y]));
                        assert(choice_views(old_next).contains(z));
                        let k = choose|k: int| 0 <= k < old_next.len() && choice_views(old_next)[k] == z;
                        assert(choice_views(next@)[k] == z);
                    }
                    assert forall|y: int| 0 <= y < b + 1 implies
                        #[trigger] choice_views(next@).contains(extend_choice(choice_view(product@[a as int]), variant_view(variants@[y]))) by {
                        let z = extend_choice(choice_view(product@[a as int]), variant_view(variants@[y]));
                        if y < b {
                            assert(choice_views(old_next).contains(z));
                            let k = choose|k: int| 0 <= k < old_next.len() && choice_views(old_next)[k] == z;
                            assert(choice_views(next@)[k] == z);
                        }
                    }
                    let m = variants@.len() as int;
                    assert forall|x: int, y: int| 0 <= x < a && 0 <= y < m implies
                        choice_view(next@[#[trigger] block_pos(x, y, m)])
                            == extend_choice(choice_view(product@[x]), variant_view(variants@[y])) by {
                        lemma_block_before(x, y, m, a as int);
                        assert(next@[block_pos(x, y, m)] == old_next[block_pos(x, y, m)]);
                    }
                    assert forall|y: int| 0 <= y < b + 1 implies
                        choice_view(next@[#[trigger] block_pos(a as int, y, m)])
                            == extend_choice(choice_view(product@[a as int]), variant_view(variants@[y])) by {
                        if y < b {
                            assert(next@[block_pos(a as int, y, m)] == old_next[block_pos(a as int, y, m)]);
                        } else {
                            assert(block_pos(a as int, y, m) == old_next.len());
                        }
                    }
                    assert forall|k: int| 0 <= k < next@.len() implies is_choice(fs.subrange(0, i + 1), sym, #[trigger] choice_view(next@[k])) by {
                        if k < old_next.len() {
                            assert(next@[k] == old_next[k]);
                        }
                    }
                }
                b = b + 1;
            }
            assert(next@.len() == (a + 1) * variants@.len()) by (nonlinear_arith)
                requires
                    next@.len() == a * variants@.len() + variants@.len(),
            ;
            assert forall|x: int, y: int| 0 <= x < a + 1 && 0 <= y < variants@.len() implies
                choice_view(next@[#[trigger] block_pos(x, y, variants@.len() as int)])
                    == extend_choice(choice_view(product@[x]), variant_view(variants@[y])) by {
                if x == a {
                    assert(choice_view(next@[block_pos(a as int, y, variants@.len() as int)])
                        == extend_choice(choice_view(product@[a as int]), variant_view(variants@[y])));
                }
            }
            a = a + 1;
        }
        proof {
            assert forall|c: (Seq<FactorModel>, int)| is_choice(fs.subrange(0, i + 1), sym, c) implies #[trigger] choice_views(next@).contains(c) by {
                let parts = lemma_choice_split(fs, sym, i as int, c);
                assert(choice_views(product@).contains(parts.0));
                let x = choose|x: int| 0 <= x < product@.len() && choice_views(product@)[x] == parts.0;
                assert(variant_views(variants@).contains(parts.1));
                let y = choose|y: int| 0 <= y < variants@.len() && variant_views(variants@)[y] == parts.1;
                assert(choice_view(product@[x]) == parts.0);
                assert(variant_view(variants@[y]) == parts.1);
                assert(choice_views(next@).contains(extend_choice(choice_view(product@[x]), variant_view(variants@[y]))));
            }
        }
        proof {
            assert(fs.subrange(0, i + 1).drop_last() =~= fs.subrange(0, i as int));
            assert(fs.subrange(0, i + 1).last() == fs[i as int]);
            assert(variants@.len() == variant_count(fs[i as int], gens));
            let vv = variant_views(variants@);
            let m = variants@.len() as int;
            let nl = lists.push(vv);
            assert(nl.drop_last() =~= lists);
            assert(nl.last() == vv);
            assert(lists_variants(vv, fs[i as int], gens)) by {
                assert(vv[0] == variant_view(variants@[0]));
                assert forall|j: int, k: int| 0 <= j < vv.len() && 0 <= k < vv.len() && j != k implies vv[j] != vv[k] by {
                    if j < k {
                        assert(variant_view(variants@[j]) != variant_view(variants@[k]));
                    } else {
                        assert(variant_view(variants@[k]) != variant_view(variants@[j]));
                    }
                }
                assert forall|j: int| 0 <= j < vv.len() implies is_variant(fs[i as int], gens, #[trigger] vv[j]) by {
                    assert(is_variant(fs[i as int], gens, variant_view(variants@[j])));
                }
            }
            assert(choice_views(next@) =~= signed_product(nl)) by {
                let prev = signed_product(lists);
                assert(prev.len() == product@.len());
                assert forall|k: int| 0 <= k < next@.len() implies #[trigger] choice_views(next@)[k] == signed_product(nl)[k] by {
                    lemma_block_split(k, m, product@.len() as int);
                    let x = k / m;
                    let y = k % m;
                    assert(choice_view(next@[block_pos(x, y, m)]) == extend_choice(choice_view(product@[x]), variant_view(variants@[y])));
                    assert(prev[x] == choice_view(product@[x]));
                }
            }
            assert forall|j: int| 0 <= j < i + 1 implies lists_variants(#[trigger] nl[j], fs[j], generators_of(sym, fs[j].tensor)) by {
                if j < i {
                    assert(nl[j] == lists[j]);
                }
            }
            assert(next@.len() >= 1) by (nonlinear_arith)
                requires
                    next@.len() == product@.len() * variants@.len(),
                    product@.len() >= 1,
                    variants@.len() >= 1,
            ;
        }
        product = next;
        proof {
            lists = lists.push(variant_views(variants@));
        }
        i = i + 1;
    }
    proof {
        assert(fs.subrange(0, factors@.len() as int) =~= fs);
    }
    product
}

// ---------------------------------------------------------------------------
// Total order on bodies.
// ---------------------------------------------------------------------------

/// The number of slots of each factor.
pub open spec fn ranks(fs: Seq<FactorModel>) -> Seq<int> {
    fs.map_values(|f: FactorModel| f.indices.len() as int)
}

/// Lexicographic order on integer sequences; a proper prefix comes first.
pub open spec fn lex_ints(a: Seq<int>, b: Seq<int>) -> Order
    decreases a.len(),
{
    if a.len() == 0 {
        if b.len() == 0 { Order::Equal } else { Order::Less }
    } else if b.len() == 0 {
        Order::Greater
    } else if a[0] < b[0] {
        Order::Less
    } else if a[0] > b[0] {
        Order::Greater
    } else {
        lex_ints(a.drop_first(), b.drop_first())
    }
}

/// The body order, with ties broken by the factors' slot counts: a total
/// order whose ties are equal bodies.
pub open spec fn body_total(a: Seq<FactorModel>, b: Seq<FactorModel>) -> Order {
    match body_order(a, b) {
        Order::Equal => lex_ints(ranks(a), ranks(b)),
        o => o,
    }
}

proof fn lemma_lex_ints(a: Seq<int>, b: Seq<int>, c: Seq<int>)
    ensures
        lex_ints(a, b) == Order::Equal <==> a == b,
        lex_ints(b, a) == flip(lex_ints(a, b)),
        lex_ints(a, b) == Order::Less && lex_ints(b, c) == Order::Less ==> lex_ints(a, c) == Order::Less,
    decreases a.len(),
{
    if a.len() > 0 && b.len() > 0 && c.len() > 0 {
        lemma_lex_ints(a.drop_first(), b.drop_first(), c.drop_first());
    } else if a.len() > 0 && b.len() > 0 {
        lemma_lex_ints(a.drop_first(), b.drop_first(), c);
    }
    if a.len() > 0 && b.len() > 0 && a[0] == b[0] && a.drop_first() == b.drop_first() {
        assert(a =~= seq![a[0]] + a.drop_first());
        assert(b =~= seq![b[0]] + b.drop_first());
    }
    if a.len() == 0 && b.len() == 0 {
        assert(a =~= b);
    }
}

/// Bodies with the same tensor IDs, indices and slot counts are equal.
pub proof fn lemma_body_parts_equal(a: Seq<FactorModel>, b: Seq<FactorModel>)
    requires
        tensor_ids(a) == tensor_ids(b),
        all_indices(a) == all_indices(b),
        ranks(a) == ranks(b),
    ensures
        a == b,
    decreases a.len(),
{
    assert(a.len() == tensor_ids(a).len());
    assert(b.len() == tensor_ids(b).len());
    if a.len() > 0 {
        let n = a.len() - 1;
        assert(tensor_ids(a.drop_last()) =~= tensor_ids(a).drop_last());
        assert(tensor_ids(b.drop_last()) =~= tensor_ids(b).drop_last());
        assert(ranks(a.drop_last()) =~= ranks(a).drop_last());
        assert(ranks(b.drop_last()) =~= ranks(b).drop_last());
        let x = all_indices(a.drop_last());
        let y = all_indices(b.drop_last());
        assert(ranks(a)[n] == ranks(b)[n]);
        assert(a.last() == a[n]);
        assert(b.last() == b[n]);
        assert(ranks(a)[n] == a[n].indices.len() as int);
        assert(ranks(b)[n] == b[n].indices.len() as int);
        assert(a.last().indices.len() == b.last().indices.len());
        assert(all_indices(a) == x + a.last().indices);
        assert(all_indices(b) == y + b.last().indices);
        assert(x + a.last().indices == y + b.last().indices);
        assert((x + a.last().indices).len() == x.len() + a.last().indices.len());
        assert((y + b.last().indices).len() == y.len() + b.last().indices.len());
        assert(x.len() == y.len());
        assert(x =~= (x + a.last().indices).subrange(0, x.len() as int));
        assert(y =~= (y + b.last().indices).subrange(0, y.len() as int));
        assert(a.last().indices =~= (x + a.last().indices).subrange(x.len() as int, (x + a.last().indices).len() as int));
        assert(b.last().indices =~= (y + b.last().indices).subrange(y.len() as int, (y + b.last().indices).len() as int));
        lemma_body_parts_equal(a.drop_last(), b.drop_last());
        assert(tensor_ids(a)[n] == tensor_ids(b)[n]);
        assert(tensor_ids(a)[n] == a[n].tensor.0);
        assert(tensor_ids(b)[n] == b[n].tensor.0);
        assert(a[n].tensor == b[n].tensor);
        assert(a.last() == b.last());
        assert(a =~= a.drop_last().push(a.last()));
        assert(b =~= b.drop_last().push(b.last()));
    } else {
        assert(a =~= b);
    }
}

/// `body_total` is a total order: its ties are equal bodies, it flips when its
/// arguments swap, and it is transitive.
pub proof fn lemma_body_total(a: Seq<FactorModel>, b: Seq<FactorModel>, c: Seq<FactorModel>)
    ensures
        body_total(a, b) == Order::Equal <==> a == b,
        body_total(b, a) == flip(body_total(a, b)),
        body_total(a, b) == Order::Less && body_total(b, c) == Order::Less ==> body_total(a, c) == Order::Less,
{
    lemma_body_order(a, b, c);
    lemma_body_order(b, c, a);
    lemma_body_order(a, c, b);
    lemma_lex_ints(ranks(a), ranks(b), ranks(c));
    lemma_lex_ints(ranks(b), ranks(c), ranks(a));
    lemma_lex_ints(ranks(a), ranks(c), ranks(b));
    if body_total(a, b) == Order::Equal {
        lemma_body_parts_equal(a, b);
    }
}

fn body_ranks(fs: &Vec<Factor>) -> (r: Vec<usize>)
    ensures
        r@.len() == fs@.len(),
        forall|i: int| 0 <= i < r@.len() ==> r@[i] as int == #[trigger] ranks(factors_view(fs@))[i],
{
    let mut r: Vec<usize> = Vec::new();
    let mut i: usize = 0;
    while i < fs.len()
        invariant
            i <= fs@.len(),
            r@.len() == i,
            forall|j: int| 0 <= j < i ==> r@[j] as int == #[trigger] ranks(factors_view(fs@))[j],
        decreases fs@.len() - i,
    {
        r.push(fs[i].indices.len());
        i = i + 1;
    }
    r
}

fn compare_ranks(a: &Vec<usize>, b: &Vec<usize>, Ghost(x): Ghost<Seq<int>>, Ghost(y): Ghost<Seq<int>>) -> (r: Order)
    requires
        a@.len() == x.len(),
        b@.len() == y.len(),
        forall|i: int| 0 <= i < x.len() ==> a@[i] as int == #[trigger] x[i],
        forall|i: int| 0 <= i < y.len() ==> b@[i] as int == #[trigger] y[i],
    ensures
        r == lex_ints(x, y),
{
    let mut i: usize = 0;
    assert(x.skip(0) =~= x);
    assert(y.skip(0) =~= y);
    loop
        invariant
            i <= a@.len(),
            i <= b@.len(),
            a@.len() == x.len(),
            b@.len() == y.len(),
            forall|i: int| 0 <= i < x.len() ==> a@[i] as int == #[trigger] x[i],
            forall|i: int| 0 <= i < y.len() ==> b@[i] as int == #[trigger] y[i],
            lex_ints(x, y) == lex_ints(x.skip(i as int), y.skip(i as int)),
        decreases a@.len() - i,
    {
        if i == a.len() {
            return if i == b.len() { Order::Equal } else { Order::Less };
        }
        if i == b.len() {
            return Order::Greater;
        }
        assert(x.skip(i as int)[0] == x[i as int]);
        assert(y.skip(i as int)[0] == y[i as int]);
        if a[i] < b[i] {
            return Order::Less;
        }
        if a[i] > b[i] {
            return Order::Greater;
        }
        assert(x.skip(i as int).drop_first() =~= x.skip(i + 1));
        assert(y.skip(i as int).drop_first() =~= y.skip(i + 1));
        i = i + 1;
    }
}

/// Compares bodies by `body_total`.
fn compare_total(left: &Vec<Factor>, right: &Vec<Factor>) -> (r: Order)
    ensures
        r == body_total(factors_view(left@), factors_view(right@)),
{
    let o = compare_bodies(left, right);
    if o != Order::Equal {
        return o;
    }
    compare_ranks(&body_ranks(left), &body_ranks(right), Ghost(ranks(factors_view(left@))), Ghost(ranks(factors_view(right@))))
}

// ---------------------------------------------------------------------------
// Reordering keeps the number of index slots.
// ---------------------------------------------------------------------------

spec fn seq_sum(s: Seq<int>) -> int
    decreases s.len(),
{
    if s.len() == 0 {
        0
    } else {
        seq_sum(s.drop_last()) + s.last()
    }
}

proof fn lemma_sum_remove(s: Seq<int>, j: int)
    requires
        0 <= j < s.len(),
    ensures
        seq_sum(s) == seq_sum(s.remove(j)) + s[j],
    decreases s.len(),
{
    if j < s.len() - 1 {
        assert(s.remove(j).drop_last() =~= s.drop_last().remove(j));
        lemma_sum_remove(s.drop_last(), j);
        assert(s.remove(j).last() == s.last());
    } else {
        assert(s.remove(j) =~= s.drop_last());
    }
}

/// `o` lists each of `0..n` exactly once.
pub open spec fn is_perm(o: Seq<usize>, n: nat) -> bool {
    &&& o.len() == n
    &&& forall|j: int| 0 <= j < o.len() ==> (#[trigger] o[j]) < n
    &&& o.no_duplicates()
    &&& forall|p: int| 0 <= p < n ==> #[trigger] o.contains(p as usize)
}

proof fn lemma_perm_sum(l: Seq<int>, o: Seq<usize>)
    requires
        l.len() <= usize::MAX,
        is_perm(o, l.len()),
    ensures
        seq_sum(o.map_values(|p: usize| l[p as int])) == seq_sum(l),
    decreases l.len(),
{
    let n = l.len();
    if n > 0 {
        let last = (n - 1) as usize;
        assert(o.contains(last));
        let j = choose|j: int| 0 <= j < o.len() && o[j] == last;
        let o2 = o.remove(j);
        let l2 = l.drop_last();
        assert forall|k: int| 0 <= k < o2.len() implies (#[trigger] o2[k]) < (n - 1) as nat by {
            if k < j {
                assert(o2[k] == o[k]);
                assert(o[k] != o[j]);
            } else {
                assert(o2[k] == o[k + 1]);
                assert(o[k + 1] != o[j]);
            }
        }
        assert(o2.no_duplicates()) by {
            assert forall|x: int, y: int| 0 <= x < o2.len() && 0 <= y < o2.len() && x != y implies o2[x] != o2[y] by {
                let x1 = if x < j { x } else { x + 1 };
                let y1 = if y < j { y } else { y + 1 };
                assert(o2[x] == o[x1]);
                assert(o2[y] == o[y1]);
            }
        }
        assert forall|p: int| 0 <= p < n - 1 implies #[trigger] o2.contains(p as usize) by {
            assert(o.contains(p as usize));
            let k = choose|k: int| 0 <= k < o.len() && o[k] == p as usize;
            if k < j {
                assert(o2[k] == o[k]);
            } else {
                assert(k != j);
                assert(o2[k - 1] == o[k]);
            }
        }
        lemma_perm_sum(l2, o2);
        let m = o.map_values(|p: usize| l[p as int]);
        let m2 = o2.map_values(|p: usize| l2[p as int]);
        assert(m.remove(j) =~= m2) by {
            assert forall|k: int| 0 <= k < m2.len() implies m.remove(j)[k] == m2[k] by {
                if k < j {
                    assert(o2[k] == o[k]);
                } else {
                    assert(o2[k] == o[k + 1]);
                }
            }
        }
        lemma_sum_remove(m, j);
    }
}

spec fn rank_list(fs: Seq<FactorModel>) -> Seq<int> {
    fs.map_values(|f: FactorModel| f.indices.len() as int)
}

proof fn lemma_indices_len(fs: Seq<FactorModel>)
    ensures
        all_indices(fs).len() == seq_sum(rank_list(fs)),
    decreases fs.len(),
{
    if fs.len() > 0 {
        lemma_indices_len(fs.drop_last());
        assert(rank_list(fs.drop_last()) =~= rank_list(fs).drop_last());
    }
}

/// A body that reorders same-rank variants of the factors has as many index
/// slots as the factors.
pub proof fn lemma_reordered_len(fs: Seq<FactorModel>, vs: Seq<FactorModel>, o: Seq<usize>)
    requires
        fs.len() <= usize::MAX,
        valid_order(fs, o),
        vs.len() == fs.len(),
        forall|i: int| 0 <= i < fs.len() ==> (#[trigger] vs[i]).indices.len() == fs[i].indices.len(),
    ensures
        all_indices(apply_order(o, vs)).len() == all_indices(fs).len(),
{
    lemma_indices_len(fs);
    lemma_indices_len(apply_order(o, vs));
    let l = rank_list(fs);
    assert(rank_list(apply_order(o, vs)) =~= o.map_values(|p: usize| l[p as int])) by {
        assert forall|k: int| 0 <= k < o.len() implies #[trigger] rank_list(apply_order(o, vs))[k] == l[o[k] as int] by {
            assert(vs[o[k] as int].indices.len() == fs[o[k] as int].indices.len());
        }
    }
    lemma_perm_sum(l, o);
}

// ---------------------------------------------------------------------------
// Canonical terms.
// ---------------------------------------------------------------------------

/// `o` applied to `vs`: position `k` holds `vs[o[k]]`.
pub open spec fn apply_order<A>(o: Seq<usize>, vs: Seq<A>) -> Seq<A> {
    o.map_values(|p: usize| vs[p as int])
}

/// The candidate body, with its sign, that choice `c` gives in order `o`.
pub open spec fn candidate_of(c: (Seq<FactorModel>, int), o: Seq<usize>, out: Seq<Index>) -> (Seq<FactorModel>, int) {
    (normalize(apply_order(o, c.0), out), c.1)
}

/// `x` is a candidate body with its sign: the factors `fs` with one signed
/// symmetry variant chosen for each, put in an order with ascending tensor
/// IDs, and renamed with the output fixed by position.
pub open spec fn is_candidate(
    fs: Seq<FactorModel>,
    out: Seq<Index>,
    symmetries: Seq<(TensorId, Vec<SymmetryGenerator>)>,
    x: (Seq<FactorModel>, int),
) -> bool {
    exists|c: (Seq<FactorModel>, int), o: Seq<usize>|
        is_choice(fs, symmetries, c) && valid_order(fs, o) && #[trigger] candidate_of(c, o, out) == x
}

/// `b` is a candidate body that no candidate body precedes.
pub open spec fn is_least_candidate(
    fs: Seq<FactorModel>,
    out: Seq<Index>,
    symmetries: Seq<(TensorId, Vec<SymmetryGenerator>)>,
    b: Seq<FactorModel>,
) -> bool {
    &&& exists|s: int| is_candidate(fs, out, symmetries, (b, s))
    &&& forall|x: (Seq<FactorModel>, int)| is_candidate(fs, out, symmetries, x) ==> body_total(b, x.0) != Order::Greater
}

/// The least candidate body.
pub open spec fn least_candidate(
    fs: Seq<FactorModel>,
    out: Seq<Index>,
    symmetries: Seq<(TensorId, Vec<SymmetryGenerator>)>,
) -> Seq<FactorModel> {
    some_body(|b: Seq<FactorModel>| is_least_candidate(fs, out, symmetries, b))
}

/// A body with property `p`, if there is one.
pub open spec fn some_body(p: spec_fn(Seq<FactorModel>) -> bool) -> Seq<FactorModel> {
    choose|b: Seq<FactorModel>| #[trigger] p(b)
}

/// Some candidate body is least.
pub open spec fn has_least_candidate(
    fs: Seq<FactorModel>,
    out: Seq<Index>,
    symmetries: Seq<(TensorId, Vec<SymmetryGenerator>)>,
) -> bool {
    exists|b: Seq<FactorModel>| is_least_candidate(fs, out, symmetries, b)
}

/// The canonical form of a term: its least candidate body, with the
/// coefficient negated when that body arises only with sign minus one. A zero
/// term, or one whose least body arises with both signs, vanishes. (Terms whose
/// symmetries fit always have a least candidate; one without would vanish too.)
pub open spec fn canonical_term(
    t: TermModel,
    out: Seq<Index>,
    symmetries: Seq<(TensorId, Vec<SymmetryGenerator>)>,
) -> Option<TermModel> {
    if t.coeff.0 == 0 || !has_least_candidate(t.factors, out, symmetries) {
        None
    } else {
        let b = least_candidate(t.factors, out, symmetries);
        let pos = is_candidate(t.factors, out, symmetries, (b, 1));
        let neg = is_candidate(t.factors, out, symmetries, (b, -1));
        if pos && neg {
            None
        } else {
            Some(TermModel { coeff: if neg { rat_neg(t.coeff) } else { t.coeff }, factors: b })
        }
    }
}

/// A least candidate is the least candidate.
pub proof fn lemma_least_unique(
    fs: Seq<FactorModel>,
    out: Seq<Index>,
    symmetries: Seq<(TensorId, Vec<SymmetryGenerator>)>,
    b: Seq<FactorModel>,
)
    requires
        is_least_candidate(fs, out, symmetries, b),
    ensures
        least_candidate(fs, out, symmetries) == b,
{
    let p = |x: Seq<FactorModel>| is_least_candidate(fs, out, symmetries, x);
    assert(p(b));
    let c = least_candidate(fs, out, symmetries);
    assert(c == some_body(p));
    assert(p(c));
    let s = choose|s: int| is_candidate(fs, out, symmetries, (b, s));
    let t = choose|t: int| is_candidate(fs, out, symmetries, (c, t));
    assert(body_total(b, c) != Order::Greater);
    assert(body_total(c, b) != Order::Greater);
    lemma_body_total(b, c, b);
}

/// The state of the search for the least candidate: the least body so far and
/// whether it arose with sign one and with sign minus one.
pub type PickState = (Option<Seq<FactorModel>>, bool, bool);

/// Considers one more candidate.
pub open spec fn pick_step(state: PickState, x: (Seq<FactorModel>, int)) -> PickState {
    match state.0 {
        None => (Some(x.0), x.1 == 1, x.1 == -1),
        Some(b) => match body_total(x.0, b) {
            Order::Less => (Some(x.0), x.1 == 1, x.1 == -1),
            Order::Equal => (Some(b), state.1 || x.1 == 1, state.2 || x.1 == -1),
            Order::Greater => state,
        },
    }
}

/// Considers the candidates `s` in turn.
pub open spec fn pick(s: Seq<(Seq<FactorModel>, int)>) -> PickState
    decreases s.len(),
{
    if s.len() == 0 {
        (None, false, false)
    } else {
        pick_step(pick(s.drop_last()), s.last())
    }
}

/// After considering candidates, the state holds the least of them and
/// whether it arose with each sign.
proof fn lemma_pick(s: Seq<(Seq<FactorModel>, int)>)
    ensures
        s.len() == 0 <==> pick(s).0 is None,
        pick(s).0 matches Some(b) ==> {
            &&& exists|i: int| 0 <= i < s.len() && s[i].0 == b
            &&& forall|i: int| 0 <= i < s.len() ==> body_total(b, #[trigger] s[i].0) != Order::Greater
            &&& pick(s).1 <==> s.contains((b, 1int))
            &&& pick(s).2 <==> s.contains((b, -1int))
        },
    decreases s.len(),
{
    if s.len() > 0 {
        let p = s.drop_last();
        let x = s.last();
        lemma_pick(p);
        let n = s.len() - 1;
        assert(s[n] == x);
        match pick(p).0 {
            None => {
                assert(p.len() == 0);
                assert forall|i: int| 0 <= i < s.len() implies body_total(x.0, #[trigger] s[i].0) != Order::Greater by {
                    assert(i == n);
                    lemma_body_total(x.0, x.0, x.0);
                }
                if x.1 != 1 {
                    assert(!s.contains((x.0, 1int)));
                }
                if x.1 != -1 {
                    assert(!s.contains((x.0, -1int)));
                }
            },
            Some(b) => {
                lemma_body_total(x.0, b, x.0);
                assert forall|i: int| 0 <= i < n implies #[trigger] s[i] == p[i] by {}
                match body_total(x.0, b) {
                    Order::Less => {
                        assert forall|i: int| 0 <= i < s.len() implies body_total(x.0, #[trigger] s[i].0) != Order::Greater by {
                            if i < n {
                                assert(body_total(b, p[i].0) != Order::Greater);
                                lemma_body_total(x.0, b, p[i].0);
                                lemma_body_total(b, p[i].0, x.0);
                                if body_total(b, p[i].0) == Order::Equal {
                                    assert(b == p[i].0);
                                }
                            } else {
                                lemma_body_total(x.0, x.0, x.0);
                            }
                        }
                        assert forall|i: int| 0 <= i < n implies #[trigger] s[i].0 != x.0 by {
                            assert(body_total(b, p[i].0) != Order::Greater);
                            if p[i].0 == x.0 {
                                assert(body_total(b, x.0) == Order::Greater);
                            }
                        }
                        if x.1 != 1 {
                            assert(!s.contains((x.0, 1int))) by {
                                if s.contains((x.0, 1int)) {
                                    let i = choose|i: int| 0 <= i < s.len() && s[i] == (x.0, 1int);
                                    assert(s[i].0 != x.0 || i == n);
                                }
                            }
                        } else {
                            assert(s[n] == (x.0, 1int));
                        }
                        if x.1 != -1 {
                            assert(!s.contains((x.0, -1int))) by {
                                if s.contains((x.0, -1int)) {
                                    let i = choose|i: int| 0 <= i < s.len() && s[i] == (x.0, -1int);
                                    assert(s[i].0 != x.0 || i == n);
                                }
                            }
                        } else {
                            assert(s[n] == (x.0, -1int));
                        }
                    },
                    Order::Equal => {
                        assert(x.0 == b);
                        assert(s.contains((b, 1int)) <==> p.contains((b, 1int)) || x.1 == 1) by {
                            if s.contains((b, 1int)) {
                                let i = choose|i: int| 0 <= i < s.len() && s[i] == (b, 1int);
                                if i < n {
                                    assert(p[i] == (b, 1int));
                                }
                            }
                            if p.contains((b, 1int)) {
                                let i = choose|i: int| 0 <= i < p.len() && p[i] == (b, 1int);
                                assert(s[i] == (b, 1int));
                            }
                            if x.1 == 1 {
                                assert(s[n] == (b, 1int));
                            }
                        }
                        assert(s.contains((b, -1int)) <==> p.contains((b, -1int)) || x.1 == -1) by {
                            if s.contains((b, -1int)) {
                                let i = choose|i: int| 0 <= i < s.len() && s[i] == (b, -1int);
                                if i < n {
                                    assert(p[i] == (b, -1int));
                                }
                            }
                            if p.contains((b, -1int)) {
                                let i = choose|i: int| 0 <= i < p.len() && p[i] == (b, -1int);
                                assert(s[i] == (b, -1int));
                            }
                            if x.1 == -1 {
                                assert(s[n] == (b, -1int));
                            }
                        }
                        assert forall|i: int| 0 <= i < s.len() implies body_total(b, #[trigger] s[i].0) != Order::Greater by {
                            if i < n {
                                assert(body_total(b, p[i].0) != Order::Greater);
                            } else {
                                lemma_body_total(b, b, b);
                            }
                        }
                        let i0 = choose|i: int| 0 <= i < p.len() && p[i].0 == b;
                        assert(s[i0].0 == b);
                    },
                    Order::Greater => {
                        assert(x.0 != b);
                        assert(s.contains((b, 1int)) <==> p.contains((b, 1int))) by {
                            if s.contains((b, 1int)) {
                                let i = choose|i: int| 0 <= i < s.len() && s[i] == (b, 1int);
                                if i < n {
                                    assert(p[i] == (b, 1int));
                                }
                            }
                            if p.contains((b, 1int)) {
                                let i = choose|i: int| 0 <= i < p.len() && p[i] == (b, 1int);
                                assert(s[i] == (b, 1int));
                            }
                        }
                        assert(s.contains((b, -1int)) <==> p.contains((b, -1int))) by {
                            if s.contains((b, -1int)) {
                                let i = choose|i: int| 0 <= i < s.len() && s[i] == (b, -1int);
                                if i < n {
                                    assert(p[i] == (b, -1int));
                                }
                            }
                            if p.contains((b, -1int)) {
                                let i = choose|i: int| 0 <= i < p.len() && p[i] == (b, -1int);
                                assert(s[i] == (b, -1int));
                            }
                        }
                        assert forall|i: int| 0 <= i < s.len() implies body_total(b, #[trigger] s[i].0) != Order::Greater by {
                            if i < n {
                                assert(body_total(b, p[i].0) != Order::Greater);
                            }
                        }
                        let i0 = choose|i: int| 0 <= i < p.len() && p[i].0 == b;
                        assert(s[i0].0 == b);
                    },
                }
            },
        }
    }
}

/// A choice keeps each factor's tensor and rank, and its sign is one or minus one.
pub proof fn lemma_choice_shape(fs: Seq<FactorModel>, symmetries: Seq<(TensorId, Vec<SymmetryGenerator>)>, c: (Seq<FactorModel>, int))
    requires
        symmetries_fit(fs, symmetries),
        is_choice(fs, symmetries, c),
    ensures
        c.0.len() == fs.len(),
        forall|i: int| 0 <= i < fs.len() ==> (#[trigger] c.0[i]).indices.len() == fs[i].indices.len() && c.0[i].tensor == fs[i].tensor,
        c.1 == 1 || c.1 == -1,
{
    lemma_choice_sign(fs, symmetries, c);
    let signs = choose|signs: Seq<int>| #[trigger] choice_by(fs, symmetries, c.0, signs) && c.1 == sign_product(signs);
    assert forall|i: int| 0 <= i < fs.len() implies (#[trigger] c.0[i]).indices.len() == fs[i].indices.len() && c.0[i].tensor == fs[i].tensor by {
        assert(gens_ok(generators_of(symmetries, fs[i].tensor), fs[i].indices.len()));
        assert(is_variant(fs[i], generators_of(symmetries, fs[i].tensor), (c.0[i], signs[i])));
        lemma_variant_shape(fs[i], generators_of(symmetries, fs[i].tensor), (c.0[i], signs[i]));
    }
}

proof fn lemma_ones_product(n: nat)
    ensures
        sign_product(Seq::new(n, |i: int| 1int)) == 1,
    decreases n,
{
    if n > 0 {
        lemma_ones_product((n - 1) as nat);
        assert(Seq::new(n, |i: int| 1int).drop_last() =~= Seq::new((n - 1) as nat, |i: int| 1int));
    }
}

/// Leaving every factor as it is, with sign one, is a choice.
pub proof fn lemma_identity_choice(fs: Seq<FactorModel>, symmetries: Seq<(TensorId, Vec<SymmetryGenerator>)>)
    requires
        forall|i: int| 0 <= i < fs.len() ==> (#[trigger] fs[i]).indices.len() <= usize::MAX,
    ensures
        is_choice(fs, symmetries, (fs, 1int)),
{
    let signs = Seq::new(fs.len(), |i: int| 1int);
    assert forall|i: int| 0 <= i < fs.len() implies is_variant(fs[i], generators_of(symmetries, fs[i].tensor), (#[trigger] fs[i], signs[i])) by {
        let gens = generators_of(symmetries, fs[i].tensor);
        let w = Seq::<int>::empty();
        assert(is_word(gens.len() as int, w));
        assert(permute(fs[i].indices, identity_perm(fs[i].indices.len())) =~= fs[i].indices);
        assert(variant_by(fs[i], gens, w) == (fs[i], 1int));
    }
    assert(choice_by(fs, symmetries, fs, signs));
    lemma_ones_product(fs.len());
    assert(choice_by(fs, symmetries, (fs, 1int).0, signs));
}

/// The factors of `factors` in the order `order`.
fn order_factors(order: &Vec<usize>, factors: &Vec<Factor>) -> (r: Vec<Factor>)
    requires
        forall|j: int| 0 <= j < order@.len() ==> (#[trigger] order@[j]) < factors@.len(),
    ensures
        factors_view(r@) == apply_order(order@, factors_view(factors@)),
{
    let mut r: Vec<Factor> = Vec::new();
    let mut j: usize = 0;
    while j < order.len()
        invariant
            j <= order@.len(),
            forall|j: int| 0 <= j < order@.len() ==> (#[trigger] order@[j]) < factors@.len(),
            factors_view(r@) =~= apply_order(order@, factors_view(factors@)).subrange(0, j as int),
        decreases order@.len() - j,
    {
        let ghost before = r@;
        r.push(factors[order[j]].clone());
        proof {
            assert(factors_view(r@) =~= factors_view(before).push(factors@[order@[j as int] as int]@));
        }
        j = j + 1;
    }
    r
}

/// The search state held in memory, as a mathematical value.
pub open spec fn pick_view(best: Option<Vec<Factor>>, pos: bool, neg: bool) -> PickState {
    (
        match best {
            Some(b) => Some(factors_view(b@)),
            None => None,
        },
        pos,
        neg,
    )
}

/// A term in memory, if any, as a mathematical value.
pub open spec fn term_option_view(t: Option<Term>) -> Option<TermModel> {
    match t {
        Some(t) => Some(t@),
        None => None,
    }
}

/// Canonicalizes one term: the least body over every choice of symmetry
/// variants and every factor order with ascending tensor IDs, after index
/// normalization, with the sign that body carries.
pub fn canonicalize_term(term: &Term, output: &Vec<Index>, symmetries: &IdMap<TensorId, Vec<SymmetryGenerator>>) -> (r: Option<Term>)
    requires
        symmetries_fit(term@.factors, symmetries@),
        output@.len() + all_indices(term@.factors).len() <= u64::MAX,
    ensures
        term_option_view(r) == canonical_term(term@, output@, symmetries@),
{
    if term.coeff.is_zero() {
        return None;
    }
    let ghost fs = term@.factors;
    let ghost out = output@;
    let ghost sym = symmetries@;
    let orders = factor_order_candidates(&term.factors);
    let choices = symmetry_candidates(&term.factors, symmetries);
    proof {
        assert(fs == factors_view(term.factors@));
        assert(term.factors.len() == term.factors@.len());
        assert forall|i: int| 0 <= i < fs.len() implies (#[trigger] fs[i]).indices.len() <= usize::MAX by {
            assert(term.factors@[i].indices.len() == term.factors@[i].indices@.len());
        }
        lemma_identity_choice(fs, sym);
        assert(choice_views(choices@).contains((fs, 1int)));
        assert(fs.len() <= usize::MAX);
    }
    let mut best: Option<Vec<Factor>> = None;
    let mut saw_positive = false;
    let mut saw_negative = false;
    let ghost mut seen: Seq<(Seq<FactorModel>, int)> = Seq::empty();
    let mut ci: usize = 0;
    while ci < choices.len()
        invariant
            fs == term@.factors,
            fs == factors_view(term.factors@),
            fs.len() <= usize::MAX,
            out == output@,
            sym == symmetries@,
            symmetries_fit(fs, sym),
            out.len() + all_indices(fs).len() <= u64::MAX,
            orders@.len() > 0,
            ci <= choices@.len(),
            forall|k: int| 0 <= k < orders@.len() ==> valid_order(fs, #[trigger] orders@[k]@),
            forall|k: int| 0 <= k < choices@.len() ==> is_choice(fs, sym, #[trigger] choice_view(choices@[k])),
            pick_view(best, saw_positive, saw_negative) == pick(seen),
            ci > 0 ==> seen.len() > 0,
            forall|k: int| 0 <= k < seen.len() ==> is_candidate(fs, out, sym, #[trigger] seen[k]),
            forall|a: int, k: int| 0 <= a < ci && 0 <= k < orders@.len() ==>
                #[trigger] seen.contains(candidate_of(choice_view(choices@[a]), #[trigger] orders@[k]@, out)),
        decreases choices@.len() - ci,
    {
        let chosen = &choices[ci].0;
        let sign = choices[ci].1;
        let ghost c = choice_view(choices@[ci as int]);
        proof {
            assert(is_choice(fs, sym, c));
            lemma_choice_shape(fs, sym, c);
        }
        let mut oi: usize = 0;
        while oi < orders.len()
            invariant
                fs == term@.factors,
                fs == factors_view(term.factors@),
                fs.len() <= usize::MAX,
                out == output@,
                sym == symmetries@,
                symmetries_fit(fs, sym),
                out.len() + all_indices(fs).len() <= u64::MAX,
                orders@.len() > 0,
                ci < choices@.len(),
                oi <= orders@.len(),
                c == choice_view(choices@[ci as int]),
                *chosen == choices@[ci as int].0,
                sign == choices@[ci as int].1,
                is_choice(fs, sym, c),
                c.0.len() == fs.len(),
                forall|i: int| 0 <= i < fs.len() ==> (#[trigger] c.0[i]).indices.len() == fs[i].indices.len() && c.0[i].tensor == fs[i].tensor,
                forall|k: int| 0 <= k < orders@.len() ==> valid_order(fs, #[trigger] orders@[k]@),
                forall|k: int| 0 <= k < choices@.len() ==> is_choice(fs, sym, #[trigger] choice_view(choices@[k])),
                pick_view(best, saw_positive, saw_negative) == pick(seen),
                ci > 0 || oi > 0 ==> seen.len() > 0,
                forall|k: int| 0 <= k < seen.len() ==> is_candidate(fs, out, sym, #[trigger] seen[k]),
                forall|a: int, k: int| 0 <= a < ci && 0 <= k < orders@.len() ==>
                    #[trigger] seen.contains(candidate_of(choice_view(choices@[a]), #[trigger] orders@[k]@, out)),
                forall|k: int| 0 <= k < oi ==> #[trigger] seen.contains(candidate_of(c, orders@[k]@, out)),
            decreases orders@.len() - oi,
        {
            let order = &orders[oi];
            proof {
                assert(valid_order(fs, order@));
                lemma_reordered_len(fs, c.0, order@);
            }
            let ordered = order_factors(order, chosen);
            let candidate = normalize_indices(&ordered, output);
            let ghost x = (factors_view(candidate@), sign as int);
            proof {
                assert(x == candidate_of(c, order@, out));
                assert(is_candidate(fs, out, sym, x));
            }
            let ghost before = pick_view(best, saw_positive, saw_negative);
            let mut replace = false;
            let mut tie = false;
            match &best {
                None => {
                    replace = true;
                },
                Some(b) => {
                    let o = compare_total(&candidate, b);
                    if o == Order::Less {
                        replace = true;
                    } else if o == Order::Equal {
                        tie = true;
                    }
                },
            }
            if replace {
                best = Some(candidate);
                saw_positive = sign == 1;
                saw_negative = sign == -1;
            } else if tie {
                saw_positive = saw_positive || sign == 1;
                saw_negative = saw_negative || sign == -1;
            }
            proof {
                assert(pick_view(best, saw_positive, saw_negative) == pick_step(before, x));
                let old_seen = seen;
                seen = seen.push(x);
                assert(seen.drop_last() =~= old_seen);
                assert(seen[seen.len() - 1] == x);
                assert forall|k: int| 0 <= k < seen.len() implies is_candidate(fs, out, sym, #[trigger] seen[k]) by {
                    if k < old_seen.len() {
                        assert(seen[k] == old_seen[k]);
                    }
                }
                assert forall|a: int, k: int| 0 <= a < ci && 0 <= k < orders@.len() implies
                    #[trigger] seen.contains(candidate_of(choice_view(choices@[a]), #[trigger] orders@[k]@, out)) by {
                    let y = candidate_of(choice_view(choices@[a]), orders@[k]@, out);
                    assert(old_seen.contains(y));
                    let j = choose|j: int| 0 <= j < old_seen.len() && old_seen[j] == y;
                    assert(seen[j] == y);
                }
                assert forall|k: int| 0 <= k < oi + 1 implies #[trigger] seen.contains(candidate_of(c, orders@[k]@, out)) by {
                    let y = candidate_of(c, orders@[k]@, out);
                    if k < oi {
                        assert(old_seen.contains(y));
                        let j = choose|j: int| 0 <= j < old_seen.len() && old_seen[j] == y;
                        assert(seen[j] == y);
                    } else {
                        assert(seen[seen.len() - 1] == y);
                    }
                }
            }
            oi = oi + 1;
        }
        ci = ci + 1;
    }
    proof {
        lemma_pick(seen);
    }
    let best = best.unwrap();
    let ghost b = factors_view(best@);
    proof {
        assert forall|x: (Seq<FactorModel>, int)| is_candidate(fs, out, sym, x) implies #[trigger] seen.contains(x) by {
            let (c, o) = choose|c: (Seq<FactorModel>, int), o: Seq<usize>|
                is_choice(fs, sym, c) && valid_order(fs, o) && #[trigger] candidate_of(c, o, out) == x;
            assert(choice_views(choices@).contains(c));
            let a = choose|a: int| 0 <= a < choices@.len() && choice_views(choices@)[a] == c;
            assert(choice_view(choices@[a]) == c);
            let k = choose|k: int| 0 <= k < orders@.len() && #[trigger] orders@[k]@ == o;
            assert(seen.contains(candidate_of(choice_view(choices@[a]), orders@[k]@, out)));
        }
        let i0 = choose|i: int| 0 <= i < seen.len() && seen[i].0 == b;
        assert(is_candidate(fs, out, sym, (b, seen[i0].1)));
        assert forall|x: (Seq<FactorModel>, int)| is_candidate(fs, out, sym, x) implies body_total(b, x.0) != Order::Greater by {
            assert(seen.contains(x));
            let j = choose|j: int| 0 <= j < seen.len() && seen[j] == x;
            assert(body_total(b, seen[j].0) != Order::Greater);
        }
        assert(is_least_candidate(fs, out, sym, b));
        assert(has_least_candidate(fs, out, sym));
        lemma_least_unique(fs, out, sym, b);
        assert(saw_positive <==> is_candidate(fs, out, sym, (b, 1int))) by {
            if seen.contains((b, 1int)) {
                let j = choose|j: int| 0 <= j < seen.len() && seen[j] == (b, 1int);
                assert(is_candidate(fs, out, sym, seen[j]));
            }
        }
        assert(saw_negative <==> is_candidate(fs, out, sym, (b, -1int))) by {
            if seen.contains((b, -1int)) {
                let j = choose|j: int| 0 <= j < seen.len() && seen[j] == (b, -1int);
                assert(is_candidate(fs, out, sym, seen[j]));
            }
        }
    }
    if saw_positive && saw_negative {
        return None;
    }
    let coeff = if saw_negative {
        term.coeff.negated()
    } else {
        term.coeff.clone()
    };
    Some(Term { coeff, factors: best })
}

// ---------------------------------------------------------------------------
// Canonical polynomials.
// ---------------------------------------------------------------------------

/// The canonical forms of the terms that do not vanish, in term order.
pub open spec fn canonical_terms(
    ts: Seq<TermModel>,
    out: Seq<Index>,
    symmetries: Seq<(TensorId, Vec<SymmetryGenerator>)>,
) -> Seq<TermModel>
    decreases ts.len(),
{
    if ts.len() == 0 {
        Seq::empty()
    } else {
        let rest = canonical_terms(ts.drop_last(), out, symmetries);
        match canonical_term(ts.last(), out, symmetries) {
            Some(t) => rest.push(t),
            None => rest,
        }
    }
}

/// Positions of `acc` whose body does not precede the body of `t`.
pub open spec fn not_before(acc: Seq<TermModel>, t: TermModel) -> spec_fn(int) -> bool {
    |i: int| body_order(acc[i].factors, t.factors) != Order::Less
}

/// Merges `t` into the body-sorted list `acc`: a term with an equal body
/// absorbs its coefficient; otherwise `t` goes before the first term whose
/// body does not precede its own.
pub open spec fn merge_term(acc: Seq<TermModel>, t: TermModel) -> Seq<TermModel> {
    match first_match(acc.len() as int, not_before(acc, t)) {
        Some(i) => if body_order(acc[i].factors, t.factors) == Order::Equal {
            acc.update(i, TermModel { coeff: rat_add(acc[i].coeff, t.coeff), factors: acc[i].factors })
        } else {
            acc.insert(i, t)
        },
        None => acc.push(t),
    }
}

/// Merges the terms in turn, starting from no terms.
pub open spec fn merge_terms(ts: Seq<TermModel>) -> Seq<TermModel>
    decreases ts.len(),
{
    if ts.len() == 0 {
        Seq::empty()
    } else {
        merge_term(merge_terms(ts.drop_last()), ts.last())
    }
}

/// The terms whose coefficient is not zero, in order.
pub open spec fn nonzero_terms(ts: Seq<TermModel>) -> Seq<TermModel>
    decreases ts.len(),
{
    if ts.len() == 0 {
        Seq::empty()
    } else {
        let rest = nonzero_terms(ts.drop_last());
        if ts.last().coeff.0 != 0 {
            rest.push(ts.last())
        } else {
            rest
        }
    }
}

/// Output indices renumbered by position.
pub open spec fn renumbered_output(out: Seq<Index>) -> Seq<Index> {
    Seq::new(out.len(), |i: int| Index { id: i as u64, domain: out[i].domain })
}

/// The canonical form of a polynomial: its canonical terms merged by body and
/// sorted, zero terms dropped, and the output renumbered; with no terms left,
/// the empty polynomial.
pub open spec fn canonical_poly(p: PolyModel, symmetries: Seq<(TensorId, Vec<SymmetryGenerator>)>) -> PolyModel {
    let merged = nonzero_terms(merge_terms(canonical_terms(p.terms, p.output, symmetries)));
    if merged.len() == 0 {
        PolyModel { output: Seq::empty(), terms: Seq::empty() }
    } else {
        PolyModel { output: renumbered_output(p.output), terms: merged }
    }
}

/// What canonicalizing `p` needs: every tensor's generators act on its
/// factors, and fresh index IDs fit in `u64`.
pub open spec fn canonicalizable(p: PolyModel, symmetries: Seq<(TensorId, Vec<SymmetryGenerator>)>) -> bool {
    forall|k: int| 0 <= k < p.terms.len() ==> {
        &&& symmetries_fit(#[trigger] p.terms[k].factors, symmetries)
        &&& p.output.len() + all_indices(p.terms[k].factors).len() <= u64::MAX
    }
}

/// Output indices renumbered by position.
pub fn canonical_output(output: &Vec<Index>) -> (r: Vec<Index>)
    requires
        output@.len() <= u64::MAX,
    ensures
        r@ == renumbered_output(output@),
{
    let mut r: Vec<Index> = Vec::new();
    let mut i: usize = 0;
    while i < output.len()
        invariant
            i <= output@.len(),
            output@.len() <= u64::MAX,
            r@ =~= renumbered_output(output@).subrange(0, i as int),
        decreases output@.len() - i,
    {
        r.push(Index { id: i as u64, domain: output[i].domain });
        i = i + 1;
    }
    r
}

/// Merges `t` into `merged` as `merge_term` says.
fn merge_into(merged: &mut Vec<Term>, t: Term)
    ensures
        terms_view(final(merged)@) == merge_term(terms_view(old(merged)@), t@),
{
    let ghost acc = terms_view(merged@);
    let mut i: usize = 0;
    while i < merged.len() && compare_term_bodies(&merged[i], &t) == Order::Less
        invariant
            i <= merged@.len(),
            acc == terms_view(merged@),
            forall|k: int| 0 <= k < i ==> !#[trigger] not_before(acc, t@)(k),
        decreases merged@.len() - i,
    {
        i = i + 1;
    }
    if i < merged.len() {
        proof {
            lemma_first_found(i as int, acc.len() as int, not_before(acc, t@));
        }
        if compare_term_bodies(&merged[i], &t) == Order::Equal {
            let coeff = merged[i].coeff.plus(&t.coeff);
            let factors = merged[i].factors.clone();
            proof {
                assert(factors_view(factors@) =~= factors_view(merged@[i as int].factors@));
            }
            let replacement = Term { coeff, factors };
            merged.set(i, replacement);
            proof {
                assert(terms_view(merged@) =~= acc.update(i as int, TermModel { coeff: rat_add(acc[i as int].coeff, t@.coeff), factors: acc[i as int].factors }));
            }
        } else {
            let ghost tv = t@;
            merged.insert(i, t);
            proof {
                assert(terms_view(merged@) =~= acc.insert(i as int, tv));
            }
        }
    } else {
        proof {
            lemma_first_none(acc.len() as int, not_before(acc, t@));
        }
        let ghost tv = t@;
        merged.push(t);
        proof {
            assert(terms_view(merged@) =~= acc.push(tv));
        }
    }
}

/// The terms whose coefficient is not zero.
fn drop_zero_terms(terms: &Vec<Term>) -> (r: Vec<Term>)
    ensures
        terms_view(r@) == nonzero_terms(terms_view(terms@)),
{
    let mut r: Vec<Term> = Vec::new();
    let mut i: usize = 0;
    while i < terms.len()
        invariant
            i <= terms@.len(),
            terms_view(r@) == nonzero_terms(terms_view(terms@).subrange(0, i as int)),
        decreases terms@.len() - i,
    {
        let ghost before = r@;
        proof {
            assert(terms_view(terms@).subrange(0, i + 1).drop_last() =~= terms_view(terms@).subrange(0, i as int));
        }
        if !terms[i].coeff.is_zero() {
            r.push(terms[i].clone());
            proof {
                assert(terms_view(r@) =~= terms_view(before).push(terms@[i as int]@));
            }
        }
        i = i + 1;
    }
    proof {
        assert(terms_view(terms@).subrange(0, i as int) =~= terms_view(terms@));
    }
    r
}

/// Canonicalize an expanded polynomial modulo dummy renaming, factor order,
/// and declared signed tensor symmetries.
pub fn canonicalize(polynomial: Polynomial, symmetries: &IdMap<TensorId, Vec<SymmetryGenerator>>) -> (r: Polynomial)
    requires
        canonicalizable(polynomial@, symmetries@),
    ensures
        r@ == canonical_poly(polynomial@, symmetries@),
{
    let ghost p = polynomial@;
    let ghost sym = symmetries@;
    let mut merged: Vec<Term> = Vec::new();
    let mut k: usize = 0;
    while k < polynomial.terms.len()
        invariant
            p == polynomial@,
            sym == symmetries@,
            canonicalizable(p, sym),
            k <= p.terms.len(),
            terms_view(merged@) == merge_terms(canonical_terms(p.terms.subrange(0, k as int), p.output, sym)),
        decreases p.terms.len() - k,
    {
        proof {
            assert(p.terms[k as int] == polynomial.terms@[k as int]@);
            assert(p.terms.subrange(0, k + 1).drop_last() =~= p.terms.subrange(0, k as int));
            assert(symmetries_fit(p.terms[k as int].factors, sym));
        }
        let canonical = canonicalize_term(&polynomial.terms[k], &polynomial.output, symmetries);
        let ghost prev = canonical_terms(p.terms.subrange(0, k as int), p.output, sym);
        proof {
            assert(p.terms.subrange(0, k + 1).last() == p.terms[k as int]);
        }
        match canonical {
            Some(t) => {
                let ghost tv = t@;
                merge_into(&mut merged, t);
                proof {
                    assert(canonical_terms(p.terms.subrange(0, k + 1), p.output, sym) == prev.push(tv));
                    assert(prev.push(tv).drop_last() =~= prev);
                }
            },
            None => {
                assert(canonical_terms(p.terms.subrange(0, k + 1), p.output, sym) == prev);
            },
        }
        k = k + 1;
    }
    proof {
        assert(p.terms.subrange(0, k as int) =~= p.terms);
    }
    let terms = drop_zero_terms(&merged);
    if terms.len() == 0 {
        let r = Polynomial { output: Vec::new(), terms: Vec::new() };
        proof {
            assert(r@.output =~= Seq::<Index>::empty());
            assert(r@.terms =~= Seq::<TermModel>::empty());
            assert(terms_view(terms@).len() == 0);
        }
        r
    } else {
        proof {
            assert(polynomial.output.len() == polynomial.output@.len());
        }
        let r = Polynomial { output: canonical_output(&polynomial.output), terms };
        proof {
            assert(r@.terms == terms_view(r.terms@));
        }
        r
    }
}

// ---------------------------------------------------------------------------
// Canonical polynomials are sorted.
// ---------------------------------------------------------------------------

/// The bodies of `ts` strictly ascend.
pub open spec fn bodies_ascending(ts: Seq<TermModel>) -> bool {
    forall|i: int, j: int| 0 <= i < j < ts.len() ==> body_order((#[trigger] ts[i]).factors, (#[trigger] ts[j]).factors) == Order::Less
}

/// Merging a term into a list with strictly ascending bodies keeps them ascending.
pub proof fn lemma_merge_term_ascending(acc: Seq<TermModel>, t: TermModel)
    requires
        bodies_ascending(acc),
    ensures
        bodies_ascending(merge_term(acc, t)),
{
    let p = not_before(acc, t);
    crate::search::lemma_first_match_ensures(acc.len() as int, p);
    let r = merge_term(acc, t);
    match first_match(acc.len() as int, p) {
        Some(i) => {
            if body_order(acc[i].factors, t.factors) == Order::Equal {
                assert forall|x: int, y: int| 0 <= x < y < r.len() implies body_order((#[trigger] r[x]).factors, (#[trigger] r[y]).factors) == Order::Less by {
                    assert(r[x].factors == acc[x].factors);
                    assert(r[y].factors == acc[y].factors);
                }
            } else {
                lemma_body_order(acc[i].factors, t.factors, t.factors);
                assert(body_order(t.factors, acc[i].factors) == Order::Less);
                assert forall|x: int, y: int| 0 <= x < y < r.len() implies body_order((#[trigger] r[x]).factors, (#[trigger] r[y]).factors) == Order::Less by {
                    if x < i && y < i {
                        assert(r[x] == acc[x] && r[y] == acc[y]);
                    } else if x < i && y == i {
                        assert(r[x] == acc[x] && r[y] == t);
                        assert(!p(x));
                    } else if x < i {
                        assert(r[x] == acc[x] && r[y] == acc[y - 1]);
                    } else if x == i {
                        assert(r[x] == t && r[y] == acc[y - 1]);
                        if y - 1 > i {
                            assert(body_order(acc[i].factors, acc[y - 1].factors) == Order::Less);
                            lemma_body_order(t.factors, acc[i].factors, acc[y - 1].factors);
                        }
                    } else {
                        assert(r[x] == acc[x - 1] && r[y] == acc[y - 1]);
                    }
                }
            }
        },
        None => {
            assert forall|x: int, y: int| 0 <= x < y < r.len() implies body_order((#[trigger] r[x]).factors, (#[trigger] r[y]).factors) == Order::Less by {
                if y < acc.len() {
                    assert(r[x] == acc[x] && r[y] == acc[y]);
                } else {
                    assert(r[x] == acc[x] && r[y] == t);
                    assert(!p(x));
                }
            }
        },
    }
}

/// Merged terms have strictly ascending bodies.
pub proof fn lemma_merge_terms_ascending(ts: Seq<TermModel>)
    ensures
        bodies_ascending(merge_terms(ts)),
    decreases ts.len(),
{
    if ts.len() > 0 {
        lemma_merge_terms_ascending(ts.drop_last());
        lemma_merge_term_ascending(merge_terms(ts.drop_last()), ts.last());
    }
}

/// The nonzero terms keep their order and come from the list.
pub proof fn lemma_nonzero_terms(ts: Seq<TermModel>)
    requires
        bodies_ascending(ts),
    ensures
        bodies_ascending(nonzero_terms(ts)),
        forall|i: int| 0 <= i < nonzero_terms(ts).len() ==> (#[trigger] nonzero_terms(ts)[i]).coeff.0 != 0,
        forall|i: int| 0 <= i < nonzero_terms(ts).len() ==> ts.contains(#[trigger] nonzero_terms(ts)[i]),
    decreases ts.len(),
{
    if ts.len() > 0 {
        let rest = ts.drop_last();
        assert forall|x: int, y: int| 0 <= x < y < rest.len() implies body_order((#[trigger] rest[x]).factors, (#[trigger] rest[y]).factors) == Order::Less by {
            assert(rest[x] == ts[x] && rest[y] == ts[y]);
        }
        lemma_nonzero_terms(rest);
        let kept = nonzero_terms(rest);
        let r = nonzero_terms(ts);
        assert forall|i: int| 0 <= i < kept.len() implies ts.contains(#[trigger] kept[i]) by {
            assert(rest.contains(kept[i]));
            let k = choose|k: int| 0 <= k < rest.len() && rest[k] == kept[i];
            assert(ts[k] == kept[i]);
        }
        if ts.last().coeff.0 != 0 {
            assert(r == kept.push(ts.last()));
            assert forall|x: int, y: int| 0 <= x < y < r.len() implies body_order((#[trigger] r[x]).factors, (#[trigger] r[y]).factors) == Order::Less by {
                if y == r.len() - 1 {
                    assert(r[x] == kept[x]);
                    assert(rest.contains(kept[x]));
                    let k = choose|k: int| 0 <= k < rest.len() && rest[k] == kept[x];
                    assert(ts[k] == kept[x]);
                    assert(ts[ts.len() - 1] == ts.last());
                } else {
                    assert(r[x] == kept[x] && r[y] == kept[y]);
                }
            }
            assert forall|i: int| 0 <= i < r.len() implies ts.contains(#[trigger] r[i]) by {
                if i < kept.len() {
                    assert(r[i] == kept[i]);
                } else {
                    assert(ts[ts.len() - 1] == r[i]);
                }
            }
        }
    }
}

/// The terms of a canonical polynomial have strictly ascending bodies and
/// nonzero coefficients.
pub proof fn lemma_canonical_poly_sorted(p: PolyModel, symmetries: Seq<(TensorId, Vec<SymmetryGenerator>)>)
    ensures
        bodies_ascending(canonical_poly(p, symmetries).terms),
        forall|i: int| 0 <= i < canonical_poly(p, symmetries).terms.len() ==> (#[trigger] canonical_poly(p, symmetries).terms[i]).coeff.0 != 0,
{
    let merged = merge_terms(canonical_terms(p.terms, p.output, symmetries));
    lemma_merge_terms_ascending(canonical_terms(p.terms, p.output, symmetries));
    lemma_nonzero_terms(merged);
}

/// All zeros are equal: polynomials without terms have one canonical form,
/// the empty polynomial, whatever their outputs.
pub proof fn lemma_canonical_zero(p: PolyModel, q: PolyModel, symmetries: Seq<(TensorId, Vec<SymmetryGenerator>)>)
    requires
        p.terms.len() == 0,
        q.terms.len() == 0,
    ensures
        canonical_poly(p, symmetries) == canonical_poly(q, symmetries),
        canonical_poly(p, symmetries) == (PolyModel { output: Seq::empty(), terms: Seq::empty() }),
{
}

} // verus!
