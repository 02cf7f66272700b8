//! Signed axis-permutation symmetries and the groups their generators span.
//!
//! A signed permutation `(p, s)` acting on a factor relabels its slots: slot
//! `k` of the result holds slot `p[k]` of the original, and the factor's
//! value is multiplied by the sign `s`.

use vstd::prelude::*;

use crate::expand::{Factor, FactorModel, Index};
use crate::model::SymmetryGenerator;

verus! {

/// A signed permutation as a mathematical value.
pub type Signed = (Seq<usize>, int);

/// The permutation that keeps each of `r` slots in place.
pub open spec fn identity_perm(r: nat) -> Seq<usize> {
    Seq::new(r, |i: int| i as usize)
}

/// Applies `left` and then `right`: slot `k` of the result is `left[right[k]]`.
pub open spec fn compose_perm(left: Seq<usize>, right: Seq<usize>) -> Seq<usize> {
    right.map_values(|p: usize| left[p as int])
}

/// Follows the signed permutation `e` by the generator `g`.
pub open spec fn step(e: Signed, g: SymmetryGenerator) -> Signed {
    (compose_perm(e.0, g.permutation@), e.1 * g.sign)
}

/// The group element that a word over the generators spells: the identity
/// followed by `gens[w[0]]`, then `gens[w[1]]`, and so on.
pub open spec fn word_elem(r: nat, gens: Seq<SymmetryGenerator>, w: Seq<int>) -> Signed
    decreases w.len(),
{
    if w.len() == 0 {
        (identity_perm(r), 1)
    } else {
        step(word_elem(r, gens, w.drop_last()), gens[w.last()])
    }
}

/// Every letter of `w` names one of `n` generators.
pub open spec fn is_word(n: int, w: Seq<int>) -> bool {
    forall|i: int| 0 <= i < w.len() ==> 0 <= #[trigger] w[i] < n
}

/// `e` lies in the group that `gens` generate on `r` slots.
pub open spec fn in_group(r: nat, gens: Seq<SymmetryGenerator>, e: Signed) -> bool {
    exists|w: Seq<int>| is_word(gens.len() as int, w) && #[trigger] word_elem(r, gens, w) == e
}

/// A generator is a map of `r` slots into `r` slots with sign one or minus one.
pub open spec fn gen_ok(g: SymmetryGenerator, r: nat) -> bool {
    &&& g.permutation@.len() == r
    &&& forall|j: int| 0 <= j < r ==> (#[trigger] g.permutation@[j]) < r
    &&& (g.sign == 1 || g.sign == -1)
}

/// Every generator acts on `r` slots.
pub open spec fn gens_ok(gens: Seq<SymmetryGenerator>, r: nat) -> bool {
    forall|k: int| 0 <= k < gens.len() ==> gen_ok(#[trigger] gens[k], r)
}

/// A signed map of `r` slots into `r` slots with sign one or minus one.
pub open spec fn elem_ok(e: Signed, r: nat) -> bool {
    &&& e.0.len() == r
    &&& forall|j: int| 0 <= j < r ==> (#[trigger] e.0[j]) < r
    &&& (e.1 == 1 || e.1 == -1)
}

/// The slots of `indices` rearranged by `p`.
pub open spec fn permute(indices: Seq<Index>, p: Seq<usize>) -> Seq<Index> {
    p.map_values(|k: usize| indices[k as int])
}

/// The variant of factor `f` under the signed permutation `e`, with its sign.
pub open spec fn variant_of(f: FactorModel, e: Signed) -> (FactorModel, int) {
    (FactorModel { tensor: f.tensor, indices: permute(f.indices, e.0) }, e.1)
}

/// The variant of factor `f` that the word `w` spells, with its sign.
pub open spec fn variant_by(f: FactorModel, gens: Seq<SymmetryGenerator>, w: Seq<int>) -> (FactorModel, int) {
    variant_of(f, word_elem(f.indices.len(), gens, w))
}

/// `v` is a signed variant of `f` under the group that `gens` generate.
pub open spec fn is_variant(f: FactorModel, gens: Seq<SymmetryGenerator>, v: (FactorModel, int)) -> bool {
    exists|w: Seq<int>| is_word(gens.len() as int, w) && #[trigger] variant_by(f, gens, w) == v
}

/// A signed permutation held in memory, as a mathematical value.
pub open spec fn signed_view(e: (Vec<usize>, i8)) -> Signed {
    (e.0@, e.1 as int)
}

/// A signed factor variant held in memory, as a mathematical value.
pub open spec fn variant_view(v: (Factor, i8)) -> (FactorModel, int) {
    (v.0@, v.1 as int)
}

/// The mathematical values of a list of signed permutations.
pub open spec fn signed_views(s: Seq<(Vec<usize>, i8)>) -> Seq<Signed> {
    s.map_values(|e: (Vec<usize>, i8)| signed_view(e))
}

/// The mathematical values of a list of signed factor variants.
pub open spec fn variant_views(s: Seq<(Factor, i8)>) -> Seq<(FactorModel, int)> {
    s.map_values(|v: (Factor, i8)| variant_view(v))
}

// ---------------------------------------------------------------------------
// Facts about words.
// ---------------------------------------------------------------------------

/// Words over well-formed generators spell well-formed elements.
pub proof fn lemma_word_elem_ok(r: nat, gens: Seq<SymmetryGenerator>, w: Seq<int>)
    requires
        gens_ok(gens, r),
        is_word(gens.len() as int, w),
    ensures
        elem_ok(word_elem(r, gens, w), r),
    decreases w.len(),
{
    if w.len() > 0 {
        assert(is_word(gens.len() as int, w.drop_last())) by {
            assert forall|i: int| 0 <= i < w.drop_last().len() implies 0 <= #[trigger] w.drop_last()[i] < gens.len() by {
                assert(w.drop_last()[i] == w[i]);
            }
        }
        lemma_word_elem_ok(r, gens, w.drop_last());
        let g = gens[w.last()];
        assert(w.last() == w[w.len() - 1]);
        assert(gen_ok(g, r));
        let e = word_elem(r, gens, w.drop_last());
        assert forall|j: int| 0 <= j < r implies (#[trigger] word_elem(r, gens, w).0[j]) < r by {
            assert(g.permutation@[j] < r);
            assert(e.0[g.permutation@[j] as int] < r);
        }
    }
}

/// A variant keeps its factor's tensor and rank, and its sign is one or minus one.
pub proof fn lemma_variant_shape(f: FactorModel, gens: Seq<SymmetryGenerator>, v: (FactorModel, int))
    requires
        gens_ok(gens, f.indices.len()),
        is_variant(f, gens, v),
    ensures
        v.0.tensor == f.tensor,
        v.0.indices.len() == f.indices.len(),
        v.1 == 1 || v.1 == -1,
{
    let w = choose|w: Seq<int>| is_word(gens.len() as int, w) && #[trigger] variant_by(f, gens, w) == v;
    lemma_word_elem_ok(f.indices.len(), gens, w);
}

/// A word extended by one letter.
proof fn lemma_word_push(n: int, w: Seq<int>, k: int)
    requires
        is_word(n, w),
        0 <= k < n,
    ensures
        is_word(n, w.push(k)),
        w.push(k).drop_last() == w,
        w.push(k).last() == k,
{
    assert(w.push(k).drop_last() =~= w);
    assert forall|i: int| 0 <= i < w.push(k).len() implies 0 <= #[trigger] w.push(k)[i] < n by {
        if i < w.len() {
            assert(w.push(k)[i] == w[i]);
        }
    }
}

/// A list of elements that holds the identity and is closed under every
/// generator holds every element that a word spells.
proof fn lemma_closed_holds_words(r: nat, gens: Seq<SymmetryGenerator>, gv: Seq<Signed>, w: Seq<int>)
    requires
        gv.len() >= 1,
        gv[0] == (identity_perm(r), 1int),
        forall|i: int, k: int| 0 <= i < gv.len() && 0 <= k < gens.len() ==> #[trigger] gv.contains(step(gv[i], #[trigger] gens[k])),
        is_word(gens.len() as int, w),
    ensures
        gv.contains(word_elem(r, gens, w)),
    decreases w.len(),
{
    if w.len() == 0 {
        assert(gv[0] == word_elem(r, gens, w));
    } else {
        let u = w.drop_last();
        assert(is_word(gens.len() as int, u)) by {
            assert forall|i: int| 0 <= i < u.len() implies 0 <= #[trigger] u[i] < gens.len() by {
                assert(u[i] == w[i]);
            }
        }
        lemma_closed_holds_words(r, gens, gv, u);
        let i = choose|i: int| 0 <= i < gv.len() && gv[i] == word_elem(r, gens, u);
        let k = w.last();
        assert(k == w[w.len() - 1]);
        assert(gv.contains(step(gv[i], gens[k])));
    }
}

// ---------------------------------------------------------------------------
// Counting signed maps: a list of distinct ones is short.
// ---------------------------------------------------------------------------

/// `r` to the power `n`.
pub open spec fn power(r: nat, n: nat) -> nat
    decreases n,
{
    if n == 0 {
        1
    } else {
        power(r, (n - 1) as nat) * r
    }
}

proof fn lemma_power_positive(r: nat, n: nat)
    ensures
        r > 0 ==> power(r, n) > 0,
        n == 0 ==> power(r, n) == 1,
    decreases n,
{
    if n > 0 {
        lemma_power_positive(r, (n - 1) as nat);
        if r > 0 {
            lemma_digit_bound(0, power(r, (n - 1) as nat) as int, r as int, 0);
            assert(power(r, n) == power(r, (n - 1) as nat) * r);
            assert(power(r, (n - 1) as nat) * r >= r) by (nonlinear_arith)
                requires
                    power(r, (n - 1) as nat) > 0,
                    r > 0,
            ;
        }
    }
}

/// The number of signed maps of `r` slots into `r` slots.
pub open spec fn signed_count(r: nat) -> nat {
    2 * power(r, r)
}

/// Reads the slots of `p` as the digits of a base-`r` number.
spec fn perm_code(p: Seq<usize>, r: nat) -> int
    decreases p.len(),
{
    if p.len() == 0 {
        0
    } else {
        perm_code(p.drop_last(), r) * r + p.last()
    }
}

spec fn signed_code(e: Signed, r: nat) -> int {
    perm_code(e.0, r) * 2 + if e.1 == 1 { 1int } else { 0int }
}

proof fn lemma_digit_step(a: int, b: int, r: int, x: int, y: int)
    by (nonlinear_arith)
    requires
        0 <= a,
        0 <= b,
        0 <= x < r,
        0 <= y < r,
        a * r + x == b * r + y,
    ensures
        a == b,
        x == y,
{
}

proof fn lemma_digit_bound(a: int, p: int, r: int, x: int)
    by (nonlinear_arith)
    requires
        0 <= a < p,
        0 <= x < r,
    ensures
        0 <= a * r + x < p * r,
{
}

proof fn lemma_perm_code(p: Seq<usize>, q: Seq<usize>, r: nat)
    requires
        forall|j: int| 0 <= j < p.len() ==> (#[trigger] p[j]) < r,
        forall|j: int| 0 <= j < q.len() ==> (#[trigger] q[j]) < r,
        p.len() == q.len(),
    ensures
        0 <= perm_code(p, r) < power(r, p.len()),
        perm_code(p, r) == perm_code(q, r) ==> p == q,
    decreases p.len(),
{
    if p.len() > 0 {
        let p1 = p.drop_last();
        let q1 = q.drop_last();
        assert forall|j: int| 0 <= j < p1.len() implies (#[trigger] p1[j]) < r by {
            assert(p1[j] == p[j]);
        }
        assert forall|j: int| 0 <= j < q1.len() implies (#[trigger] q1[j]) < r by {
            assert(q1[j] == q[j]);
        }
        lemma_perm_code(p1, q1, r);
        assert(p.last() == p[p.len() - 1]);
        assert(q.last() == q[q.len() - 1]);
        lemma_digit_bound(perm_code(p1, r), power(r, p1.len()) as int, r as int, p.last() as int);
        assert(power(r, p.len()) == power(r, p1.len()) * r);
        if perm_code(p, r) == perm_code(q, r) {
            lemma_perm_code(q1, q1, r);
            lemma_digit_step(perm_code(p1, r), perm_code(q1, r), r as int, p.last() as int, q.last() as int);
            assert(p =~= p1.push(p.last()));
            assert(q =~= q1.push(q.last()));
        }
    }
}

/// Distinct well-formed signed maps on `r` slots number at most `signed_count(r)`.
proof fn lemma_distinct_signed_bound(s: Seq<Signed>, r: nat)
    requires
        forall|i: int| 0 <= i < s.len() ==> elem_ok(#[trigger] s[i], r),
        forall|i: int, j: int| 0 <= i < j < s.len() ==> #[trigger] s[i] != #[trigger] s[j],
    ensures
        s.len() <= signed_count(r),
{
    let codes = s.map_values(|e: Signed| signed_code(e, r));
    let bound = signed_count(r) as int;
    assert forall|i: int| 0 <= i < s.len() implies 0 <= #[trigger] codes[i] < bound by {
        assert(elem_ok(s[i], r));
        lemma_perm_code(s[i].0, s[i].0, r);
        lemma_digit_bound(perm_code(s[i].0, r), power(r, r) as int, 2, if s[i].1 == 1 { 1int } else { 0int });
    }
    assert(codes.no_duplicates()) by {
        assert forall|i: int, j: int| 0 <= i < codes.len() && 0 <= j < codes.len() && i != j implies codes[i] != codes[j] by {
            if codes[i] == codes[j] {
                assert(elem_ok(s[i], r));
                assert(elem_ok(s[j], r));
                lemma_perm_code(s[i].0, s[j].0, r);
                lemma_perm_code(s[i].0, s[i].0, r);
                lemma_perm_code(s[j].0, s[j].0, r);
                lemma_digit_step(
                    perm_code(s[i].0, r),
                    perm_code(s[j].0, r),
                    2,
                    if s[i].1 == 1 { 1int } else { 0int },
                    if s[j].1 == 1 { 1int } else { 0int },
                );
                if i < j {
                    assert(s[i] != s[j]);
                } else {
                    assert(s[j] != s[i]);
                }
            }
        }
    }
    codes.unique_seq_to_set();
    vstd::set_lib::lemma_int_range(0, bound);
    assert(codes.to_set().subset_of(vstd::set_lib::set_int_range(0, bound))) by {
        assert forall|c: int| codes.to_set().contains(c) implies vstd::set_lib::set_int_range(0, bound).contains(c) by {
            let i = choose|i: int| 0 <= i < codes.len() && codes[i] == c;
        }
    }
    vstd::set_lib::lemma_len_subset(codes.to_set(), vstd::set_lib::set_int_range(0, bound));
}

// ---------------------------------------------------------------------------
// Closing generators into a group.
// ---------------------------------------------------------------------------

proof fn lemma_signed_views_push(s: Seq<(Vec<usize>, i8)>, e: (Vec<usize>, i8))
    ensures
        signed_views(s.push(e)) == signed_views(s).push(signed_view(e)),
        forall|x: Signed| signed_views(s).contains(x) ==> #[trigger] signed_views(s.push(e)).contains(x),
{
    assert(signed_views(s.push(e)) =~= signed_views(s).push(signed_view(e)));
    assert forall|x: Signed| signed_views(s).contains(x) implies #[trigger] signed_views(s.push(e)).contains(x) by {
        let i = choose|i: int| 0 <= i < signed_views(s).len() && signed_views(s)[i] == x;
        assert(signed_views(s.push(e))[i] == x);
    }
}

proof fn lemma_variant_views_push(s: Seq<(Factor, i8)>, v: (Factor, i8))
    ensures
        variant_views(s.push(v)) == variant_views(s).push(variant_view(v)),
        forall|x: (FactorModel, int)| variant_views(s).contains(x) ==> #[trigger] variant_views(s.push(v)).contains(x),
{
    assert(variant_views(s.push(v)) =~= variant_views(s).push(variant_view(v)));
    assert forall|x: (FactorModel, int)| variant_views(s).contains(x) implies #[trigger] variant_views(s.push(v)).contains(x) by {
        let i = choose|i: int| 0 <= i < variant_views(s).len() && variant_views(s)[i] == x;
        assert(variant_views(s.push(v))[i] == x);
    }
}

/// Compose preimage permutations, applying `left` and then `right`.
pub fn compose(left: &Vec<usize>, right: &Vec<usize>) -> (r: Vec<usize>)
    requires
        forall|j: int| 0 <= j < right@.len() ==> (#[trigger] right@[j]) < left@.len(),
    ensures
        r@ == compose_perm(left@, right@),
{
    let mut r: Vec<usize> = Vec::new();
    let mut j: usize = 0;
    while j < right.len()
        invariant
            j <= right@.len(),
            forall|j: int| 0 <= j < right@.len() ==> (#[trigger] right@[j]) < left@.len(),
            r@ =~= compose_perm(left@, right@).subrange(0, j as int),
        decreases right@.len() - j,
    {
        r.push(left[right[j]]);
        j = j + 1;
    }
    r
}

fn same_positions(a: &Vec<usize>, b: &Vec<usize>) -> (r: bool)
    ensures
        r == (a@ == b@),
{
    if a.len() != b.len() {
        return false;
    }
    let mut j: usize = 0;
    while j < a.len()
        invariant
            j <= a@.len(),
            a@.len() == b@.len(),
            forall|k: int| 0 <= k < j ==> a@[k] == b@[k],
        decreases a@.len() - j,
    {
        if a[j] != b[j] {
            return false;
        }
        j = j + 1;
    }
    assert(a@ =~= b@);
    true
}

pub(crate) fn same_indices(a: &Vec<Index>, b: &Vec<Index>) -> (r: bool)
    ensures
        r == (a@ == b@),
{
    if a.len() != b.len() {
        return false;
    }
    let mut j: usize = 0;
    while j < a.len()
        invariant
            j <= a@.len(),
            a@.len() == b@.len(),
            forall|k: int| 0 <= k < j ==> a@[k] == b@[k],
        decreases a@.len() - j,
    {
        if a[j] != b[j] {
            return false;
        }
        j = j + 1;
    }
    assert(a@ =~= b@);
    true
}

fn holds_signed(group: &Vec<(Vec<usize>, i8)>, e: &(Vec<usize>, i8)) -> (r: bool)
    ensures
        r == signed_views(group@).contains(signed_view(*e)),
{
    let mut i: usize = 0;
    while i < group.len()
        invariant
            i <= group@.len(),
            forall|k: int| 0 <= k < i ==> signed_view(#[trigger] group@[k]) != signed_view(*e),
        decreases group@.len() - i,
    {
        if group[i].1 == e.1 && same_positions(&group[i].0, &e.0) {
            assert(signed_views(group@)[i as int] == signed_view(*e));
            return true;
        }
        i = i + 1;
    }
    assert forall|k: int| 0 <= k < signed_views(group@).len() implies signed_views(group@)[k] != signed_view(*e) by {
        assert(signed_view(group@[k]) != signed_view(*e));
    }
    false
}

fn holds_variant(variants: &Vec<(Factor, i8)>, v: &Factor, sign: i8) -> (r: bool)
    ensures
        r == variant_views(variants@).contains((v@, sign as int)),
{
    let mut i: usize = 0;
    while i < variants.len()
        invariant
            i <= variants@.len(),
            forall|k: int| 0 <= k < i ==> variant_view(#[trigger] variants@[k]) != (v@, sign as int),
        decreases variants@.len() - i,
    {
        let candidate = &variants[i];
        if candidate.1 == sign && candidate.0.tensor == v.tensor && same_indices(&candidate.0.indices, &v.indices) {
            assert(variant_views(variants@)[i as int] == (v@, sign as int));
            return true;
        }
        i = i + 1;
    }
    assert forall|k: int| 0 <= k < variant_views(variants@).len() implies variant_views(variants@)[k] != (v@, sign as int) by {
        assert(variant_view(variants@[k]) != (v@, sign as int));
    }
    false
}

/// All signed permutations that the generators span on `rank` slots, each once,
/// found by closing the identity under every generator breadth first.
fn close_group(rank: usize, generators: &Vec<SymmetryGenerator>) -> (group: Vec<(Vec<usize>, i8)>)
    requires
        gens_ok(generators@, rank as nat),
    ensures
        group@.len() >= 1,
        signed_view(group@[0]) == (identity_perm(rank as nat), 1int),
        forall|i: int| 0 <= i < group@.len() ==> in_group(rank as nat, generators@, #[trigger] signed_view(group@[i])),
        forall|i: int| 0 <= i < group@.len() ==> elem_ok(#[trigger] signed_view(group@[i]), rank as nat),
        forall|w: Seq<int>| is_word(generators@.len() as int, w) ==> #[trigger] signed_views(group@).contains(word_elem(rank as nat, generators@, w)),
{
    let ghost gens = generators@;
    let ghost r = rank as nat;
    let mut identity: Vec<usize> = Vec::new();
    let mut k: usize = 0;
    while k < rank
        invariant
            k <= rank,
            identity@ =~= identity_perm(k as nat),
        decreases rank - k,
    {
        identity.push(k);
        k = k + 1;
    }
    let mut group: Vec<(Vec<usize>, i8)> = Vec::new();
    group.push((identity, 1i8));
    let ghost mut words: Seq<Seq<int>> = seq![Seq::<int>::empty()];
    proof {
        assert(word_elem(r, gens, words[0]) == signed_view(group@[0]));
        lemma_word_elem_ok(r, gens, words[0]);
        lemma_power_positive(r, r);
    }
    let mut position: usize = 0;
    while position < group.len()
        invariant
            gens == generators@,
            r == rank as nat,
            gens_ok(gens, r),
            1 <= group@.len() <= signed_count(r),
            position <= group@.len(),
            words.len() == group@.len(),
            signed_view(group@[0]) == (identity_perm(r), 1int),
            forall|i: int| 0 <= i < group@.len() ==> is_word(gens.len() as int, #[trigger] words[i]),
            forall|i: int| 0 <= i < group@.len() ==> word_elem(r, gens, #[trigger] words[i]) == signed_view(group@[i]),
            forall|i: int| 0 <= i < group@.len() ==> elem_ok(#[trigger] signed_view(group@[i]), r),
            forall|i: int, j: int| 0 <= i < j < group@.len() ==> signed_view(#[trigger] group@[i]) != signed_view(#[trigger] group@[j]),
            forall|i: int, k: int| 0 <= i < position && 0 <= k < gens.len() ==> #[trigger] signed_views(group@).contains(step(signed_view(group@[i]), #[trigger] gens[k])),
        decreases signed_count(r) - position,
    {
        let current = group[position].0.clone();
        let sign = group[position].1;
        proof {
            assert(current@ =~= group@[position as int].0@);
            assert(elem_ok(signed_view(group@[position as int]), r));
        }
        let mut g: usize = 0;
        while g < generators.len()
            invariant
                gens == generators@,
                r == rank as nat,
                gens_ok(gens, r),
                1 <= group@.len(),
                position < group@.len(),
                g <= gens.len(),
                current@ == group@[position as int].0@,
                sign == group@[position as int].1,
                elem_ok(signed_view(group@[position as int]), r),
                words.len() == group@.len(),
                signed_view(group@[0]) == (identity_perm(r), 1int),
                forall|i: int| 0 <= i < group@.len() ==> is_word(gens.len() as int, #[trigger] words[i]),
                forall|i: int| 0 <= i < group@.len() ==> word_elem(r, gens, #[trigger] words[i]) == signed_view(group@[i]),
                forall|i: int| 0 <= i < group@.len() ==> elem_ok(#[trigger] signed_view(group@[i]), r),
                forall|i: int, j: int| 0 <= i < j < group@.len() ==> signed_view(#[trigger] group@[i]) != signed_view(#[trigger] group@[j]),
                forall|i: int, k: int| 0 <= i < position && 0 <= k < gens.len() ==> #[trigger] signed_views(group@).contains(step(signed_view(group@[i]), #[trigger] gens[k])),
                forall|k: int| 0 <= k < g ==> #[trigger] signed_views(group@).contains(step(signed_view(group@[position as int]), gens[k])),
            decreases gens.len() - g,
        {
            let generator = &generators[g];
            proof {
                assert(gen_ok(gens[g as int], r));
            }
            let composed = compose(&current, &generator.permutation);
            let element = (composed, sign * generator.sign);
            let ghost target = step(signed_view(group@[position as int]), gens[g as int]);
            assert(signed_view(element) == target);
            if !holds_signed(&group, &element) {
                let ghost w = words[position as int].push(g as int);
                proof {
                    lemma_word_push(gens.len() as int, words[position as int], g as int);
                    assert(word_elem(r, gens, w) == target);
                    lemma_word_elem_ok(r, gens, w);
                    lemma_signed_views_push(group@, element);
                }
                let ghost old_group = group@;
                group.push(element);
                proof {
                    words = words.push(w);
                    assert(signed_views(group@)[group@.len() - 1] == target);
                    assert forall|i: int, j: int| 0 <= i < j < group@.len() implies signed_view(#[trigger] group@[i]) != signed_view(#[trigger] group@[j]) by {
                        if j == group@.len() - 1 {
                            assert(signed_views(old_group)[i] == signed_view(group@[i]));
                        }
                    }
                    assert forall|i: int| 0 <= i < group@.len() implies word_elem(r, gens, #[trigger] words[i]) == signed_view(group@[i]) by {
                        if i < old_group.len() {
                            assert(group@[i] == old_group[i]);
                        }
                    }
                }
            }
            g = g + 1;
        }
        proof {
            lemma_distinct_signed_bound(signed_views(group@), r);
        }
        position = position + 1;
    }
    proof {
        assert forall|i: int| 0 <= i < group@.len() implies in_group(r, gens, #[trigger] signed_view(group@[i])) by {
            assert(is_word(gens.len() as int, words[i]));
            assert(word_elem(r, gens, words[i]) == signed_view(group@[i]));
        }
        assert forall|w: Seq<int>| is_word(gens.len() as int, w) implies #[trigger] signed_views(group@).contains(word_elem(r, gens, w)) by {
            lemma_closed_holds_words(r, gens, signed_views(group@), w);
        }
    }
    group
}

/// The slots of `indices` rearranged by `p`.
fn permute_indices(indices: &Vec<Index>, p: &Vec<usize>) -> (r: Vec<Index>)
    requires
        forall|j: int| 0 <= j < p@.len() ==> (#[trigger] p@[j]) < indices@.len(),
    ensures
        r@ == permute(indices@, p@),
{
    let mut r: Vec<Index> = Vec::new();
    let mut j: usize = 0;
    while j < p.len()
        invariant
            j <= p@.len(),
            forall|j: int| 0 <= j < p@.len() ==> (#[trigger] p@[j]) < indices@.len(),
            r@ =~= permute(indices@, p@).subrange(0, j as int),
        decreases p@.len() - j,
    {
        r.push(indices[p[j]]);
        j = j + 1;
    }
    r
}

/// The number of distinct signed variants of `f` under the group that `gens` span.
pub open spec fn variant_count(f: FactorModel, gens: Seq<SymmetryGenerator>) -> nat {
    Set::new(|v: (FactorModel, int)| is_variant(f, gens, v)).len()
}

/// Every distinct signed variant of `factor` under the group that its
/// generators span, each once, the factor itself with sign one first.
pub fn factor_symmetry_candidates(factor: &Factor, generators: &Vec<SymmetryGenerator>) -> (r: Vec<(Factor, i8)>)
    requires
        gens_ok(generators@, factor.indices@.len()),
    ensures
        forall|i: int| 0 <= i < r@.len() ==> is_variant(factor@, generators@, #[trigger] variant_view(r@[i])),
        forall|v: (FactorModel, int)| is_variant(factor@, generators@, v) ==> #[trigger] variant_views(r@).contains(v),
        forall|i: int, j: int| 0 <= i < j < r@.len() ==> variant_view(#[trigger] r@[i]) != variant_view(#[trigger] r@[j]),
        r@.len() >= 1,
        variant_view(r@[0]) == (factor@, 1int),
        r@.len() == variant_count(factor@, generators@),
{
    let ghost gens = generators@;
    let ghost f = factor@;
    let ghost rank = f.indices.len();
    let group = close_group(factor.indices.len(), generators);
    proof {
        assert(f.indices == factor.indices@);
        assert(permute(f.indices, identity_perm(rank)) =~= f.indices);
        assert(variant_of(f, signed_view(group@[0])) == (f, 1int));
    }
    let mut variants: Vec<(Factor, i8)> = Vec::new();
    let mut i: usize = 0;
    while i < group.len()
        invariant
            i <= group@.len(),
            gens == generators@,
            f == factor@,
            rank == f.indices.len(),
            forall|j: int| 0 <= j < group@.len() ==> in_group(rank, gens, #[trigger] signed_view(group@[j])),
            forall|j: int| 0 <= j < group@.len() ==> elem_ok(#[trigger] signed_view(group@[j]), rank),
            forall|j: int| 0 <= j < variants@.len() ==> is_variant(f, gens, #[trigger] variant_view(variants@[j])),
            forall|j: int| 0 <= j < i ==> #[trigger] variant_views(variants@).contains(variant_of(f, signed_view(group@[j]))),
            forall|j: int, k: int| 0 <= j < k < variants@.len() ==> variant_view(#[trigger] variants@[j]) != variant_view(#[trigger] variants@[k]),
            group@.len() >= 1,
            variant_of(f, signed_view(group@[0])) == (f, 1int),
            i > 0 ==> variants@.len() >= 1 && variant_view(variants@[0]) == (f, 1int),
            i == 0 ==> variants@.len() == 0,
        decreases group@.len() - i,
    {
        let element = &group[i];
        proof {
            assert(elem_ok(signed_view(group@[i as int]), rank));
        }
        let indices = permute_indices(&factor.indices, &element.0);
        let variant = Factor { tensor: factor.tensor, indices };
        let sign = element.1;
        let ghost target = variant_of(f, signed_view(group@[i as int]));
        assert((variant@, sign as int) == target);
        if !holds_variant(&variants, &variant, sign) {
            proof {
                assert(in_group(rank, gens, signed_view(group@[i as int])));
                let w = choose|w: Seq<int>| is_word(gens.len() as int, w) && #[trigger] word_elem(rank, gens, w) == signed_view(group@[i as int]);
                assert(variant_by(f, gens, w) == target);
                lemma_variant_views_push(variants@, (variant, sign));
            }
            let ghost old_variants = variants@;
            variants.push((variant, sign));
            proof {
                assert(variant_views(variants@)[variants@.len() - 1] == target);
                if i > 0 {
                    assert(variants@[0] == old_variants[0]);
                }
                assert forall|j: int, k: int| 0 <= j < k < variants@.len() implies variant_view(#[trigger] variants@[j]) != variant_view(#[trigger] variants@[k]) by {
                    if k == variants@.len() - 1 {
                        assert(variant_views(old_variants)[j] == variant_view(variants@[j]));
                    }
                }
                assert forall|j: int| 0 <= j < variants@.len() implies is_variant(f, gens, #[trigger] variant_view(variants@[j])) by {
                    if j < old_variants.len() {
                        assert(variants@[j] == old_variants[j]);
                    }
                }
            }
        }
        proof {
            if i == 0 {
                assert(variants@.len() == 1);
                assert(variant_view(variants@[0]) == target);
            }
        }
        i = i + 1;
    }
    proof {
        assert forall|v: (FactorModel, int)| is_variant(f, gens, v) implies #[trigger] variant_views(variants@).contains(v) by {
            let w = choose|w: Seq<int>| is_word(gens.len() as int, w) && #[trigger] variant_by(f, gens, w) == v;
            assert(signed_views(group@).contains(word_elem(rank, gens, w)));
            let j = choose|j: int| 0 <= j < signed_views(group@).len() && signed_views(group@)[j] == word_elem(rank, gens, w);
            assert(signed_view(group@[j]) == word_elem(rank, gens, w));
            assert(variant_views(variants@).contains(variant_of(f, signed_view(group@[j]))));
        }
        let views = variant_views(variants@);
        assert(views.to_set() =~= Set::new(|v: (FactorModel, int)| is_variant(f, gens, v))) by {
            assert forall|v: (FactorModel, int)| views.to_set().contains(v) implies is_variant(f, gens, v) by {
                let j = choose|j: int| 0 <= j < views.len() && views[j] == v;
                assert(is_variant(f, gens, variant_view(variants@[j])));
            }
        }
        assert(views.no_duplicates()) by {
            assert forall|j: int, k: int| 0 <= j < views.len() && 0 <= k < views.len() && j != k implies views[j] != views[k] by {
                if j < k {
                    assert(variant_view(variants@[j]) != variant_view(variants@[k]));
                } else {
                    assert(variant_view(variants@[k]) != variant_view(variants@[j]));
                }
            }
        }
        views.unique_seq_to_set();
    }
    variants
}

// ---------------------------------------------------------------------------
// Words compose, and generators that permute have inverses.
// ---------------------------------------------------------------------------

/// `a` followed by `b`.
pub open spec fn compose_signed(a: Signed, b: Signed) -> Signed {
    (compose_perm(a.0, b.0), a.1 * b.1)
}

/// Every generator permutes its slots: no slot is taken twice.
pub open spec fn gens_permute(gens: Seq<SymmetryGenerator>) -> bool {
    forall|k: int| 0 <= k < gens.len() ==> (#[trigger] gens[k]).permutation@.no_duplicates()
}

proof fn lemma_compose_assoc(a: Seq<usize>, b: Seq<usize>, c: Seq<usize>, r: nat)
    requires
        b.len() == r,
        forall|j: int| 0 <= j < c.len() ==> (#[trigger] c[j]) < r,
    ensures
        compose_perm(compose_perm(a, b), c) == compose_perm(a, compose_perm(b, c)),
{
    assert(compose_perm(compose_perm(a, b), c) =~= compose_perm(a, compose_perm(b, c))) by {
        assert forall|k: int| 0 <= k < c.len() implies #[trigger] compose_perm(compose_perm(a, b), c)[k]
            == compose_perm(a, compose_perm(b, c))[k] by {
            assert(c[k] < b.len());
        }
    }
}

/// The word `u` followed by the word `v` spells the composition of their elements.
pub proof fn lemma_word_concat(r: nat, gens: Seq<SymmetryGenerator>, u: Seq<int>, v: Seq<int>)
    requires
        r <= usize::MAX,
        gens_ok(gens, r),
        is_word(gens.len() as int, u),
        is_word(gens.len() as int, v),
    ensures
        is_word(gens.len() as int, u + v),
        word_elem(r, gens, u + v) == compose_signed(word_elem(r, gens, u), word_elem(r, gens, v)),
    decreases v.len(),
{
    assert(is_word(gens.len() as int, u + v)) by {
        assert forall|i: int| 0 <= i < (u + v).len() implies 0 <= #[trigger] (u + v)[i] < gens.len() by {
            if i < u.len() {
                assert((u + v)[i] == u[i]);
            } else {
                assert((u + v)[i] == v[i - u.len()]);
            }
        }
    }
    lemma_word_elem_ok(r, gens, u);
    let eu = word_elem(r, gens, u);
    if v.len() == 0 {
        assert(u + v =~= u);
        assert(compose_perm(eu.0, identity_perm(r)) =~= eu.0);
    } else {
        let v1 = v.drop_last();
        assert(is_word(gens.len() as int, v1)) by {
            assert forall|i: int| 0 <= i < v1.len() implies 0 <= #[trigger] v1[i] < gens.len() by {
                assert(v1[i] == v[i]);
            }
        }
        lemma_word_concat(r, gens, u, v1);
        assert((u + v).drop_last() =~= u + v1);
        assert((u + v).last() == v.last());
        let k = v.last();
        assert(k == v[v.len() - 1]);
        let g = gens[k];
        assert(gen_ok(g, r));
        lemma_word_elem_ok(r, gens, v1);
        let ev1 = word_elem(r, gens, v1);
        lemma_compose_assoc(eu.0, ev1.0, g.permutation@, r);
        assert((eu.1 * ev1.1) * g.sign == eu.1 * (ev1.1 * g.sign)) by (nonlinear_arith);
    }
}

/// The word that repeats letter `k` `m` times.
pub open spec fn power_word(k: int, m: nat) -> Seq<int> {
    Seq::new(m, |j: int| k)
}

proof fn lemma_power_word(n: int, k: int, m: nat)
    requires
        0 <= k < n,
    ensures
        is_word(n, power_word(k, m)),
{
}

/// Composing with a permutation that takes no slot twice cancels on the left.
proof fn lemma_cancel_left(e: Signed, x: Signed, r: nat)
    requires
        r <= usize::MAX,
        elem_ok(e, r),
        elem_ok(x, r),
        e.0.no_duplicates(),
        compose_signed(e, x) == e,
    ensures
        x == (identity_perm(r), 1int),
{
    assert(x.0 =~= identity_perm(r)) by {
        assert forall|j: int| 0 <= j < r implies #[trigger] x.0[j] == identity_perm(r)[j] by {
            assert(compose_perm(e.0, x.0)[j] == e.0[j]);
            assert(e.0[x.0[j] as int] == e.0[j]);
        }
    }
    assert(e.1 * x.1 == e.1);
    if x.1 != 1 {
        assert(e.1 * x.1 != e.1) by (nonlinear_arith)
            requires
                e.1 == 1 || e.1 == -1,
                x.1 != 1,
        ;
    }
}

/// Elements spelled by words over permuting generators take no slot twice.
proof fn lemma_word_injective(r: nat, gens: Seq<SymmetryGenerator>, w: Seq<int>)
    requires
        r <= usize::MAX,
        gens_ok(gens, r),
        gens_permute(gens),
        is_word(gens.len() as int, w),
    ensures
        word_elem(r, gens, w).0.no_duplicates(),
    decreases w.len(),
{
    if w.len() == 0 {
    } else {
        let w1 = w.drop_last();
        assert(is_word(gens.len() as int, w1)) by {
            assert forall|i: int| 0 <= i < w1.len() implies 0 <= #[trigger] w1[i] < gens.len() by {
                assert(w1[i] == w[i]);
            }
        }
        lemma_word_injective(r, gens, w1);
        lemma_word_elem_ok(r, gens, w1);
        let e = word_elem(r, gens, w1);
        let k = w.last();
        assert(k == w[w.len() - 1]);
        let p = gens[k].permutation@;
        assert(gen_ok(gens[k], r));
        assert(p.no_duplicates());
        let c = compose_perm(e.0, p);
        assert forall|a: int, b: int| 0 <= a < c.len() && 0 <= b < c.len() && a != b implies c[a] != c[b] by {
            assert(p[a] != p[b]);
            assert(p[a] < r && p[b] < r);
            assert(e.0[p[a] as int] != e.0[p[b] as int]);
        }
    }
}

/// Over permuting generators, each generator has an inverse word.
pub proof fn lemma_generator_inverse(r: nat, gens: Seq<SymmetryGenerator>, k: int) -> (w: Seq<int>)
    requires
        r <= usize::MAX,
        gens_ok(gens, r),
        gens_permute(gens),
        0 <= k < gens.len(),
    ensures
        is_word(gens.len() as int, w),
        compose_signed(word_elem(r, gens, seq![k]), word_elem(r, gens, w)) == (identity_perm(r), 1int),
{
    let n = signed_count(r);
    let powers = Seq::new(n + 1, |j: int| word_elem(r, gens, power_word(k, j as nat)));
    assert forall|j: int| 0 <= j < powers.len() implies elem_ok(#[trigger] powers[j], r) by {
        lemma_power_word(gens.len() as int, k, j as nat);
        lemma_word_elem_ok(r, gens, power_word(k, j as nat));
    }
    if forall|a: int, b: int| 0 <= a < b < powers.len() ==> #[trigger] powers[a] != #[trigger] powers[b] {
        lemma_distinct_signed_bound(powers, r);
        assert(false);
    }
    let (a, b) = choose|a: int, b: int| 0 <= a < b < powers.len() && #[trigger] powers[a] == #[trigger] powers[b];
    let d = (b - a) as nat;
    let wa = power_word(k, a as nat);
    let wd = power_word(k, d);
    lemma_power_word(gens.len() as int, k, a as nat);
    lemma_power_word(gens.len() as int, k, d);
    assert(wa + wd =~= power_word(k, b as nat));
    lemma_word_concat(r, gens, wa, wd);
    lemma_word_elem_ok(r, gens, wa);
    lemma_word_elem_ok(r, gens, wd);
    lemma_word_injective(r, gens, wa);
    assert(powers[a] == word_elem(r, gens, wa));
    assert(powers[b] == word_elem(r, gens, power_word(k, b as nat)));
    lemma_cancel_left(word_elem(r, gens, wa), word_elem(r, gens, wd), r);
    let w = power_word(k, (d - 1) as nat);
    lemma_power_word(gens.len() as int, k, (d - 1) as nat);
    assert(seq![k] + w =~= wd);
    assert(is_word(gens.len() as int, seq![k])) by {
        assert forall|i: int| 0 <= i < seq![k].len() implies 0 <= #[trigger] seq![k][i] < gens.len() by {}
    }
    lemma_word_concat(r, gens, seq![k], w);
    w
}

/// Permuting slots twice permutes them by the composition.
pub proof fn lemma_permute_twice(indices: Seq<Index>, p: Seq<usize>, q: Seq<usize>)
    requires
        forall|j: int| 0 <= j < q.len() ==> (#[trigger] q[j]) < p.len(),
    ensures
        permute(permute(indices, p), q) == permute(indices, compose_perm(p, q)),
{
    assert(permute(permute(indices, p), q) =~= permute(indices, compose_perm(p, q))) by {
        assert forall|j: int| 0 <= j < q.len() implies #[trigger] permute(permute(indices, p), q)[j]
            == permute(indices, compose_perm(p, q))[j] by {
            assert(q[j] < p.len());
        }
    }
}

/// The factor `f` with its slots rearranged by generator `g`.
pub open spec fn apply_generator(f: FactorModel, g: SymmetryGenerator) -> FactorModel {
    FactorModel { tensor: f.tensor, indices: permute(f.indices, g.permutation@) }
}

/// The signed variants of a factor rearranged by a generator are the
/// variants of the factor, with signs multiplied by the generator's sign.
pub proof fn lemma_variants_after_generator(f: FactorModel, gens: Seq<SymmetryGenerator>, k: int, v: (FactorModel, int))
    requires
        f.indices.len() <= usize::MAX,
        gens_ok(gens, f.indices.len()),
        gens_permute(gens),
        0 <= k < gens.len(),
    ensures
        is_variant(apply_generator(f, gens[k]), gens, v) <==> is_variant(f, gens, (v.0, gens[k].sign * v.1)),
{
    let r = f.indices.len();
    let g = gens[k];
    let h = apply_generator(f, g);
    assert(gen_ok(g, r));
    assert(h.indices.len() == r);
    let gk = seq![k];
    assert(is_word(gens.len() as int, gk)) by {
        assert forall|i: int| 0 <= i < gk.len() implies 0 <= #[trigger] gk[i] < gens.len() by {}
    }
    assert(gk.drop_last() =~= Seq::<int>::empty());
    assert(compose_perm(identity_perm(r), g.permutation@) =~= g.permutation@);
    assert(word_elem(r, gens, gk.drop_last()) == (identity_perm(r), 1int));
    assert(gk.last() == k);
    assert(word_elem(r, gens, gk) == step((identity_perm(r), 1int), g));
    assert(word_elem(r, gens, gk) == (g.permutation@, g.sign as int));
    if is_variant(h, gens, v) {
        let w = choose|w: Seq<int>| is_word(gens.len() as int, w) && #[trigger] variant_by(h, gens, w) == v;
        lemma_word_concat(r, gens, gk, w);
        lemma_word_elem_ok(r, gens, w);
        let ew = word_elem(r, gens, w);
        lemma_permute_twice(f.indices, g.permutation@, ew.0);
        assert(variant_by(f, gens, gk + w) == (v.0, g.sign * v.1));
    }
    if is_variant(f, gens, (v.0, g.sign * v.1)) {
        let w = choose|w: Seq<int>| is_word(gens.len() as int, w) && #[trigger] variant_by(f, gens, w) == (v.0, g.sign * v.1);
        let inv = lemma_generator_inverse(r, gens, k);
        lemma_word_concat(r, gens, inv, w);
        lemma_word_concat(r, gens, gk, inv);
        lemma_word_elem_ok(r, gens, w);
        lemma_word_elem_ok(r, gens, inv);
        let ew = word_elem(r, gens, w);
        let ei = word_elem(r, gens, inv);
        lemma_permute_twice(f.indices, g.permutation@, compose_perm(ei.0, ew.0));
        lemma_compose_assoc(g.permutation@, ei.0, ew.0, r);
        assert(compose_perm(g.permutation@, ei.0) == identity_perm(r));
        assert(compose_perm(identity_perm(r), ew.0) =~= ew.0);
        assert(g.sign * ei.1 == 1);
        assert(ei.1 == g.sign) by (nonlinear_arith)
            requires
                g.sign * ei.1 == 1,
                g.sign == 1 || g.sign == -1,
        ;
        assert(ei.1 * (g.sign * v.1) == v.1) by (nonlinear_arith)
            requires
                ei.1 == g.sign,
                g.sign == 1 || g.sign == -1,
        ;
        assert(variant_by(h, gens, inv + w) == v);
    }
}

} // verus!
