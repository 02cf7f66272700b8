//! Text forms of errors and FLOP polynomials.

use vstd::prelude::*;

use crate::cost::{degree, CostError, FlopModel, FlopTerm, SymbolicFlops};
use crate::model::{DomainId, IndexId, TensorId, ValueId};
use crate::validate::ValidationError;

verus! {

/// The character of decimal digit `d`.
pub open spec fn digit_char(d: nat) -> char {
    if d == 0 {
        '0'
    } else if d == 1 {
        '1'
    } else if d == 2 {
        '2'
    } else if d == 3 {
        '3'
    } else if d == 4 {
        '4'
    } else if d == 5 {
        '5'
    } else if d == 6 {
        '6'
    } else if d == 7 {
        '7'
    } else if d == 8 {
        '8'
    } else {
        '9'
    }
}

/// The decimal digits of `n`, most significant first, without leading zeros.
pub open spec fn decimal(n: nat) -> Seq<char>
    decreases n,
{
    if n < 10 {
        seq![digit_char(n)]
    } else {
        decimal(n / 10) + seq![digit_char(n % 10)]
    }
}

fn digit_text(d: u8) -> (r: &'static str)
    requires
        d < 10,
    ensures
        r@ == seq![digit_char(d as nat)],
{
    if d == 0 {
        proof {
            reveal_strlit("0");
        }
        "0"
    } else if d == 1 {
        proof {
            reveal_strlit("1");
        }
        "1"
    } else if d == 2 {
        proof {
            reveal_strlit("2");
        }
        "2"
    } else if d == 3 {
        proof {
            reveal_strlit("3");
        }
        "3"
    } else if d == 4 {
        proof {
            reveal_strlit("4");
        }
        "4"
    } else if d == 5 {
        proof {
            reveal_strlit("5");
        }
        "5"
    } else if d == 6 {
        proof {
            reveal_strlit("6");
        }
        "6"
    } else if d == 7 {
        proof {
            reveal_strlit("7");
        }
        "7"
    } else if d == 8 {
        proof {
            reveal_strlit("8");
        }
        "8"
    } else {
        proof {
            reveal_strlit("9");
        }
        "9"
    }
}

/// Appends the decimal digits of `n`.
pub fn push_decimal(s: &mut String, n: u128)
    ensures
        final(s)@ == old(s)@ + decimal(n as nat),
    decreases n,
{
    if n >= 10 {
        push_decimal(s, n / 10);
    }
    let ghost before = s@;
    let d = (n % 10) as u8;
    s.append(digit_text(d));
    proof {
        if n >= 10 {
            assert(decimal(n as nat) == decimal((n / 10) as nat) + seq![digit_char((n % 10) as nat)]);
            assert(s@ =~= old(s)@ + decimal(n as nat));
        } else {
            assert(s@ =~= old(s)@ + decimal(n as nat));
        }
    }
}

/// The text of an identifier such as `ValueId(3)`.
pub open spec fn id_text(name: Seq<char>, n: nat) -> Seq<char> {
    name + "("@ + decimal(n) + ")"@
}

/// The decimal text of an integer, with a minus sign when negative.
pub open spec fn signed_text(x: int) -> Seq<char> {
    if x < 0 {
        "-"@ + decimal((-x) as nat)
    } else {
        decimal(x as nat)
    }
}

/// Appends the text of an identifier such as `ValueId(3)`.
fn push_id(s: &mut String, name: &str, n: u32)
    ensures
        final(s)@ == old(s)@ + id_text(name@, n as nat),
{
    s.append(name);
    s.append("(");
    push_decimal(s, n as u128);
    s.append(")");
    assert(s@ =~= old(s)@ + id_text(name@, n as nat));
}

/// Appends the decimal text of `x`, with a minus sign when negative.
fn push_signed(s: &mut String, x: i8)
    ensures
        final(s)@ == old(s)@ + signed_text(x as int),
{
    if x < 0 {
        s.append("-");
        let magnitude = (0 - (x as i16)) as u128;
        push_decimal(s, magnitude);
    } else {
        push_decimal(s, x as u128);
    }
    assert(s@ =~= old(s)@ + signed_text(x as int));
}


/// The text of a value identifier.
pub open spec fn value_id_text(v: ValueId) -> Seq<char> {
    id_text("ValueId"@, v.0 as nat)
}

/// The text of an index identifier.
pub open spec fn index_id_text(x: IndexId) -> Seq<char> {
    id_text("IndexId"@, x.0 as nat)
}

/// The text of a domain identifier.
pub open spec fn domain_id_text(d: DomainId) -> Seq<char> {
    id_text("DomainId"@, d.0 as nat)
}

/// The text of a tensor identifier.
pub open spec fn tensor_id_text(t: TensorId) -> Seq<char> {
    id_text("TensorId"@, t.0 as nat)
}

/// The sentence that describes a validation error.
pub open spec fn validation_message(e: ValidationError) -> Seq<char> {
    match e {
        ValidationError::ZeroDomainSize { domain } => "domain "@ + domain_id_text(domain) + " has size zero"@,
        ValidationError::ProgramTooLarge { values } => "program has "@ + decimal(values as nat)
            + " values, which cannot be addressed by ValueId"@,
        ValidationError::ArgumentCountMismatch { value, inputs, args } => "value "@ + value_id_text(value) + " has "@
            + decimal(inputs as nat) + " code inputs but "@ + decimal(args as nat) + " arguments"@,
        ValidationError::MissingIndexDomain { value, index } => "value "@ + value_id_text(value)
            + " does not declare a domain for index "@ + index_id_text(index),
        ValidationError::UnusedIndexDomain { value, index } => "value "@ + value_id_text(value) + " declares unused index "@
            + index_id_text(index),
        ValidationError::UndeclaredDomain { value, index, domain } => "value "@ + value_id_text(value) + " maps index "@
            + index_id_text(index) + " to undeclared domain "@ + domain_id_text(domain),
        ValidationError::DuplicateOutputIndex { value, index } => "value "@ + value_id_text(value) + " repeats output index "@
            + index_id_text(index),
        ValidationError::UndeclaredTensor { value, tensor } => "value "@ + value_id_text(value)
            + " references undeclared tensor "@ + tensor_id_text(tensor),
        ValidationError::InvalidValueReference { value, referenced } => "value "@ + value_id_text(value)
            + " references non-prior value "@ + value_id_text(referenced),
        ValidationError::InconsistentTensorRank { value, tensor, expected, actual } => "value "@ + value_id_text(value)
            + " uses tensor "@ + tensor_id_text(tensor) + " with rank "@ + decimal(actual as nat) + ", expected "@
            + decimal(expected as nat),
        ValidationError::ValueInterfaceMismatch { value, argument, referenced } => "argument "@ + decimal(argument as nat)
            + " of value "@ + value_id_text(value) + " does not match the interface of "@ + value_id_text(referenced),
        ValidationError::EmptyEinsum { value } => "value "@ + value_id_text(value) + " is an einsum with no arguments"@,
        ValidationError::EinsumOutputNotInput { value, index } => "output index "@ + index_id_text(index) + " of einsum "@
            + value_id_text(value) + " does not occur in an input"@,
        ValidationError::CoefficientCountMismatch { value, coefficients, args } => "linear combination "@
            + value_id_text(value) + " has "@ + decimal(coefficients as nat) + " coefficients but "@ + decimal(args as nat)
            + " arguments"@,
        ValidationError::InvalidLinCombInput { value, input } => "input "@ + decimal(input as nat) + " of linear combination "@
            + value_id_text(value) + " is not a permutation of its output"@,
        ValidationError::InvalidOutput { output, value } => "program output "@ + decimal(output as nat)
            + " references missing value "@ + value_id_text(value),
        ValidationError::InvalidSymmetrySign { tensor, generator, sign } => "symmetry generator "@
            + decimal(generator as nat) + " of tensor "@ + tensor_id_text(tensor) + " has invalid sign "@
            + signed_text(sign as int),
        ValidationError::SymmetryRankMismatch { tensor, generator, expected, actual } => "symmetry generator "@
            + decimal(generator as nat) + " of tensor "@ + tensor_id_text(tensor) + " has rank "@ + decimal(actual as nat)
            + ", expected "@ + decimal(expected as nat),
        ValidationError::InvalidSymmetryPermutation { tensor, generator } => "symmetry generator "@
            + decimal(generator as nat) + " of tensor "@ + tensor_id_text(tensor) + " is not a permutation"@,
    }
}

impl ValidationError {
    /// Describes this error in one sentence.
    pub fn message(&self) -> (r: String)
        ensures
            r@ == validation_message(*self),
    {
        let mut s = String::new();
        match self {
            ValidationError::ZeroDomainSize { domain } => {
                s.append("domain ");
                push_id(&mut s, "DomainId", domain.0);
                s.append(" has size zero");
            },
            ValidationError::ProgramTooLarge { values } => {
                s.append("program has ");
                push_decimal(&mut s, *values as u128);
                s.append(" values, which cannot be addressed by ValueId");
            },
            ValidationError::ArgumentCountMismatch { value, inputs, args } => {
                s.append("value ");
                push_id(&mut s, "ValueId", value.0);
                s.append(" has ");
                push_decimal(&mut s, *inputs as u128);
                s.append(" code inputs but ");
                push_decimal(&mut s, *args as u128);
                s.append(" arguments");
            },
            ValidationError::MissingIndexDomain { value, index } => {
                s.append("value ");
                push_id(&mut s, "ValueId", value.0);
                s.append(" does not declare a domain for index ");
                push_id(&mut s, "IndexId", index.0);
            },
            ValidationError::UnusedIndexDomain { value, index } => {
                s.append("value ");
                push_id(&mut s, "ValueId", value.0);
                s.append(" declares unused index ");
                push_id(&mut s, "IndexId", index.0);
            },
            ValidationError::UndeclaredDomain { value, index, domain } => {
                s.append("value ");
                push_id(&mut s, "ValueId", value.0);
                s.append(" maps index ");
                push_id(&mut s, "IndexId", index.0);
                s.append(" to undeclared domain ");
                push_id(&mut s, "DomainId", domain.0);
            },
            ValidationError::DuplicateOutputIndex { value, index } => {
                s.append("value ");
                push_id(&mut s, "ValueId", value.0);
                s.append(" repeats output index ");
                push_id(&mut s, "IndexId", index.0);
            },
            ValidationError::UndeclaredTensor { value, tensor } => {
                s.append("value ");
                push_id(&mut s, "ValueId", value.0);
                s.append(" references undeclared tensor ");
                push_id(&mut s, "TensorId", tensor.0);
            },
            ValidationError::InvalidValueReference { value, referenced } => {
                s.append("value ");
                push_id(&mut s, "ValueId", value.0);
                s.append(" references non-prior value ");
                push_id(&mut s, "ValueId", referenced.0);
            },
            ValidationError::InconsistentTensorRank { value, tensor, expected, actual } => {
                s.append("value ");
                push_id(&mut s, "ValueId", value.0);
                s.append(" uses tensor ");
                push_id(&mut s, "TensorId", tensor.0);
                s.append(" with rank ");
                push_decimal(&mut s, *actual as u128);
                s.append(", expected ");
                push_decimal(&mut s, *expected as u128);
            },
            ValidationError::ValueInterfaceMismatch { value, argument, referenced } => {
                s.append("argument ");
                push_decimal(&mut s, *argument as u128);
                s.append(" of value ");
                push_id(&mut s, "ValueId", value.0);
                s.append(" does not match the interface of ");
                push_id(&mut s, "ValueId", referenced.0);
            },
            ValidationError::EmptyEinsum { value } => {
                s.append("value ");
                push_id(&mut s, "ValueId", value.0);
                s.append(" is an einsum with no arguments");
            },
            ValidationError::EinsumOutputNotInput { value, index } => {
                s.append("output index ");
                push_id(&mut s, "IndexId", index.0);
                s.append(" of einsum ");
                push_id(&mut s, "ValueId", value.0);
                s.append(" does not occur in an input");
            },
            ValidationError::CoefficientCountMismatch { value, coefficients, args } => {
                s.append("linear combination ");
                push_id(&mut s, "ValueId", value.0);
                s.append(" has ");
                push_decimal(&mut s, *coefficients as u128);
                s.append(" coefficients but ");
                push_decimal(&mut s, *args as u128);
                s.append(" arguments");
            },
            ValidationError::InvalidLinCombInput { value, input } => {
                s.append("input ");
                push_decimal(&mut s, *input as u128);
                s.append(" of linear combination ");
                push_id(&mut s, "ValueId", value.0);
                s.append(" is not a permutation of its output");
            },
            ValidationError::InvalidOutput { output, value } => {
                s.append("program output ");
                push_decimal(&mut s, *output as u128);
                s.append(" references missing value ");
                push_id(&mut s, "ValueId", value.0);
            },
            ValidationError::InvalidSymmetrySign { tensor, generator, sign } => {
                s.append("symmetry generator ");
                push_decimal(&mut s, *generator as u128);
                s.append(" of tensor ");
                push_id(&mut s, "TensorId", tensor.0);
                s.append(" has invalid sign ");
                push_signed(&mut s, *sign);
            },
            ValidationError::SymmetryRankMismatch { tensor, generator, expected, actual } => {
                s.append("symmetry generator ");
                push_decimal(&mut s, *generator as u128);
                s.append(" of tensor ");
                push_id(&mut s, "TensorId", tensor.0);
                s.append(" has rank ");
                push_decimal(&mut s, *actual as u128);
                s.append(", expected ");
                push_decimal(&mut s, *expected as u128);
            },
            ValidationError::InvalidSymmetryPermutation { tensor, generator } => {
                s.append("symmetry generator ");
                push_decimal(&mut s, *generator as u128);
                s.append(" of tensor ");
                push_id(&mut s, "TensorId", tensor.0);
                s.append(" is not a permutation");
            },
        }
        assert(s@ =~= validation_message(*self));
        s
    }
}

/// The sentence that describes a cost error.
pub open spec fn cost_message(e: CostError) -> Seq<char> {
    match e {
        CostError::Invalid(error) => "invalid computation: "@ + validation_message(error),
        CostError::ZeroTotalFlops => "computation has zero modeled FLOPs"@,
    }
}

impl CostError {
    /// Describes this error in one sentence.
    pub fn message(&self) -> (r: String)
        ensures
            r@ == cost_message(*self),
    {
        match self {
            CostError::Invalid(error) => {
                let mut s = String::from_str("invalid computation: ");
                let detail = error.message();
                s.append(detail.as_str());
                s
            },
            CostError::ZeroTotalFlops => String::from_str("computation has zero modeled FLOPs"),
        }
    }
}

/// The text of one power: `D` and the domain number, then `^` and the
/// exponent unless it is one.
pub open spec fn power_text(x: (DomainId, usize)) -> Seq<char> {
    "D"@ + decimal(x.0.0 as nat) + if x.1 != 1 { "^"@ + decimal(x.1 as nat) } else { Seq::<char>::empty() }
}

/// The powers joined by ` * `; with `lead`, the first is preceded by ` * ` too.
pub open spec fn powers_text(p: Seq<(DomainId, usize)>, lead: bool) -> Seq<char>
    decreases p.len(),
{
    if p.len() == 0 {
        Seq::empty()
    } else {
        powers_text(p.drop_last(), lead) + (if p.len() == 1 && !lead { Seq::<char>::empty() } else { " * "@ })
            + power_text(p.last())
    }
}

/// The text of a term: its coefficient unless it is one and there are
/// powers, then its powers.
pub open spec fn term_text(t: FlopModel) -> Seq<char> {
    if t.0 != 1 || t.1.len() == 0 {
        decimal(t.0) + powers_text(t.1, true)
    } else {
        powers_text(t.1, false)
    }
}

/// The terms joined by ` + `.
pub open spec fn terms_text(ts: Seq<FlopModel>) -> Seq<char>
    decreases ts.len(),
{
    if ts.len() == 0 {
        Seq::empty()
    } else {
        terms_text(ts.drop_last()) + (if ts.len() == 1 { Seq::<char>::empty() } else { " + "@ }) + term_text(ts.last())
    }
}

/// The text of a FLOP polynomial: `0`, or its terms joined by ` + `.
pub open spec fn flops_text(ts: Seq<FlopModel>) -> Seq<char> {
    if ts.len() == 0 {
        "0"@
    } else {
        terms_text(ts)
    }
}

impl FlopTerm {
    /// The text form of this term, such as `2 * D0^3`.
    pub fn render(&self) -> (r: String)
        ensures
            r@ == term_text(self@),
    {
        let coefficient = self.coefficient();
        let entries = self.powers().entries();
        let mut s = String::new();
        let lead = coefficient != 1 || entries.len() == 0;
        if lead {
            push_decimal(&mut s, coefficient);
        }
        let ghost start = s@;
        let mut i: usize = 0;
        while i < entries.len()
            invariant
                entries@ == self@.1,
                i <= entries@.len(),
                s@ == start + powers_text(entries@.subrange(0, i as int), lead),
            decreases entries@.len() - i,
        {
            let ghost before = s@;
            if i > 0 || lead {
                s.append(" * ");
            }
            s.append("D");
            push_decimal(&mut s, entries[i].0.0 as u128);
            if entries[i].1 != 1 {
                s.append("^");
                push_decimal(&mut s, entries[i].1 as u128);
            }
            proof {
                let part = entries@.subrange(0, i + 1);
                assert(part.drop_last() =~= entries@.subrange(0, i as int));
                assert(part.last() == entries@[i as int]);
                assert(s@ =~= start + powers_text(part, lead));
            }
            i = i + 1;
        }
        proof {
            assert(entries@.subrange(0, i as int) =~= entries@);
            if lead {
                assert(s@ =~= term_text(self@));
            } else {
                assert(start =~= Seq::<char>::empty());
                assert(s@ =~= term_text(self@));
            }
        }
        s
    }
}

impl SymbolicFlops {
    /// The text form of this polynomial, such as `2 * D0^3 + D0^2`; `0` when
    /// it has no terms.
    pub fn render(&self) -> (r: String)
        ensures
            r@ == flops_text(self@),
    {
        let terms = self.terms();
        if terms.len() == 0 {
            proof {
                assert(self@.len() == 0);
            }
            return String::from_str("0");
        }
        let ghost ts = self@;
        let mut s = String::new();
        let mut i: usize = 0;
        while i < terms.len()
            invariant
                crate::cost::flop_views(terms@) == ts,
                i <= terms@.len(),
                s@ == terms_text(ts.subrange(0, i as int)),
            decreases terms@.len() - i,
        {
            if i > 0 {
                s.append(" + ");
            }
            let text = terms[i].render();
            s.append(text.as_str());
            proof {
                let part = ts.subrange(0, i + 1);
                assert(part.drop_last() =~= ts.subrange(0, i as int));
                assert(part.last() == terms@[i as int]@);
                assert(s@ =~= terms_text(part));
            }
            i = i + 1;
        }
        proof {
            assert(ts.subrange(0, i as int) =~= ts);
        }
        s
    }
}

} // verus!
