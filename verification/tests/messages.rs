use truthmill::{CostError, DomainId, IndexId, TensorId, ValidationError, ValueId};

#[test]
fn describes_every_validation_error() {
    let cases = vec![
        (
            ValidationError::ZeroDomainSize { domain: DomainId(3) },
            "domain DomainId(3) has size zero",
        ),
        (
            ValidationError::ProgramTooLarge { values: 4294967297 },
            "program has 4294967297 values, which cannot be addressed by ValueId",
        ),
        (
            ValidationError::ArgumentCountMismatch { value: ValueId(0), inputs: 2, args: 1 },
            "value ValueId(0) has 2 code inputs but 1 arguments",
        ),
        (
            ValidationError::MissingIndexDomain { value: ValueId(1), index: IndexId(12) },
            "value ValueId(1) does not declare a domain for index IndexId(12)",
        ),
        (
            ValidationError::UnusedIndexDomain { value: ValueId(0), index: IndexId(9) },
            "value ValueId(0) declares unused index IndexId(9)",
        ),
        (
            ValidationError::UndeclaredDomain { value: ValueId(0), index: IndexId(1), domain: DomainId(9) },
            "value ValueId(0) maps index IndexId(1) to undeclared domain DomainId(9)",
        ),
        (
            ValidationError::DuplicateOutputIndex { value: ValueId(0), index: IndexId(0) },
            "value ValueId(0) repeats output index IndexId(0)",
        ),
        (
            ValidationError::UndeclaredTensor { value: ValueId(0), tensor: TensorId(9) },
            "value ValueId(0) references undeclared tensor TensorId(9)",
        ),
        (
            ValidationError::InvalidValueReference { value: ValueId(0), referenced: ValueId(0) },
            "value ValueId(0) references non-prior value ValueId(0)",
        ),
        (
            ValidationError::InconsistentTensorRank { value: ValueId(1), tensor: TensorId(0), expected: 2, actual: 1 },
            "value ValueId(1) uses tensor TensorId(0) with rank 1, expected 2",
        ),
        (
            ValidationError::ValueInterfaceMismatch { value: ValueId(1), argument: 0, referenced: ValueId(0) },
            "argument 0 of value ValueId(1) does not match the interface of ValueId(0)",
        ),
        (
            ValidationError::EmptyEinsum { value: ValueId(0) },
            "value ValueId(0) is an einsum with no arguments",
        ),
        (
            ValidationError::EinsumOutputNotInput { value: ValueId(0), index: IndexId(9) },
            "output index IndexId(9) of einsum ValueId(0) does not occur in an input",
        ),
        (
            ValidationError::CoefficientCountMismatch { value: ValueId(1), coefficients: 0, args: 1 },
            "linear combination ValueId(1) has 0 coefficients but 1 arguments",
        ),
        (
            ValidationError::InvalidLinCombInput { value: ValueId(1), input: 0 },
            "input 0 of linear combination ValueId(1) is not a permutation of its output",
        ),
        (
            ValidationError::InvalidOutput { output: 0, value: ValueId(2) },
            "program output 0 references missing value ValueId(2)",
        ),
        (
            ValidationError::InvalidSymmetrySign { tensor: TensorId(0), generator: 0, sign: -128 },
            "symmetry generator 0 of tensor TensorId(0) has invalid sign -128",
        ),
        (
            ValidationError::InvalidSymmetrySign { tensor: TensorId(4), generator: 2, sign: 0 },
            "symmetry generator 2 of tensor TensorId(4) has invalid sign 0",
        ),
        (
            ValidationError::SymmetryRankMismatch { tensor: TensorId(0), generator: 0, expected: 2, actual: 1 },
            "symmetry generator 0 of tensor TensorId(0) has rank 1, expected 2",
        ),
        (
            ValidationError::InvalidSymmetryPermutation { tensor: TensorId(0), generator: 10 },
            "symmetry generator 10 of tensor TensorId(0) is not a permutation",
        ),
    ];
    for (error, expected) in cases {
        assert_eq!(error.message(), expected);
    }
}

#[test]
fn describes_cost_errors() {
    let invalid = CostError::from(ValidationError::EmptyEinsum { value: ValueId(4) });

    assert_eq!(invalid, CostError::Invalid(ValidationError::EmptyEinsum { value: ValueId(4) }));
    assert_eq!(invalid.message(), "invalid computation: value ValueId(4) is an einsum with no arguments");
    assert_eq!(CostError::ZeroTotalFlops.message(), "computation has zero modeled FLOPs");
}

#[test]
fn writes_large_identifiers_in_decimal() {
    let error = ValidationError::UndeclaredTensor { value: ValueId(4294967295), tensor: TensorId(1000000) };

    assert_eq!(
        error.message(),
        "value ValueId(4294967295) references undeclared tensor TensorId(1000000)"
    );
}
