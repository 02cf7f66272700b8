use truthmill::canon::{canonicalize, compare_term_bodies, symmetry_candidates, Order};
use truthmill::expand::{Factor, Index, Polynomial, Term};
use truthmill::symmetry::factor_symmetry_candidates;
use truthmill::{Coefficient, DomainId, IdMap, SymmetryGenerator, TensorId};

fn integer(value: i64) -> Coefficient {
    Coefficient::from_integer(value)
}

fn index(id: u64, domain: u32) -> Index {
    Index {
        id,
        domain: DomainId(domain),
    }
}

fn factor(tensor: u32, indices: Vec<Index>) -> Factor {
    Factor {
        tensor: TensorId(tensor),
        indices,
    }
}

#[test]
fn compares_all_tensor_ids_before_indices() {
    let left = Term {
        coeff: integer(1),
        factors: vec![factor(0, vec![index(0, 0)]), factor(2, vec![index(0, 0)])],
    };
    let right = Term {
        coeff: integer(1),
        factors: vec![factor(0, vec![index(1, 0)]), factor(1, vec![index(0, 0)])],
    };

    assert_eq!(compare_term_bodies(&left, &right), Order::Greater);
}

#[test]
fn canonicalizes_factor_order_and_dummy_names_then_merges() {
    let output = vec![index(40, 0), index(41, 0)];
    let polynomial = Polynomial {
        output,
        terms: vec![
            Term {
                coeff: integer(2),
                factors: vec![
                    factor(0, vec![index(40, 0), index(10, 0)]),
                    factor(0, vec![index(10, 0), index(41, 0)]),
                ],
            },
            Term {
                coeff: integer(3),
                factors: vec![
                    factor(0, vec![index(20, 0), index(41, 0)]),
                    factor(0, vec![index(40, 0), index(20, 0)]),
                ],
            },
        ],
    };

    assert_eq!(
        canonicalize(polynomial, &IdMap::new()),
        Polynomial {
            output: vec![index(0, 0), index(1, 0)],
            terms: vec![Term {
                coeff: integer(5),
                factors: vec![
                    factor(0, vec![index(0, 0), index(2, 0)]),
                    factor(0, vec![index(2, 0), index(1, 0)]),
                ],
            }],
        }
    );
}

#[test]
fn applies_signed_tensor_symmetry() {
    let i = index(10, 0);
    let j = index(11, 0);
    let polynomial = Polynomial {
        output: vec![i, j],
        terms: vec![Term {
            coeff: integer(2),
            factors: vec![factor(0, vec![j, i])],
        }],
    };
    let symmetries = IdMap::from_entries(vec![(
        TensorId(0),
        vec![SymmetryGenerator {
            permutation: vec![1, 0],
            sign: -1,
        }],
    )]);

    assert_eq!(
        canonicalize(polynomial, &symmetries),
        Polynomial {
            output: vec![index(0, 0), index(1, 0)],
            terms: vec![Term {
                coeff: integer(-2),
                factors: vec![factor(0, vec![index(0, 0), index(1, 0)])],
            }],
        }
    );
}

#[test]
fn negative_stabilizer_makes_a_term_zero() {
    let i = index(10, 0);
    let polynomial = Polynomial {
        output: vec![i],
        terms: vec![Term {
            coeff: integer(1),
            factors: vec![factor(0, vec![i, i])],
        }],
    };
    let symmetries = IdMap::from_entries(vec![(
        TensorId(0),
        vec![SymmetryGenerator {
            permutation: vec![1, 0],
            sign: -1,
        }],
    )]);

    assert_eq!(
        canonicalize(polynomial, &symmetries),
        Polynomial {
            output: Vec::new(),
            terms: Vec::new(),
        }
    );
}

#[test]
fn symmetry_generators_are_closed_into_a_group() {
    let input = factor(0, vec![index(2, 0), index(0, 0), index(1, 0)]);
    let generators = vec![SymmetryGenerator {
        permutation: vec![1, 2, 0],
        sign: 1,
    }];

    let variants = factor_symmetry_candidates(&input, &generators);

    assert_eq!(variants.len(), 3);
    assert!(variants.contains(&(factor(0, vec![index(0, 0), index(1, 0), index(2, 0)]), 1,)));
}

#[test]
fn sorts_and_cancels_canonical_polynomial_terms() {
    let i = index(10, 0);
    let polynomial = Polynomial {
        output: vec![i],
        terms: vec![
            Term {
                coeff: integer(4),
                factors: vec![factor(2, vec![i])],
            },
            Term {
                coeff: integer(3),
                factors: vec![factor(1, vec![i])],
            },
            Term {
                coeff: integer(-4),
                factors: vec![factor(2, vec![i])],
            },
            Term {
                coeff: integer(2),
                factors: vec![factor(0, vec![i])],
            },
        ],
    };

    assert_eq!(
        canonicalize(polynomial, &IdMap::new()),
        Polynomial {
            output: vec![index(0, 0)],
            terms: vec![
                Term {
                    coeff: integer(2),
                    factors: vec![factor(0, vec![index(0, 0)])],
                },
                Term {
                    coeff: integer(3),
                    factors: vec![factor(1, vec![index(0, 0)])],
                },
            ],
        }
    );
}

#[test]
fn a_symmetric_generator_yields_both_orders_with_the_same_sign() {
    let input = factor(3, vec![index(5, 0), index(6, 1)]);
    let generators = vec![SymmetryGenerator {
        permutation: vec![1, 0],
        sign: 1,
    }];

    let variants = factor_symmetry_candidates(&input, &generators);

    assert_eq!(variants.len(), 2);
    assert!(variants.contains(&(factor(3, vec![index(5, 0), index(6, 1)]), 1)));
    assert!(variants.contains(&(factor(3, vec![index(6, 1), index(5, 0)]), 1)));
}

#[test]
fn equal_bodies_compare_equal() {
    let body = vec![factor(1, vec![index(0, 0), index(1, 2)])];
    let left = Term {
        coeff: integer(1),
        factors: body.clone(),
    };
    let right = Term {
        coeff: integer(9),
        factors: body,
    };

    assert_eq!(compare_term_bodies(&left, &right), Order::Equal);
}

#[test]
fn canonical_form_ignores_term_order() {
    let i = index(10, 0);
    let terms = vec![
        Term {
            coeff: integer(4),
            factors: vec![factor(2, vec![i])],
        },
        Term {
            coeff: integer(3),
            factors: vec![factor(1, vec![i])],
        },
        Term {
            coeff: integer(-1),
            factors: vec![factor(2, vec![i])],
        },
    ];
    let mut reversed = terms.clone();
    reversed.reverse();
    let forward = canonicalize(Polynomial { output: vec![i], terms }, &IdMap::new());
    let backward = canonicalize(Polynomial { output: vec![i], terms: reversed }, &IdMap::new());
    assert_eq!(forward, backward);
    assert_eq!(
        forward,
        Polynomial {
            output: vec![index(0, 0)],
            terms: vec![
                Term {
                    coeff: integer(3),
                    factors: vec![factor(1, vec![index(0, 0)])],
                },
                Term {
                    coeff: integer(3),
                    factors: vec![factor(2, vec![index(0, 0)])],
                },
            ],
        }
    );
}

#[test]
fn canonicalizing_a_canonical_form_changes_nothing() {
    let output = vec![index(40, 0), index(41, 0)];
    let polynomial = Polynomial {
        output,
        terms: vec![
            Term {
                coeff: integer(2),
                factors: vec![
                    factor(1, vec![index(10, 0), index(41, 0)]),
                    factor(0, vec![index(40, 0), index(10, 0)]),
                ],
            },
            Term {
                coeff: integer(-5),
                factors: vec![factor(0, vec![index(41, 0), index(40, 0)])],
            },
        ],
    };
    let mut symmetries = IdMap::new();
    symmetries.insert(
        TensorId(0),
        vec![SymmetryGenerator {
            permutation: vec![1, 0],
            sign: -1,
        }],
    );
    let once = canonicalize(polynomial, &symmetries);
    let twice = canonicalize(once.clone(), &symmetries);
    assert_eq!(once, twice);
    assert_eq!(once.terms.len(), 2);
}

#[test]
fn merges_fractional_coefficients_exactly() {
    let i = index(10, 0);
    let half = || Term {
        coeff: Coefficient::new(1, 2),
        factors: vec![factor(0, vec![i])],
    };
    let polynomial = Polynomial {
        output: vec![i],
        terms: vec![half(), half()],
    };
    assert_eq!(
        canonicalize(polynomial, &IdMap::new()),
        Polynomial {
            output: vec![index(0, 0)],
            terms: vec![Term {
                coeff: integer(1),
                factors: vec![factor(0, vec![index(0, 0)])],
            }],
        }
    );
}

#[test]
fn symmetry_choices_form_the_left_major_product() {
    let (a, b, c, d) = (index(1, 0), index(2, 0), index(3, 0), index(4, 0));
    let antisymmetric = || {
        vec![SymmetryGenerator {
            permutation: vec![1, 0],
            sign: -1,
        }]
    };
    let mut symmetries = IdMap::new();
    symmetries.insert(TensorId(0), antisymmetric());
    symmetries.insert(TensorId(1), antisymmetric());
    let factors = vec![factor(0, vec![a, b]), factor(1, vec![c, d])];

    let choices = symmetry_candidates(&factors, &symmetries);

    assert_eq!(
        choices,
        vec![
            (vec![factor(0, vec![a, b]), factor(1, vec![c, d])], 1),
            (vec![factor(0, vec![a, b]), factor(1, vec![d, c])], -1),
            (vec![factor(0, vec![b, a]), factor(1, vec![c, d])], -1),
            (vec![factor(0, vec![b, a]), factor(1, vec![d, c])], 1),
        ]
    );
}
