use truthmill::cost::count_operations;
use truthmill::{
    Code, Coefficient, DomainId, Einsum, IdMap, IndexId, LinComb, TensorId, ValueDef, ValueRef,
};

fn code(inputs: Vec<Vec<IndexId>>, output: Vec<IndexId>, domains: Vec<(IndexId, DomainId)>) -> Code {
    Code {
        inputs,
        output,
        domains: IdMap::from_entries(domains),
    }
}

#[test]
fn rational_arithmetic_is_exact() {
    let three = Coefficient::from_integer(1).times(&Coefficient::from_integer(3));
    assert_eq!(three, Coefficient::from_integer(3));

    let sum = Coefficient::from_integer(2).plus(&Coefficient::from_integer(-5));
    assert_eq!(sum, Coefficient::from_integer(-3));
    assert!(sum.equals(&Coefficient::from_integer(-3)));
    assert!(!sum.equals(&Coefficient::from_integer(3)));

    let negated = Coefficient::from_integer(7).negated();
    assert_eq!(negated, Coefficient::from_integer(-7));

    let zero = Coefficient::from_integer(4).plus(&Coefficient::from_integer(-4));
    assert!(zero.is_zero());
    assert!(!Coefficient::from_integer(1).is_zero());
    assert_eq!(zero, Coefficient::from_integer(0));

    let product = Coefficient::from_integer(-6).times(&Coefficient::from_integer(-7));
    assert_eq!(product, Coefficient::from_integer(42));
}

#[test]
fn maps_keep_keys_in_order_and_replace_values() {
    let mut map = IdMap::new();
    assert!(map.is_empty());
    assert_eq!(map.insert(DomainId(5), 50u64), None);
    assert_eq!(map.insert(DomainId(1), 10), None);
    assert_eq!(map.insert(DomainId(3), 30), None);
    assert_eq!(map.insert(DomainId(3), 33), Some(30));
    assert_eq!(map.len(), 3);
    let keys: Vec<u32> = map.entries().iter().map(|(k, _)| k.0).collect();
    assert_eq!(keys, vec![1, 3, 5]);
    assert_eq!(map.get(&DomainId(3)), Some(&33));
    assert!(map.contains_key(&DomainId(5)));
    assert_eq!(map.remove(&DomainId(5)), Some(50));
    assert!(!map.contains_key(&DomainId(5)));
    assert_eq!(map.get(&DomainId(7)), None);
    map.clear();
    assert_eq!(map.len(), 0);

    let later_wins = IdMap::from_entries(vec![(TensorId(2), 'a'), (TensorId(0), 'b'), (TensorId(2), 'c')]);
    assert_eq!(later_wins.get(&TensorId(2)), Some(&'c'));
    assert_eq!(later_wins.len(), 2);
}

#[test]
fn counts_the_operations_of_each_definition() {
    let i = IndexId(0);
    let j = IndexId(1);
    let d = DomainId(0);
    let contraction = ValueDef::Einsum(Einsum {
        coeff: Coefficient::from_integer(1),
        code: code(vec![vec![i, j], vec![j]], vec![i], vec![(i, d), (j, d)]),
        args: vec![ValueRef::Tensor(TensorId(0)), ValueRef::Tensor(TensorId(1))],
    });
    let copy = ValueDef::Einsum(Einsum {
        coeff: Coefficient::from_integer(3),
        code: code(vec![vec![i]], vec![i], vec![(i, d)]),
        args: vec![ValueRef::Tensor(TensorId(0))],
    });
    let reduction = ValueDef::Einsum(Einsum {
        coeff: Coefficient::from_integer(1),
        code: code(vec![vec![i]], vec![], vec![(i, d)]),
        args: vec![ValueRef::Tensor(TensorId(0))],
    });
    let sum = ValueDef::LinComb(LinComb {
        coeff: vec![
            Coefficient::from_integer(1),
            Coefficient::from_integer(1),
            Coefficient::from_integer(1),
        ],
        code: code(vec![vec![i], vec![i], vec![i]], vec![i], vec![(i, d)]),
        args: vec![ValueRef::Tensor(TensorId(0)); 3],
    });
    let zero = ValueDef::LinComb(LinComb {
        coeff: vec![],
        code: code(vec![], vec![i], vec![(i, d)]),
        args: vec![],
    });

    assert_eq!(count_operations(&contraction), 2);
    assert_eq!(count_operations(&copy), 0);
    assert_eq!(count_operations(&reduction), 1);
    assert_eq!(count_operations(&sum), 2);
    assert_eq!(count_operations(&zero), 0);
}

#[test]
fn fractions_are_exact_and_in_lowest_terms() {
    let half = Coefficient::new(1, 2);
    let third = Coefficient::new(-2, -6);
    assert_eq!(half.plus(&third), Coefficient::new(5, 6));
    assert_eq!(Coefficient::new(2, -4).numer_bytes(), &vec![0xffu8]);
    assert_eq!(Coefficient::new(2, -4).denom_bytes(), &vec![2u8]);
    assert_eq!(Coefficient::new(6, 3), Coefficient::from_integer(2));
    assert_eq!(half.divided_by(&third), Coefficient::new(3, 2));
    assert_eq!(half.times(&Coefficient::from_integer(2)), Coefficient::from_integer(1));

    // 2^72 / 3, beyond any machine integer.
    let mut big = vec![0u8; 9];
    big.push(1);
    let large = Coefficient::from_signed_bytes(&big, &[3]);
    assert_eq!(large.numer_bytes(), &big);
    assert_eq!(large.denom_bytes(), &vec![3u8]);
    let doubled = large.plus(&large);
    let mut twice = vec![0u8; 9];
    twice.push(2);
    assert_eq!(doubled, Coefficient::from_signed_bytes(&twice, &[3]));
    assert_eq!(Coefficient::from_signed_bytes(&[], &[5]), Coefficient::from_integer(0));
}
