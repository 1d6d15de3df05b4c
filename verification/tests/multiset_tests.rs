use plookup::multiset::MultiSet;
use plookup::scalar::Scalar;

fn ms(values: &[u64]) -> MultiSet {
    let mut m = MultiSet::new();
    for v in values.iter() {
        m.push(Scalar::from_u64(*v));
    }
    m
}

#[test]
fn test_sort() {
    let unsorted_set = ms(&[50, 20, 30, 40]);
    let expected_sorted_multiset = ms(&[20, 30, 40, 50]);

    let sorted_set = unsorted_set.sort();
    assert_eq!(sorted_set, expected_sorted_multiset);
    assert_ne!(sorted_set, unsorted_set);
}

#[test]
fn test_concat() {
    let mut a = MultiSet::new();
    a.push(Scalar::from_u64(1));
    a.push(Scalar::from_u64(2));
    a.push(Scalar::from_u64(3));
    let mut b = MultiSet::new();
    b.push(Scalar::from_u64(4));
    b.push(Scalar::from_u64(5));
    b.push(Scalar::from_u64(6));

    let c = a.concatenate(&b);

    let expected_set = ms(&[1, 2, 3, 4, 5, 6]);
    assert_eq!(expected_set, c);
}

#[test]
fn test_concat_sort() {
    let mut a = MultiSet::new();
    a.push(Scalar::from_u64(2));
    a.push(Scalar::from_u64(2));
    a.push(Scalar::from_u64(3));
    a.push(Scalar::from_u64(1));
    let mut b = MultiSet::new();
    b.push(Scalar::from_u64(6));
    b.push(Scalar::from_u64(4));
    b.push(Scalar::from_u64(4));
    b.push(Scalar::from_u64(5));
    let c = a.concatenate(&b).sort();

    let expected_set = ms(&[1, 2, 2, 3, 4, 4, 5, 6]);
    assert_eq!(expected_set, c);
}

#[test]
fn test_halve() {
    let mut a = MultiSet::new();
    a.push(Scalar::from_u64(1));
    a.push(Scalar::from_u64(2));
    a.push(Scalar::from_u64(3));
    a.push(Scalar::from_u64(4));
    a.push(Scalar::from_u64(5));
    a.push(Scalar::from_u64(6));
    a.push(Scalar::from_u64(7));

    let (h_1, h_2) = a.halve();
    assert_eq!(h_1.len(), 4);
    assert_eq!(h_2.len(), 4);

    assert_eq!(ms(&[1, 2, 3, 4]), h_1);
    assert_eq!(ms(&[4, 5, 6, 7]), h_2);

    // Last element in the first half should equal first element in the second half
    assert_eq!(h_1.0.last().unwrap(), &h_2.0[0]);
}

#[test]
fn test_is_subset() {
    let a = ms(&[1, 2, 3, 4, 5, 6, 7]);
    let b = ms(&[1, 2]);
    let c = ms(&[100]);

    assert!(b.is_subset_of(&a));
    assert!(!c.is_subset_of(&a));
}

#[test]
fn test_sorted_by() {
    let a = ms(&[50, 20, 20, 30, 30, 40]);
    let b = ms(&[50, 20, 30, 40, 10]);

    assert_eq!(a.sorted_by(&b), true);

    let c = ms(&[50, 20]);
    let d = ms(&[20, 50]);

    assert_eq!(c.sorted_by(&d), false);
    assert_eq!(d.sorted_by(&c), false);

    let e = ms(&[50, 20, 20]);
    let f = ms(&[50, 20, 30]);

    assert_eq!(e.sorted_by(&f), true);
    assert_eq!(f.sorted_by(&e), false);

    let g = MultiSet::new();
    let h = ms(&[10]);

    assert_eq!(g.sorted_by(&f), true);
    assert_eq!(f.sorted_by(&g), false);
    assert_eq!(h.sorted_by(&h), true);
}

#[test]
fn test_sort_idempotent() {
    let a = ms(&[9, 3, 3, 7, 1]);
    let once = a.sort();
    let twice = once.sort();
    assert_eq!(once, twice);
    assert_eq!(once, ms(&[1, 3, 3, 7, 9]));
}

#[test]
fn test_aggregate_single_identity() {
    let a = ms(&[11, 22, 33]);
    let agg = MultiSet::aggregate(vec![&a], Scalar::one());
    assert_eq!(agg, a);
}

#[test]
fn test_aggregate_pair() {
    let a = ms(&[1, 2]);
    let b = ms(&[3]);
    let alpha = Scalar::from_u64(5);
    // a + alpha * b, with b padded by a zero: [1 + 5*3, 2 + 5*0]
    let agg = MultiSet::aggregate(vec![&a, &b], alpha);
    assert_eq!(agg, ms(&[16, 2]));
}

#[test]
fn test_sorted_by_on_sorted_concatenation() {
    // t is sorted and every element of f appears in t, so the sorted
    // concatenation is covered by t.
    let f = ms(&[2, 1, 2]);
    let t = ms(&[1, 2, 3]);
    let s = f.concatenate(&t).sort();
    assert_eq!(s, ms(&[1, 1, 2, 2, 2, 3]));
    assert!(s.sorted_by(&t));
}

#[test]
fn test_halve_odd_shapes() {
    let a = ms(&[10, 20, 30, 40, 50]);
    let (h_1, h_2) = a.halve();
    assert_eq!(h_1.len(), 3);
    assert_eq!(h_2.len(), 3);
    assert_eq!(h_1.0[2], h_2.0[0]);
}

#[test]
fn test_scalar_modular_arithmetic() {
    // The largest canonical scalar is the field order minus one; adding one
    // wraps to zero, so the sum is reduced, not concatenated.
    let p_minus_one = Scalar {
        l0: 0xffffffff00000000,
        l1: 0x53bda402fffe5bfe,
        l2: 0x3339d80809a1d805,
        l3: 0x73eda753299d7d48,
    };
    let zero = p_minus_one.add(&Scalar::one());
    assert_eq!(zero, Scalar::zero());

    let three = Scalar::from_u64(3);
    let four = Scalar::from_u64(4);
    assert_eq!(three.add(&four), Scalar::from_u64(7));
    assert_eq!(three.mul(&four), Scalar::from_u64(12));
    // (p - 1) * (p - 1) = p^2 - 2p + 1 = 1 (mod p)
    assert_eq!(p_minus_one.mul(&p_minus_one), Scalar::one());

    assert!(three.lt(&four));
    assert!(!four.lt(&three));
    assert!(!three.lt(&three));
}

#[test]
fn test_contains_and_last() {
    let a = ms(&[5, 6, 7]);
    assert!(a.contains(&Scalar::from_u64(6)));
    assert!(!a.contains(&Scalar::from_u64(8)));
    assert_eq!(a.last(), Scalar::from_u64(7));
    assert_eq!(a.len(), 3);
}

#[test]
fn test_extend_replicates() {
    let mut a = ms(&[4]);
    a.extend(3, Scalar::from_u64(9));
    assert_eq!(a, ms(&[4, 9, 9, 9]));
}
