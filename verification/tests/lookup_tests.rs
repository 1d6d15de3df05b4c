use plookup::lookup::LookUp;
use plookup::multiset_equality::compute_z_evaluations;
use plookup::lookup::XOR4BitTable;
use plookup::multiset::MultiSet;
use plookup::poly::EvaluationDomain;
use plookup::scalar::Scalar;

fn fr(v: u64) -> Scalar {
    Scalar::from_u64(v)
}

#[test]
fn test_pad_correct() {
    let table = XOR4BitTable::new();
    let preprocessed_table = table.preprocess(2usize.pow(8));

    // Setup lookup and add 3 XOR reads into it
    let mut lookup = LookUp::new(table);

    lookup.read(&(fr(2), fr(2)));
    lookup.read(&(fr(3), fr(2)));
    lookup.read(&(fr(1), fr(2)));

    let (f, t) = lookup.to_multiset(&preprocessed_table, fr(5));
    assert_eq!(f.len() + 1, t.len());

    assert!(t.len().is_power_of_two());
}

#[test]
fn test_inclusion() {
    let table = XOR4BitTable::new();
    let preprocessed_table = table.preprocess(2usize.pow(8));

    let mut lookup = LookUp::new(table);

    // Add 2 XOR 2
    lookup.read(&(fr(2), fr(2)));
    // Add 1 XOR 2
    lookup.read(&(fr(1), fr(2)));
    // Add 1 XOR 2, a duplicate read
    lookup.read(&(fr(1), fr(2)));

    let (f, t) = lookup.to_multiset(&preprocessed_table, fr(5));
    assert!(f.is_subset_of(&t));
}

#[test]
fn test_len() {
    // Check that the correct values are being added to the witness
    // If the value is not in the XOR4BitTable, it is not added to the witness
    // For a 4-bit XOR table the range is [0,15]
    let table = XOR4BitTable::new();
    let preprocessed_table = table.preprocess(2usize.pow(8));

    let mut lookup = LookUp::new(table);

    let added = lookup.read(&(fr(16), fr(6)));
    assert!(!added);

    let added = lookup.read(&(fr(8), fr(17)));
    assert!(!added);
    let added = lookup.read(&(fr(15), fr(13)));
    assert!(added);

    assert_eq!(lookup.left_wires.len(), 1);
    assert_eq!(lookup.right_wires.len(), 1);
    assert_eq!(lookup.output_wires.len(), 1);

    let (f, t) = lookup.to_multiset(&preprocessed_table, fr(5));
    assert!(f.is_subset_of(&t));
}

#[test]
fn test_read_miss_leaves_wires_unchanged() {
    let table = XOR4BitTable::new();
    let mut lookup = LookUp::new(table);

    assert!(!lookup.read(&(fr(16), fr(6))));
    assert_eq!(lookup.left_wires.len(), 0);
    assert_eq!(lookup.right_wires.len(), 0);
    assert_eq!(lookup.output_wires.len(), 0);

    // A hit records the key pair and the XOR output.
    assert!(lookup.read(&(fr(15), fr(13))));
    assert_eq!(lookup.left_wires.0[0], fr(15));
    assert_eq!(lookup.right_wires.0[0], fr(13));
    assert_eq!(lookup.output_wires.0[0], fr(15 ^ 13));
}

#[test]
fn test_three_valid_reads_sizes() {
    // Three valid XOR reads, aggregated under alpha = 5, give a witness of
    // 255 entries against a table of 256.
    let table = XOR4BitTable::new();
    let preprocessed_table = table.preprocess(256);

    let mut lookup = LookUp::new(table);
    assert!(lookup.read(&(fr(1), fr(2))));
    assert!(lookup.read(&(fr(2), fr(4))));
    assert!(lookup.read(&(fr(3), fr(5))));

    let (f, t) = lookup.to_multiset(&preprocessed_table, fr(5));
    assert_eq!(f.len(), 255);
    assert_eq!(t.len(), 256);
    assert!(f.is_subset_of(&t));
}

#[test]
fn test_padding_replicates_last_read() {
    let table = XOR4BitTable::new();
    let preprocessed_table = table.preprocess(256);

    let mut lookup = LookUp::new(table);
    assert!(lookup.read(&(fr(1), fr(2))));
    assert!(lookup.read(&(fr(2), fr(4))));
    assert!(lookup.read(&(fr(3), fr(5))));

    let (_f, t) = lookup.to_multiset(&preprocessed_table, fr(5));

    // The wires were padded from 3 entries up to 255: the top 252 entries
    // replicate the last read.
    assert_eq!(lookup.left_wires.len(), 255);
    for j in 3..255 {
        assert_eq!(lookup.left_wires.0[j], fr(3));
        assert_eq!(lookup.right_wires.0[j], fr(5));
        assert_eq!(lookup.output_wires.0[j], fr(3 ^ 5));
    }
    assert!(t.len().is_power_of_two());
}

#[test]
fn test_xor_table_read() {
    let table = XOR4BitTable::new();
    // Valid corner rows.
    let mut lookup = LookUp::new(table);
    assert!(lookup.read(&(fr(0), fr(0))));
    assert!(lookup.read(&(fr(15), fr(15))));
    assert_eq!(lookup.output_wires.0[0], fr(0));
    assert_eq!(lookup.output_wires.0[1], fr(0));
}

#[test]
fn test_domain_sizes() {
    assert!(EvaluationDomain::new(2).is_some());
    let d = EvaluationDomain::new(256).unwrap();
    assert_eq!(d.size, 256);
    assert!(EvaluationDomain::new(0).is_none());
    assert!(EvaluationDomain::new(1).is_none());
    assert!(EvaluationDomain::new(7).is_none());
    assert!(EvaluationDomain::new(300).is_none());
}

#[test]
fn test_to_polynomial() {
    let mut a = MultiSet::new();
    a.push(fr(1));
    a.push(fr(2));
    a.push(fr(3));
    a.push(fr(4));
    a.push(fr(5));
    a.push(fr(6));
    a.push(fr(7));

    let domain = EvaluationDomain::new(a.len() + 1).unwrap();
    let a_poly = a.to_polynomial(&domain);

    assert_eq!(a_poly.degree(), 7)
}

#[test]
fn test_interpolation_round_trip() {
    // Interpolating over the domain and evaluating back at the domain
    // points returns the original sequence.
    let values: [u64; 8] = [3, 1, 4, 1, 5, 9, 2, 6];
    let mut a = MultiSet::new();
    for v in values.iter() {
        a.push(fr(*v));
    }
    let domain = EvaluationDomain::new(8).unwrap();
    let poly = a.to_polynomial(&domain);
    let omega = domain.generator();

    let mut point = Scalar::one();
    for v in values.iter() {
        assert_eq!(poly.evaluate(&point), fr(*v));
        point = point.mul(&omega);
    }
}

#[test]
fn test_grand_product_closes_on_perfect_instance() {
    // f = [1] inside t = [1, 1]; s = sort(f || t) = [1, 1, 1] halves into
    // h_1 = [1, 1], h_2 = [1, 1]. The accumulator returns to one.
    let f = MultiSet(vec![fr(1)]);
    let t = MultiSet(vec![fr(1), fr(1)]);
    let s = f.concatenate(&t).sort();
    let (h_1, h_2) = s.halve();
    assert!(s.sorted_by(&t));

    let z = compute_z_evaluations(&f, &t, &h_1, &h_2, &fr(2), &fr(3)).unwrap();
    assert_eq!(z.len(), 2);
    assert_eq!(z.0[0], Scalar::one());
    // One step: numerator 3 * 4 * 12, denominators 12 * 12; the quotient
    // is exactly one again.
    assert_eq!(z.0[1], Scalar::one());
}

#[test]
fn test_grand_product_rejects_zero_denominator() {
    // With beta = 0 and gamma = p - 1 the denominator gamma + h_i is zero
    // for h_i = 1, so the accumulator aborts.
    let p_minus_one = Scalar {
        l0: 0xffffffff00000000,
        l1: 0x53bda402fffe5bfe,
        l2: 0x3339d80809a1d805,
        l3: 0x73eda753299d7d48,
    };
    let f = MultiSet(vec![fr(1)]);
    let t = MultiSet(vec![fr(1), fr(1)]);
    let h_1 = MultiSet(vec![fr(1), fr(1)]);
    let h_2 = MultiSet(vec![fr(1), fr(1)]);
    let z = compute_z_evaluations(&f, &t, &h_1, &h_2, &fr(0), &p_minus_one);
    assert!(z.is_none());
}

#[test]
fn test_empty_reads_trivial_padding() {
    // An empty reads set is permitted: the wires are padded with zeros,
    // and the zero triple is itself a row of the XOR table, so the
    // degenerate witness still lies inside the merged table.
    let table = XOR4BitTable::new();
    let preprocessed_table = table.preprocess(256);
    let mut lookup = LookUp::new(table);

    let (f, t) = lookup.to_multiset(&preprocessed_table, fr(5));
    assert_eq!(f.len(), 255);
    assert_eq!(t.len(), 256);
    assert_eq!(lookup.left_wires.0[0], fr(0));
    assert_eq!(lookup.output_wires.0[254], fr(0));
    assert!(f.is_subset_of(&t));
}
