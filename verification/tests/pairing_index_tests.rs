use multilinear::pairing_index::index_pair;
use multilinear::pairing_index::PairingIndex;

#[test]
fn test_index_pair_three_vars_middle_variable() {
    // n_vars = 3, target = 1: stride 2, pairs in reduced-index order
    let pairs = index_pair(3, 1).unwrap();
    assert_eq!(pairs, vec![(0, 2), (1, 3), (4, 6), (5, 7)]);
}

#[test]
fn test_shift_generator_stream() {
    let mut gen = PairingIndex::new(3, 1).unwrap();
    assert_eq!(gen.shift_value(), 2);
    let mut lows = Vec::new();
    while let Some(low) = gen.next() {
        lows.push(low);
    }
    assert_eq!(lows, vec![0, 1, 4, 5]);
    // the stream is spent
    assert_eq!(gen.next(), None);
}

#[test]
fn test_pairing_generators_equivalent() {
    // the shift-based and bit-insertion generators emit identical pairings
    let cases: &[(usize, usize)] = &[
        (1, 0),
        (2, 0),
        (2, 1),
        (3, 0),
        (3, 1),
        (3, 2),
        (4, 2),
        (5, 0),
        (5, 4),
        (6, 3),
    ];
    for &(n, t) in cases {
        let from_insertion = index_pair(n as u8, t as u8).unwrap();
        let shift_gen = PairingIndex::new(n, t).unwrap();
        let from_shift = shift_gen.pairs();
        assert_eq!(from_insertion, from_shift);

        // together the pairs' members cover [0, 2^n) exactly once
        let mut members: Vec<usize> = Vec::new();
        for &(low, high) in &from_insertion {
            members.push(low);
            members.push(high);
        }
        members.sort();
        let expected: Vec<usize> = (0..(1usize << n)).collect();
        assert_eq!(members, expected);
    }
}

#[test]
fn test_pairing_rejects_out_of_range_target() {
    assert!(index_pair(3, 3).is_err());
    assert!(index_pair(0, 0).is_err());
    assert!(PairingIndex::new(3, 5).is_err());
    assert_eq!(
        PairingIndex::new(4, 4).unwrap_err(),
        "target variable position must be less than the variable count"
    );
}
