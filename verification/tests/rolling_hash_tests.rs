use gfa_graphs::rolling_hash::RollingHasher;

#[test]
fn test_rolling_hash() {
    println!("Rolling hash test");

    let modulus = 42;
    let alphabet_size = 4;

    let mut rh = RollingHasher::new(modulus, alphabet_size);
    let initial_pattern_hash = rh.hash_pattern(&[1, 2, 3, 4, 5]);
    println!("Initial pattern hash: {:?}", initial_pattern_hash);

    rh.add_last(1);
    rh.add_last(2);
    rh.add_last(3);
    rh.add_last(4);
    rh.add_last(5);

    println!("Hash: {:?}", rh.hash());

    rh.advance(0);

    println!("Hash: {:?}", rh.hash());

    rh.advance(1);
    rh.advance(2);
    rh.advance(3);
    rh.advance(4);
    rh.advance(5);

    println!("Hash: {:?}", rh.hash());
    println!(
        "Shifted pattern hash: {}",
        rh.hash_value_at_caret(&initial_pattern_hash)
    );

    let pattern = initial_pattern_hash;
    let curr_hash = rh.hash();

    println!("Pattern hash: {:?}", pattern);
    println!("Current hash: {:?}", curr_hash);

    println!("Pattern hash at caret: {}", rh.hash_value_at_caret(&pattern));

    println!("Compare: {:?}", rh.compare(&pattern, &curr_hash));
}

#[test]
fn test_geometry_rolling_hash() {
    println!("Geometry rolling hash test");

    let modulus = 10_000_000;
    let alphabet_size = 2;

    let mut rh = RollingHasher::new(modulus, alphabet_size);

    let initial_pattern_hash = rh.hash_pattern(&[1, 1, 1, 1]);

    rh.add_last(1);
    rh.add_last(1);
    rh.add_last(1);
    rh.add_last(1);

    println!("Initial pattern hash: {:?}", initial_pattern_hash);
    println!("Hash: {:?}", rh.hash());

    rh.advance(1);

    println!("Hash: {:?}", rh.hash());
    println!(
        "Shifted pattern hash: {:?}",
        rh.hash_value_at_caret(&initial_pattern_hash)
    );
}

// Alphabet base 4 and modulus 42, pattern [1,2,3,4,5]: after sliding
// the window back onto the same literal values, the re-aligned
// comparison against the original pattern hash reports a match.
#[test]
fn test_pattern_rematch_after_advances() {
    let mut rh = RollingHasher::new(42, 4);
    let pattern_hash = rh.hash_pattern(&[1, 2, 3, 4, 5]);

    rh.add_last(1);
    rh.add_last(2);
    rh.add_last(3);
    rh.add_last(4);
    rh.add_last(5);

    // the window starts out on the pattern itself
    assert!(rh.compare(&rh.hash(), &pattern_hash));

    for v in [0, 1, 2, 3, 4, 5] {
        rh.advance(v);
    }
    // window is now [1, 2, 3, 4, 5] again, at offset 6
    assert!(rh.compare(&pattern_hash, &rh.hash()));
    assert!(rh.compare(&rh.hash(), &pattern_hash));
}

#[test]
fn test_differing_windows_do_not_match() {
    let mut rh = RollingHasher::new(1_000_003, 5);
    let pattern_hash = rh.hash_pattern(&[1, 2, 3]);

    rh.add_last(1);
    rh.add_last(2);
    rh.add_last(3);
    rh.advance(4);
    // window [2, 3, 4] differs from the pattern
    assert!(!rh.compare(&pattern_hash, &rh.hash()));
}

#[test]
fn test_snapshots_at_two_offsets_match() {
    let mut rh = RollingHasher::new(97, 3);
    rh.add_last(2);
    rh.add_last(1);
    rh.add_last(2);
    let h1 = rh.hash();
    rh.advance(2);
    rh.advance(1);
    rh.advance(2);
    // same literal window [2, 1, 2], three positions later
    let h2 = rh.hash();
    assert!(rh.compare(&h1, &h2));
}

use gfa_graphs::sequences::{
    compute_sequence_occurrences, compute_sequence_occurrences_naive, letter_complement,
    letter_to_number,
};

#[test]
fn test_letter_to_number() {
    assert_eq!(letter_to_number('A'), 1);
    assert_eq!(letter_to_number('C'), 2);
    assert_eq!(letter_to_number('G'), 3);
    assert_eq!(letter_to_number('T'), 4);
}

#[test]
fn test_letter_complement() {
    assert_eq!(letter_complement('A'), 'T');
    assert_eq!(letter_complement('T'), 'A');
    assert_eq!(letter_complement('C'), 'G');
    assert_eq!(letter_complement('G'), 'C');
}

#[test]
fn test_occurrences_naive() {
    // ACGTACGT numbered, pattern ACG: matches at 0 and 4
    let sequence = vec![1, 2, 3, 4, 1, 2, 3, 4];
    let pattern = vec![1, 2, 3];
    let occ = compute_sequence_occurrences_naive(&sequence, &pattern);
    assert_eq!(occ, vec![0, 4]);
}

#[test]
fn test_occurrences_rolling_hash() {
    let sequence = vec![1, 2, 3, 4, 1, 2, 3, 4, 1];
    let pattern = vec![1, 2, 3];
    let occ = compute_sequence_occurrences(&sequence, &pattern, 3000, 5);
    assert_eq!(occ, vec![0, 4]);
}

use gfa_graphs::sequences::{kmer_windows, reverse_complement};

#[test]
fn test_occurrence_at_final_position_naive() {
    // the match sits at the very last alignment
    let sequence = vec![1, 2, 3];
    let pattern = vec![2, 3];
    let occ = compute_sequence_occurrences_naive(&sequence, &pattern);
    assert_eq!(occ, vec![1]);
}

#[test]
fn test_occurrence_at_final_position_rolling_hash() {
    let sequence = vec![1, 2, 3, 4, 2, 3];
    let pattern = vec![2, 3];
    let occ = compute_sequence_occurrences(&sequence, &pattern, 42, 4);
    assert_eq!(occ, vec![1, 4]);
}

#[test]
fn test_whole_sequence_is_the_pattern() {
    let sequence = vec![4, 4, 1];
    let pattern = vec![4, 4, 1];
    assert_eq!(
        compute_sequence_occurrences_naive(&sequence, &pattern),
        vec![0]
    );
    assert_eq!(
        compute_sequence_occurrences(&sequence, &pattern, 97, 5),
        vec![0]
    );
}

#[test]
fn test_compare_is_symmetric_at_equal_offsets() {
    // an un-reduced pattern hash (42 >= modulus 42) compares equal to
    // the reduced snapshot of the same window, in both argument orders
    let mut rh = RollingHasher::new(42, 4);
    let pattern_hash = rh.hash_pattern(&[1, 2, 3]);
    rh.add_last(1);
    rh.add_last(2);
    rh.add_last(3);
    let snap = rh.hash();
    assert_eq!(
        rh.compare(&pattern_hash, &snap),
        rh.compare(&snap, &pattern_hash)
    );
    assert!(rh.compare(&pattern_hash, &snap));
}

#[test]
fn test_reverse_complement() {
    let seq: Vec<char> = "AACG".chars().collect();
    let rc: String = reverse_complement(&seq).into_iter().collect();
    assert_eq!(rc, "CGTT");
}

#[test]
fn test_kmer_windows() {
    let seq = vec![1u64, 2, 3, 4];
    let windows = kmer_windows(&seq, 2);
    assert_eq!(windows, vec![vec![1, 2], vec![2, 3], vec![3, 4]]);
    // the final alignment is included, and short sequences give none
    assert_eq!(kmer_windows(&seq, 4), vec![vec![1u64, 2, 3, 4]]);
    assert_eq!(kmer_windows(&seq, 5), Vec::<Vec<u64>>::new());
}
