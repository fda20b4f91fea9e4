use kmap::kmer::hash2kmer;
use kmap::kmer::kmer2hash;
use kmap::kmer::reverse_complement;
use kmap::kmer::revcom_hash;
use kmap::kmer::KmerError;
use kmap::counting::count_kmers_in_one_sequence;
use kmap::counting::count_kmers_in_sequences;
use kmap::counting::find_first_valid_kmer;

#[test]
fn test_kmer2hash() {
    let kmer1 = b"ATCG";
    let kmer2 = b"AAAAAAAAAAAAAAAAA"; // 17 A's
    let kmer4 = b"AAAAAAAAAAAAAAAAAAAAAAAAAAAAAAA"; // 31 A's
    let kmer6 = b"CATGC";

    let kmer_hash1 = kmer2hash(kmer1).unwrap();
    let kmer_hash2 = kmer2hash(kmer2).unwrap();
    let kmer_hash4 = kmer2hash(kmer4).unwrap();
    let kmer_hash6 = kmer2hash(kmer6).unwrap();

    assert_eq!(kmer_hash1, 54); // Expected hash for ATCG
    assert_eq!(kmer_hash2, 0); // Expected hash for 17 A's
    assert_eq!(kmer_hash4, 0); // Expected hash for 31 A's
    assert_eq!(kmer_hash6, 313); // Expected hash for CATGC
}

#[test]
fn test_kmer2hash_invalid_base() {
    let kmer = b"ANGTC";
    let result = kmer2hash(kmer);
    assert!(matches!(result, Err(KmerError::InvalidBase(78))));
}

#[test]
fn test_hash2kmer() {
    let kmer_hash = 54;
    let kmer_length = 4;

    let result: Vec<u8> = hash2kmer(kmer_hash, kmer_length);

    let expected: Vec<u8> = b"ATCG".to_vec();

    assert_eq!(result, expected);
}

#[test]
fn test_reverse_complement() {
    let seq1 = b"TGTACAAAGCCCTGCATGTT";
    let rev_com_seq1 = reverse_complement(seq1);
    assert_eq!(rev_com_seq1, b"AACATGCAGGGCTTTGTACA");

    let seq2 = b"TCAAG";
    let rev_com_seq2 = reverse_complement(seq2);
    assert_eq!(rev_com_seq2, b"CTTGA");

    let seq3 = b"ACGNT";
    let rev_com_seq3 = reverse_complement(seq3);
    assert_eq!(rev_com_seq3, b"ANCGT");
}

#[test]
fn test_find_first_valid_kmer() {
    let sequence1 = b"ATGCATGCATGCATGCATGC";
    let kmer_length1 = 3;
    let valid_bases: &[u8] = b"ATGC";
    let result1 = find_first_valid_kmer(sequence1, kmer_length1, 0, valid_bases);
    assert_eq!(result1, Some((14, 3))); // ATG: 00 11 10

    let sequence2 = b"ATNATGCATGCATGCATGC";
    let kmer_length2 = 4;
    let result2 = find_first_valid_kmer(sequence2, kmer_length2, 0, valid_bases);
    assert_eq!(result2, Some((57, 7))); // ATGC: 00 11 10 01

    let sequence3 = b"ATGCNNATGNCATGCATGC";
    let kmer_length3 = 5;
    let result3 = find_first_valid_kmer(sequence3, kmer_length3, 3, valid_bases);
    assert_eq!(result3, Some((313, 15))); // CATGC: 01 00 11 10 01
}

#[test]
fn test_count_kmers_in_one_sequence() {
    let sequence = b"ATGCAT";
    let kmer_length = 3;

    // Without reverse complement: exactly ATG, TGC, GCA, CAT once each.
    let kmer_table = count_kmers_in_one_sequence(sequence, kmer_length, false);
    assert_eq!(kmer_table.len(), 4);
    assert_eq!(kmer_table.count_of(14), 1);
    assert_eq!(kmer_table.count_of(57), 1);
    assert_eq!(kmer_table.count_of(36), 1);
    assert_eq!(kmer_table.count_of(19), 1);

    // Counting again gives the same table.
    let kmer_table_again = count_kmers_in_one_sequence(sequence, kmer_length, false);
    assert_eq!(kmer_table_again.len(), kmer_table.len());
    for &(hash, count) in kmer_table.pairs().iter() {
        assert_eq!(kmer_table_again.count_of(hash), count);
    }

    // An N breaks window continuity: only ATG and CAT remain.
    let sequence1 = b"ATGNCAT";
    let kmer_table1 = count_kmers_in_one_sequence(sequence1, kmer_length, false);
    assert_eq!(kmer_table1.len(), 2);
    assert_eq!(kmer_table1.count_of(14), 1);
    assert_eq!(kmer_table1.count_of(19), 1);

    let sequence2 = b"ATGNNNAT";
    let kmer_table2 = count_kmers_in_one_sequence(sequence2, kmer_length, false);
    assert_eq!(kmer_table2.len(), 1);
    assert_eq!(kmer_table2.count_of(14), 1);

    let sequence3 = b"ATGNNNAT";
    let kmer_length3 = 4;
    let kmer_table3 = count_kmers_in_one_sequence(sequence3, kmer_length3, false);
    assert_eq!(kmer_table3.len(), 0);

    let sequence4 = b"ATGNNNATACNCCCA";
    let kmer_length4 = 4;
    let kmer_table4 = count_kmers_in_one_sequence(sequence4, kmer_length4, false);
    assert_eq!(kmer_table4.len(), 2);
    assert_eq!(kmer_table4.count_of(49), 1);
    assert_eq!(kmer_table4.count_of(84), 1);

    let sequence5 = b"ATGNNNATACNCCCANCCCA";
    let kmer_length5 = 4;
    let kmer_table5 = count_kmers_in_one_sequence(sequence5, kmer_length5, false);
    assert_eq!(kmer_table5.len(), 2);
    assert_eq!(kmer_table5.count_of(49), 1);
    assert_eq!(kmer_table5.count_of(84), 2);
}

#[test]
fn test_count_kmers_in_sequences() {
    let sequences: Vec<Vec<u8>> = vec![b"TAAAAAATTA".to_vec(), b"TNAAACNAAA".to_vec()];
    let kmer_length = 3;

    // With reverse-complement merging.
    let with_revcom = count_kmers_in_sequences(&sequences, kmer_length, true).unwrap();
    assert_eq!(with_revcom.len(), 8);
    assert_eq!(with_revcom.count_of(48), 2);
    assert_eq!(with_revcom.count_of(0), 6);
    assert_eq!(with_revcom.count_of(3), 2);
    assert_eq!(with_revcom.count_of(15), 2);
    assert_eq!(with_revcom.count_of(60), 2);
    assert_eq!(with_revcom.count_of(1), 1);
    assert_eq!(with_revcom.count_of(63), 6);
    assert_eq!(with_revcom.count_of(47), 1);

    // Without reverse-complement merging.
    let sequences_1: Vec<Vec<u8>> = vec![b"TAAAAA".to_vec()];
    let without_revcom = count_kmers_in_sequences(&sequences_1, kmer_length, false).unwrap();
    assert_eq!(without_revcom.len(), 2);
    assert_eq!(without_revcom.count_of(48), 1);
    assert_eq!(without_revcom.count_of(0), 3);

    // A k-mer length of 33 cannot fit the 64-bit hash domain.
    let kmer_length_invalid = 33;
    let result = count_kmers_in_sequences(&sequences, kmer_length_invalid, true);
    assert!(matches!(result, Err(KmerError::LengthDomain(33))));
}

#[test]
fn test_revcom_hash() {
    // AAAAAA (hash: 0) -> TTTTTT (hash: 4095)
    assert_eq!(revcom_hash(0, 6), 4095);

    // CATG (hash: 228) -> CATG (hash: 228)
    assert_eq!(revcom_hash(228, 4), 228);

    // A (hash: 0) -> T (hash: 3)
    assert_eq!(revcom_hash(0, 1), 3);
}

#[test]
fn test_revcom_hash_with_reverse_complement() {
    let kmer = b"AACGT";
    let kmer_length = kmer.len();
    let kmer_hash = kmer2hash(kmer).unwrap();

    // Calculate reverse complement hash using revcom_hash directly.
    let rc_hash_calculated = revcom_hash(kmer_hash, kmer_length);

    // Calculate it by actually reversing and complementing the sequence.
    let rc_seq = reverse_complement(kmer);
    let rc_hash_actual = kmer2hash(&rc_seq).unwrap();

    assert_eq!(rc_hash_calculated, rc_hash_actual);

    let test_cases: &[&[u8]] = &[
        b"AAAAA",
        b"CCCCC",
        b"GGGGG",
        b"TTTTT",
        b"ACGTACGT",
        b"AATTCCGG",
        b"GCATGCAT",
    ];
    for &test_kmer in test_cases {
        let test_kmer_length = test_kmer.len();
        let test_kmer_hash = kmer2hash(test_kmer).unwrap();
        let test_rc_hash_calculated = revcom_hash(test_kmer_hash, test_kmer_length);
        let test_rc_seq = reverse_complement(test_kmer);
        let test_rc_hash_actual = kmer2hash(&test_rc_seq).unwrap();

        assert_eq!(test_rc_hash_calculated, test_rc_hash_actual);
    }
}

#[test]
fn test_hash_round_trip_all_lengths() {
    // hash2kmer inverts kmer2hash for k-mers of every length from 1 to 31.
    let bases = b"ACGT";
    for len in 1..=31usize {
        let mut kmer = Vec::new();
        for i in 0..len {
            kmer.push(bases[(i * 7 + len) % 4]);
        }
        let hash = kmer2hash(&kmer).unwrap();
        assert_eq!(hash2kmer(hash, len), kmer);
    }
}

#[test]
fn test_revcom_hash_matches_sequence_path() {
    // The arithmetic reverse complement agrees with re-hashing the
    // reverse-complemented sequence for a palindrome and a non-palindrome.
    for kmer in [&b"ACGT"[..], &b"AAACCC"[..]] {
        let h = kmer2hash(kmer).unwrap();
        let rc = revcom_hash(h, kmer.len());
        let rc_seq = reverse_complement(kmer);
        assert_eq!(rc, kmer2hash(&rc_seq).unwrap());
    }
}

#[test]
fn test_palindromic_kmer_counts_double() {
    // With reverse-complement merging a palindromic k-mer's count doubles.
    let table = count_kmers_in_one_sequence(b"ACGT", 4, true);
    let h = kmer2hash(b"ACGT").unwrap();
    assert_eq!(table.count_of(h), 2);
}

#[test]
fn test_find_first_valid_kmer_none() {
    let valid_bases: &[u8] = b"ATGC";
    assert_eq!(find_first_valid_kmer(b"NNNNN", 3, 0, valid_bases), None);
    assert_eq!(find_first_valid_kmer(b"AT", 3, 0, valid_bases), None);
    assert_eq!(find_first_valid_kmer(b"ATGC", 3, 3, valid_bases), None);
}
