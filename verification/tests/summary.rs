use kmap::fasta::fasta_sequences;
use kmap::fasta::parse_fasta;
use kmap::fasta::remove_empty_records;
use kmap::fasta::render_fasta;
use kmap::fasta::to_uppercase_ascii;
use kmap::fasta::FastaError;
use kmap::topk::compute_top_kmers;
use kmap::topk::pairs_to_kmers;
use kmap::topk::render_top_kmers_report;
use kmap::topk::top_k_pairs;
use kmap::counting::count_kmers_in_sequences;
use kmap::kmer::kmer2hash;

#[test]
fn test_parse_fasta_two_records() {
    let input = b">first record\nTAAAAAATTA\n>second\nTNAAA\nCNAAA\n";
    let records = parse_fasta(input).unwrap();
    assert_eq!(records.len(), 2);
    assert_eq!(records[0].header, b"first record".to_vec());
    assert_eq!(records[0].seq, b"TAAAAAATTA".to_vec());
    assert_eq!(records[1].header, b"second".to_vec());
    // Sequence lines are concatenated.
    assert_eq!(records[1].seq, b"TNAAACNAAA".to_vec());
}

#[test]
fn test_parse_fasta_crlf_and_no_trailing_newline() {
    let input = b">a\r\nACGT\r\n>b\r\nTT";
    let records = parse_fasta(input).unwrap();
    assert_eq!(records.len(), 2);
    assert_eq!(records[0].header, b"a".to_vec());
    assert_eq!(records[0].seq, b"ACGT".to_vec());
    assert_eq!(records[1].seq, b"TT".to_vec());
}

#[test]
fn test_parse_fasta_rejects_content_before_header() {
    assert!(matches!(
        parse_fasta(b"ACGT\n>a\nTT\n"),
        Err(FastaError::MissingHeader)
    ));
    assert!(matches!(
        parse_fasta(b"\n>a\nTT\n"),
        Err(FastaError::MissingHeader)
    ));
}

#[test]
fn test_parse_fasta_empty_input() {
    let records = parse_fasta(b"").unwrap();
    assert!(records.is_empty());
}

#[test]
fn test_fasta_sequences_uppercases() {
    let seqs = fasta_sequences(b">a\nacgt\n>b\nTtNn\n").unwrap();
    assert_eq!(seqs.len(), 2);
    assert_eq!(seqs[0], b"ACGT".to_vec());
    assert_eq!(seqs[1], b"TTNN".to_vec());
}

#[test]
fn test_to_uppercase_ascii_leaves_other_bytes() {
    assert_eq!(to_uppercase_ascii(b"aCg7-n"), b"ACG7-N".to_vec());
}

#[test]
fn test_remove_empty_records_counts() {
    let records = parse_fasta(b">a\nACGT\n>empty\n>b\nTT\n").unwrap();
    let (kept, removed, total) = remove_empty_records(records);
    assert_eq!(total, 3);
    assert_eq!(removed, 1);
    assert_eq!(kept.len(), 2);
    assert_eq!(kept[0].header, b"a".to_vec());
    assert_eq!(kept[1].header, b"b".to_vec());
}

#[test]
fn test_render_fasta_round_trip() {
    let input = b">a\nACGT\n>b\nTT\n";
    let records = parse_fasta(input).unwrap();
    let rendered = render_fasta(&records);
    assert_eq!(rendered, input.to_vec());
}

#[test]
fn test_top_k_pairs_orders_by_count() {
    // ATGCATG with k = 3 counts ATG twice, TGC, GCA and CAT once.
    let sequences: Vec<Vec<u8>> = vec![b"ATGCATG".to_vec()];
    let table = count_kmers_in_sequences(&sequences, 3, false).unwrap();
    let pairs = top_k_pairs(&table, 2);
    assert_eq!(pairs.len(), 2);
    assert_eq!(pairs[0], (14, 2)); // ATG
    assert_eq!(pairs[1].1, 1);

    // Asking for more than the table holds returns everything, sorted.
    let all = top_k_pairs(&table, 10);
    assert_eq!(all.len(), 4);
    assert_eq!(all[0], (14, 2));
    assert!(all[1].1 >= all[2].1 && all[2].1 >= all[3].1);
}

#[test]
fn test_pairs_to_kmers_decodes() {
    let pairs = vec![(14u64, 2u32), (19u64, 1u32)];
    let kmers = pairs_to_kmers(&pairs, 3);
    assert_eq!(kmers.len(), 2);
    assert_eq!(kmers[0], (b"ATG".to_vec(), 2));
    assert_eq!(kmers[1], (b"CAT".to_vec(), 1));
}

#[test]
fn test_compute_top_kmers_end_to_end() {
    let sequences: Vec<Vec<u8>> = vec![b"ATGCATG".to_vec()];
    let top = compute_top_kmers(&sequences, 3, false, 2).unwrap();
    assert_eq!(top.len(), 2);
    assert_eq!(top[0], (b"ATG".to_vec(), 2));
    assert_eq!(top[1].1, 1);

    let err = compute_top_kmers(&sequences, 33, false, 10);
    assert!(err.is_err());
}

#[test]
fn test_compute_top_kmers_distinct_and_complete() {
    let sequences: Vec<Vec<u8>> = vec![b"ATGCATG".to_vec()];
    let top = compute_top_kmers(&sequences, 3, false, 10).unwrap();
    assert_eq!(top.len(), 4);
    for i in 0..top.len() {
        for j in (i + 1)..top.len() {
            assert_ne!(top[i].0, top[j].0);
        }
    }
    // The counts the engine reports match a direct count.
    let table = count_kmers_in_sequences(&sequences, 3, false).unwrap();
    for (kmer, count) in &top {
        let hash = kmer2hash(kmer).unwrap();
        assert_eq!(table.count_of(hash), *count);
    }
}

#[test]
fn test_report_lists_kmers_and_counts() {
    let entries = vec![(b"ATG".to_vec(), 12u32), (b"CAT".to_vec(), 3u32)];
    let report = render_top_kmers_report(&entries);
    let expected = b"Top 10 k-mers and their counts:\nATG: 12\nCAT: 3\n".to_vec();
    assert_eq!(report, expected);
}

#[test]
fn test_report_header_only_when_empty() {
    let entries: Vec<(Vec<u8>, u32)> = Vec::new();
    let report = render_top_kmers_report(&entries);
    assert_eq!(report, b"Top 10 k-mers and their counts:\n".to_vec());
}

#[test]
fn test_report_large_count_digits() {
    let entries = vec![(b"AA".to_vec(), 4294967295u32)];
    let report = render_top_kmers_report(&entries);
    let expected = b"Top 10 k-mers and their counts:\nAA: 4294967295\n".to_vec();
    assert_eq!(report, expected);
}
