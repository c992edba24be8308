use mfqe::demux::{check_list_output_counts, run_demux, Demuxer};
use mfqe::index::{bytes_eq, generate_name_index};
use mfqe::record::{extract_ident, SeqRecord};

fn b(s: &str) -> Vec<u8> {
    s.as_bytes().to_vec()
}

fn name_list(names: &[&str]) -> Vec<Vec<u8>> {
    names.iter().map(|n| b(n)).collect()
}

fn fastq(head: &str, bases: &str, qual: &str) -> SeqRecord {
    SeqRecord::Fastq { head: b(head), bases: b(bases), qual: b(qual) }
}

fn fasta(head: &str, bases: &str) -> SeqRecord {
    SeqRecord::Fasta { head: b(head), bases: b(bases) }
}

/// The two records of the FASTQ input used by the original's test data.
fn fastq_input() -> Vec<SeqRecord> {
    vec![
        fastq("random_sequence_length_5_1 1", "TAGGG", "AAAAA"),
        fastq("random_sequence_length_5_2 2", "TTTCA", "ATGCA"),
    ]
}

/// The two records of the FASTA input used by the original's test data.
fn fasta_input() -> Vec<SeqRecord> {
    vec![
        fasta("random_sequence_length_5_1", "GGTGT"),
        fasta("random_sequence_length_5_2", "TTATG"),
    ]
}

#[test]
fn test_fastq_by_file() {
    let lists = vec![name_list(&["random_sequence_length_5_1"])];
    let index = generate_name_index(&lists).unwrap();
    let (outs, summary) = run_demux(index, &fastq_input()).unwrap();
    assert_eq!(outs.len(), 1);
    assert_eq!(
        outs[0],
        b"@random_sequence_length_5_1 1\nTAGGG\n+\nAAAAA\n".to_vec()
    );
    assert_eq!(summary.total_records, 2);
    assert_eq!(summary.extracted_records, 1);
}

#[test]
fn test_fastq_by_stdin() {
    let lists = vec![name_list(&[
        "random_sequence_length_5_1",
        "random_sequence_length_5_2",
    ])];
    let index = generate_name_index(&lists).unwrap();
    let (outs, summary) = run_demux(index, &fastq_input()).unwrap();
    assert_eq!(
        outs[0],
        b"@random_sequence_length_5_1 1\nTAGGG\n+\nAAAAA\n\
           @random_sequence_length_5_2 2\nTTTCA\n+\nATGCA\n"
            .to_vec()
    );
    assert_eq!(summary.total_records, 2);
    assert_eq!(summary.extracted_records, 2);
}

#[test]
fn test_fasta_by_file() {
    let lists = vec![name_list(&["random_sequence_length_5_1"])];
    let index = generate_name_index(&lists).unwrap();
    let (outs, summary) = run_demux(index, &fasta_input()).unwrap();
    assert_eq!(outs[0], b">random_sequence_length_5_1\nGGTGT\n".to_vec());
    assert_eq!(summary.total_records, 2);
    assert_eq!(summary.extracted_records, 1);
}

#[test]
fn test_fasta_by_stdin() {
    let lists = vec![name_list(&["random_sequence_length_5_1"])];
    let index = generate_name_index(&lists).unwrap();
    let (outs, _) = run_demux(index, &fasta_input()).unwrap();
    assert_eq!(outs[0], b">random_sequence_length_5_1\nGGTGT\n".to_vec());
}

#[test]
fn test_define_sequence_names() {
    // The `--sequence-name-lists` alias selects the same configuration.
    let lists = vec![name_list(&["random_sequence_length_5_1"])];
    let index = generate_name_index(&lists).unwrap();
    let (outs, _) = run_demux(index, &fasta_input()).unwrap();
    assert_eq!(outs[0], b">random_sequence_length_5_1\nGGTGT\n".to_vec());
}

#[test]
fn test_fastq_by_file_empty_lines_in_read_names() {
    let lists = vec![name_list(&["", "random_sequence_length_5_1", ""])];
    let index = generate_name_index(&lists).unwrap();
    let (outs, summary) = run_demux(index, &fastq_input()).unwrap();
    assert_eq!(
        outs[0],
        b"@random_sequence_length_5_1 1\nTAGGG\n+\nAAAAA\n".to_vec()
    );
    assert_eq!(summary.extracted_records, 1);
}

#[test]
fn test_appending_gzip() {
    // Two identical runs in append mode: the file holds the output twice.
    let lists = vec![name_list(&["random_sequence_length_5_1"])];
    let index1 = generate_name_index(&lists).unwrap();
    let (outs1, _) = run_demux(index1, &fasta_input()).unwrap();
    let index2 = generate_name_index(&lists).unwrap();
    let (outs2, _) = run_demux(index2, &fasta_input()).unwrap();
    let mut contents: Vec<u8> = Vec::new();
    contents.extend_from_slice(&outs1[0]);
    contents.extend_from_slice(&outs2[0]);
    assert_eq!(
        contents,
        b">random_sequence_length_5_1\nGGTGT\n>random_sequence_length_5_1\nGGTGT\n".to_vec()
    );
}

#[test]
fn test_appending_no_gzip() {
    // Appending to a file that already holds unrelated bytes keeps them.
    let lists = vec![name_list(&["random_sequence_length_5_1"])];
    let index = generate_name_index(&lists).unwrap();
    let (outs, _) = run_demux(index, &fasta_input()).unwrap();
    let mut contents: Vec<u8> = b"abc\n".to_vec();
    contents.extend_from_slice(&outs[0]);
    assert_eq!(
        contents,
        b"abc\n>random_sequence_length_5_1\nGGTGT\n".to_vec()
    );
}

#[test]
fn test_appending_not_already_existing() {
    // Appending to a file that did not exist starts from empty contents.
    let lists = vec![name_list(&["random_sequence_length_5_1"])];
    let index = generate_name_index(&lists).unwrap();
    let (outs, _) = run_demux(index, &fasta_input()).unwrap();
    let mut contents: Vec<u8> = Vec::new();
    contents.extend_from_slice(&outs[0]);
    assert_eq!(contents, b">random_sequence_length_5_1\nGGTGT\n".to_vec());
}

#[test]
fn test_appending_no_gzip_two_files() {
    let lists = vec![
        name_list(&["random_sequence_length_5_1"]),
        name_list(&["random_sequence_length_5_1", "random_sequence_length_5_2"]),
    ];
    let index = generate_name_index(&lists).unwrap();
    let (outs, summary) = run_demux(index, &fasta_input()).unwrap();
    let mut contents1: Vec<u8> = b"abc\n".to_vec();
    contents1.extend_from_slice(&outs[0]);
    let mut contents2: Vec<u8> = b"defabc\n".to_vec();
    contents2.extend_from_slice(&outs[1]);
    assert_eq!(
        contents1,
        b"abc\n>random_sequence_length_5_1\nGGTGT\n".to_vec()
    );
    assert_eq!(
        contents2,
        b"defabc\n>random_sequence_length_5_1\nGGTGT\n>random_sequence_length_5_2\nTTATG\n"
            .to_vec()
    );
    assert_eq!(summary.extracted_records, 3);
}

#[test]
fn unique_names_reconcile() {
    // Every listed identifier present exactly once: counts match and the run
    // succeeds, whatever else the input holds.
    let lists = vec![
        name_list(&["r1", "r3"]),
        name_list(&["r2"]),
    ];
    let index = generate_name_index(&lists).unwrap();
    let records = vec![
        fastq("r1 c", "AA", "II"),
        fastq("r2", "CC", "II"),
        fastq("unlisted", "GG", "II"),
        fastq("r3", "TT", "II"),
    ];
    let (_, summary) = run_demux(index, &records).unwrap();
    assert_eq!(summary.total_records, 4);
    assert_eq!(summary.extracted_records, 3);
}

#[test]
fn truncate_idempotent() {
    // The produced bytes are a function of the inputs alone: two runs on the
    // same inputs are byte-identical.
    let lists = vec![name_list(&["r1"])];
    let records = vec![fastq("r1", "ACGT", "IIII"), fastq("r2", "GGGG", "IIII")];
    let index1 = generate_name_index(&lists).unwrap();
    let (outs1, _) = run_demux(index1, &records).unwrap();
    let index2 = generate_name_index(&lists).unwrap();
    let (outs2, _) = run_demux(index2, &records).unwrap();
    assert_eq!(outs1, outs2);
}

#[test]
fn fan_out_identifier_in_two_lists() {
    // The same identifier in two lists: the record lands in both outputs,
    // exactly once each.
    let lists = vec![
        name_list(&["shared"]),
        name_list(&["shared", "other"]),
    ];
    let index = generate_name_index(&lists).unwrap();
    let records = vec![fasta("shared comment", "AAAA"), fasta("other", "CCCC")];
    let (outs, summary) = run_demux(index, &records).unwrap();
    assert_eq!(outs[0], b">shared comment\nAAAA\n".to_vec());
    assert_eq!(
        outs[1],
        b">shared comment\nAAAA\n>other\nCCCC\n".to_vec()
    );
    assert_eq!(summary.extracted_records, 3);
}

#[test]
fn gzip_scenario_single_record() {
    // One listed name, one matching record with a header comment: the output
    // is exactly the record's four FASTQ lines.
    let lists = vec![name_list(&["read1"])];
    let index = generate_name_index(&lists).unwrap();
    let records = vec![fastq("read1 comment", "TAGGG", "AAAAA")];
    let (outs, summary) = run_demux(index, &records).unwrap();
    assert_eq!(outs[0], b"@read1 comment\nTAGGG\n+\nAAAAA\n".to_vec());
    assert_eq!(summary.total_records, 1);
    assert_eq!(summary.extracted_records, 1);
}

#[test]
fn missing_name_is_a_count_mismatch() {
    // A listed identifier absent from the input: expected 1, observed 0.
    let lists = vec![name_list(&["readX"])];
    let index = generate_name_index(&lists).unwrap();
    let records = vec![fastq("other", "AC", "II")];
    let err = run_demux(index, &records).unwrap_err();
    assert_eq!(err.expected, vec![1]);
    assert_eq!(err.observed, vec![0]);
}

#[test]
fn duplicate_name_in_one_list_fails_early() {
    // A literal duplicate line within one list file fails before any input
    // is read.
    let lists = vec![name_list(&["readY", "readY"])];
    let err = match generate_name_index(&lists) {
        Ok(_) => panic!("a duplicate line within one list must be rejected"),
        Err(e) => e,
    };
    assert_eq!(err.list_index, 0);
    assert_eq!(err.name, b"readY".to_vec());
}

#[test]
fn duplicate_across_lists_is_fan_out_not_error() {
    let lists = vec![name_list(&["readY"]), name_list(&["readY"])];
    assert!(generate_name_index(&lists).is_ok());
}

#[test]
fn blank_lines_do_not_count_or_fail() {
    let lists = vec![name_list(&["", "", "a", ""])];
    let index = generate_name_index(&lists).unwrap();
    let records = vec![fasta("a", "AC")];
    let (_, summary) = run_demux(index, &records).unwrap();
    assert_eq!(summary.extracted_records, 1);
}

#[test]
fn mismatched_list_and_output_counts() {
    assert!(check_list_output_counts(2, 2).is_ok());
    let err = check_list_output_counts(2, 3).unwrap_err();
    assert_eq!(err.n_lists, 2);
    assert_eq!(err.n_outputs, 3);
}

#[test]
fn identifier_stops_at_first_space() {
    assert_eq!(extract_ident(&b("read7 a comment")), b("read7"));
    assert_eq!(extract_ident(&b("read7")), b("read7"));
    assert_eq!(extract_ident(&b(" leading")), b(""));
    assert_eq!(extract_ident(&b("")), b(""));
}

#[test]
fn fastq_encoding_is_four_lines() {
    let rec = fastq("h x", "ACGT", "IIII");
    assert_eq!(rec.encoded(), b"@h x\nACGT\n+\nIIII\n".to_vec());
}

#[test]
fn fasta_encoding_is_two_lines() {
    let rec = fasta("h x", "ACGT");
    assert_eq!(rec.encoded(), b">h x\nACGT\n".to_vec());
}

#[test]
fn router_steps_and_validates() {
    let lists = vec![name_list(&["a"]), name_list(&["a", "b"])];
    let index = generate_name_index(&lists).unwrap();
    let mut demux = Demuxer::new(index);
    assert_eq!(demux.step(&b("a")), vec![0, 1]);
    assert_eq!(demux.step(&b("zzz")), Vec::<usize>::new());
    assert_eq!(demux.step(&b("b")), vec![1]);
    let summary = demux.validate().unwrap();
    assert_eq!(summary.total_records, 3);
    assert_eq!(summary.extracted_records, 3);
}

#[test]
fn validate_reports_both_vectors() {
    let lists = vec![name_list(&["a"]), name_list(&["b", "c"])];
    let index = generate_name_index(&lists).unwrap();
    let mut demux = Demuxer::new(index);
    demux.step(&b("a"));
    let err = demux.validate().unwrap_err();
    assert_eq!(err.expected, vec![1, 2]);
    assert_eq!(err.observed, vec![1, 0]);
}

#[test]
fn empty_record_batch_with_empty_list() {
    let lists = vec![name_list(&[])];
    let index = generate_name_index(&lists).unwrap();
    let (outs, summary) = run_demux(index, &Vec::new()).unwrap();
    assert_eq!(outs, vec![Vec::<u8>::new()]);
    assert_eq!(summary.total_records, 0);
    assert_eq!(summary.extracted_records, 0);
}

#[test]
fn byte_equality_helper() {
    assert!(bytes_eq(&b("abc"), &b("abc")));
    assert!(!bytes_eq(&b("abc"), &b("abd")));
    assert!(!bytes_eq(&b("abc"), &b("ab")));
}
