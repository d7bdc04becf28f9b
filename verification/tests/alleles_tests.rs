use allele_fingerprint::alleles::allele_row;
use allele_fingerprint::alleles::locus;
use allele_fingerprint::alleles::process_file_lines;
use allele_fingerprint::alleles::process_records;
use allele_fingerprint::alleles::reference_block;
use allele_fingerprint::fasta::Record;

fn lines_of(parts: &[&str]) -> Vec<String> {
    parts.iter().map(|p| String::from(*p)).collect()
}

fn record(id: &str, seq: &str) -> Record {
    Record { id: String::from(id), seq: String::from(seq) }
}

#[test]
fn locus_is_prefix_before_first_underscore() {
    assert_eq!(locus("LOC1_A001"), "LOC1");
}

#[test]
fn locus_of_identifier_without_underscore_is_whole_identifier() {
    assert_eq!(locus("NOSEP"), "NOSEP");
}

#[test]
fn locus_keeps_only_first_segment() {
    assert_eq!(locus("a_b_c"), "a");
    assert_eq!(locus("_leading"), "");
    assert_eq!(locus(""), "");
}

#[test]
fn allele_row_is_tab_separated_and_newline_terminated() {
    let row = allele_row(&record("LOC1_A001", "ACGTACGT"));
    assert_eq!(row, "LOC1\tzArzpP7bGDeLS1e5gGjmnw\tmd5\n");
}

#[test]
fn reference_block_serializes_record_verbatim() {
    let block = reference_block(&record("LOC1_A001", "ACGTACGT"));
    assert_eq!(block, ">LOC1_A001\nACGTACGT\n");
}

#[test]
fn only_first_record_becomes_reference() {
    let recs = vec![record("r1", "AC"), record("r2", "GT"), record("r3", "TT")];
    let (rows, reference) = process_records(&recs);
    assert_eq!(rows.len(), 3);
    assert_eq!(reference, Some(String::from(">r1\nAC\n")));
}

#[test]
fn no_records_gives_no_reference_and_no_rows() {
    let (rows, reference) = process_records(&Vec::new());
    assert_eq!(rows.len(), 0);
    assert_eq!(reference, None);
}

#[test]
fn two_record_file_scenario() {
    let lines = lines_of(&[">LOC1_A001", "ACGTACGT", ">LOC1_A002", "ACGTACGG"]);
    let (rows, reference) = process_file_lines(&lines);
    assert_eq!(rows.len(), 2);
    assert_eq!(rows[0], "LOC1\tzArzpP7bGDeLS1e5gGjmnw\tmd5\n");
    assert_eq!(rows[1], "LOC1\tq8Arqt0xA9W1OQ+B2Sh1WA\tmd5\n");
    let first = rows[0].split('\t').next().unwrap();
    let second = rows[1].split('\t').next().unwrap();
    assert_eq!(first, "LOC1");
    assert_eq!(second, "LOC1");
    assert_ne!(rows[0].split('\t').nth(1), rows[1].split('\t').nth(1));
    assert_eq!(reference, Some(String::from(">LOC1_A001\nACGTACGT\n")));
}

#[test]
fn two_single_record_files_keep_argument_order() {
    let file1 = lines_of(&[">first_1", "ACGT"]);
    let file2 = lines_of(&[">second_1", "GGTT"]);
    let mut table = String::new();
    let mut reference = String::new();
    for lines in [&file1, &file2] {
        let (rows, block) = process_file_lines(lines);
        for row in &rows {
            table.push_str(row);
        }
        if let Some(block) = block {
            reference.push_str(&block);
        }
    }
    assert_eq!(reference, ">first_1\nACGT\n>second_1\nGGTT\n");
    let rows: Vec<&str> = table.lines().collect();
    assert_eq!(rows.len(), 2);
    assert!(rows[0].starts_with("first\t"));
    assert!(rows[1].starts_with("second\t"));
}

#[test]
fn identical_sequences_across_files_share_fingerprint_without_deduplication() {
    let file1 = lines_of(&[">locA_1", "ACGTACGT", ">locA_2", "TTTT"]);
    let file2 = lines_of(&[">locB_1", "ACGTACGT"]);
    let (rows1, _) = process_file_lines(&file1);
    let (rows2, _) = process_file_lines(&file2);
    assert_eq!(rows1.len(), 2);
    assert_eq!(rows2.len(), 1);
    let fp1 = rows1[0].split('\t').nth(1).unwrap();
    let fp2 = rows2[0].split('\t').nth(1).unwrap();
    assert_eq!(fp1, fp2);
}

#[test]
fn every_row_carries_the_algorithm_tag() {
    let lines = lines_of(&[">LOC1_A001", "ACGTACGT", ">LOC1_A002", "ACGTACGG"]);
    let (rows, _) = process_file_lines(&lines);
    for row in &rows {
        assert_eq!(row.split('\t').nth(2), Some("md5\n"));
    }
}
