use allele_fingerprint::fasta::read_fasta;

fn lines_of(parts: &[&str]) -> Vec<String> {
    parts.iter().map(|p| String::from(*p)).collect()
}

#[test]
fn one_record_per_header_line() {
    let lines = lines_of(&[">a", "ACGT", ">b", "GG", "TT", ">c", "A"]);
    let recs = read_fasta(&lines);
    assert_eq!(recs.len(), 3);
    assert_eq!(recs[0].id, "a");
    assert_eq!(recs[0].seq, "ACGT");
    assert_eq!(recs[1].id, "b");
    assert_eq!(recs[1].seq, "GGTT");
    assert_eq!(recs[2].id, "c");
    assert_eq!(recs[2].seq, "A");
}

#[test]
fn body_lines_concatenate_without_separator() {
    let lines = lines_of(&[">x", "AC", "GT", "AC"]);
    let recs = read_fasta(&lines);
    assert_eq!(recs.len(), 1);
    assert_eq!(recs[0].seq, "ACGTAC");
}

#[test]
fn no_header_yields_no_records() {
    let lines = lines_of(&["ACGT", "GGTT"]);
    let recs = read_fasta(&lines);
    assert_eq!(recs.len(), 0);
}

#[test]
fn empty_input_yields_no_records() {
    let recs = read_fasta(&Vec::new());
    assert_eq!(recs.len(), 0);
}

#[test]
fn lines_before_first_header_are_dropped() {
    let lines = lines_of(&["junk", "more", ">a", "ACGT"]);
    let recs = read_fasta(&lines);
    assert_eq!(recs.len(), 1);
    assert_eq!(recs[0].id, "a");
    assert_eq!(recs[0].seq, "ACGT");
}

#[test]
fn bare_marker_yields_empty_identifier() {
    let lines = lines_of(&[">", "ACGT"]);
    let recs = read_fasta(&lines);
    assert_eq!(recs.len(), 1);
    assert_eq!(recs[0].id, "");
    assert_eq!(recs[0].seq, "ACGT");
}

#[test]
fn header_with_no_body_yields_empty_sequence() {
    let lines = lines_of(&[">only", ">next", "AC"]);
    let recs = read_fasta(&lines);
    assert_eq!(recs.len(), 2);
    assert_eq!(recs[0].id, "only");
    assert_eq!(recs[0].seq, "");
    assert_eq!(recs[1].id, "next");
    assert_eq!(recs[1].seq, "AC");
}

#[test]
fn empty_lines_are_sequence_lines_that_add_nothing() {
    let lines = lines_of(&[">a", "AC", "", "GT"]);
    let recs = read_fasta(&lines);
    assert_eq!(recs.len(), 1);
    assert_eq!(recs[0].seq, "ACGT");
}

#[test]
fn case_and_characters_pass_through_unmodified() {
    let lines = lines_of(&[">Mixed_Case", "acgtACGT-nx"]);
    let recs = read_fasta(&lines);
    assert_eq!(recs.len(), 1);
    assert_eq!(recs[0].id, "Mixed_Case");
    assert_eq!(recs[0].seq, "acgtACGT-nx");
}
