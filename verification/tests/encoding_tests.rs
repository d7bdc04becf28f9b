use allele_fingerprint::encoding::fingerprint;
use allele_fingerprint::encoding::hex_to_base64;

#[test]
fn hex_to_base64_two_bytes() {
    assert_eq!(hex_to_base64(String::from("4142")), "QUI");
}

#[test]
fn hex_to_base64_one_byte_strips_double_padding() {
    assert_eq!(hex_to_base64(String::from("41")), "QQ");
}

#[test]
fn hex_to_base64_empty() {
    assert_eq!(hex_to_base64(String::new()), "");
}

#[test]
fn hex_to_base64_is_case_insensitive() {
    assert_eq!(hex_to_base64(String::from("ff")), "/w");
    assert_eq!(hex_to_base64(String::from("FF")), "/w");
}

#[test]
fn hex_to_base64_skips_malformed_pair() {
    assert_eq!(hex_to_base64(String::from("4G42")), "Qg");
}

#[test]
fn hex_to_base64_ignores_trailing_unpaired_digit() {
    assert_eq!(hex_to_base64(String::from("414")), "QQ");
}

#[test]
fn hex_to_base64_four_bytes() {
    assert_eq!(hex_to_base64(String::from("DEADBEEF")), "3q2+7w");
}

#[test]
fn fingerprint_known_values() {
    assert_eq!(fingerprint("ACGTACGT"), "zArzpP7bGDeLS1e5gGjmnw");
    assert_eq!(fingerprint("ACGTACGG"), "q8Arqt0xA9W1OQ+B2Sh1WA");
}

#[test]
fn fingerprint_of_empty_sequence() {
    assert_eq!(fingerprint(""), "1B2M2Y8AsgTpgAmY7PhCfg");
}

#[test]
fn fingerprint_is_deterministic() {
    let a = fingerprint("ACGTACGT");
    let b = fingerprint("ACGTACGT");
    assert_eq!(a, b);
}

#[test]
fn fingerprint_is_content_addressed() {
    let one = String::from("ACGT");
    let two = String::from("ACGT");
    assert_eq!(fingerprint(one.as_str()), fingerprint(two.as_str()));
}

#[test]
fn fingerprints_of_different_sequences_differ() {
    assert_ne!(fingerprint("ACGTACGT"), fingerprint("ACGTACGG"));
    assert_ne!(fingerprint("A"), fingerprint(""));
}

#[test]
fn fingerprint_has_no_padding() {
    for s in ["", "A", "ACGT", "ACGTACGT", "acgtacgtacgt"] {
        let token = fingerprint(s);
        assert!(!token.contains('='));
        assert_eq!(token.len(), 22);
    }
}
