use ultraplex_rs::align::{extract_umi_from_suffix, prefix_match, suffix_match};

#[test]
fn exact_prefix_matches() {
    assert!(prefix_match(b"ACGTGGGG", b"ACGT", 0));
}

#[test]
fn one_flipped_base_needs_tolerance() {
    assert!(!prefix_match(b"ACGTGGGG", b"AGGT", 0));
    assert!(prefix_match(b"ACGTGGGG", b"AGGT", 1));
    assert!(prefix_match(b"ACGTGGGG", b"AGGT", 5));
}

#[test]
fn wildcards_match_any_base() {
    assert!(prefix_match(b"ACGTGGGG", b"NNGT", 0));
    assert!(suffix_match(b"ACGTGGCA", b"GGNN", 0));
}

#[test]
fn long_pattern_never_matches() {
    assert!(!prefix_match(b"ACG", b"ACGT", 10));
    assert!(!suffix_match(b"ACG", b"ACGT", 10));
}

#[test]
fn suffix_match_counts_mismatches() {
    assert!(suffix_match(b"TTTTACGT", b"ACGT", 0));
    assert!(!suffix_match(b"TTTTACCA", b"ACGT", 1));
    assert!(suffix_match(b"TTTTACCA", b"ACGT", 2));
}

#[test]
fn umi_collects_wildcard_bases() {
    assert_eq!(extract_umi_from_suffix(b"GGGGACTG", b"NCNG"), Some(b"AT".to_vec()));
    assert_eq!(extract_umi_from_suffix(b"ACGTTTGCA", b"NNNN"), Some(b"TGCA".to_vec()));
}

#[test]
fn umi_is_empty_without_wildcards() {
    assert_eq!(extract_umi_from_suffix(b"ACGT", b"GT"), Some(Vec::new()));
}

#[test]
fn umi_absent_for_long_pattern() {
    assert_eq!(extract_umi_from_suffix(b"AC", b"NNN"), None);
}
