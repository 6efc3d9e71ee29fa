use ultraplex_rs::trim::{nextseq_trim_index, quality_trim_index};

#[test]
fn test_quality_trim_no_trim() {
    let quals = "IIIIIIII";
    let (start, stop) = quality_trim_index(quals, 30, 30, 33);
    assert!(start < stop);
}

#[test]
fn test_quality_trim_all_trim() {
    let quals = "!!!!!!!!";
    let (start, stop) = quality_trim_index(quals, 1, 1, 33);
    assert_eq!((start, stop), (0, 0));
}

#[test]
fn test_nextseq_trim_basic() {
    let seq = "ACGTGGGG";
    let quals = "IIIIIIII";
    let idx = nextseq_trim_index(seq, quals, 20, 33);
    assert!(idx <= quals.len());
}

#[test]
fn high_quality_read_is_kept_whole() {
    assert_eq!(quality_trim_index("IIIIIIII", 30, 30, 33), (0, 8));
}

#[test]
fn zero_quality_read_is_discarded() {
    assert_eq!(quality_trim_index("!!!!!!!!", 1, 1, 33), (0, 0));
}

#[test]
fn good_bases_between_poor_ones_do_not_stop_the_scan() {
    assert_eq!(quality_trim_index("##IIII##", 30, 30, 33), (0, 0));
}

#[test]
fn empty_quality_gives_empty_bounds() {
    assert_eq!(quality_trim_index("", 30, 30, 33), (0, 0));
    assert_eq!(nextseq_trim_index("", "", 30, 33), 0);
}

#[test]
fn low_quality_ends_are_trimmed() {
    // '#' is Phred 2, 'I' is Phred 40.
    assert_eq!(quality_trim_index("##IIIIII##", 30, 30, 33), (2, 8));
}

#[test]
fn front_scan_cuts_at_best_sum() {
    assert_eq!(quality_trim_index("#I#IIIII", 30, 30, 33), (3, 8));
}

#[test]
fn nextseq_trims_trailing_g_with_high_quality() {
    assert_eq!(nextseq_trim_index("ACGTGGGG", "IIIIIIII", 20, 33), 4);
}

#[test]
fn nextseq_keeps_read_without_trailing_g() {
    assert_eq!(nextseq_trim_index("ACGTACGT", "IIIIIIII", 20, 33), 8);
}

#[test]
fn nextseq_trims_low_quality_tail() {
    assert_eq!(nextseq_trim_index("ACGTACGT", "IIIIII##", 20, 33), 6);
}
