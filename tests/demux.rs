use ultraplex_rs::barcodes::{check_n_position, rev_comp, BarcodeError, BarcodeSet};
use ultraplex_rs::demux::{
    classify_record, goes_to_default, keeps_record, write_fastq_record, ClassifyOptions, Route,
    Writers,
};

fn row(fields: &[&str]) -> Vec<String> {
    fields.iter().map(|f| f.to_string()).collect()
}

fn options(three_prime_only: bool, ignore_no_match: bool) -> ClassifyOptions {
    ClassifyOptions {
        nextseq: false,
        three_prime_only,
        keep_barcode: false,
        ignore_no_match,
        phred_quality: 30,
    }
}

fn key_of(route: &Route) -> Option<Vec<u8>> {
    match route {
        Route::Key(k) => Some(k.clone()),
        _ => None,
    }
}

#[test]
fn reverse_complement_of_bases() {
    assert_eq!(rev_comp(b"AACGTX"), b"NACGTT".to_vec());
    assert_eq!(rev_comp(b"ACGT"), b"ACGT".to_vec());
}

#[test]
fn table_rows_build_the_library() {
    let rows = vec![
        row(&["acgt:ignored", "nnnnaa:s1", "CC"]),
        row(&[""]),
        row(&["AAGT"]),
        row(&["ACGT"]),
    ];
    let set = BarcodeSet::from_rows(&rows, 2).unwrap();
    assert_eq!(set.five_prime, vec![b"AAGT".to_vec(), b"ACGT".to_vec()]);
    assert_eq!(set.three_prime, vec![b"CC".to_vec(), b"NNNNAA".to_vec()]);
    assert_eq!(set.linked.len(), 1);
    assert_eq!(set.linked[0].five, b"ACGT".to_vec());
    assert_eq!(set.linked[0].threes, vec![b"NNNNAA".to_vec(), b"CC".to_vec()]);
    assert_eq!(set.sample_names.len(), 1);
    assert_eq!(set.sample_names[0].key, b"5bc_ACGT_3bc_NNNNAA".to_vec());
    assert_eq!(set.sample_names[0].name, b"s1".to_vec());
    assert_eq!(set.three_p_mismatches, 2);
}

#[test]
fn later_row_replaces_link() {
    let rows = vec![row(&["ACGT", "AA"]), row(&["ACGT", "CC", "GG"])];
    let set = BarcodeSet::from_rows(&rows, 0).unwrap();
    assert_eq!(set.linked.len(), 1);
    assert_eq!(set.linked[0].threes, vec![b"CC".to_vec(), b"GG".to_vec()]);
}

#[test]
fn inconsistent_five_lengths_are_rejected() {
    let rows = vec![row(&["ACGT"]), row(&["ACG"])];
    assert_eq!(BarcodeSet::from_rows(&rows, 0).err(), Some(BarcodeError::FiveLengthMismatch));
    let rows = vec![row(&["ACGT"]), row(&["NACGT"])];
    assert!(BarcodeSet::from_rows(&rows, 0).is_ok());
}

#[test]
fn umi_positions_checked() {
    let same = vec![b"NNAC".to_vec(), b"NNGT".to_vec()];
    assert_eq!(check_n_position(&same), Ok(()));
    let differ = vec![b"NNAC".to_vec(), b"NANT".to_vec()];
    assert_eq!(check_n_position(&differ), Err(BarcodeError::UmiPositionMismatch));
    let longer = vec![b"AN".to_vec(), b"ANN".to_vec()];
    assert_eq!(check_n_position(&longer), Err(BarcodeError::UmiPositionMismatch));
    let same_wildcards = vec![b"AN".to_vec(), b"CNG".to_vec()];
    assert_eq!(check_n_position(&same_wildcards), Ok(()));
    assert_eq!(check_n_position(&[]), Ok(()));
}

#[test]
fn five_prime_read_goes_to_barcode_sink() {
    let set = BarcodeSet::from_rows(&vec![row(&["ACGT"])], 0).unwrap();
    let c = classify_record(b"r1", b"ACGTGGGG", b"IIIIIIII", Some(&set), &options(false, false));
    assert_eq!(key_of(&c.route), Some(b"ACGT".to_vec()));
    assert!(c.seq.starts_with(b"ACGT"));
    assert_eq!(c.seq, b"ACGTGGGG".to_vec());
    assert_eq!(c.head, b"r1".to_vec());
    assert!(keeps_record(&c, 0));
}

#[test]
fn first_sorted_five_prime_wins() {
    let set = BarcodeSet::from_rows(&vec![row(&["ACNTG"]), row(&["ACGT"])], 0).unwrap();
    let c = classify_record(b"r", b"ACGTGGGG", b"IIIIIIII", Some(&set), &options(false, false));
    assert_eq!(key_of(&c.route), Some(b"ACGT".to_vec()));
}

#[test]
fn linked_read_goes_to_sample_sink_with_umi() {
    let set = BarcodeSet::from_rows(&vec![row(&["ACGT", "NNNN:sampleX"])], 0).unwrap();
    assert_eq!(check_n_position(&set.three_prime), Ok(()));
    let c = classify_record(b"r2", b"ACGTTTGCA", b"IIIIIIIII", Some(&set), &options(true, false));
    assert_eq!(key_of(&c.route), Some(b"sampleX".to_vec()));
    assert_eq!(c.head, b"r2rbc:TGCA".to_vec());
    assert_eq!(c.seq, b"ACGTT".to_vec());
    assert_eq!(c.qual, b"IIIII".to_vec());
}

#[test]
fn linked_read_without_label_uses_combo_key() {
    let set = BarcodeSet::from_rows(&vec![row(&["TTGA", "GG"])], 0).unwrap();
    let mut opts = options(true, false);
    opts.keep_barcode = true;
    // The reverse complement of TTGA is TCAA.
    let c = classify_record(b"r", b"TCAACCGG", b"IIIIIIII", Some(&set), &opts);
    assert_eq!(key_of(&c.route), Some(b"5bc_TTGA_3bc_GG".to_vec()));
    assert_eq!(c.head, b"r".to_vec());
    assert_eq!(c.seq, b"TCAACCGG".to_vec());
}

#[test]
fn three_prime_tolerance_applies() {
    let set = BarcodeSet::from_rows(&vec![row(&["ACGT", "GGGG"])], 1).unwrap();
    let c = classify_record(b"r", b"ACGTAAGGTG", b"IIIIIIIIII", Some(&set), &options(true, false));
    assert_eq!(key_of(&c.route), Some(b"5bc_ACGT_3bc_GGGG".to_vec()));
    assert_eq!(c.seq, b"ACGTAA".to_vec());
}

#[test]
fn no_library_routes_to_default() {
    let c = classify_record(b"r1", b"ACGTGGGG", b"IIIIIIII", None, &options(false, true));
    assert!(matches!(c.route, Route::NoMatch));
}

#[test]
fn unmatched_read_is_dropped_only_when_ignored() {
    let set = BarcodeSet::from_rows(&vec![row(&["TTTT"])], 0).unwrap();
    let kept = classify_record(b"r", b"ACGTGGGG", b"IIIIIIII", Some(&set), &options(false, false));
    assert!(matches!(kept.route, Route::NoMatch));
    assert!(keeps_record(&kept, 0));
    let dropped = classify_record(b"r", b"ACGTGGGG", b"IIIIIIII", Some(&set), &options(false, true));
    assert!(matches!(dropped.route, Route::Skip));
    assert!(!keeps_record(&dropped, 0));
}

#[test]
fn short_read_is_dropped() {
    let c = classify_record(b"r", b"ACGTGGGG", b"IIIIIIII", None, &options(false, false));
    assert!(keeps_record(&c, 8));
    assert!(!keeps_record(&c, 9));
    let trimmed = classify_record(b"r", b"ACGTGGGG", b"!!!!!!!!", None, &options(false, false));
    assert_eq!(trimmed.seq.len(), 0);
    assert!(!keeps_record(&trimmed, 1));
}

#[test]
fn nextseq_mode_trims_only_the_tail() {
    let mut opts = options(false, false);
    opts.nextseq = true;
    opts.phred_quality = 20;
    let c = classify_record(b"r", b"ACGTGGGG", b"IIIIIIII", None, &opts);
    assert_eq!(c.seq, b"ACGT".to_vec());
    assert_eq!(c.qual, b"IIII".to_vec());
}

#[test]
fn fastq_record_layout() {
    let mut out = b"x".to_vec();
    write_fastq_record(&mut out, b"r1", b"ACGT", b"IIII");
    assert_eq!(out, b"x@r1\nACGT\n+\nIIII\n".to_vec());
}

#[test]
fn writers_register_keys_once() {
    let mut w: Writers<u32> = Writers::new(0);
    assert_eq!(w.position(b"ACGT"), None);
    let i = w.register(b"ACGT".to_vec(), 7);
    assert_eq!(i, 0);
    assert_eq!(w.position(b"ACGT"), Some(0));
    assert_eq!(w.register(b"sampleX".to_vec(), 9), 1);
    assert_eq!(w.position(b"sampleX"), Some(1));
    assert_eq!(w.by_barcode[1].1, 9);
}

#[test]
fn barcodes_are_upper_cased_beyond_ascii() {
    let rows = vec![row(&["acgé:x", "\u{fb00}nn:Label"])];
    let set = BarcodeSet::from_rows(&rows, 0).unwrap();
    assert_eq!(set.five_prime, vec!["ACGÉ".as_bytes().to_vec()]);
    assert_eq!(set.three_prime, vec![b"FFNN".to_vec()]);
    assert_eq!(set.sample_names[0].key, "5bc_ACGÉ_3bc_FFNN".as_bytes().to_vec());
    assert_eq!(set.sample_names[0].name, b"Label".to_vec());
}

#[test]
fn five_length_counts_upper_cased_bytes() {
    // The ligature is three bytes, its upper-case form "FF" two.
    let rows = vec![row(&["\u{fb00}AC"]), row(&["FFAC"])];
    assert!(BarcodeSet::from_rows(&rows, 0).is_ok());
    let rows = vec![row(&["\u{fb00}A"]), row(&["ACGT"])];
    assert_eq!(BarcodeSet::from_rows(&rows, 0).err(), Some(BarcodeError::FiveLengthMismatch));
}

#[test]
fn links_keep_first_appearance_order() {
    let rows = vec![row(&["TTTT", "AA"]), row(&["ACGT", "CC"]), row(&["TTTT", "GG"])];
    let set = BarcodeSet::from_rows(&rows, 0).unwrap();
    assert_eq!(set.linked.len(), 2);
    assert_eq!(set.linked[0].five, b"TTTT".to_vec());
    assert_eq!(set.linked[0].threes, vec![b"GG".to_vec()]);
    assert_eq!(set.linked[1].five, b"ACGT".to_vec());
}

#[test]
fn no_match_label_goes_to_default_sink() {
    let set = BarcodeSet::from_rows(&vec![row(&["ACGT", "GG:no_match"])], 0).unwrap();
    let c = classify_record(b"r", b"ACGTCCGG", b"IIIIIIII", Some(&set), &options(true, false));
    assert_eq!(key_of(&c.route), Some(b"no_match".to_vec()));
    assert!(goes_to_default(&c.route));
    assert!(goes_to_default(&Route::NoMatch));
    assert!(!goes_to_default(&Route::Key(b"ACGT".to_vec())));
    assert!(!goes_to_default(&Route::Skip));
}
