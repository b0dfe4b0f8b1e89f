use del_count::barcodes::{fix_error_hashset, BarcodeSet};
use del_count::correct::fix_error;
use del_count::errors::{ReadKind, SequenceErrors};
use del_count::format::{FormatError, Segment, SequenceFormat};
use del_count::parse_sequences::{
    default_budget, uniform_lengths,
    MaxSeqErrors, ParseError, ReadOutcome, SequenceMatchResult, SequenceParser, Totals,
};
use del_count::raw_sequence::RawSequence;
use del_count::text::split_fields;
use del_count::results::{Results, SampleCounts};

fn c(s: &str) -> Segment {
    Segment::Constant(s.to_string())
}

fn dict(pairs: &[(&str, &str)]) -> Vec<(String, String)> {
    pairs.iter().map(|(a, b)| (a.to_string(), b.to_string())).collect()
}

fn simple_format() -> SequenceFormat {
    SequenceFormat::new(vec![c("AAA"), Segment::Sample(2), c("CCC"), Segment::Counted(2), c("GGG")])
        .unwrap()
}

fn parser(
    format: SequenceFormat,
    samples: &[(&str, &str)],
    bbs: Vec<Vec<(String, String)>>,
    constant: u8,
    sample: u8,
    barcode: Vec<u8>,
) -> SequenceParser {
    SequenceParser::new(
        format,
        Some(dict(samples)),
        Some(bbs),
        MaxSeqErrors { constant_region: constant, sample_barcode: sample, barcode },
    )
}

fn run(p: &SequenceParser, reads: &[&str]) -> (Totals, Vec<ReadKind>) {
    let mut totals = Totals::new();
    let mut kinds = Vec::new();
    for r in reads {
        kinds.push(p.parse(r.to_string(), &mut totals).unwrap());
    }
    (totals, kinds)
}

fn rows(totals: &Totals) -> Vec<(String, Vec<(String, u64)>)> {
    let mut r = totals.results.drain();
    r.sort();
    r
}

#[test]
fn exact_match_without_umi() {
    let p = parser(simple_format(), &[("AT", "s1")], vec![dict(&[("GC", "b1")])], 0, 0, vec![0]);
    let (t, kinds) = run(&p, &["AAAATCCCGCGGG"]);
    assert_eq!(kinds, vec![ReadKind::Correct]);
    assert_eq!(t.errors.correct_match, 1);
    assert_eq!(t.errors.total_reads(), 1);
    assert_eq!(rows(&t), vec![("AT".to_string(), vec![("GC".to_string(), 1)])]);
}

#[test]
fn one_mismatch_sample_rescue() {
    let p = parser(simple_format(), &[("AT", "s1")], vec![dict(&[("GC", "b1")])], 0, 1, vec![0]);
    let (t, _) = run(&p, &["AAAACCCCGCGGG"]);
    assert_eq!(t.errors.correct_match, 1);
    assert_eq!(rows(&t), vec![("AT".to_string(), vec![("GC".to_string(), 1)])]);
}

#[test]
fn ambiguous_sample_rejected() {
    let p = parser(
        simple_format(),
        &[("AT", "s1"), ("AC", "s2")],
        vec![dict(&[("GC", "b1")])],
        0,
        1,
        vec![0],
    );
    let (t, kinds) = run(&p, &["AAAAACCCGCGGG"]);
    assert_eq!(kinds, vec![ReadKind::SampleBarcode]);
    assert_eq!(t.errors.sample_barcode, 1);
    assert_eq!(t.errors.correct_match, 0);
    assert!(rows(&t).is_empty());
}

#[test]
fn constant_region_repair() {
    let p = parser(simple_format(), &[("AT", "s1")], vec![dict(&[("GC", "b1")])], 1, 0, vec![0]);
    let (t, kinds) = run(&p, &["AAGATCCCGCGGG"]);
    assert_eq!(kinds, vec![ReadKind::Correct]);
    assert_eq!(rows(&t), vec![("AT".to_string(), vec![("GC".to_string(), 1)])]);
}

#[test]
fn constant_region_beyond_budget() {
    let p = parser(simple_format(), &[("AT", "s1")], vec![dict(&[("GC", "b1")])], 0, 0, vec![0]);
    let (t, kinds) = run(&p, &["AAGATCCCGCGGG", "ATC"]);
    assert_eq!(kinds, vec![ReadKind::ConstantRegion, ReadKind::ConstantRegion]);
    assert_eq!(t.errors.constant_region, 2);
}

#[test]
fn umi_dedup() {
    let format = SequenceFormat::new(vec![
        c("AAA"),
        Segment::Sample(2),
        c("CCC"),
        Segment::Counted(2),
        Segment::Random(3),
    ])
    .unwrap();
    let p = parser(format, &[("AT", "s1")], vec![dict(&[("GC", "b1")])], 0, 0, vec![0]);
    let (t, kinds) = run(&p, &["AAAATCCCGCXYZ", "AAAATCCCGCXYZ"]);
    assert_eq!(kinds, vec![ReadKind::Correct, ReadKind::Duplicated]);
    assert_eq!(t.errors.correct_match, 1);
    assert_eq!(t.errors.duplicated, 1);
    assert_eq!(rows(&t), vec![("AT".to_string(), vec![("GC".to_string(), 1)])]);
}

#[test]
fn counted_barcode_failure_short_circuits() {
    let format = SequenceFormat::new(vec![
        c("AAA"),
        Segment::Sample(2),
        c("CCC"),
        Segment::Counted(2),
        c("GGG"),
        Segment::Counted(2),
        c("TTT"),
    ])
    .unwrap();
    let p = parser(
        format,
        &[("AT", "s1")],
        vec![dict(&[("GC", "b1")]), dict(&[("TT", "c1")])],
        0,
        0,
        vec![0, 0],
    );
    let (t, kinds) = run(&p, &["AAAATCCCGCGGGAATTT"]);
    assert_eq!(kinds, vec![ReadKind::CountedBarcode]);
    assert_eq!(t.errors.barcode, 1);
    assert_eq!(t.errors.correct_match, 0);
    assert!(rows(&t).is_empty());
}

#[test]
fn sample_error_takes_precedence() {
    let format = SequenceFormat::new(vec![
        c("AAA"),
        Segment::Sample(2),
        c("CCC"),
        Segment::Counted(2),
        c("GGG"),
    ])
    .unwrap();
    let p = parser(format, &[("AT", "s1")], vec![dict(&[("GC", "b1")])], 0, 0, vec![0]);
    let (t, kinds) = run(&p, &["AAAGGCCCTTGGG"]);
    assert_eq!(kinds, vec![ReadKind::SampleBarcode]);
    assert_eq!(t.errors.sample_barcode, 1);
    assert_eq!(t.errors.barcode, 0);
}

#[test]
fn two_counted_windows_joined_key() {
    let format = SequenceFormat::new(vec![
        c("AAA"),
        Segment::Counted(2),
        c("GGG"),
        Segment::Counted(2),
        c("TTT"),
    ])
    .unwrap();
    let p = SequenceParser::new(
        format,
        None,
        None,
        MaxSeqErrors { constant_region: 0, sample_barcode: 0, barcode: vec![0, 0] },
    );
    let (t, _) = run(&p, &["CAAAGCGGGTATTTC", "AAAGCGGGTATTT"]);
    assert_eq!(rows(&t), vec![("".to_string(), vec![("GC,TA".to_string(), 2)])]);
}

#[test]
fn conservation_of_reads() {
    let p = parser(simple_format(), &[("AT", "s1")], vec![dict(&[("GC", "b1")])], 1, 1, vec![0]);
    let reads = ["AAAATCCCGCGGG", "AAGATCCCGCGGG", "TTTTTTTTTTTTT", "AAAGGCCCGCGGG", "AAAATCCCTTGGG"];
    let (t, _) = run(&p, &reads);
    assert_eq!(t.errors.total_reads(), reads.len() as u64);
}

#[test]
fn order_of_reads_does_not_matter() {
    let format = SequenceFormat::new(vec![
        c("AAA"),
        Segment::Sample(2),
        c("CCC"),
        Segment::Counted(2),
        Segment::Random(3),
    ])
    .unwrap();
    let p = parser(format, &[("AT", "s1"), ("GG", "s2")], vec![dict(&[("GC", "b1"), ("TT", "b2")])], 0, 0, vec![0]);
    let reads = ["AAAATCCCGCXYZ", "AAAGGCCCTTAAA", "AAAATCCCGCXYZ", "AAAATCCCGCQQQ", "AAAGGCCCTTAAC"];
    let mut rev = reads.to_vec();
    rev.reverse();
    let (a, _) = run(&p, &reads);
    let (b, _) = run(&p, &rev);
    assert_eq!(rows(&a), rows(&b));
    assert_eq!(
        rows(&a),
        vec![
            ("AT".to_string(), vec![("GC".to_string(), 2)]),
            ("GG".to_string(), vec![("TT".to_string(), 2)]),
        ]
    );
}

#[test]
fn fix_error_unique_and_tied() {
    let one = vec!["AGCAG".to_string(), "ACAAG".to_string(), "AGCAA".to_string()];
    let two = vec!["AGCAG".to_string(), "AGAAG".to_string(), "AGCAA".to_string()];
    assert_eq!(fix_error("AGTAG", &one, 1), Some("AGCAG".to_string()));
    assert_eq!(fix_error("AGTAG", &two, 1), None);
}

#[test]
fn fix_error_budget_and_wildcards() {
    let cands = vec!["AAAA".to_string(), "CCCC".to_string()];
    assert_eq!(fix_error("AACC", &cands, 2), None);
    assert_eq!(fix_error("AACC", &cands, 1), None);
    assert_eq!(fix_error("ANAA", &cands, 0), Some("AAAA".to_string()));
    assert_eq!(fix_error("ACGT", &vec!["NNNN".to_string(), "ACGA".to_string()], 1), Some("NNNN".to_string()));
    assert_eq!(fix_error("ACGT", &vec![], 3), None);
    assert_eq!(fix_error("ACGT", &vec!["ACGT".to_string(), "ACGT".to_string()], 0), None);
}

#[test]
fn fix_error_hashset_cases() {
    let mut set = BarcodeSet::new();
    set.insert("AT".to_string());
    set.insert("AC".to_string());
    set.insert("AT".to_string());
    assert_eq!(set.len(), 2);
    assert!(set.contains("AC"));
    assert!(!set.contains("GG"));
    assert_eq!(fix_error_hashset("AA", &set, 1), None);
    assert_eq!(fix_error_hashset("TT", &set, 1), Some("AT".to_string()));
    assert_eq!(fix_error_hashset("GG", &set, 1), None);
}

#[test]
fn repair_keeps_window_characters() {
    let mut raw = RawSequence::new("TTAAGATCCCGCGGGTT".to_string());
    raw.fix_constant_region("AAANNCCCNNGGG", 1);
    assert_eq!(raw.sequence, "AAAATCCCGCGGG");
    let mut short = RawSequence::new("AAAAT".to_string());
    short.fix_constant_region("AAANNCCCNNGGG", 3);
    assert_eq!(short.sequence, "");
    let mut exact_end = RawSequence::new("TAAAATCCCGCGGG".to_string());
    exact_end.fix_constant_region("AAANNCCCNNGGG", 0);
    assert_eq!(exact_end.sequence, "AAAATCCCGCGGG");
}

#[test]
fn insert_barcodes_uses_skeleton_constants() {
    let mut raw = RawSequence::new(String::new());
    raw.insert_barcodes_constant_region("AAANNCCC", "TTTGCTTT".to_string());
    assert_eq!(raw.sequence, "AAAGCCCC");
}

#[test]
fn format_skeleton_and_pattern() {
    let f = SequenceFormat::new(vec![
        c("AAA"),
        Segment::Sample(2),
        c("CC"),
        Segment::Counted(3),
        c("G"),
        Segment::Counted(1),
        Segment::Random(2),
    ])
    .unwrap();
    assert_eq!(f.format_string(), "AAANNCCNNNGNNN");
    assert_eq!(
        f.regex_string(),
        "AAA(?P<sample>..)CC(?P<barcode1>...)G(?P<barcode2>.)(?P<random>..)"
    );
    assert_eq!(f.barcode_num, 2);
    assert_eq!(f.counted_groups(), &vec![2, 3]);
    assert_eq!(f.sample_group(), Some(1));
    assert_eq!(f.random_group(), Some(4));
}

#[test]
fn format_errors() {
    let e = |v: Vec<Segment>| SequenceFormat::new(v).err().unwrap();
    assert_eq!(e(vec![c("AXA"), Segment::Counted(2)]), FormatError::BadConstant);
    assert_eq!(e(vec![c(""), Segment::Counted(2)]), FormatError::BadConstant);
    assert_eq!(e(vec![c("A"), Segment::Counted(0)]), FormatError::EmptyWindow);
    assert_eq!(e(vec![c("A"), Segment::Sample(2)]), FormatError::NoCountedWindow);
    assert_eq!(
        e(vec![Segment::Sample(1), c("A"), Segment::Sample(1), Segment::Counted(1)]),
        FormatError::RepeatedSample
    );
    assert_eq!(
        e(vec![Segment::Counted(1), Segment::Random(1), c("A"), Segment::Random(1)]),
        FormatError::RepeatedRandom
    );
}

#[test]
fn match_result_missing_group() {
    let groups = vec![Some("X".to_string())];
    let r = SequenceMatchResult::new(&groups, &vec![3], None, None, &None, &vec![0], &None, 0);
    assert_eq!(r.err(), Some(ParseError::MissingGroup));
}

#[test]
fn match_result_reads_groups() {
    let groups = vec![Some("all".to_string()), Some("AT".to_string()), Some("GC".to_string()), Some("XYZ".to_string())];
    let m = SequenceMatchResult::new(&groups, &vec![2], Some(1), Some(3), &None, &vec![0], &None, 0).ok().unwrap();
    assert_eq!(m.sample_barcode, "");
    assert_eq!(m.counted_barcodes, vec!["GC".to_string()]);
    assert_eq!(m.random_barcode, "XYZ");
    assert_eq!(m.barcode_string(), "GC");
    assert!(!m.sample_barcode_error && !m.counted_barcode_error);
}

#[test]
fn match_seq_outcomes() {
    let p = parser(simple_format(), &[("AT", "s1")], vec![dict(&[("GC", "b1")])], 0, 0, vec![0]);
    assert!(matches!(p.match_seq("GGGGG".to_string()), Ok(ReadOutcome::ConstantRegion)));
    match p.match_seq("AAAATCCCGCGGG".to_string()) {
        Ok(ReadOutcome::Matched(m)) => {
            assert_eq!(m.sample_barcode, "AT");
            assert_eq!(m.barcode_string(), "GC");
        }
        _ => panic!("expected a match"),
    }
}

#[test]
fn store_counts_and_umis() {
    let mut r = Results::new();
    r.add_count("s", "A,B");
    r.add_count("s", "A,B");
    assert!(r.add_random("s", "XYZ", "C"));
    assert!(!r.add_random("s", "XYZ", "C"));
    assert!(!r.add_random("s", "XYZ", "C"));
    assert!(r.add_random("s", "XYA", "C"));
    assert!(r.add_random("t", "XYZ", "C"));
    let mut d = r.drain();
    d.sort();
    for (_, v) in d.iter_mut() {
        v.sort();
    }
    assert_eq!(
        d,
        vec![
            ("s".to_string(), vec![("A,B".to_string(), 2), ("C".to_string(), 2)]),
            ("t".to_string(), vec![("C".to_string(), 1)]),
        ]
    );
    let mut sc = SampleCounts::new();
    sc.add_count("K");
    assert_eq!(sc.counts(), vec![("K".to_string(), 1)]);
}

#[test]
fn error_counters() {
    let mut e = SequenceErrors::new();
    e.record(ReadKind::Correct);
    e.record(ReadKind::Duplicated);
    e.record(ReadKind::ConstantRegion);
    e.record(ReadKind::CountedBarcode);
    e.record(ReadKind::SampleBarcode);
    assert_eq!(e.total_reads(), 5);
    assert_eq!(e.duplicated, 1);
}

#[test]
fn template_text_to_layout() {
    let segs = del_count::format::parse_template("AAA SS\nCCC BB GGG BBB NNN\n").unwrap();
    let f = SequenceFormat::new(segs).unwrap();
    assert_eq!(f.format_string(), "AAANNCCCNNGGGNNNNNN");
    assert_eq!(f.barcode_num, 2);
    assert_eq!(f.random_group(), Some(4));
    assert_eq!(
        del_count::format::parse_template("AAAXBB").err(),
        Some(FormatError::BadCharacter)
    );
    assert_eq!(del_count::format::parse_template("").unwrap().len(), 0);
}

#[test]
fn default_budgets() {
    assert_eq!(default_budget(4), 0);
    assert_eq!(default_budget(10), 2);
    assert_eq!(default_budget(5000), 255);
}

#[test]
fn tab_fields_and_uniform_keys() {
    assert_eq!(split_fields("1\tGC\tb1", '\t'), vec!["1".to_string(), "GC".to_string(), "b1".to_string()]);
    assert_eq!(split_fields("", '\t'), vec!["".to_string()]);
    assert_eq!(split_fields("AT\t", '\t'), vec!["AT".to_string(), "".to_string()]);
    assert!(uniform_lengths(&dict(&[("AT", "s1"), ("GC", "s2")])));
    assert!(!uniform_lengths(&dict(&[("AT", "s1"), ("GCA", "s2")])));
    assert!(uniform_lengths(&Vec::new()));
}

#[test]
fn tuple_key_splits_back() {
    let groups = vec![Some("x".to_string()), Some("GC".to_string()), Some("TA".to_string())];
    let m = SequenceMatchResult::new(&groups, &vec![1, 2], None, None, &None, &vec![0, 0], &None, 0)
        .ok()
        .unwrap();
    let key = m.barcode_string();
    assert_eq!(key, "GC,TA");
    assert_eq!(split_fields(&key, ','), vec!["GC".to_string(), "TA".to_string()]);
}

#[test]
fn run_of_reads_conserves_count() {
    let p = parser(simple_format(), &[("AT", "s1")], vec![dict(&[("GC", "b1")])], 1, 1, vec![0]);
    let reads: Vec<String> = ["AAAATCCCGCGGG", "AAGATCCCGCGGG", "TTTTTTTTTTTTT", "AAAGGCCCGCGGG", "AAAATCCCTTGGG", ""]
        .iter()
        .map(|r| r.to_string())
        .collect();
    let mut totals = Totals::new();
    assert!(p.parse_reads(&reads, &mut totals).is_ok());
    assert_eq!(totals.errors.total_reads(), 6);
    assert_eq!(totals.errors.correct_match, 2);
    assert_eq!(totals.errors.constant_region, 2);
    assert_eq!(totals.errors.sample_barcode, 1);
    assert_eq!(totals.errors.barcode, 1);
}

#[test]
fn budgets_from_layout() {
    let layout = vec![c("AAAAA"), Segment::Sample(10), c("CCCCCCCCCCCC"), Segment::Counted(6), c("G"), Segment::Counted(12), Segment::Random(8)];
    let b = MaxSeqErrors::from_layout(&layout);
    assert_eq!(b.constant_region, 3);
    assert_eq!(b.sample_barcode, 2);
    assert_eq!(b.barcode, vec![1, 2]);
}

#[test]
fn sample_error_leaves_no_counted_windows() {
    let groups = vec![Some("x".to_string()), Some("AA".to_string()), Some("GC".to_string())];
    let mut samples = BarcodeSet::new();
    samples.insert("AT".to_string());
    samples.insert("AC".to_string());
    let mut bb = BarcodeSet::new();
    bb.insert("GC".to_string());
    let m = SequenceMatchResult::new(&groups, &vec![2], Some(1), None, &Some(vec![bb]), &vec![0], &Some(samples), 1)
        .ok()
        .unwrap();
    assert!(m.sample_barcode_error);
    assert_eq!(m.sample_barcode, "");
    assert!(m.counted_barcodes.is_empty());
    assert!(!m.counted_barcode_error);
}

#[test]
fn counted_error_keeps_windows_before_it() {
    let groups = vec![Some("x".to_string()), Some("AT".to_string()), Some("GC".to_string()), Some("TT".to_string())];
    let mut samples = BarcodeSet::new();
    samples.insert("AT".to_string());
    let mut bb1 = BarcodeSet::new();
    bb1.insert("GC".to_string());
    let mut bb2 = BarcodeSet::new();
    bb2.insert("AA".to_string());
    let m = SequenceMatchResult::new(&groups, &vec![2, 3], Some(1), None, &Some(vec![bb1, bb2]), &vec![1, 1], &Some(samples), 0)
        .ok()
        .unwrap();
    assert!(m.counted_barcode_error);
    assert!(!m.sample_barcode_error);
    assert_eq!(m.sample_barcode, "AT");
    assert_eq!(m.counted_barcodes, vec!["GC".to_string()]);
}
