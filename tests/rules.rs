use census_proteomics::filter::parse::{parse, parse_peptide_filter, parse_protein_filter, RuleError};
use census_proteomics::{Decimal, Filter, PeptideFilter, ProteinFilter};

#[test]
fn protein_filters() {
    let input = "
        spectral_counts = 4
        sequence_counts = 2";
    let (fst, rest) = parse_protein_filter(input).unwrap();
    let (snd, rest) = parse_protein_filter(rest).unwrap();
    assert_eq!(fst, ProteinFilter::SpectralCounts(4));
    assert_eq!(snd, ProteinFilter::SequenceCounts(2));

    assert!(rest.is_empty())
}

#[test]
fn peptide_filters() {
    let input = "
        channel_cv = 1,2,3,4 0.5
        sequence_match = CCS tryptic    \t \n \r unique";
    let (fst, rest) = parse_peptide_filter(input).unwrap();
    let (snd, rest) = parse_peptide_filter(rest).unwrap();
    assert_eq!(fst, PeptideFilter::ChannelCV(vec![1, 2, 3, 4], Decimal { units: 5, scale: 1 }));
    assert_eq!(snd, PeptideFilter::SequenceMatch("CCS".into()));
    let (thd, rest) = parse_peptide_filter(rest).unwrap();
    let (frt, rest) = parse_peptide_filter(rest).unwrap();
    assert_eq!(thd, PeptideFilter::Tryptic);
    assert_eq!(frt, PeptideFilter::Unique);

    assert!(rest.is_empty())
}

#[test]
fn config() {
    let input = "protein:
    spectral_counts = 10
    sequence_counts = 2
peptide:
    channel_cv = 1, 2, 6,   7 0.05
    sequence_exclude = C
    tryptic
    unique";

    let expected = Filter::default()
        .add_peptide_filter(PeptideFilter::ChannelCV(vec![1, 2, 6, 7], Decimal { units: 5, scale: 2 }))
        .add_peptide_filter(PeptideFilter::SequenceExclude("C".into()))
        .add_peptide_filter(PeptideFilter::Tryptic)
        .add_peptide_filter(PeptideFilter::Unique)
        .add_protein_filter(ProteinFilter::SpectralCounts(10))
        .add_protein_filter(ProteinFilter::SequenceCounts(2));

    assert_eq!(parse(input), Ok(expected));
}

#[test]
fn rule_text_scenario() {
    let text = "protein:\n  spectral_counts = 10\n  sequence_counts = 2\npeptide:\n  tryptic\n  unique";
    let expected = Filter::default()
        .add_protein_filter(ProteinFilter::SpectralCounts(10))
        .add_protein_filter(ProteinFilter::SequenceCounts(2))
        .add_peptide_filter(PeptideFilter::Tryptic)
        .add_peptide_filter(PeptideFilter::Unique);
    assert_eq!(parse(text), Ok(expected.clone()));
    let reordered = "peptide:\n  tryptic\n  unique\nprotein:\n  spectral_counts = 10\n  sequence_counts = 2";
    assert_eq!(parse(reordered), Ok(expected));
}

#[test]
fn empty_rule_text() {
    assert_eq!(parse(""), Ok(Filter::default()));
    assert_eq!(parse("protein:"), Ok(Filter::default()));
}

#[test]
fn unknown_command() {
    assert_eq!(parse("protein:\n  colour = red"), Err(RuleError::Command("colour".into())));
    assert_eq!(parse("peptide:\n  frobnicate"), Err(RuleError::Command("frobnicate".into())));
}

#[test]
fn missing_equals() {
    assert_eq!(parse("protein:\n  spectral_counts 10"), Err(RuleError::Expected("=".into())));
    assert_eq!(
        parse_peptide_filter("sequence_match CCS").err(),
        Some(RuleError::Expected("=".into()))
    );
}

#[test]
fn conversion_errors() {
    assert_eq!(parse("protein:\n  spectral_counts = ten"), Err(RuleError::Conversion));
    assert_eq!(parse("protein:\n  spectral_counts = 70000"), Err(RuleError::Conversion));
    assert_eq!(parse_peptide_filter("channel_cv = 1,x 0.5").err(), Some(RuleError::Conversion));
    assert_eq!(parse_peptide_filter("channel_cv = 1,2 abc").err(), Some(RuleError::Conversion));
    assert_eq!(parse_peptide_filter("total_intensity = 1e5").err(), Some(RuleError::Conversion));
}

#[test]
fn intensity_cutoffs_round_up() {
    let (f, _) = parse_peptide_filter("total_intensity = 5000.5").unwrap();
    assert_eq!(f, PeptideFilter::TotalIntensity(5001));
    let (f, _) = parse_peptide_filter("total_intensity = 5000.0").unwrap();
    assert_eq!(f, PeptideFilter::TotalIntensity(5000));
    let (f, rest) = parse_peptide_filter("channel_intensity = 3 1000 unique").unwrap();
    assert_eq!(f, PeptideFilter::ChannelIntensity(3, 1000));
    assert_eq!(rest, " unique");
}

#[test]
fn repeated_equals_and_commas() {
    let (f, _) = parse_peptide_filter("channel_cv == 1,,2 .5").unwrap();
    assert_eq!(f, PeptideFilter::ChannelCV(vec![1, 2], Decimal { units: 5, scale: 1 }));
}

#[test]
fn leading_whitespace_before_first_block() {
    let expected = Filter::default().add_protein_filter(ProteinFilter::SpectralCounts(10));
    assert_eq!(parse("\n  protein:\n  spectral_counts = 10"), Ok(expected.clone()));
    assert_eq!(parse(" \t\r\nprotein: spectral_counts = 10\n\n"), Ok(expected));
    assert_eq!(parse("   \n  "), Ok(Filter::default()));
}

#[test]
fn text_that_starts_no_block_is_an_error() {
    assert_eq!(parse("protien:\n  spectral_counts = 10"), Err(RuleError::Command("protien:".into())));
    assert_eq!(
        parse("protein:\n  spectral_counts = 10\n"),
        Ok(Filter::default().add_protein_filter(ProteinFilter::SpectralCounts(10)))
    );
}

#[test]
fn rule_text_scenario_permuted() {
    let text = "protein:\n  sequence_counts = 2\n  spectral_counts = 10\npeptide:\n  unique\n  tryptic";
    let expected = Filter::default()
        .add_protein_filter(ProteinFilter::SpectralCounts(10))
        .add_protein_filter(ProteinFilter::SequenceCounts(2))
        .add_peptide_filter(PeptideFilter::Tryptic)
        .add_peptide_filter(PeptideFilter::Unique);
    let got = parse(text).unwrap();
    let mut a: Vec<String> = got.protein_filters().iter().map(|f| format!("{:?}", f)).collect();
    let mut b: Vec<String> = expected.protein_filters().iter().map(|f| format!("{:?}", f)).collect();
    a.sort();
    b.sort();
    assert_eq!(a, b);
    let mut a: Vec<String> = got.peptide_filters().iter().map(|f| format!("{:?}", f)).collect();
    let mut b: Vec<String> = expected.peptide_filters().iter().map(|f| format!("{:?}", f)).collect();
    a.sort();
    b.sort();
    assert_eq!(a, b);
    let mut report = String::from("H\tm/z_1\tm/z_1n\nP\tACC1\t12\t3\t45.5%\t1000\tfirst\n");
    for i in 0..12 {
        let seq = if i % 2 == 0 { "K.AAK.-" } else { "R.CCR.-" };
        report.push_str(&format!("S\tU\t{}\t{}\t1.0\n", seq, 100 + i));
    }
    report.push_str("S\t\tK.DDK.-\t5\t1.0\nP\tACC2\t2\t1\t10%\t2000\tsecond\nS\tU\tR.EEK.-\t7\t1.0\n");
    let d = census_proteomics::read_census(&report).unwrap();
    let kept = expected.filter_dataset(d.clone());
    assert_eq!(kept.proteins.len(), 1);
    assert_eq!(kept.proteins[0].spectral_count, 12);
    assert_eq!(got.filter_dataset(d), kept);
}
