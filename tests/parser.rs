use census_proteomics::util::max;
use census_proteomics::{read_census, ErrorKind, Parser, Peptide};

#[test]
fn test_trypic() {
    fn gen_peptide(sequence: &str) -> Peptide {
        Peptide {
            sequence: sequence.into(),
            ..Peptide::default()
        }
    }
    assert!(gen_peptide("-.KMDKDK.-").tryptic());
    assert!(!gen_peptide("S.KMDKDK.-").tryptic());
    assert!(gen_peptide("R.KMDKDK.-").tryptic());
    assert!(!gen_peptide("K.KMDKDT.A").tryptic());
}

#[test]
fn tryptic_edge_cases() {
    let t = |s: &str| Peptide { sequence: s.into(), ..Peptide::default() }.tryptic();
    assert!(!t(""));
    assert!(!t("K"));
    assert!(!t("K..-"));
    assert!(t("K.AR.G"));
}

const SCENARIO: &str = "H\tunique\tsequence\tm/z_126\tm/z_126 norm\tm/z_127\tm/z_127 norm\n\
P\tQ9XYZ1\t10\t2\t12.5%\t45000\tsome protein\n\
S\tU\tK.AAAK.-\t1\t0.1\t2998\t0.9\n\
S\t\tR.CCCR.A\t10000\t0.9\t0\t0.0\n";

#[test]
fn scenario_two_channels() {
    let d = read_census(SCENARIO).unwrap();
    assert_eq!(d.channels, 2);
    assert_eq!(d.proteins.len(), 1);
    let p = &d.proteins[0];
    assert_eq!(p.accession, "Q9XYZ1");
    assert_eq!(p.description, "some protein");
    assert_eq!(p.spectral_count, 10);
    assert_eq!(p.sequence_count, 2);
    assert_eq!(p.sequence_coverage, "12.5");
    assert_eq!(p.molecular_weight, 45000);
    assert_eq!(p.channels, 2);
    assert_eq!(p.peptides.len(), 2);
    assert_eq!(p.peptides[0].values, vec![1, 2998]);
    assert!(p.peptides[0].unique);
    assert_eq!(p.peptides[1].values, vec![10000, 0]);
    assert!(!p.peptides[1].unique);
    assert_eq!(p.peptides[1].sequence, "R.CCCR.A");

    let fil = census_proteomics::Filter::default()
        .add_peptide_filter(census_proteomics::PeptideFilter::TotalIntensityChannels(vec![1, 2], 3000));
    let f = fil.filter_dataset(d);
    assert_eq!(f.proteins.len(), 1);
    assert_eq!(f.proteins[0].peptides.len(), 1);
    assert_eq!(f.proteins[0].peptides[0].sequence, "R.CCCR.A");
    assert_eq!(f.proteins[0].spectral_count, 1);
    assert_eq!(f.proteins[0].sequence_count, 1);
}

#[test]
fn channel_count_invariant() {
    let d = read_census(SCENARIO).unwrap();
    for p in &d.proteins {
        assert_eq!(p.channels, d.channels);
        for pep in &p.peptides {
            assert_eq!(pep.values.len(), d.channels as usize);
        }
    }
}

#[test]
fn invalid_leading_character() {
    let e = read_census("H\tx\nP\tA\t1\t1\t1%\t1\td\nX\tbad\n").unwrap_err();
    assert_eq!(e.kind(), ErrorKind::Invalid('X'));
    assert_eq!(e.line(), 3);
    let e = read_census("X").unwrap_err();
    assert_eq!(e.kind(), ErrorKind::Invalid('X'));
    assert_eq!(e.line(), 1);
}

#[test]
fn empty_input_gives_empty_dataset() {
    let d = read_census("").unwrap();
    assert_eq!(d.proteins.len(), 0);
    assert_eq!(d.channels, 0);
}

#[test]
fn no_header_means_zero_channels() {
    let d = read_census("P\tA\t1\t1\t5%\t7\tdesc\nS\tU\tK.A.-\n").unwrap();
    assert_eq!(d.channels, 0);
    assert_eq!(d.proteins[0].peptides[0].values.len(), 0);
}

#[test]
fn last_mz_header_wins() {
    let text = "H\tm/z_1\tm/z_1\nH\tplain\nH\tm/z_1\tm/z_1\tm/z_2\tm/z_2\tm/z_3\tm/z_3\n\
P\tA\t1\t1\t5%\t7\tdesc\n";
    assert_eq!(read_census(text).unwrap().channels, 3);
}

#[test]
fn headers_only_end_too_early() {
    let e = read_census("H\tm/z_1\tm/z_1\n").unwrap_err();
    assert_eq!(e.kind(), ErrorKind::EOF);
    assert_eq!(e.line(), 2);
}

#[test]
fn empty_line_is_an_error() {
    let e = read_census("P\tA\t1\t1\t5%\t7\tdesc\n\nP\tB\t1\t1\t5%\t7\tdesc\n").unwrap_err();
    assert_eq!(e.kind(), ErrorKind::EOF);
    assert_eq!(e.line(), 2);
}

#[test]
fn header_after_data_is_an_error() {
    let e = read_census("P\tA\t1\t1\t5%\t7\tdesc\nH\tm/z_1\n").unwrap_err();
    assert_eq!(e.kind(), ErrorKind::Invalid('H'));
    assert_eq!(e.line(), 2);
}

#[test]
fn peptide_before_protein_is_an_error() {
    let e = read_census("S\tU\tK.A.-\n").unwrap_err();
    assert_eq!(e.kind(), ErrorKind::Invalid('S'));
    assert_eq!(e.line(), 1);
}

#[test]
fn protein_field_errors() {
    let e = read_census("P\tA\tten\t1\t5%\t7\tdesc\n").unwrap_err();
    assert_eq!(e.kind(), ErrorKind::Conversion);
    let e = read_census("P\tA\t1\t1\tabc%\t7\tdesc\n").unwrap_err();
    assert_eq!(e.kind(), ErrorKind::Conversion);
    let e = read_census("P\tA\t1\t1\t5%\t7\n").unwrap_err();
    assert_eq!(e.kind(), ErrorKind::EOF);
    let e = read_census("P\tA\t1\n").unwrap_err();
    assert_eq!(e.kind(), ErrorKind::EOF);
    let e = read_census("P\tA\t70000\t1\t5%\t7\tdesc\n").unwrap_err();
    assert_eq!(e.kind(), ErrorKind::Conversion);
}

#[test]
fn description_is_last_field() {
    let d = read_census("P\tA\t1\t1\t5%\t7\tfirst\tsecond\r\n").unwrap();
    assert_eq!(d.proteins[0].description, "second");
}

#[test]
fn peptide_field_errors() {
    let head = "H\tm/z_1\tm/z_1\nP\tA\t1\t1\t5%\t7\tdesc\n";
    let e = read_census(&format!("{}S\tU\tK.A.-\t5\n", head)).unwrap_err();
    assert_eq!(e.kind(), ErrorKind::EOF);
    assert_eq!(e.line(), 3);
    let e = read_census(&format!("{}S\tU\tK.A.-\tfive\t1\n", head)).unwrap_err();
    assert_eq!(e.kind(), ErrorKind::Conversion);
    let e = read_census(&format!("{}S\tUU\tK.A.-\t5\t1\n", head)).unwrap_err();
    assert_eq!(e.kind(), ErrorKind::Conversion);
    let d = read_census(&format!("{}S\tU\tK.A.-\t+5\t1\textra\n", head)).unwrap();
    assert_eq!(d.proteins[0].peptides[0].values, vec![5]);
}

#[test]
fn parser_new_then_parse() {
    let d = Parser::new(SCENARIO).parse().unwrap();
    assert_eq!(d.proteins.len(), 1);
}

#[test]
fn max_of_slice() {
    assert_eq!(max(&[]), 0);
    assert_eq!(max(&[3, 9, 2]), 9);
    assert_eq!(max(&[u32::MAX, 1]), u32::MAX);
}
