use census_proteomics::filter::parse::parse;
use census_proteomics::{read_census, Decimal, Filter, PeptideFilter, Protein, ProteinFilter};
use census_proteomics::{Dataset, Peptide};

fn peptide(sequence: &str, values: Vec<u32>, unique: bool) -> Peptide {
    Peptide {
        sequence: sequence.into(),
        values,
        unique,
        scan: 0,
    }
}

fn protein(accession: &str, peptides: Vec<Peptide>, spectral: u16, sequence: u16) -> Protein {
    Protein {
        accession: accession.into(),
        description: "".into(),
        spectral_count: spectral,
        sequence_count: sequence,
        sequence_coverage: "0.3".into(),
        molecular_weight: 10,
        peptides,
        channels: 2,
    }
}

#[test]
fn total_intensity_channels() {
    let p1 = Peptide {
        sequence: "aa".into(),
        values: vec![1, 2998, 5000, 84, 4738, 9384],
        unique: true,
        scan: 0,
    };
    let p2 = Peptide {
        sequence: "aaa".into(),
        values: vec![10000, 0, 433, 61346, 41, 5555],
        unique: true,
        scan: 0,
    };

    let p3 = Peptide {
        sequence: "aaaa".into(),
        values: vec![1, 2999, 0, 0, 0, 0],
        unique: true,
        scan: 0,
    };

    let prot = Protein {
        accession: "".into(),
        description: "".into(),
        spectral_count: 10,
        sequence_count: 3,
        sequence_coverage: "0.3".into(),
        molecular_weight: 10,
        peptides: vec![p1.clone(), p2.clone(), p3.clone()],
        channels: 6,
    };

    let mut fil = Filter::default();

    fil = fil.add_peptide_filter(PeptideFilter::TotalIntensityChannels(vec![1, 2], 3000));
    let p = fil.filter_protein(prot).unwrap();
    assert_eq!(p.peptides.len(), 2);
    assert_eq!(p.sequence_count, 2);
    assert_eq!(p.peptides, vec![p2.clone(), p3.clone()]);
}

#[test]
fn counts_are_recomputed_after_filtering() {
    let prot = protein(
        "ACC1",
        vec![
            peptide("K.AAK.-", vec![10, 10], true),
            peptide("K.AAK.-", vec![10, 10], false),
            peptide("K.CCK.-", vec![10, 10], true),
        ],
        3,
        2,
    );
    let fil = Filter::default().add_peptide_filter(PeptideFilter::Unique);
    let p = fil.filter_protein(prot).unwrap();
    assert_eq!(p.spectral_count, 2);
    assert_eq!(p.sequence_count, 2);
}

#[test]
fn post_filter_count_rejects_protein() {
    let prot = protein(
        "ACC1",
        vec![peptide("K.AAK.-", vec![10, 10], true), peptide("K.CCK.-", vec![10, 10], false)],
        2,
        2,
    );
    let fil = Filter::default()
        .add_protein_filter(ProteinFilter::SequenceCounts(2))
        .add_peptide_filter(PeptideFilter::Unique);
    assert!(fil.filter_protein(prot.clone()).is_none());
    let fil = Filter::default().add_protein_filter(ProteinFilter::SequenceCounts(2));
    assert!(fil.filter_protein(prot).is_some());
}

#[test]
fn pre_filter_uses_reported_counts() {
    let prot = protein("ACC1", vec![peptide("K.AAK.-", vec![10, 10], true)], 1, 1);
    let fil = Filter::default().add_protein_filter(ProteinFilter::SpectralCounts(2));
    assert!(fil.filter_protein(prot).is_none());
}

#[test]
fn protein_without_peptides_is_dropped() {
    let prot = protein("ACC1", vec![], 5, 5);
    assert!(Filter::default().filter_protein(prot).is_none());
}

#[test]
fn exclude_reverse() {
    let fil = Filter::default().add_protein_filter(ProteinFilter::ExcludeReverse);
    let fwd = protein("Q12345", vec![peptide("K.AAK.-", vec![1, 1], true)], 1, 1);
    let rev = protein("Reverse_Q12345", vec![peptide("K.AAK.-", vec![1, 1], true)], 1, 1);
    assert!(fil.filter_protein(fwd).is_some());
    assert!(fil.filter_protein(rev).is_none());
}

#[test]
fn sequence_match_and_exclude() {
    let prot = protein(
        "ACC1",
        vec![peptide("K.ACCSK.-", vec![1, 1], true), peptide("K.AAK.-", vec![1, 1], true)],
        2,
        2,
    );
    let m = Filter::default().add_peptide_filter(PeptideFilter::SequenceMatch("CCS".into()));
    let p = m.filter_protein(prot.clone()).unwrap();
    assert_eq!(p.peptides.len(), 1);
    assert_eq!(p.peptides[0].sequence, "K.ACCSK.-");
    let e = Filter::default().add_peptide_filter(PeptideFilter::SequenceExclude("CCS".into()));
    let p = e.filter_protein(prot).unwrap();
    assert_eq!(p.peptides.len(), 1);
    assert_eq!(p.peptides[0].sequence, "K.AAK.-");
}

#[test]
fn total_intensity_threshold_is_inclusive() {
    let prot = protein(
        "ACC1",
        vec![peptide("K.AAK.-", vec![1000, 2000], true), peptide("K.CCK.-", vec![1000, 1999], true)],
        2,
        2,
    );
    let fil = Filter::default().add_peptide_filter(PeptideFilter::TotalIntensity(3000));
    let p = fil.filter_protein(prot).unwrap();
    assert_eq!(p.peptides.len(), 1);
    assert_eq!(p.peptides[0].sequence, "K.AAK.-");
}

#[test]
fn total_intensity_sum_beyond_u32() {
    let prot = protein("ACC1", vec![peptide("K.AAK.-", vec![u32::MAX, u32::MAX], true)], 1, 1);
    let fil = Filter::default().add_peptide_filter(PeptideFilter::TotalIntensity(u32::MAX));
    assert!(fil.filter_protein(prot).is_some());
}

#[test]
fn channel_intensity_out_of_range_passes() {
    let prot = protein("ACC1", vec![peptide("K.AAK.-", vec![5, 50], true)], 1, 1);
    let high = Filter::default().add_peptide_filter(PeptideFilter::ChannelIntensity(1, 10));
    assert!(high.filter_protein(prot.clone()).is_none());
    let second = Filter::default().add_peptide_filter(PeptideFilter::ChannelIntensity(2, 10));
    assert!(second.filter_protein(prot.clone()).is_some());
    let missing = Filter::default().add_peptide_filter(PeptideFilter::ChannelIntensity(3, 10));
    assert!(missing.filter_protein(prot.clone()).is_some());
    let zero = Filter::default().add_peptide_filter(PeptideFilter::ChannelIntensity(0, 10));
    assert!(zero.filter_protein(prot).is_some());
}

fn cv_filter(units: u64, scale: u8) -> Filter {
    Filter::default().add_peptide_filter(PeptideFilter::ChannelCV(vec![1, 2], Decimal { units, scale }))
}

#[test]
fn channel_cv_exact() {
    // values 0 and 10: mean 5, population deviation 5, so the variation is exactly 1
    let spread = protein("ACC1", vec![peptide("K.AAK.-", vec![0, 10], true)], 1, 1);
    assert!(cv_filter(5, 1).filter_protein(spread.clone()).is_none());
    assert!(cv_filter(1, 0).filter_protein(spread.clone()).is_none());
    assert!(cv_filter(1000001, 6).filter_protein(spread).is_some());
    let flat = protein("ACC1", vec![peptide("K.AAK.-", vec![10, 10], true)], 1, 1);
    assert!(cv_filter(1, 2).filter_protein(flat).is_some());
}

#[test]
fn channel_cv_zero_mean_passes() {
    let zero = protein("ACC1", vec![peptide("K.AAK.-", vec![0, 0], true)], 1, 1);
    assert!(cv_filter(0, 0).filter_protein(zero).is_some());
    let missing = protein("ACC1", vec![peptide("K.AAK.-", vec![], true)], 1, 1);
    assert!(cv_filter(0, 0).filter_protein(missing).is_some());
}

#[test]
fn well_formed_filters() {
    assert!(cv_filter(5, 2).is_well_formed());
    assert!(!cv_filter(5, 20).is_well_formed());
    assert!(Filter::default().is_well_formed());
}

const REPORT: &str = "H\tm/z_1\tm/z_1n\tm/z_2\tm/z_2n\n\
P\tACC1\t3\t2\t45.5%\t1000\tfirst protein\n\
S\tU\tK.AAK.-\t100\t1.0\t200\t2.0\n\
S\t\tK.AAK.-\t300\t1.0\t400\t2.0\n\
S\tU\tS.CCC.A\t500\t1.0\t600\t2.0\n\
P\tReverse_ACC2\t1\t1\t10%\t2000\tsecond protein\n\
S\tU\tR.DDK.-\t7\t1.0\t8\t2.0\n";

fn dataset() -> Dataset {
    read_census(REPORT).unwrap()
}

#[test]
fn empty_filter_keeps_consistent_dataset() {
    let d = dataset();
    let before = d.clone();
    let after = Filter::default().filter_dataset(d);
    assert_eq!(after, before);
}

#[test]
fn filtering_twice_changes_nothing() {
    let fil = Filter::default()
        .add_protein_filter(ProteinFilter::SpectralCounts(2))
        .add_peptide_filter(PeptideFilter::Tryptic);
    let once = fil.filter_dataset(dataset());
    let twice = fil.filter_dataset(once.clone());
    assert_eq!(once, twice);
    assert_eq!(once.proteins.len(), 1);
    assert_eq!(once.proteins[0].spectral_count, 2);
    assert_eq!(once.proteins[0].sequence_count, 1);
}

fn peptide_total(d: &Dataset) -> usize {
    d.proteins.iter().map(|p| p.peptides.len()).sum()
}

#[test]
fn more_rules_keep_less() {
    let small = Filter::default().add_peptide_filter(PeptideFilter::Unique);
    let big = small.clone().add_peptide_filter(PeptideFilter::Tryptic);
    let bigger = big.clone().add_protein_filter(ProteinFilter::ExcludeReverse);
    let a = small.filter_dataset(dataset());
    let b = big.filter_dataset(dataset());
    let c = bigger.filter_dataset(dataset());
    assert_eq!((a.proteins.len(), peptide_total(&a)), (2, 3));
    assert_eq!((b.proteins.len(), peptide_total(&b)), (2, 2));
    assert_eq!((c.proteins.len(), peptide_total(&c)), (1, 1));
}

#[test]
fn rule_order_does_not_matter() {
    let f = Filter::default()
        .add_peptide_filter(PeptideFilter::Unique)
        .add_peptide_filter(PeptideFilter::Tryptic)
        .add_protein_filter(ProteinFilter::SpectralCounts(1));
    let g = Filter::default()
        .add_protein_filter(ProteinFilter::SpectralCounts(1))
        .add_peptide_filter(PeptideFilter::Tryptic)
        .add_peptide_filter(PeptideFilter::Unique);
    assert_eq!(f.filter_dataset(dataset()), g.filter_dataset(dataset()));
}

#[test]
fn dataset_filter_method() {
    let fil = Filter::default().add_protein_filter(ProteinFilter::ExcludeReverse);
    let d = dataset().filter(&fil);
    assert_eq!(d.channels, 2);
    assert_eq!(d.proteins.len(), 1);
    assert_eq!(d.proteins[0].accession, "ACC1");
}

#[test]
fn rule_text_filter_end_to_end() {
    let fil = parse("peptide:\n  unique\n  sequence_exclude = CCC").unwrap();
    let d = fil.filter_dataset(dataset());
    assert_eq!(d.proteins.len(), 2);
    assert_eq!(d.proteins[0].peptides.len(), 1);
    assert_eq!(d.proteins[0].spectral_count, 1);
}

#[test]
fn empty_filter_on_any_dataset() {
    let d = Dataset {
        proteins: vec![
            protein("ACC1", vec![peptide("K.AAK.-", vec![1, 1], true), peptide("K.AAK.-", vec![2, 2], false)], 10, 7),
            protein("ACC2", vec![], 3, 3),
            protein("ACC3", vec![peptide("K.CCK.-", vec![1, 1], true)], 1, 1),
        ],
        channels: 2,
    };
    let out = Filter::default().filter_dataset(d.clone());
    assert_eq!(out.channels, 2);
    assert_eq!(out.proteins.len(), 2);
    assert_eq!(out.proteins[0].accession, "ACC1");
    assert_eq!(out.proteins[0].peptides, d.proteins[0].peptides);
    assert_eq!(out.proteins[0].spectral_count, 2);
    assert_eq!(out.proteins[0].sequence_count, 1);
    assert_eq!(out.proteins[1], d.proteins[2]);
}

#[test]
fn more_rules_keep_a_subsequence() {
    let small = Filter::default().add_peptide_filter(PeptideFilter::Unique);
    let big = small.clone().add_peptide_filter(PeptideFilter::Tryptic);
    let a = small.filter_dataset(dataset());
    let b = big.filter_dataset(dataset());
    let accs = |d: &Dataset| d.proteins.iter().map(|p| p.accession.clone()).collect::<Vec<_>>();
    assert_eq!(accs(&a), vec!["ACC1".to_string(), "Reverse_ACC2".to_string()]);
    assert_eq!(accs(&b), accs(&a));
    let kept_a: Vec<&str> = a.proteins[0].peptides.iter().map(|p| p.sequence.as_str()).collect();
    let kept_b: Vec<&str> = b.proteins[0].peptides.iter().map(|p| p.sequence.as_str()).collect();
    assert_eq!(kept_a, vec!["K.AAK.-", "S.CCC.A"]);
    assert_eq!(kept_b, vec!["K.AAK.-"]);
}
