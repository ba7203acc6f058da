use census_proteomics::{read_census, Peptide, Protein};

fn pep(values: Vec<u32>) -> Peptide {
    Peptide {
        sequence: "K.A.-".into(),
        values,
        unique: true,
        scan: 0,
    }
}

#[test]
fn protein_total() {
    let p = Protein {
        peptides: vec![pep(vec![1, 2, 3]), pep(vec![10, 20, 30])],
        channels: 3,
        ..Protein::default()
    };
    assert_eq!(p.total(), vec![11, 22, 33]);
}

#[test]
fn swap_channels() {
    let mut p = pep(vec![1, 2, 3]);
    p.swap_channels(0, 2);
    assert_eq!(p.values, vec![3, 2, 1]);
}

#[test]
fn accessions_and_map() {
    let text = "P\tA\t1\t1\t5%\t7\tfirst\nP\tB\t1\t1\t5%\t7\tsecond\nP\tA\t1\t1\t5%\t7\tthird\n";
    let d = read_census(text).unwrap();
    assert_eq!(d.accessions(), vec!["A".to_string(), "B".to_string()]);
    let m = d.map();
    assert_eq!(m.len(), 2);
    assert_eq!(m[0].0, "A");
    assert_eq!(m[0].1.description, "third");
    assert_eq!(m[1].0, "B");
    assert_eq!(m[1].1.description, "second");
}
