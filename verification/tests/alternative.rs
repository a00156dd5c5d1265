use rsomics_boschloo_exact::{Alternative, AlternativeArg};

#[test]
fn argument_names_its_tail() {
    assert_eq!(Alternative::from(AlternativeArg::TwoSided), Alternative::TwoSided);
    assert_eq!(Alternative::from(AlternativeArg::Less), Alternative::Less);
    assert_eq!(Alternative::from(AlternativeArg::Greater), Alternative::Greater);
}
