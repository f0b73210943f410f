use fluxfang::evidence::{AttributionEvidenceRepo, SubjectFilter};
use uuid::Uuid;

#[test]
fn pair_lookup_binds_both_subjects() {
    let a = Uuid::new_v4().as_u128();
    let b = Uuid::new_v4().as_u128();
    let f = AttributionEvidenceRepo::subject_filter(a, Some(b));
    assert_eq!(f, SubjectFilter::Pair { a, b });
    assert!(f.is_pair());
    assert_eq!(f.binds(), vec![a, b]);
    let g = AttributionEvidenceRepo::subject_filter(b, Some(a));
    assert_eq!(g.binds(), vec![b, a]);
}

#[test]
fn single_lookup_binds_one_subject() {
    let ghost = Uuid::new_v4().as_u128();
    let f = AttributionEvidenceRepo::subject_filter(ghost, None);
    assert_eq!(f, SubjectFilter::Single { a: ghost });
    assert!(!f.is_pair());
    assert_eq!(f.binds(), vec![ghost]);
}
