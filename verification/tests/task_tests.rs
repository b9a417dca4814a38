use cpm_rs::{CpmError, CustomTask};

#[test]
fn construction_and_accessors() {
    let t = CustomTask::new(
        "build".to_string(),
        7,
        vec!["configure".to_string(), "fetch".to_string()],
    );
    assert_eq!(t.get_id(), "build");
    assert_eq!(t.get_duration(), 7);
    assert_eq!(
        t.get_dependencies(),
        vec!["configure".to_string(), "fetch".to_string()]
    );
    assert_eq!(t.get_early_start(), None);
    assert_eq!(t.get_early_finish(), None);
    assert_eq!(t.get_late_start(), None);
    assert_eq!(t.get_late_finish(), None);
}

#[test]
fn dependency_edits() {
    let mut t = CustomTask::new("build".to_string(), 7, vec![]);
    t.add_dependency("fetch".to_string());
    assert_eq!(t.get_dependencies(), vec!["fetch".to_string()]);
    let mut more = vec!["configure".to_string(), "patch".to_string()];
    t.add_dependencies(&mut more);
    assert!(more.is_empty());
    assert_eq!(
        t.get_dependencies(),
        vec![
            "fetch".to_string(),
            "configure".to_string(),
            "patch".to_string(),
        ]
    );
    t.set_dependencies(vec!["bootstrap".to_string()]);
    assert_eq!(t.get_dependencies(), vec!["bootstrap".to_string()]);
    t.set_duration(9);
    assert_eq!(t.get_duration(), 9);
}

#[test]
fn timestamp_setters() {
    let mut t = CustomTask::new("build".to_string(), 7, vec![]);
    assert!(t.set_early_start(0).is_ok());
    assert!(t.set_early_finish(7).is_ok());
    assert!(t.set_late_start(2).is_ok());
    assert!(t.set_late_finish(9).is_ok());
    assert_eq!(t.get_early_start(), Some(0));
    assert_eq!(t.get_early_finish(), Some(7));
    assert_eq!(t.get_late_start(), Some(2));
    assert_eq!(t.get_late_finish(), Some(9));
}

#[test]
fn late_finish_of_zero_is_rejected() {
    let mut t = CustomTask::new("build".to_string(), 7, vec![]);
    assert!(matches!(
        t.set_late_finish(0),
        Err(CpmError::ValueOutOfRange)
    ));
    // the failed call left the field unset
    assert_eq!(t.get_late_finish(), None);
}

#[test]
fn total_float_reports_missing_values() {
    let mut t = CustomTask::new("build".to_string(), 7, vec![]);
    match t.get_total_float() {
        Err(CpmError::NotCalculated(id)) => assert_eq!(id, "build"),
        other => panic!("expected a not-calculated report, got {:?}", other),
    }
    t.set_early_finish(7).unwrap();
    assert!(matches!(
        t.get_total_float(),
        Err(CpmError::NotCalculated(_))
    ));
    t.set_late_finish(9).unwrap();
    assert!(matches!(t.get_total_float(), Ok(2)));
}

#[test]
fn total_float_reports_inconsistency() {
    let mut t = CustomTask::new("build".to_string(), 7, vec![]);
    t.set_early_finish(9).unwrap();
    t.set_late_finish(5).unwrap();
    match t.get_total_float() {
        Err(CpmError::NegativeFloat(id)) => assert_eq!(id, "build"),
        other => panic!("expected a negative-float report, got {:?}", other),
    }
}
