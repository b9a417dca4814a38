use cpm_rs::{CpmError, CustomTask, Path};

fn stamped(id: &str, dur: u64, ef: u64, lf: u64) -> CustomTask {
    let mut t = CustomTask::new(id.to_string(), dur, vec![]);
    t.set_early_finish(ef).unwrap();
    t.set_late_finish(lf).unwrap();
    t
}

#[test]
fn empty_path_renders_nothing() {
    let p = Path::new();
    assert_eq!(p.get_path_string(), "");
    assert!(matches!(p.get_dur(), Ok(0)));
    assert!(matches!(p.get_total_float(), Ok(0)));
}

#[test]
fn building_and_rendering() {
    let mut p = Path::new();
    p.add_task(&CustomTask::new("alpha".to_string(), 2, vec![]));
    p.add_task(&CustomTask::new("beta".to_string(), 40, vec![]));
    assert_eq!(p.get_path_string(), "alpha(2)->beta(40)->");
    assert!(matches!(p.get_dur(), Ok(42)));
}

#[test]
fn from_vec_join_and_reverse() {
    let mut p = Path::new_from_vec(vec![
        CustomTask::new("one".to_string(), 1, vec![]),
        CustomTask::new("two".to_string(), 2, vec![]),
    ]);
    let tail = Path::new_from_vec(vec![CustomTask::new("three".to_string(), 3, vec![])]);
    p.join_path(&tail);
    assert_eq!(p.get_path_string(), "one(1)->two(2)->three(3)->");
    p.reverse_tasks();
    assert_eq!(p.get_path_string(), "three(3)->two(2)->one(1)->");
    assert!(matches!(p.get_dur(), Ok(6)));
}

#[test]
fn total_float_sums_member_slack() {
    let p = Path::new_from_vec(vec![
        stamped("one", 1, 3, 5),
        stamped("two", 2, 6, 6),
        stamped("three", 3, 9, 10),
    ]);
    assert!(matches!(p.get_total_float(), Ok(3)));
}

#[test]
fn total_float_propagates_member_errors() {
    let p = Path::new_from_vec(vec![
        stamped("one", 1, 3, 5),
        CustomTask::new("bare".to_string(), 2, vec![]),
    ]);
    match p.get_total_float() {
        Err(CpmError::NotCalculated(id)) => assert_eq!(id, "bare"),
        other => panic!("expected a not-calculated report, got {:?}", other),
    }
    let q = Path::new_from_vec(vec![stamped("skewed", 1, 9, 2)]);
    assert!(matches!(
        q.get_total_float(),
        Err(CpmError::NegativeFloat(_))
    ));
}

#[test]
fn duplicate_copies_every_member() {
    let p = Path::new_from_vec(vec![
        CustomTask::new("one".to_string(), 1, vec![]),
        CustomTask::new("two".to_string(), 2, vec![]),
    ]);
    let copy = p.duplicate();
    assert_eq!(copy.get_path_string(), p.get_path_string());
    assert!(matches!(copy.get_dur(), Ok(3)));
}

#[test]
fn duration_overflow_is_reported() {
    let p = Path::new_from_vec(vec![
        CustomTask::new("huge".to_string(), u64::MAX, vec![]),
        CustomTask::new("more".to_string(), 1, vec![]),
    ]);
    assert!(matches!(p.get_dur(), Err(CpmError::ValueOutOfRange)));
}
