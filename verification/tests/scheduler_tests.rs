use cpm_rs::{CpmError, CustomTask, Scheduler};

fn example_scheduler() -> Scheduler {
    let mut scheduler = Scheduler::new();
    scheduler
        .add_task(CustomTask::new("Task_A".to_string(), 1, vec![]))
        .unwrap();
    scheduler
        .add_task(CustomTask::new(
            "Sidetask_B".to_string(),
            3,
            vec!["Task_A".to_string()],
        ))
        .unwrap();
    scheduler
        .add_task(CustomTask::new(
            "Sidetask_C".to_string(),
            2,
            vec!["Task_B".to_string()],
        ))
        .unwrap();
    scheduler
        .add_task(CustomTask::new(
            "Finish".to_string(),
            1,
            vec!["Sidetask_B".to_string(), "Sidetask_C".to_string()],
        ))
        .unwrap();
    scheduler
}

#[test]
fn cpm_case_1() {
    let mut scheduler = Scheduler::new();
    scheduler
        .add_task(CustomTask::new("Task_A".to_string(), 1, vec![]))
        .unwrap();
    scheduler
        .add_task(CustomTask::new(
            "Sidetask_B".to_string(),
            3,
            vec!["Task_A".to_string()],
        ))
        .unwrap();
    scheduler
        .add_task(CustomTask::new(
            "Sidetask_C".to_string(),
            2,
            vec!["Task_B".to_string()],
        ))
        .unwrap();
    scheduler
        .add_task(CustomTask::new(
            "Finish".to_string(),
            1,
            vec!["Sidetask_B".to_string(), "Sidetask_C".to_string()],
        ))
        .unwrap();
    match scheduler.schedule() {
        Ok(()) => {}
        Err(e) => {
            panic!("Error: {:?}", e);
        }
    }
    let endpoints = scheduler.get_endpoints();
    assert_eq!(endpoints[0].get_id(), "Finish");
    assert_eq!(endpoints[0].get_early_start(), Some(4));
    assert_eq!(endpoints[0].get_early_finish(), Some(5));
    assert!(matches!(endpoints[0].get_total_float(), Ok(0)));
    assert!(matches!(scheduler.get_parallelism(), Ok(2)));
}

#[test]
fn parallelism_needs_ready_state() {
    let scheduler = example_scheduler();
    assert!(matches!(
        scheduler.get_parallelism(),
        Err(CpmError::StateMismatch)
    ));
    let empty = Scheduler::new();
    assert!(matches!(
        empty.get_parallelism(),
        Err(CpmError::StateMismatch)
    ));
}

#[test]
fn duplicate_add_is_rejected_and_harmless() {
    let mut scheduler = example_scheduler();
    let result = scheduler.add_task(CustomTask::new("Task_A".to_string(), 42, vec![]));
    match result {
        Err(CpmError::DuplicateId(id)) => assert_eq!(id, "Task_A"),
        other => panic!("expected a duplicate report, got {:?}", other),
    }
    let kept = scheduler.get_task_by_name(&"Task_A".to_string()).unwrap();
    assert_eq!(kept.get_duration(), 1);
    assert!(kept.get_dependencies().is_empty());
}

#[test]
fn dangling_dependency_is_ignored() {
    let mut scheduler = example_scheduler();
    let c = scheduler
        .get_task_by_name(&"Sidetask_C".to_string())
        .unwrap();
    // "Task_B" matches no stored task, so Sidetask_C has no resolved
    // dependency and acts as a second start point
    assert_eq!(scheduler.get_task_dependencies(c).len(), 0);
    scheduler.schedule().unwrap();
    let c = scheduler
        .get_task_by_name(&"Sidetask_C".to_string())
        .unwrap();
    assert_eq!(c.get_early_start(), Some(0));
    assert_eq!(c.get_early_finish(), Some(2));
}

#[test]
fn start_and_end_points() {
    let scheduler = example_scheduler();
    let mut starts: Vec<String> = scheduler
        .get_startpoints()
        .iter()
        .map(|t| t.get_id())
        .collect();
    starts.sort();
    assert_eq!(starts, vec!["Sidetask_C".to_string(), "Task_A".to_string()]);
    let ends: Vec<String> = scheduler
        .get_endpoints()
        .iter()
        .map(|t| t.get_id())
        .collect();
    assert_eq!(ends, vec!["Finish".to_string()]);
}

#[test]
fn successors_and_dependencies() {
    let scheduler = example_scheduler();
    let a = scheduler.get_task_by_name(&"Task_A".to_string()).unwrap();
    let succs = scheduler.get_task_successors(a);
    assert_eq!(succs.len(), 1);
    assert_eq!(succs[0].get_id(), "Sidetask_B");
    let finish = scheduler.get_task_by_name(&"Finish".to_string()).unwrap();
    let deps: Vec<String> = scheduler
        .get_task_dependencies(finish)
        .iter()
        .map(|t| t.get_id())
        .collect();
    assert_eq!(
        deps,
        vec!["Sidetask_B".to_string(), "Sidetask_C".to_string()]
    );
}

#[test]
fn schedule_computes_all_timestamps() {
    let mut scheduler = example_scheduler();
    scheduler.schedule().unwrap();
    for name in ["Task_A", "Sidetask_B", "Sidetask_C", "Finish"] {
        let t = scheduler.get_task_by_name(&name.to_string()).unwrap();
        let es = t.get_early_start().unwrap();
        let ef = t.get_early_finish().unwrap();
        let ls = t.get_late_start().unwrap();
        let lf = t.get_late_finish().unwrap();
        let dur = t.get_duration();
        // early finish adds the duration, and so does the late finish
        assert_eq!(ef, es + dur);
        assert_eq!(lf, ls + dur);
        // the late window never precedes the early one
        assert!(ls >= es);
        assert!(lf >= ef);
    }
}

#[test]
fn rescheduling_is_idempotent() {
    let mut scheduler = example_scheduler();
    scheduler.schedule().unwrap();
    let first: Vec<(Option<u64>, Option<u64>, Option<u64>, Option<u64>)> =
        ["Task_A", "Sidetask_B", "Sidetask_C", "Finish"]
            .iter()
            .map(|name| {
                let t = scheduler.get_task_by_name(&name.to_string()).unwrap();
                (
                    t.get_early_start(),
                    t.get_early_finish(),
                    t.get_late_start(),
                    t.get_late_finish(),
                )
            })
            .collect();
    scheduler.schedule().unwrap();
    let second: Vec<(Option<u64>, Option<u64>, Option<u64>, Option<u64>)> =
        ["Task_A", "Sidetask_B", "Sidetask_C", "Finish"]
            .iter()
            .map(|name| {
                let t = scheduler.get_task_by_name(&name.to_string()).unwrap();
                (
                    t.get_early_start(),
                    t.get_early_finish(),
                    t.get_late_start(),
                    t.get_late_finish(),
                )
            })
            .collect();
    assert_eq!(first, second);
    assert!(matches!(scheduler.get_parallelism(), Ok(2)));
}

#[test]
fn critical_path_of_example() {
    let mut scheduler = example_scheduler();
    scheduler.schedule().unwrap();
    let criticals = scheduler.get_critical_paths().unwrap();
    assert_eq!(criticals.len(), 1);
    assert_eq!(
        criticals[0].get_path_string(),
        "Task_A(1)->Sidetask_B(3)->Finish(1)->"
    );
    assert!(matches!(criticals[0].get_dur(), Ok(5)));
    assert!(matches!(criticals[0].get_total_float(), Ok(0)));
}

#[test]
fn critical_path_ties_are_all_kept() {
    let mut scheduler = Scheduler::new();
    scheduler
        .add_task(CustomTask::new("left".to_string(), 4, vec![]))
        .unwrap();
    scheduler
        .add_task(CustomTask::new("right".to_string(), 4, vec![]))
        .unwrap();
    scheduler
        .add_task(CustomTask::new(
            "done".to_string(),
            1,
            vec!["left".to_string(), "right".to_string()],
        ))
        .unwrap();
    scheduler.schedule().unwrap();
    let criticals = scheduler.get_critical_paths().unwrap();
    let mut listings: Vec<String> = criticals.iter().map(|p| p.get_path_string()).collect();
    listings.sort();
    assert_eq!(
        listings,
        vec![
            "left(4)->done(1)->".to_string(),
            "right(4)->done(1)->".to_string(),
        ]
    );
}

#[test]
fn all_paths_of_example() {
    let mut scheduler = example_scheduler();
    scheduler.schedule().unwrap();
    let paths = scheduler.get_all_paths().unwrap();
    // the single end point fans out over its two dependencies
    assert_eq!(paths.len(), 2);
    let mut listings: Vec<String> = paths.iter().map(|p| p.get_path_string()).collect();
    listings.sort();
    // paths are discovered end-to-start; reversal is the caller's step
    assert_eq!(
        listings,
        vec![
            "Finish(1)->Sidetask_B(3)->Task_A(1)->".to_string(),
            "Finish(1)->Sidetask_C(2)->".to_string(),
        ]
    );
}

#[test]
fn cyclic_graph_is_reported() {
    let mut scheduler = Scheduler::new();
    scheduler
        .add_task(CustomTask::new(
            "first".to_string(),
            1,
            vec!["second".to_string()],
        ))
        .unwrap();
    scheduler
        .add_task(CustomTask::new(
            "second".to_string(),
            1,
            vec!["first".to_string()],
        ))
        .unwrap();
    assert!(matches!(
        scheduler.schedule(),
        Err(CpmError::CycleDetected)
    ));
    assert!(matches!(
        scheduler.get_parallelism(),
        Err(CpmError::StateMismatch)
    ));
}

#[test]
fn empty_scheduler_schedules_to_zero_parallelism() {
    let mut scheduler = Scheduler::new();
    scheduler.schedule().unwrap();
    assert!(matches!(scheduler.get_parallelism(), Ok(0)));
    assert!(scheduler.get_critical_paths().unwrap().is_empty());
}

#[test]
fn chain_has_parallelism_one() {
    let mut scheduler = Scheduler::new();
    scheduler
        .add_task(CustomTask::new("one".to_string(), 2, vec![]))
        .unwrap();
    scheduler
        .add_task(CustomTask::new(
            "two".to_string(),
            3,
            vec!["one".to_string()],
        ))
        .unwrap();
    scheduler
        .add_task(CustomTask::new(
            "three".to_string(),
            4,
            vec!["two".to_string()],
        ))
        .unwrap();
    scheduler.schedule().unwrap();
    assert!(matches!(scheduler.get_parallelism(), Ok(1)));
}

#[test]
fn fill_tasklist_replaces_or_rejects() {
    let mut scheduler = example_scheduler();
    let bad = vec![
        CustomTask::new("x".to_string(), 1, vec![]),
        CustomTask::new("x".to_string(), 2, vec![]),
    ];
    match scheduler.fill_tasklist(bad) {
        Err(CpmError::DuplicateId(id)) => assert_eq!(id, "x"),
        other => panic!("expected a duplicate report, got {:?}", other),
    }
    // the rejected load left the old store in place
    assert!(scheduler.get_task_by_name(&"Task_A".to_string()).is_some());
    let good = vec![
        CustomTask::new("y".to_string(), 1, vec![]),
        CustomTask::new("z".to_string(), 2, vec!["y".to_string()]),
    ];
    scheduler.fill_tasklist(good).unwrap();
    assert!(scheduler.get_task_by_name(&"Task_A".to_string()).is_none());
    assert!(scheduler.get_task_by_name(&"y".to_string()).is_some());
    scheduler.schedule().unwrap();
    let z = scheduler.get_task_by_name(&"z".to_string()).unwrap();
    assert_eq!(z.get_early_start(), Some(1));
    assert_eq!(z.get_early_finish(), Some(3));
}

#[test]
fn mutable_lookup_edits_one_task() {
    let mut scheduler = example_scheduler();
    {
        let a = scheduler
            .get_mut_task_by_name(&"Task_A".to_string())
            .unwrap();
        a.set_duration(2);
    }
    assert!(scheduler
        .get_mut_task_by_name(&"missing".to_string())
        .is_none());
    scheduler.schedule().unwrap();
    let finish = scheduler.get_task_by_name(&"Finish".to_string()).unwrap();
    assert_eq!(finish.get_early_start(), Some(5));
    assert_eq!(finish.get_early_finish(), Some(6));
}

#[test]
fn calculate_computes_like_schedule() {
    let mut scheduler = example_scheduler();
    scheduler.calculate().unwrap();
    let finish = scheduler.get_task_by_name(&"Finish".to_string()).unwrap();
    assert_eq!(finish.get_early_start(), Some(4));
    assert_eq!(finish.get_early_finish(), Some(5));
    assert!(matches!(scheduler.get_parallelism(), Ok(2)));
}

#[test]
fn paths_from_a_task_walk_its_dependencies() {
    let scheduler = example_scheduler();
    let finish = scheduler
        .get_task_by_name(&"Finish".to_string())
        .unwrap()
        .duplicate();
    let paths = scheduler.get_paths_from_task(&finish, 0).unwrap();
    let mut listings: Vec<String> = paths.iter().map(|p| p.get_path_string()).collect();
    listings.sort();
    assert_eq!(
        listings,
        vec![
            "Finish(1)->Sidetask_B(3)->Task_A(1)->".to_string(),
            "Finish(1)->Sidetask_C(2)->".to_string(),
        ]
    );
    let a = scheduler
        .get_task_by_name(&"Task_A".to_string())
        .unwrap()
        .duplicate();
    let from_start = scheduler.get_paths_from_task(&a, 0).unwrap();
    assert_eq!(from_start.len(), 1);
    assert_eq!(from_start[0].get_path_string(), "Task_A(1)->");
}

#[test]
fn repeated_dependency_names_yield_one_walk_each() {
    let mut scheduler = Scheduler::new();
    scheduler
        .add_task(CustomTask::new("base".to_string(), 2, vec![]))
        .unwrap();
    scheduler
        .add_task(CustomTask::new(
            "top".to_string(),
            1,
            vec!["base".to_string(), "base".to_string()],
        ))
        .unwrap();
    scheduler.schedule().unwrap();
    let paths = scheduler.get_all_paths().unwrap();
    // the repeated name resolves to the same dependency, so only one
    // distinct walk exists
    assert_eq!(paths.len(), 1);
    assert_eq!(paths[0].get_path_string(), "top(1)->base(2)->");
}

#[test]
fn zero_duration_end_point_is_out_of_range() {
    // the late finish of an end point equals its early finish, and a
    // late finish of zero is not representable
    let mut scheduler = Scheduler::new();
    scheduler
        .add_task(CustomTask::new("only".to_string(), 0, vec![]))
        .unwrap();
    assert!(matches!(
        scheduler.schedule(),
        Err(CpmError::ValueOutOfRange)
    ));
}
