use run_on_filechange::EventKind;
use run_on_filechange::GRACE_MS;
use run_on_filechange::Op;
use run_on_filechange::Supervisor;

#[test]
fn create_triggers_spawn() {
    let mut s = Supervisor::new();
    let plan = s.on_event(EventKind::Create, 0);
    assert_eq!(plan, vec![Op::Spawn]);
    assert_eq!(s.last_trigger, Some(0));
    assert_eq!(s.child, None);
}

#[test]
fn modify_and_remove_trigger() {
    let mut s = Supervisor::new();
    let plan = s.on_event(EventKind::Modify, 5);
    assert_eq!(plan, vec![Op::Spawn]);

    let mut s2 = Supervisor::new();
    let plan2 = s2.on_event(EventKind::Remove, 5);
    assert_eq!(plan2, vec![Op::Spawn]);
}

#[test]
fn other_never_triggers() {
    let mut s = Supervisor::new();
    let plan = s.on_event(EventKind::Other, 0);
    assert!(plan.is_empty());
    assert_eq!(s.last_trigger, None);
    assert_eq!(s.child, None);

    // Still ignored long after any quiet window has elapsed.
    let plan = s.on_event(EventKind::Other, 1_000_000);
    assert!(plan.is_empty());
    assert_eq!(s.last_trigger, None);
}

#[test]
fn restart_plan_shape() {
    let mut s = Supervisor::new();
    let plan = s.on_event(EventKind::Create, 1000);
    assert_eq!(plan, vec![Op::Spawn]);
    s.record_spawn(42);
    assert_eq!(s.child, Some(42));

    let plan = s.on_event(EventKind::Modify, 9000);
    assert_eq!(
        plan,
        vec![
            Op::SignalGroup { pgid: -42 },
            Op::Reap { pid: 42 },
            Op::Sleep { ms: GRACE_MS },
            Op::Spawn,
        ]
    );
    assert_eq!(s.child, None);
    assert_eq!(s.last_trigger, Some(9000));
}

#[test]
fn burst_coalesced_to_one_run() {
    // Two touches 100 ms apart: only the first spawns.
    let mut s = Supervisor::new();
    let plan = s.on_event(EventKind::Modify, 1000);
    assert_eq!(plan, vec![Op::Spawn]);
    s.record_spawn(7);

    let plan = s.on_event(EventKind::Modify, 1100);
    assert!(plan.is_empty());
    assert_eq!(s.last_trigger, Some(1000));
    assert_eq!(s.child, Some(7));
}

#[test]
fn debounce_window_boundary() {
    let mut s = Supervisor::new();
    assert_eq!(s.on_event(EventKind::Modify, 1000), vec![Op::Spawn]);

    // One millisecond short of the quiet window: rejected.
    let mut early = s;
    assert!(early.on_event(EventKind::Modify, 8999).is_empty());

    // Exactly at the quiet window: accepted.
    let plan = early.on_event(EventKind::Modify, 9000);
    assert_eq!(plan, vec![Op::Spawn]);
}
