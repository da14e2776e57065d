use vulpini::behavior_monitor::{ActionType, BehaviorMonitor, BehaviorRecord};

const HALF_HOUR_MS: u64 = 1_800_000;

fn make_record(session_id: &str, ts: u64, action_type: ActionType, success: bool) -> BehaviorRecord {
    BehaviorRecord {
        session_id: session_id.to_string(),
        timestamp_ms: ts,
        action_type,
        duration_ms: 50,
        target: "example.com:443".to_string(),
        success,
    }
}

#[test]
fn test_new_monitor_empty() {
    let monitor = BehaviorMonitor::new(HALF_HOUR_MS);
    let snap = monitor.snapshot();
    assert_eq!(snap.active_sessions, 0);
    assert_eq!(snap.total_patterns, 0);
    assert_eq!(snap.total_actions_tracked, 0);
}

#[test]
fn test_record_single_action() {
    let mut monitor = BehaviorMonitor::new(HALF_HOUR_MS);
    let record = make_record("sess-1", 1_000, ActionType::Connect, true);
    monitor.record_action("sess-1", &record);

    let snap = monitor.snapshot();
    assert_eq!(snap.active_sessions, 1);
    assert_eq!(snap.total_actions_tracked, 1);
}

#[test]
fn test_record_multiple_actions_same_session() {
    let mut monitor = BehaviorMonitor::new(HALF_HOUR_MS);

    for i in 0..5u64 {
        let record = make_record("sess-1", 1_000 + i, ActionType::Request, true);
        monitor.record_action("sess-1", &record);
    }

    let snap = monitor.snapshot();
    assert_eq!(snap.active_sessions, 1);
    assert_eq!(snap.total_actions_tracked, 5);
}

#[test]
fn test_record_multiple_sessions() {
    let mut monitor = BehaviorMonitor::new(HALF_HOUR_MS);

    monitor.record_action("sess-1", &make_record("sess-1", 1_000, ActionType::Connect, true));
    monitor.record_action("sess-2", &make_record("sess-2", 1_001, ActionType::Request, true));
    monitor.record_action("sess-3", &make_record("sess-3", 1_002, ActionType::Download, false));

    let snap = monitor.snapshot();
    assert_eq!(snap.active_sessions, 3);
    assert_eq!(snap.total_actions_tracked, 3);
}

#[test]
fn test_action_type_variants() {
    let _connect = ActionType::Connect;
    let _request = ActionType::Request;
    let _login = ActionType::Login;
    let _download = ActionType::Download;
    let _upload = ActionType::Upload;
}

#[test]
fn test_analyze_pattern_no_data() {
    let monitor = BehaviorMonitor::new(HALF_HOUR_MS);
    assert!(monitor.analyze_pattern("sess-1").is_none());
}

#[test]
fn test_cleanup_stale_sessions_creates_patterns() {
    // A one-millisecond timeout: the session is stale immediately.
    let mut monitor = BehaviorMonitor::new(1);

    let record = make_record("sess-1", 1_000, ActionType::Connect, true);
    monitor.record_action("sess-1", &record);

    monitor.cleanup_stale_sessions(1_005);

    let snap = monitor.snapshot();
    assert_eq!(snap.active_sessions, 0);
    assert_eq!(snap.total_patterns, 1);
}

#[test]
fn test_pattern_after_cleanup() {
    let mut monitor = BehaviorMonitor::new(1);

    for i in 0..3u64 {
        let record = BehaviorRecord {
            session_id: "sess-1".to_string(),
            timestamp_ms: 1_000,
            action_type: if i == 0 { ActionType::Connect } else { ActionType::Request },
            duration_ms: 50,
            target: "example.com:443".to_string(),
            success: i != 2, // the third action fails
        };
        monitor.record_action("sess-1", &record);
    }

    monitor.cleanup_stale_sessions(1_005);

    let pattern = monitor.analyze_pattern("sess-1");
    assert!(pattern.is_some());

    let p = pattern.unwrap();
    assert_eq!(p.session_id, "sess-1");
    assert_eq!(p.total_actions, 3);
    // Two successes out of three, in thousandths.
    assert_eq!(p.success_permille, 666);
}

#[test]
fn test_max_actions_triggers_finalization() {
    // A long timeout; only the 1000-action cap can finalize.
    let mut monitor = BehaviorMonitor::new(3_600_000);

    for i in 0..1000u64 {
        monitor.record_action("sess-1", &make_record("sess-1", 1_000 + i, ActionType::Request, true));
    }

    // The next action finalizes the full session first.
    monitor.record_action("sess-1", &make_record("sess-1", 3_000, ActionType::Request, true));

    let pattern = monitor.analyze_pattern("sess-1");
    assert!(pattern.is_some());
    let p = pattern.unwrap();
    assert_eq!(p.total_actions, 1000);
}

#[test]
fn test_snapshot_counts_all_actions() {
    let mut monitor = BehaviorMonitor::new(HALF_HOUR_MS);

    monitor.record_action("a", &make_record("a", 1_000, ActionType::Connect, true));
    monitor.record_action("a", &make_record("a", 1_001, ActionType::Request, true));
    monitor.record_action("b", &make_record("b", 1_002, ActionType::Download, true));

    let snap = monitor.snapshot();
    assert_eq!(snap.active_sessions, 2);
    assert_eq!(snap.total_actions_tracked, 3);
}

#[test]
fn test_cleanup_preserves_active_sessions() {
    let mut monitor = BehaviorMonitor::new(3_600_000);

    let record = make_record("active-1", 1_000, ActionType::Connect, true);
    monitor.record_action("active-1", &record);

    // Well within the hour-long timeout: nothing is finalized.
    monitor.cleanup_stale_sessions(2_000);

    let snap = monitor.snapshot();
    assert_eq!(snap.active_sessions, 1);
    assert_eq!(snap.total_patterns, 0);
}

#[test]
fn test_action_distribution_in_pattern() {
    let mut monitor = BehaviorMonitor::new(1);

    // 3 Connect, 2 Request, 1 Download, all at the same moment.
    for _ in 0..3 {
        monitor.record_action("sess-1", &make_record("sess-1", 1_000, ActionType::Connect, true));
    }
    for _ in 0..2 {
        monitor.record_action("sess-1", &make_record("sess-1", 1_000, ActionType::Request, true));
    }
    monitor.record_action("sess-1", &make_record("sess-1", 1_000, ActionType::Download, true));

    monitor.cleanup_stale_sessions(1_005);

    let pattern = monitor.analyze_pattern("sess-1").unwrap();
    assert_eq!(pattern.total_actions, 6);

    let find = |at: ActionType| -> u32 {
        pattern
            .action_distribution
            .iter()
            .find(|(t, _)| *t == at)
            .map(|(_, c)| *c)
            .unwrap_or(0)
    };
    assert_eq!(find(ActionType::Connect), 3);
    assert_eq!(find(ActionType::Request), 2);
    assert_eq!(find(ActionType::Download), 1);
    assert_eq!(find(ActionType::Upload), 0);
}

#[test]
fn test_finalized_pattern_counts_fed_records() {
    // A session finalized by idleness condenses exactly the records fed
    // before the finalizing action.
    let mut monitor = BehaviorMonitor::new(100);

    monitor.record_action("s", &make_record("s", 1_000, ActionType::Connect, true));
    monitor.record_action("s", &make_record("s", 1_050, ActionType::Request, true));
    // Far past the idle timeout: the two records above become the pattern,
    // and this action opens a fresh run.
    monitor.record_action("s", &make_record("s", 2_000, ActionType::Request, true));

    let p = monitor.analyze_pattern("s").unwrap();
    assert_eq!(p.total_actions, 2);
    assert_eq!(p.start_time_ms, 1_000);
    assert_eq!(p.last_activity_ms, 1_050);
    assert_eq!(p.total_duration_ms, 50);

    let snap = monitor.snapshot();
    assert_eq!(snap.active_sessions, 1);
    assert_eq!(snap.total_actions_tracked, 1);
}
