use gh_notify_bridge::pipeline::{
    begin_cycle, build_payload, finish_cycle, notifications_url, plan_batch, CycleStart, NotificationRecord,
    FIRST_POLL_WINDOW,
};
use gh_notify_bridge::state::{AppState, PersistedState};

const NOW: u64 = 1705147200; // 2024-01-13T12:00:00Z

fn rec(id: &str, unread: bool, updated_at: &str) -> NotificationRecord {
    NotificationRecord {
        id: id.to_string(),
        unread,
        reason: "mention".to_string(),
        updated_at: updated_at.to_string(),
        title: format!("Issue {}", id),
        kind: "Issue".to_string(),
        repo: "octo/repo".to_string(),
    }
}

fn app_with(endpoint: Option<&str>, last_poll: Option<&str>) -> AppState {
    AppState::new(
        "tok".to_string(),
        PersistedState {
            endpoint: endpoint.map(|s| s.to_string()),
            last_poll: last_poll.map(|s| s.to_string()),
        },
    )
}

#[test]
fn payload_layout() {
    let p = build_payload(&rec("n7", true, "2024-01-13T12:00:00Z"));
    assert_eq!(p.title, "[octo/repo] Issue n7");
    assert_eq!(p.body, "mention: Issue");
    assert_eq!(p.reason, "mention");
    assert_eq!(p.repo, "octo/repo");
    assert_eq!(p.id, "n7");
}

#[test]
fn no_endpoint_means_no_fetch() {
    let app = app_with(None, None);
    assert!(matches!(begin_cycle(&app, NOW), CycleStart::NoEndpoint));
    let app = app_with(None, Some("2024-01-13T11:00:00Z"));
    assert!(matches!(begin_cycle(&app, NOW), CycleStart::NoEndpoint));
    let app = app_with(None, None);
    assert!(matches!(begin_cycle(&app, 0), CycleStart::NoEndpoint));
}

#[test]
fn first_poll_gets_cutoff() {
    let app = app_with(Some("https://push.example/ep1"), None);
    match begin_cycle(&app, NOW) {
        CycleStart::Fetch { endpoint, since, cutoff } => {
            assert_eq!(endpoint, "https://push.example/ep1");
            assert_eq!(since, None);
            assert_eq!(cutoff.as_deref(), Some("2024-01-13T11:59:00Z"));
        }
        CycleStart::NoEndpoint => panic!("expected a fetch"),
    }
}

#[test]
fn later_poll_fetches_since_cursor() {
    let app = app_with(Some("https://push.example/ep1"), Some("2024-01-13T11:00:00Z"));
    match begin_cycle(&app, NOW) {
        CycleStart::Fetch { since, cutoff, .. } => {
            assert_eq!(since.as_deref(), Some("2024-01-13T11:00:00Z"));
            assert_eq!(cutoff, None);
        }
        CycleStart::NoEndpoint => panic!("expected a fetch"),
    }
}

#[test]
fn read_notifications_are_excluded() {
    let mut app = app_with(Some("https://push.example/ep1"), Some("2024-01-13T11:00:00Z"));
    let batch = vec![
        rec("a", false, "2024-01-13T11:30:00Z"),
        rec("b", false, "2024-01-13T11:40:00Z"),
    ];
    let plan = plan_batch(&batch, &None);
    assert!(plan.pushes.is_empty());
    assert_eq!(plan.latest, None);
    assert_eq!(plan.skipped, 0);
    finish_cycle(&mut app, plan.latest);
    assert_eq!(app.get_last_poll().as_deref(), Some("2024-01-13T11:00:00Z"));
}

#[test]
fn first_poll_cutoff_holds_back_old_records() {
    let app = app_with(Some("https://push.example/ep1"), None);
    let cut = match begin_cycle(&app, NOW) {
        CycleStart::Fetch { cutoff, .. } => cutoff,
        CycleStart::NoEndpoint => panic!("expected a fetch"),
    };
    let batch = vec![
        rec("old", true, "2024-01-13T11:58:00Z"),
        rec("new", true, "2024-01-13T11:59:50Z"),
    ];
    let plan = plan_batch(&batch, &cut);
    assert_eq!(plan.pushes.len(), 1);
    assert_eq!(plan.pushes[0].id, "new");
    assert_eq!(plan.skipped, 1);
    assert_eq!(plan.latest.as_deref(), Some("2024-01-13T11:59:50Z"));
}

#[test]
fn cutoff_skipped_record_still_advances_cursor() {
    let cut = Some("2024-01-13T11:59:00Z".to_string());
    let batch = vec![
        rec("new", true, "2024-01-13T11:59:50Z"),
        rec("old", true, "2024-01-13T11:58:00Z"),
        rec("older", true, "2024-01-13T12:00:30Z"),
    ];
    let plan = plan_batch(&batch, &cut);
    assert_eq!(plan.pushes.len(), 2);
    assert_eq!(plan.pushes[0].id, "new");
    assert_eq!(plan.pushes[1].id, "older");
    assert_eq!(plan.latest.as_deref(), Some("2024-01-13T12:00:30Z"));
}

#[test]
fn empty_batch_changes_nothing() {
    let mut app = app_with(Some("https://push.example/ep1"), Some("2024-01-13T11:00:00Z"));
    let plan = plan_batch(&Vec::new(), &None);
    assert!(plan.pushes.is_empty());
    assert_eq!(plan.latest, None);
    finish_cycle(&mut app, plan.latest);
    assert_eq!(app.get_endpoint().as_deref(), Some("https://push.example/ep1"));
    assert_eq!(app.get_last_poll().as_deref(), Some("2024-01-13T11:00:00Z"));
}

#[test]
fn equal_timestamps_keep_first() {
    let batch = vec![
        rec("a", true, "2024-01-13T11:30:00Z"),
        rec("b", true, "2024-01-13T11:30:00Z"),
        rec("c", false, "2024-01-13T11:50:00Z"),
    ];
    let plan = plan_batch(&batch, &None);
    assert_eq!(plan.pushes.len(), 2);
    assert_eq!(plan.latest.as_deref(), Some("2024-01-13T11:30:00Z"));
}

#[test]
fn cursor_never_decreases_over_cycles() {
    let mut app = app_with(Some("https://push.example/ep1"), Some("2024-01-13T10:00:00Z"));
    let batches = vec![
        vec![rec("a", true, "2024-01-13T10:30:00Z"), rec("b", true, "2024-01-13T10:10:00Z")],
        vec![],
        vec![rec("c", false, "2024-01-13T11:00:00Z")],
        vec![rec("d", true, "2024-01-13T10:30:00Z"), rec("e", true, "2024-01-13T10:45:00Z")],
    ];
    let mut prev = app.get_last_poll().unwrap();
    for batch in &batches {
        let plan = plan_batch(batch, &None);
        finish_cycle(&mut app, plan.latest);
        let now = app.get_last_poll().unwrap();
        assert!(prev <= now);
        prev = now;
    }
    assert_eq!(prev, "2024-01-13T10:45:00Z");
}

#[test]
fn end_to_end_first_registration() {
    let mut app = AppState::new("tok".to_string(), PersistedState::empty());
    app.set_endpoint("https://push.example/ep1".to_string());
    let (endpoint, cut) = match begin_cycle(&app, NOW) {
        CycleStart::Fetch { endpoint, since, cutoff } => {
            assert_eq!(since, None);
            (endpoint, cutoff)
        }
        CycleStart::NoEndpoint => panic!("expected a fetch"),
    };
    assert_eq!(endpoint, "https://push.example/ep1");
    let batch = vec![rec("n1", true, "2024-01-13T12:00:00Z")];
    let plan = plan_batch(&batch, &cut);
    assert_eq!(plan.pushes.len(), 1);
    assert_eq!(plan.pushes[0].id, "n1");
    finish_cycle(&mut app, plan.latest);
    assert_eq!(app.get_last_poll().as_deref(), Some("2024-01-13T12:00:00Z"));
    assert_eq!(app.get_endpoint().as_deref(), Some("https://push.example/ep1"));
}

#[test]
fn window_is_one_minute() {
    assert_eq!(FIRST_POLL_WINDOW, 60);
}

#[test]
fn fetch_target_without_cursor() {
    assert_eq!(notifications_url(&None), "https://api.github.com/notifications");
}

#[test]
fn fetch_target_with_cursor() {
    assert_eq!(
        notifications_url(&Some("2024-01-13T12:00:00Z".to_string())),
        "https://api.github.com/notifications?since=2024-01-13T12:00:00Z"
    );
}

#[test]
fn first_poll_cutoff_either_order() {
    let cut = Some(gh_notify_bridge::timestamp::cutoff(NOW, FIRST_POLL_WINDOW));
    let a = rec("a", true, &gh_notify_bridge::timestamp::format_unix_to_iso(NOW - 120));
    let b = rec("b", true, &gh_notify_bridge::timestamp::format_unix_to_iso(NOW - 10));
    let plan = plan_batch(&vec![b, a], &cut);
    assert_eq!(plan.pushes.len(), 1);
    assert_eq!(plan.pushes[0].id, "b");
    assert_eq!(plan.skipped, 1);
    assert_eq!(plan.latest.as_deref(), Some("2024-01-13T11:59:50Z"));
}
