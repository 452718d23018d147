use gh_notify_bridge::state::{AppState, PersistedState};

#[test]
fn starts_empty() {
    let app = AppState::new("tok".to_string(), PersistedState::empty());
    assert_eq!(app.get_endpoint(), None);
    assert_eq!(app.get_last_poll(), None);
    assert_eq!(app.github_token, "tok");
}

#[test]
fn loaded_state_is_kept() {
    let loaded = PersistedState {
        endpoint: Some("https://push.example/a".to_string()),
        last_poll: Some("2024-01-13T12:00:00Z".to_string()),
    };
    let app = AppState::new("tok".to_string(), loaded);
    assert_eq!(app.get_endpoint().as_deref(), Some("https://push.example/a"));
    assert_eq!(app.get_last_poll().as_deref(), Some("2024-01-13T12:00:00Z"));
}

#[test]
fn last_endpoint_written_wins() {
    let mut app = AppState::new("tok".to_string(), PersistedState::default());
    app.set_endpoint("https://push.example/a".to_string());
    app.set_endpoint("https://push.example/b".to_string());
    assert_eq!(app.get_endpoint().as_deref(), Some("https://push.example/b"));
    assert_eq!(app.get_last_poll(), None);
}

#[test]
fn setters_touch_one_field() {
    let mut app = AppState::new("tok".to_string(), PersistedState::empty());
    app.set_endpoint("https://push.example/a".to_string());
    app.set_last_poll("2024-01-13T12:00:00Z".to_string());
    let snap = app.snapshot();
    assert_eq!(snap.endpoint.as_deref(), Some("https://push.example/a"));
    assert_eq!(snap.last_poll.as_deref(), Some("2024-01-13T12:00:00Z"));
    app.set_last_poll("2024-01-13T12:05:00Z".to_string());
    assert_eq!(app.get_endpoint().as_deref(), Some("https://push.example/a"));
}
