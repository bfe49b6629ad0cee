use rss_bot::dedup::DedupState;

#[test]
fn test_state_mark_and_dedup_limit() {
    let mut state = DedupState::new();
    let url = "https://example.com/feed.xml";
    state.ensure_feed(url);

    // add items beyond dedup limit and ensure oldest dropped
    let dedup_limit = 3usize;
    state.mark_sent(url, "id1".to_string(), dedup_limit);
    state.mark_sent(url, "id2".to_string(), dedup_limit);
    state.mark_sent(url, "id3".to_string(), dedup_limit);
    state.mark_sent(url, "id4".to_string(), dedup_limit);

    let dq = state.record(url).unwrap();
    assert_eq!(dq.len(), dedup_limit);
    assert!(!dq.contains(&"id1".to_string()));
    assert!(dq.contains(&"id4".to_string()));
}

#[test]
fn window_keeps_most_recent_in_order() {
    let mut state = DedupState::new();
    let url = "https://example.com/feed.xml";
    state.mark_sent(url, "id1".to_string(), 3);
    state.mark_sent(url, "id2".to_string(), 3);
    state.mark_sent(url, "id3".to_string(), 3);
    state.mark_sent(url, "id4".to_string(), 3);
    let dq = state.record(url).unwrap();
    assert_eq!(dq, &vec!["id2".to_string(), "id3".to_string(), "id4".to_string()]);
}

#[test]
fn mark_is_idempotent() {
    let mut state = DedupState::new();
    let url = "https://example.com/feed.xml";
    state.mark_sent(url, "a".to_string(), 5);
    state.mark_sent(url, "b".to_string(), 5);
    let before = state.record(url).unwrap().clone();
    state.mark_sent(url, "a".to_string(), 5);
    state.mark_sent(url, "b".to_string(), 5);
    let after = state.record(url).unwrap();
    assert_eq!(&before, after);
}

#[test]
fn ensure_feed_is_idempotent_and_isolated() {
    let mut state = DedupState::new();
    state.mark_sent("https://a.example/f", "x".to_string(), 4);
    state.ensure_feed("https://b.example/f");
    state.ensure_feed("https://b.example/f");
    assert_eq!(state.record("https://b.example/f").unwrap().len(), 0);
    assert!(state.seen("https://a.example/f", "x"));
    assert!(!state.seen("https://b.example/f", "x"));
    assert!(!state.seen("https://missing.example/f", "x"));
}

#[test]
fn zero_window_keeps_nothing() {
    let mut state = DedupState::new();
    let url = "https://example.com/feed.xml";
    state.mark_sent(url, "only".to_string(), 0);
    assert_eq!(state.record(url).unwrap().len(), 0);
    assert!(!state.seen(url, "only"));
}
