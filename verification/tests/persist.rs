use rss_bot::dedup::DedupState;
use rss_bot::persist::{decode_state, encode_state, load_state, LoadError};
use rss_bot::store::{temp_path_for, SnapshotStore};

#[test]
fn test_save_and_load_state_atomic() {
    let mut state = DedupState::new();
    let url = "https://example.com/feed.xml";
    state.ensure_feed(url);
    state.mark_sent(url, "abc".to_string(), 10);

    let mut store = SnapshotStore::new();
    store.save(encode_state(&state));

    let bytes = store.target.as_ref().unwrap();
    let loaded = load_state(Some(bytes)).ok().expect("load should succeed");
    let dq = loaded.record(url).unwrap();
    assert!(dq.contains(&"abc".to_string()));
}

#[test]
fn round_trip_empty_state() {
    let state = DedupState::new();
    let bytes = encode_state(&state);
    assert_eq!(bytes, b"{\"seen_per_feed\":{}}".to_vec());
    let loaded = decode_state(&bytes).unwrap();
    assert_eq!(loaded.feeds.len(), 0);
}

#[test]
fn round_trip_multiple_feeds_keeps_order() {
    let mut state = DedupState::new();
    state.ensure_feed("https://a.example/f");
    state.mark_sent("https://a.example/f", "a1".to_string(), 10);
    state.mark_sent("https://a.example/f", "a2".to_string(), 10);
    state.ensure_feed("https://b.example/f");
    state.mark_sent("https://c.example/f", "c1".to_string(), 10);

    let bytes = encode_state(&state);
    let loaded = decode_state(&bytes).unwrap();
    assert_eq!(loaded.feeds.len(), 3);
    assert_eq!(loaded.feeds[0].url, "https://a.example/f");
    assert_eq!(loaded.feeds[0].ids, vec!["a1".to_string(), "a2".to_string()]);
    assert_eq!(loaded.feeds[1].url, "https://b.example/f");
    assert!(loaded.feeds[1].ids.is_empty());
    assert_eq!(loaded.feeds[2].url, "https://c.example/f");
    assert_eq!(loaded.feeds[2].ids, vec!["c1".to_string()]);
}

#[test]
fn round_trip_escapes_quotes_and_backslashes() {
    let mut state = DedupState::new();
    let url = "https://a.example/f";
    let tricky = "a\"b\\c\nd".to_string();
    state.mark_sent(url, tricky.clone(), 10);
    let bytes = encode_state(&state);
    let loaded = decode_state(&bytes).unwrap();
    assert!(loaded.seen(url, &tricky));
}

#[test]
fn missing_snapshot_means_empty_state() {
    let loaded = load_state(None).ok().unwrap();
    assert_eq!(loaded.feeds.len(), 0);
}

#[test]
fn corrupt_snapshot_is_an_error() {
    let garbage = b"{\"seen_per_feed\":{".to_vec();
    assert!(matches!(load_state(Some(&garbage)), Err(LoadError::Corrupt)));
    let trailing = b"{\"seen_per_feed\":{}} ".to_vec();
    assert!(matches!(load_state(Some(&trailing)), Err(LoadError::Corrupt)));
}

#[test]
fn invalid_utf8_in_snapshot_is_rejected() {
    let mut bytes = b"{\"seen_per_feed\":{\"u\":[\"".to_vec();
    bytes.push(0xFF);
    bytes.extend_from_slice(b"\"]}}");
    assert!(decode_state(&bytes).is_none());
}

#[test]
fn duplicate_feed_keys_are_rejected() {
    let dup = b"{\"seen_per_feed\":{\"u\":[],\"u\":[]}}".to_vec();
    assert!(decode_state(&dup).is_none());
}

#[test]
fn interrupted_save_leaves_target_intact() {
    let mut state = DedupState::new();
    state.mark_sent("https://a.example/f", "old".to_string(), 10);
    let mut store = SnapshotStore::new();
    store.save(encode_state(&state));

    // a later save is interrupted before the rename: only the temporary
    // file has been written
    state.mark_sent("https://a.example/f", "new".to_string(), 10);
    store.write_temp(b"partial garbage".to_vec());

    let bytes = store.target.as_ref().unwrap();
    let loaded = load_state(Some(bytes)).ok().expect("prior snapshot must stay loadable");
    assert!(loaded.seen("https://a.example/f", "old"));
    assert!(!loaded.seen("https://a.example/f", "new"));

    // completing the rename installs the new contents all at once
    store.rename_temp();
    assert_eq!(store.target.as_ref().unwrap(), &b"partial garbage".to_vec());
}

#[test]
fn temp_path_replaces_extension() {
    assert_eq!(temp_path_for("state.json"), "state.tmp");
    assert_eq!(temp_path_for("dir/state.json"), "dir/state.tmp");
    assert_eq!(temp_path_for("state"), "state.tmp");
    assert_eq!(temp_path_for("dir.d/state"), "dir.d/state.tmp");
    assert_eq!(temp_path_for(".bashrc"), ".bashrc.tmp");
}
