use rss_bot::cycle::{CycleReport, FeedDoc, FeedRun};
use rss_bot::dedup::DedupState;
use rss_bot::identity::{FeedEntry, FeedLink};

fn entry_with_id(id: &str) -> FeedEntry {
    FeedEntry {
        id: id.to_string(),
        links: vec![FeedLink { href: format!("https://e.example/{}", id), rel: None }],
        title: Some(format!("Title {}", id)),
        summary: None,
        content: None,
        published: Some(1700000000),
    }
}

#[test]
fn delivery_order_is_oldest_first() {
    // upstream order is newest first: E3, E2, E1
    let doc = FeedDoc {
        title: Some("My Feed".to_string()),
        entries: vec![entry_with_id("e3"), entry_with_id("e2"), entry_with_id("e1")],
    };
    let mut state = DedupState::new();
    let url = "https://feed.example/f".to_string();
    state.ensure_feed(&url);
    let mut run = FeedRun::new(url.clone(), doc);

    let mut delivered_ids = Vec::new();
    while let Some(d) = run.next_delivery(&state) {
        delivered_ids.push(d.identity.clone());
        run.commit_delivery(&mut state, d, 100);
    }
    assert_eq!(delivered_ids, vec![
        "guid:e1".to_string(),
        "guid:e2".to_string(),
        "guid:e3".to_string(),
    ]);
    assert_eq!(run.delivered_count(), 3);
    assert_eq!(run.tag().as_str(), "My Feed");
}

#[test]
fn message_text_has_tag_title_link() {
    let doc = FeedDoc { title: Some("Tagged".to_string()), entries: vec![entry_with_id("x")] };
    let state = DedupState::new();
    let mut run = FeedRun::new("https://feed.example/f".to_string(), doc);
    let d = run.next_delivery(&state).unwrap();
    assert_eq!(d.text, "[Tagged]\nTitle x\nhttps://e.example/x");
}

#[test]
fn blank_feed_title_falls_back_to_url() {
    let doc = FeedDoc { title: Some("  ".to_string()), entries: Vec::new() };
    let run = FeedRun::new("https://feed.example/f".to_string(), doc);
    assert_eq!(run.tag().as_str(), "https://feed.example/f");
}

#[test]
fn seen_entries_are_skipped_without_delivery() {
    let mut state = DedupState::new();
    let url = "https://feed.example/f".to_string();
    state.mark_sent(&url, "guid:e2".to_string(), 100);
    let doc = FeedDoc {
        title: None,
        entries: vec![entry_with_id("e3"), entry_with_id("e2"), entry_with_id("e1")],
    };
    let mut run = FeedRun::new(url, doc);
    let mut ids = Vec::new();
    while let Some(d) = run.next_delivery(&state) {
        ids.push(d.identity.clone());
        run.commit_delivery(&mut state, d, 100);
    }
    assert_eq!(ids, vec!["guid:e1".to_string(), "guid:e3".to_string()]);
}

#[test]
fn failed_delivery_is_not_marked_and_retried_next_cycle() {
    let mut state = DedupState::new();
    let url = "https://feed.example/f".to_string();
    let doc = FeedDoc {
        title: None,
        entries: vec![entry_with_id("e2"), entry_with_id("e1")],
    };
    let mut run = FeedRun::new(url.clone(), doc);

    // first delivery fails: do not commit, just ask again
    let first = run.next_delivery(&state).unwrap();
    assert_eq!(first.identity, "guid:e1");
    let second = run.next_delivery(&state).unwrap();
    assert_eq!(second.identity, "guid:e2");
    run.commit_delivery(&mut state, second, 100);
    assert!(run.next_delivery(&state).is_none());
    assert_eq!(run.delivered_count(), 1);

    // the failed entry is still unseen and comes back in a later cycle
    assert!(!state.seen(&url, "guid:e1"));
    let doc2 = FeedDoc { title: None, entries: vec![entry_with_id("e2"), entry_with_id("e1")] };
    let mut run2 = FeedRun::new(url, doc2);
    let retry = run2.next_delivery(&state).unwrap();
    assert_eq!(retry.identity, "guid:e1");
}

#[test]
fn failed_feed_leaves_its_record_untouched() {
    let mut state = DedupState::new();
    let a = "https://a.example/f".to_string();
    let b = "https://b.example/f".to_string();
    let c = "https://c.example/f".to_string();

    // feed B had a delivery in an earlier cycle
    state.mark_sent(&b, "guid:old".to_string(), 100);
    let b_before = state.record(&b).unwrap().clone();

    let mut report = CycleReport::new();
    for url in [a.clone(), b.clone(), c.clone()] {
        state.ensure_feed(&url);
        // feed B's fetch fails: no run is built, the error only goes into
        // the log, and the loop moves on
        if url == b {
            continue;
        }
        let doc = FeedDoc { title: None, entries: vec![entry_with_id("n1")] };
        let mut run = FeedRun::new(url.clone(), doc);
        while let Some(d) = run.next_delivery(&state) {
            run.commit_delivery(&mut state, d, 100);
        }
        report.add_feed(run.tag().as_str(), run.delivered_count());
    }

    assert!(state.seen(&a, "guid:n1"));
    assert!(state.seen(&c, "guid:n1"));
    assert_eq!(state.record(&b).unwrap(), &b_before);
    assert_eq!(report.total, 2);
}

#[test]
fn report_breakdown_lists_feeds_in_order() {
    let mut report = CycleReport::new();
    report.add_feed("Feed A", 1);
    report.add_feed("Feed B", 0);
    report.add_feed("Feed C", 12);
    assert_eq!(report.total, 13);
    assert_eq!(report.breakdown(), "Feed A:1, Feed B:0, Feed C:12");
}
