use rss_bot::identity::{entry_id, entry_link, entry_title, FeedEntry, FeedLink};

fn empty_entry() -> FeedEntry {
    FeedEntry {
        id: String::new(),
        links: Vec::new(),
        title: None,
        summary: None,
        content: None,
        published: None,
    }
}

#[test]
fn identity_is_stable() {
    let e = FeedEntry {
        id: String::new(),
        links: vec![FeedLink { href: "https://e.example/a".to_string(), rel: None }],
        title: Some("Title".to_string()),
        summary: Some("Sum".to_string()),
        content: Some("Body".to_string()),
        published: Some(1700000000),
    };
    assert_eq!(entry_id(&e), entry_id(&e));
}

#[test]
fn identity_prefers_upstream_id() {
    let e = FeedEntry {
        id: "abc-123".to_string(),
        links: vec![FeedLink { href: "https://e.example/a".to_string(), rel: None }],
        title: Some("Title".to_string()),
        summary: Some("Sum".to_string()),
        content: Some("Body".to_string()),
        published: Some(1700000000),
    };
    assert_eq!(entry_id(&e), "guid:abc-123");
}

#[test]
fn identity_from_link_and_timestamp() {
    let mut e = empty_entry();
    e.links = vec![FeedLink { href: "https://e.example/a".to_string(), rel: None }];
    e.published = Some(1700000000);
    assert_eq!(entry_id(&e), "link:https://e.example/a:1700000000");
}

#[test]
fn identity_from_link_with_negative_timestamp() {
    let mut e = empty_entry();
    e.links = vec![FeedLink {
        href: "https://e.example/a".to_string(),
        rel: Some("alternate".to_string()),
    }];
    e.published = Some(-5);
    assert_eq!(entry_id(&e), "link:https://e.example/a:-5");
}

#[test]
fn identity_skips_non_alternate_links() {
    let mut e = empty_entry();
    e.links = vec![
        FeedLink { href: "https://e.example/enc".to_string(), rel: Some("enclosure".to_string()) },
        FeedLink { href: "https://e.example/a".to_string(), rel: None },
    ];
    e.published = Some(7);
    assert_eq!(entry_id(&e), "link:https://e.example/a:7");
}

#[test]
fn identity_from_title_and_timestamp() {
    let mut e = empty_entry();
    e.title = Some("Hello".to_string());
    e.published = Some(1700000001);
    assert_eq!(entry_id(&e), "titlepub:Hello1700000001");
}

#[test]
fn identity_hash_of_empty_entry() {
    let e = empty_entry();
    // SHA-1 of the empty byte string.
    assert_eq!(entry_id(&e), "sha1:da39a3ee5e6b4b0d3255bfef95601890afd80709");
}

#[test]
fn identity_hash_shape_with_fields() {
    let mut e = empty_entry();
    e.links = vec![FeedLink { href: "https://e.example/a".to_string(), rel: None }];
    // no published timestamp: the link rule cannot apply, the hash rule does
    let id = entry_id(&e);
    assert!(id.starts_with("sha1:"));
    assert_eq!(id.len(), 45);
}

#[test]
fn title_placeholder_when_absent_or_blank() {
    let mut e = empty_entry();
    assert_eq!(entry_title(&e), "[no title]");
    e.title = Some("   \t ".to_string());
    assert_eq!(entry_title(&e), "[no title]");
    e.title = Some("Real".to_string());
    assert_eq!(entry_title(&e), "Real");
}

#[test]
fn link_prefers_alternate_then_first_then_empty() {
    let mut e = empty_entry();
    assert_eq!(entry_link(&e), "");
    e.links = vec![
        FeedLink { href: "https://e.example/enc".to_string(), rel: Some("enclosure".to_string()) },
        FeedLink { href: "https://e.example/x".to_string(), rel: Some("self".to_string()) },
    ];
    assert_eq!(entry_link(&e), "https://e.example/enc");
    e.links.push(FeedLink { href: "https://e.example/a".to_string(), rel: None });
    assert_eq!(entry_link(&e), "https://e.example/a");
}
