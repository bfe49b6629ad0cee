use rss_bot::config::{dequote, parse_i64, parse_u64, trim, Config, ConfigError};

#[test]
fn test_dequote() {
    assert_eq!(dequote("'abc'"), "abc");
    assert_eq!(dequote("\"xyz\""), "xyz");
    assert_eq!(dequote("noquotes"), "noquotes");
}

#[test]
fn test_config_from_env() {
    let cfg = Config::from_values(
        "tokentest".to_string(),
        "12345",
        "https://example.com/feed.xml",
        None,
        None,
        None,
    )
    .ok()
    .expect("Config should parse from env");
    assert_eq!(cfg.token, "tokentest");
    assert_eq!(cfg.chat_id, 12345);
    assert!(!cfg.feeds.is_empty());
}

#[test]
fn dequote_trims_before_unquoting() {
    assert_eq!(dequote("  'a b'  "), "a b");
    assert_eq!(dequote("  plain  "), "plain");
    assert_eq!(trim("\t x \n"), "x");
}

#[test]
fn numeral_parsing_is_strict() {
    assert_eq!(parse_u64("0"), Some(0));
    assert_eq!(parse_u64("18446744073709551615"), Some(u64::MAX));
    assert_eq!(parse_u64("18446744073709551616"), None);
    assert_eq!(parse_u64(""), None);
    assert_eq!(parse_u64("12a"), None);
    assert_eq!(parse_i64("-1"), Some(-1));
    assert_eq!(parse_i64("-9223372036854775808"), Some(i64::MIN));
    assert_eq!(parse_i64("9223372036854775807"), Some(i64::MAX));
    assert_eq!(parse_i64("9223372036854775808"), None);
    assert_eq!(parse_i64("-"), None);
}

#[test]
fn bad_chat_id_is_fatal() {
    let r = Config::from_values(
        "t".to_string(),
        "abc",
        "https://example.com/feed.xml",
        None,
        None,
        None,
    );
    assert!(matches!(r, Err(ConfigError::BadChatId)));
}

#[test]
fn invalid_feed_url_is_fatal() {
    let r = Config::from_values("t".to_string(), "1", "notaurl", None, None, None);
    assert!(matches!(r, Err(ConfigError::BadFeed(_))));
}

#[test]
fn unsupported_scheme_is_fatal() {
    let r = Config::from_values("t".to_string(), "1", "ftp://example.com/f", None, None, None);
    assert!(matches!(r, Err(ConfigError::BadFeed(_))));
}

#[test]
fn empty_feed_list_is_fatal() {
    let r = Config::from_values("t".to_string(), "1", "  , ; \n ", None, None, None);
    assert!(matches!(r, Err(ConfigError::NoFeeds)));
}

#[test]
fn feed_list_splits_on_separators_and_dequotes() {
    let cfg = Config::from_values(
        "t".to_string(),
        "-100200",
        "https://a.example/f , 'https://b.example/g';\n\"https://c.example/h\"",
        None,
        None,
        None,
    )
    .ok()
    .unwrap();
    assert_eq!(cfg.chat_id, -100200);
    assert_eq!(cfg.feeds, vec![
        "https://a.example/f".to_string(),
        "https://b.example/g".to_string(),
        "https://c.example/h".to_string(),
    ]);
}

#[test]
fn feed_urls_are_canonicalized() {
    let cfg = Config::from_values(
        "t".to_string(),
        "1",
        "https://example.com",
        None,
        None,
        None,
    )
    .ok()
    .unwrap();
    assert_eq!(cfg.feeds, vec!["https://example.com/".to_string()]);
}

#[test]
fn limits_and_interval_fall_back_to_defaults() {
    let cfg = Config::from_values(
        "t".to_string(),
        "1",
        "https://example.com/f",
        None,
        None,
        None,
    )
    .ok()
    .unwrap();
    assert_eq!(cfg.dedup_limit, 200);
    assert_eq!(cfg.poll_every_minutes, 5);
    assert_eq!(cfg.state_file, "state.json");

    let cfg2 = Config::from_values(
        "t".to_string(),
        "1",
        "https://example.com/f",
        Some("17"),
        Some("30"),
        Some("elsewhere/state.json".to_string()),
    )
    .ok()
    .unwrap();
    assert_eq!(cfg2.dedup_limit, 17);
    assert_eq!(cfg2.poll_every_minutes, 30);
    assert_eq!(cfg2.state_file, "elsewhere/state.json");

    let cfg3 = Config::from_values(
        "t".to_string(),
        "1",
        "https://example.com/f",
        Some("nonsense"),
        Some("-3"),
        None,
    )
    .ok()
    .unwrap();
    assert_eq!(cfg3.dedup_limit, 200);
    assert_eq!(cfg3.poll_every_minutes, 5);
}
