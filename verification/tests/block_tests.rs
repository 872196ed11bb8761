use netctl::block::{
    apply_blocks, parse_duration, parse_signed, run, still_stands, BlockDuration, BlockRequest,
    BlockState, BlockedDomain, DurationUnit, Instant,
};

fn block(domain: &str, expires_at: Option<&str>) -> BlockedDomain {
    BlockedDomain { domain: domain.to_string(), expires_at: expires_at.map(|s| s.to_string()) }
}

fn names(state: &BlockState) -> Vec<&str> {
    state.domains.iter().map(|d| d.domain.as_str()).collect()
}

#[test]
fn durations_with_units() {
    assert_eq!(parse_duration("2h"), Some(BlockDuration { amount: 2, unit: DurationUnit::Hours }));
    assert_eq!(parse_duration("30m"), Some(BlockDuration { amount: 30, unit: DurationUnit::Minutes }));
    assert_eq!(parse_duration("45s"), Some(BlockDuration { amount: 45, unit: DurationUnit::Seconds }));
    assert_eq!(parse_duration(" 2H "), Some(BlockDuration { amount: 2, unit: DurationUnit::Hours }));
    assert_eq!(parse_duration("-1m"), Some(BlockDuration { amount: -1, unit: DurationUnit::Minutes }));
}

#[test]
fn durations_without_unit_are_hours() {
    assert_eq!(parse_duration("3"), Some(BlockDuration { amount: 3, unit: DurationUnit::Hours }));
    assert_eq!(parse_duration("+3"), Some(BlockDuration { amount: 3, unit: DurationUnit::Hours }));
}

#[test]
fn durations_that_are_no_number() {
    assert_eq!(parse_duration(""), None);
    assert_eq!(parse_duration("h"), None);
    assert_eq!(parse_duration("2 h"), None);
    assert_eq!(parse_duration("1.5h"), None);
    assert_eq!(parse_duration("2d"), None);
    assert_eq!(parse_duration("9223372036854775808"), None);
}

#[test]
fn signed_numbers_at_the_limits() {
    let p = |s: &str| parse_signed(&s.chars().collect::<Vec<char>>());
    assert_eq!(p("9223372036854775807"), Some(i64::MAX));
    assert_eq!(p("-9223372036854775808"), Some(i64::MIN));
    assert_eq!(p("-9223372036854775809"), None);
    assert_eq!(p("-0"), Some(0));
    assert_eq!(p("-"), None);
    assert_eq!(p("+-1"), None);
}

#[test]
fn duration_in_seconds() {
    assert_eq!(BlockDuration { amount: 2, unit: DurationUnit::Hours }.seconds(), Some(7_200));
    assert_eq!(BlockDuration { amount: 30, unit: DurationUnit::Minutes }.seconds(), Some(1_800));
    assert_eq!(BlockDuration { amount: -5, unit: DurationUnit::Seconds }.seconds(), Some(-5));
    assert_eq!(BlockDuration { amount: i64::MAX, unit: DurationUnit::Hours }.seconds(), None);
    assert_eq!(BlockDuration { amount: i64::MIN, unit: DurationUnit::Minutes }.seconds(), None);
    assert_eq!(BlockDuration { amount: i64::MAX, unit: DurationUnit::Seconds }.seconds(), Some(i64::MAX));
}

#[test]
fn expired_blocks_are_dropped() {
    let mut state = BlockState {
        domains: vec![
            block("forever.example", None),
            block("past.example", Some("2020-01-01T00:00:00+00:00")),
            block("future.example", Some("2040-01-01T00:00:00+00:00")),
            block("unreadable.example", Some("tomorrow")),
            block("offset.example", Some("2030-06-01T01:00:00+02:00")),
        ],
        enabled: true,
    };
    // 2030-05-31T23:00:00Z is 1906498800 seconds after the epoch.
    state.remove_expired(Instant { seconds: 1_906_498_800, nanos: 0 });
    assert_eq!(names(&state), vec!["forever.example", "future.example", "unreadable.example"]);
    assert!(state.enabled);
}

#[test]
fn a_block_ends_exactly_at_its_end() {
    let mut state = BlockState {
        domains: vec![block("a.example", Some("2030-05-31T23:00:00.5Z"))],
        enabled: false,
    };
    state.remove_expired(Instant { seconds: 1_906_498_800, nanos: 499_999_999 });
    assert_eq!(names(&state), vec!["a.example"]);
    state.remove_expired(Instant { seconds: 1_906_498_800, nanos: 500_000_000 });
    assert!(state.domains.is_empty());
}

#[test]
fn standing_compares_seconds_then_nanoseconds() {
    let now = Instant { seconds: 100, nanos: 5 };
    assert!(still_stands(None, now));
    assert!(still_stands(Some(None), now));
    assert!(still_stands(Some(Some(Instant { seconds: 101, nanos: 0 })), now));
    assert!(still_stands(Some(Some(Instant { seconds: 100, nanos: 6 })), now));
    assert!(!still_stands(Some(Some(Instant { seconds: 100, nanos: 5 })), now));
    assert!(!still_stands(Some(Some(Instant { seconds: 99, nanos: 999_999_999 })), now));
}

#[test]
fn adding_skips_empty_and_known_domains() {
    let mut state = BlockState::empty();
    let out = state.add(" twitter.com, ,reddit.com,twitter.com", Some("2030-01-01T00:00:00Z".to_string()));
    assert_eq!(names(&state), vec!["twitter.com", "reddit.com"]);
    assert!(state.enabled);
    let got: Vec<(&str, bool)> = out.iter().map(|o| (o.domain.as_str(), o.added)).collect();
    assert_eq!(got, vec![("twitter.com", true), ("reddit.com", true), ("twitter.com", false)]);
    assert_eq!(state.domains[0].expires_at.as_deref(), Some("2030-01-01T00:00:00Z"));
    let out = state.add("reddit.com,news.example", None);
    assert_eq!(names(&state), vec!["twitter.com", "reddit.com", "news.example"]);
    assert_eq!(state.domains[1].expires_at.as_deref(), Some("2030-01-01T00:00:00Z"));
    assert_eq!(state.domains[2].expires_at, None);
    assert_eq!(out.len(), 2);
}

#[test]
fn removing_says_whether_the_domain_was_blocked() {
    let mut state = BlockState { domains: vec![block("a.example", None), block("b.example", None)], enabled: true };
    assert!(state.remove("  a.example "));
    assert_eq!(names(&state), vec!["b.example"]);
    assert!(!state.remove("a.example"));
    assert_eq!(names(&state), vec!["b.example"]);
    assert!(state.enabled);
}

const HOSTS: &str = "127.0.0.1 localhost\n# >>> netctl block begin\n127.0.0.1 old.example\n127.0.0.1 www.old.example\n  # <<< netctl block end  \n::1 localhost\n";

#[test]
fn hosts_section_is_replaced() {
    let state = BlockState { domains: vec![block("twitter.com", None), block("reddit.com", None)], enabled: true };
    assert_eq!(
        apply_blocks(HOSTS, &state),
        "127.0.0.1 localhost\n::1 localhost\n# >>> netctl block begin\n127.0.0.1 twitter.com\n127.0.0.1 www.twitter.com\n127.0.0.1 reddit.com\n127.0.0.1 www.reddit.com\n# <<< netctl block end\n"
    );
}

#[test]
fn hosts_section_is_dropped_where_blocks_are_out_of_force() {
    let off = BlockState { domains: vec![block("twitter.com", None)], enabled: false };
    assert_eq!(apply_blocks(HOSTS, &off), "127.0.0.1 localhost\n::1 localhost\n");
    let none = BlockState { domains: vec![], enabled: true };
    assert_eq!(apply_blocks(HOSTS, &none), "127.0.0.1 localhost\n::1 localhost\n");
}

#[test]
fn hosts_file_without_final_line_feed_gets_one() {
    let state = BlockState::empty();
    assert_eq!(apply_blocks("127.0.0.1 localhost", &state), "127.0.0.1 localhost\n");
    assert_eq!(apply_blocks("", &state), "");
    assert_eq!(apply_blocks("a\r\nb\n", &state), "a\nb\n");
}

#[test]
fn hosts_section_without_end_swallows_the_rest() {
    let state = BlockState::empty();
    assert_eq!(apply_blocks("a\n# >>> netctl block begin\nb\nc\n", &state), "a\n");
    assert_eq!(apply_blocks("a\n# <<< netctl block end\nb\n", &state), "a\nb\n");
}

fn request(add: Option<&str>, remove: Option<&str>, list: bool, enable: bool, disable: bool) -> BlockRequest {
    BlockRequest {
        add: add.map(|s| s.to_string()),
        remove: remove.map(|s| s.to_string()),
        list,
        enable,
        disable,
    }
}

#[test]
fn a_request_without_anything_lists_the_blocks() {
    let mut state = BlockState::empty();
    let r = run(&mut state, &request(None, None, false, false, false), None);
    assert!(!r.modified);
    assert!(r.show_status);
    assert_eq!(r.removed, None);
    assert!(r.added.is_empty());
}

#[test]
fn a_request_that_adds_modifies_and_enables() {
    let mut state = BlockState::empty();
    let r = run(&mut state, &request(Some("a.example"), None, false, false, false), None);
    assert!(r.modified);
    assert!(!r.show_status);
    assert!(state.enabled);
    assert_eq!(names(&state), vec!["a.example"]);
    let r = run(&mut state, &request(Some("b.example"), Some("a.example"), true, false, true), None);
    assert!(r.modified);
    assert!(r.show_status);
    assert_eq!(r.removed, Some(true));
    assert!(!state.enabled);
    assert_eq!(names(&state), vec!["b.example"]);
}

#[test]
fn a_request_that_removes_nothing_modifies_nothing() {
    let mut state = BlockState { domains: vec![block("a.example", None)], enabled: true };
    let r = run(&mut state, &request(None, Some("x.example"), false, false, false), None);
    assert_eq!(r.removed, Some(false));
    assert!(!r.modified);
    assert!(r.show_status);
    assert!(state.enabled);
}

#[test]
fn disabling_wins_over_enabling() {
    let mut state = BlockState::empty();
    let r = run(&mut state, &request(None, None, false, true, true), None);
    assert!(r.modified);
    assert!(!state.enabled);
    let r = run(&mut state, &request(None, None, false, true, false), None);
    assert!(r.modified);
    assert!(state.enabled);
}
