use netctl::bandwidth::{alert_exceeded, parse_alert_bytes, parse_alert_upper};

#[test]
fn alert_units_are_decimal() {
    assert_eq!(parse_alert_bytes("10MB"), Some(10_000_000));
    assert_eq!(parse_alert_bytes("1GB"), Some(1_000_000_000));
    assert_eq!(parse_alert_bytes("1KB"), Some(1_000));
    assert_eq!(parse_alert_bytes("50MB"), Some(50_000_000));
}

#[test]
fn alert_without_unit_is_a_byte_count() {
    assert_eq!(parse_alert_bytes("12345"), Some(12_345));
    assert_eq!(parse_alert_bytes("0"), Some(0));
    assert_eq!(parse_alert_bytes("+7"), Some(7));
    assert_eq!(parse_alert_bytes("18446744073709551615"), Some(u64::MAX));
    assert_eq!(parse_alert_bytes("18446744073709551616"), None);
    assert_eq!(parse_alert_bytes("1.5"), None);
    assert_eq!(parse_alert_bytes(""), None);
    assert_eq!(parse_alert_bytes("+"), None);
    assert_eq!(parse_alert_bytes("12 34"), None);
}

#[test]
fn alert_is_trimmed_and_case_blind() {
    assert_eq!(parse_alert_bytes("  10mb  "), Some(10_000_000));
    assert_eq!(parse_alert_bytes("2 Gb"), Some(2_000_000_000));
    assert_eq!(parse_alert_bytes("3 kB"), Some(3_000));
}

#[test]
fn alert_with_a_fraction_rounds_down() {
    assert_eq!(parse_alert_bytes("1.5GB"), Some(1_500_000_000));
    assert_eq!(parse_alert_bytes("0.3GB"), Some(300_000_000));
    assert_eq!(parse_alert_bytes("2.5KB"), Some(2_500));
    assert_eq!(parse_alert_bytes("0.0004KB"), Some(0));
    assert_eq!(parse_alert_bytes("1.23456789MB"), Some(1_234_567));
    assert_eq!(parse_alert_bytes(".5MB"), Some(500_000));
    assert_eq!(parse_alert_bytes("5.MB"), Some(5_000_000));
}

#[test]
fn alert_beyond_the_largest_count_is_the_largest_count() {
    assert_eq!(parse_alert_bytes("99999999999GB"), Some(u64::MAX));
    assert_eq!(parse_alert_bytes("18446744073709551.615KB"), Some(u64::MAX));
    assert_eq!(parse_alert_bytes("18446744073709551.616KB"), Some(u64::MAX));
    assert_eq!(parse_alert_bytes("18446744073709551.614KB"), Some(u64::MAX - 1));
}

#[test]
fn alert_that_is_no_number_is_nothing() {
    assert_eq!(parse_alert_bytes("MB"), None);
    assert_eq!(parse_alert_bytes("tenMB"), None);
    assert_eq!(parse_alert_bytes("1.2.3MB"), None);
    assert_eq!(parse_alert_bytes("10TB"), None);
    assert_eq!(parse_alert_bytes(".GB"), None);
    assert_eq!(parse_alert_bytes("-5MB"), None);
}

#[test]
fn alert_in_capitals_is_read_as_it_stands() {
    let chars: Vec<char> = "10MB".chars().collect();
    assert_eq!(parse_alert_upper(&chars), Some(10_000_000));
    let lower: Vec<char> = "10mb".chars().collect();
    assert_eq!(parse_alert_upper(&lower), None);
}

#[test]
fn alert_fires_above_the_threshold_only() {
    assert!(alert_exceeded(600, 500, Some(1_000)));
    assert!(!alert_exceeded(500, 500, Some(1_000)));
    assert!(!alert_exceeded(u64::MAX, u64::MAX, None));
    assert!(alert_exceeded(u64::MAX, 1, Some(u64::MAX)));
}

fn usage(name: &str, bytes_in: u64, bytes_out: u64) -> netctl::bandwidth::AppUsage {
    netctl::bandwidth::AppUsage { name: name.to_string(), bytes_in, bytes_out }
}

fn shown_names(s: &netctl::bandwidth::BandwidthSummary) -> Vec<&str> {
    s.shown.iter().map(|u| u.name.as_str()).collect()
}

#[test]
fn entries_are_ordered_by_falling_traffic() {
    let entries = vec![usage("a", 1, 1), usage("b", 10, 0), usage("c", 0, 2), usage("d", 5, 5)];
    let sorted = netctl::bandwidth::sort_by_total(&entries);
    let got: Vec<&str> = sorted.iter().map(|u| u.name.as_str()).collect();
    assert_eq!(got, vec!["b", "d", "a", "c"]);
}

#[test]
fn ordering_does_not_overflow() {
    let entries = vec![usage("a", u64::MAX, 0), usage("b", u64::MAX, 1), usage("c", 1, u64::MAX)];
    let sorted = netctl::bandwidth::sort_by_total(&entries);
    let got: Vec<&str> = sorted.iter().map(|u| u.name.as_str()).collect();
    assert_eq!(got, vec!["b", "c", "a"]);
}

#[test]
fn summary_shows_the_top_and_gathers_the_rest() {
    let entries = vec![usage("a", 100, 10), usage("b", 300, 30), usage("c", 200, 20), usage("d", 1, 1)];
    let s = netctl::bandwidth::summarize(&entries, None, Some(2), Some(600));
    assert_eq!(shown_names(&s), vec!["b", "c"]);
    let other = s.other.as_ref().expect("two are left");
    assert_eq!(other.count, 2);
    assert_eq!(other.bytes_in, 101);
    assert_eq!(other.bytes_out, 11);
    assert_eq!(s.total_down, 601);
    assert_eq!(s.total_up, 61);
    assert!(s.alert);
}

#[test]
fn summary_shows_ten_by_default() {
    let entries: Vec<_> = (0..12).map(|i| usage(&format!("app{}", i), 100 - i, 0)).collect();
    let s = netctl::bandwidth::summarize(&entries, None, None, None);
    assert_eq!(s.shown.len(), 10);
    assert_eq!(s.other.as_ref().map(|o| o.count), Some(2));
    assert_eq!(s.other.as_ref().map(|o| o.bytes_in), Some(90 + 89));
    assert!(!s.alert);
    let few = netctl::bandwidth::summarize(&entries[..10], None, None, None);
    assert_eq!(few.shown.len(), 10);
    assert!(few.other.is_none());
}

#[test]
fn summary_filters_by_name_without_case() {
    let entries = vec![usage("Firefox", 5, 5), usage("firefox-helper", 50, 0), usage("Spotify", 500, 0)];
    let s = netctl::bandwidth::summarize(&entries, Some("FIRE"), None, Some(1_000));
    assert_eq!(shown_names(&s), vec!["firefox-helper", "Firefox"]);
    assert_eq!(s.total_down, 55);
    assert_eq!(s.total_up, 5);
    assert!(!s.alert);
    let none = netctl::bandwidth::summarize(&entries, Some("chrome"), None, Some(0));
    assert!(none.shown.is_empty());
    assert!(none.other.is_none());
    assert_eq!(none.total_down, 0);
    assert!(!none.alert);
}

#[test]
fn totals_stop_at_the_largest_count() {
    let entries = vec![usage("a", u64::MAX, 1), usage("b", 1, 1)];
    assert_eq!(netctl::bandwidth::totals(&entries), (u64::MAX, 2));
    let s = netctl::bandwidth::summarize(&entries, None, Some(0), Some(u64::MAX));
    assert!(s.shown.is_empty());
    assert_eq!(s.other.as_ref().map(|o| (o.count, o.bytes_in, o.bytes_out)), Some((2, u64::MAX, 2)));
    assert!(s.alert);
}

fn triples(v: &[netctl::bandwidth::AppUsage]) -> Vec<(&str, u64, u64)> {
    v.iter().map(|u| (u.name.as_str(), u.bytes_in, u.bytes_out)).collect()
}

#[test]
fn traffic_is_added_up_by_application() {
    let mut entries = Vec::new();
    netctl::bandwidth::accumulate(&mut entries, "firefox", 10, 1);
    netctl::bandwidth::accumulate(&mut entries, "curl", 5, 5);
    netctl::bandwidth::accumulate(&mut entries, "firefox", 7, 2);
    assert_eq!(triples(&entries), vec![("firefox", 17, 3), ("curl", 5, 5)]);
    netctl::bandwidth::accumulate(&mut entries, "curl", u64::MAX, 0);
    assert_eq!(triples(&entries), vec![("firefox", 17, 3), ("curl", u64::MAX, 5)]);
}

#[test]
fn traffic_listing_of_macos_is_read() {
    let listing = "time,bytes_in,bytes_out\nfirefox.1234, 1000, 200,\nSpotify Helper.77,50,5,\nfirefox.1250,24,1,\nbroken,1\n,3,4,\nkernel_task.0,x,9,\n";
    let got = netctl::bandwidth::usage_from_nettop(listing);
    assert_eq!(
        triples(&got),
        vec![("firefox", 1024, 201), ("Spotify Helper", 50, 5), ("", 3, 4), ("kernel_task", 0, 9)]
    );
    assert!(netctl::bandwidth::usage_from_nettop("").is_empty());
    assert!(netctl::bandwidth::usage_from_nettop("a,1,2\n").is_empty());
}

#[test]
fn interface_counters_of_linux_are_read() {
    let content = "Inter-|   Receive                                                |  Transmit\n face |bytes    packets errs drop fifo frame compressed multicast|bytes    packets errs drop fifo colls carrier compressed\n    lo: 1000 10 0 0 0 0 0 0 1000 10 0 0 0 0 0 0\n  eth0: 5000 50 0 0 0 0 0 0 700 7 0 0 0 0 0 0\n  wlan0: 1 1 0 0 0 0 0 0 2 2 0 0 0 0 0 0\n  bad: 1 2 3\n";
    let got = netctl::bandwidth::usage_from_interfaces(content);
    assert_eq!(triples(&got), vec![("(eth0)", 5000, 700), ("(wlan0)", 1, 2)]);
    assert!(netctl::bandwidth::usage_from_interfaces("one\ntwo\n").is_empty());
    assert!(netctl::bandwidth::usage_from_interfaces("one\n").is_empty());
}

#[test]
fn socket_queues_need_a_process() {
    let line = "tcp ESTAB 12 34 192.168.1.20:51000 142.250.74.14:443 users:((\"firefox\",pid=1234,fd=45))";
    let q = netctl::bandwidth::parse_socket_queues(line).expect("a process is named");
    assert_eq!((q.pid.as_str(), q.bytes_in, q.bytes_out), ("1234", 12, 34));
    assert!(netctl::bandwidth::parse_socket_queues("udp UNCONN 0 0 0.0.0.0:68 0.0.0.0:*").is_none());
    assert!(netctl::bandwidth::parse_socket_queues("tcp ESTAB 1 2 a b users").is_none());
    assert!(netctl::bandwidth::parse_socket_queues("tcp ESTAB 1 2 a").is_none());
}

#[test]
fn default_interface_from_either_route_listing() {
    let mac = "   route to: default\n  interface: en0\n      flags: <UP>\n";
    let linux = "default via 192.168.1.1 dev wlan0 proto dhcp metric 600\n";
    assert_eq!(netctl::bandwidth::get_default_interface(Some(mac), Some(linux)), "en0");
    assert_eq!(netctl::bandwidth::get_default_interface(Some("nothing here\n"), Some(linux)), "wlan0");
    assert_eq!(netctl::bandwidth::get_default_interface(None, Some(linux)), "wlan0");
    assert_eq!(netctl::bandwidth::get_default_interface(None, Some("default via 192.168.1.1 dev\n")), "unknown");
    assert_eq!(netctl::bandwidth::get_default_interface(None, Some("")), "unknown");
    assert_eq!(netctl::bandwidth::get_default_interface(None, None), "unknown");
}
