use netctl::ping::{
    do_ping, parse_ping_output, parse_reply_line, ping_arguments, probe_address, report,
    resolve_host, targets, FacilityOutcome, ProbePlan, ProbeStep, ResolvedAddress, TcpFallback,
};
use netctl::quality::QualityTier;

fn line(s: &str) -> Option<u32> {
    let chars: Vec<char> = s.chars().collect();
    parse_reply_line(&chars)
}

#[test]
fn reply_line_with_unit_after_a_space() {
    assert_eq!(
        line("64 bytes from 142.250.1.1: icmp_seq=1 ttl=117 time=24.3 ms"),
        Some(24_300)
    );
}

#[test]
fn reply_line_with_unit_attached() {
    assert_eq!(line("64 bytes from host: icmp_seq=2 ttl=64 time=0.045ms"), Some(45));
}

#[test]
fn reply_line_without_time_is_no_sample() {
    assert_eq!(line("PING google.com (142.250.1.1): 56 data bytes"), None);
    assert_eq!(line("Request timeout for icmp_seq 3"), None);
    assert_eq!(line(""), None);
}

#[test]
fn reply_line_forms_of_the_number() {
    assert_eq!(line("time=5"), Some(5_000));
    assert_eq!(line("time=5."), Some(5_000));
    assert_eq!(line("time=.5"), Some(500));
    assert_eq!(line("time=+1.5 ms"), Some(1_500));
    assert_eq!(line("time=1.23456 ms"), Some(1_234));
    assert_eq!(line("time=msms"), None);
    assert_eq!(line("time=12msms"), Some(12_000));
    assert_eq!(line("time=abc ms"), None);
    assert_eq!(line("time=-3 ms"), None);
    assert_eq!(line("time=1e3 ms"), None);
    assert_eq!(line("time=. ms"), None);
}

#[test]
fn reply_line_with_nothing_behind_the_marker_counts_as_zero() {
    assert_eq!(line("time="), Some(0));
    assert_eq!(line("time=   "), Some(0));
}

#[test]
fn reply_line_reads_only_up_to_the_next_marker() {
    assert_eq!(line("time=7 ms time=9 ms"), Some(7_000));
    assert_eq!(line("a time=time=9"), Some(0));
}

#[test]
fn reply_line_beyond_the_largest_sample_is_dropped() {
    assert_eq!(line("time=4294967.295 ms"), Some(u32::MAX));
    assert_eq!(line("time=4294967.296 ms"), None);
    assert_eq!(line("time=99999999999999999999999999 ms"), None);
}

const OUTPUT: &str = "PING example.org (93.184.216.34): 56 data bytes\n\
64 bytes from 93.184.216.34: icmp_seq=0 ttl=56 time=10.0 ms\r\n\
Request timeout for icmp_seq 1\n\
64 bytes from 93.184.216.34: icmp_seq=2 ttl=56 time=20.0 ms\n\
64 bytes from 93.184.216.34: icmp_seq=3 ttl=56 time=30.0 ms\n\
\n\
--- example.org ping statistics ---\n\
4 packets transmitted, 3 packets received, 25.0% packet loss\n";

#[test]
fn ping_output_becomes_a_series_in_line_order() {
    let stats = parse_ping_output("example.org", "93.184.216.34", 4, OUTPUT);
    assert_eq!(stats.host(), "example.org");
    assert_eq!(stats.ip(), "93.184.216.34");
    assert_eq!(stats.sent(), 4);
    assert_eq!(stats.received(), 3);
    assert_eq!(stats.latencies(), &[10_000, 20_000, 30_000]);
    assert_eq!(stats.loss_pct(), 25_000);
}

#[test]
fn ping_output_without_replies_is_an_empty_series() {
    let stats = parse_ping_output("nowhere", "nowhere", 5, "ping: cannot resolve nowhere\n");
    assert_eq!(stats.sent(), 5);
    assert_eq!(stats.received(), 0);
    assert_eq!(stats.loss_pct(), 100_000);
    let rep = report(&stats);
    assert!(rep.tier.is_none());
    assert_eq!(rep.statistics.loss_pct, 100_000);
    assert_eq!(rep.statistics.min, 0);
    assert_eq!(rep.statistics.max, 0);
    assert_eq!(rep.statistics.mean, 0);
    assert_eq!(rep.statistics.std_dev, 0);
    assert_eq!(rep.statistics.jitter, 0);
    assert_eq!(rep.total_micros, 0);
}

#[test]
fn ping_output_keeps_no_more_replies_than_probes() {
    let stats = parse_ping_output("h", "h", 2, "time=1 ms\ntime=2 ms\ntime=3 ms\n");
    assert_eq!(stats.latencies(), &[1_000, 2_000]);
    assert_eq!(stats.loss_pct(), 0);
}

#[test]
fn report_of_a_series_with_replies() {
    let stats = parse_ping_output("example.org", "93.184.216.34", 4, OUTPUT);
    let rep = report(&stats);
    assert_eq!(rep.sent, 4);
    assert_eq!(rep.received, 3);
    assert_eq!(rep.statistics.loss_pct, 25_000);
    assert_eq!(rep.total_micros, 60_000);
    assert_eq!(rep.statistics.min, 10_000);
    assert_eq!(rep.statistics.mean, 20_000);
    assert_eq!(rep.statistics.max, 30_000);
    assert_eq!(rep.statistics.std_dev, 10_000);
    assert_eq!(rep.statistics.jitter, 10_000);
    assert_eq!(rep.tier, Some(QualityTier::Excellent));
}

fn addr(text: &str, is_ipv4: bool) -> ResolvedAddress {
    ResolvedAddress { text: text.to_string(), is_ipv4 }
}

#[test]
fn resolution_takes_the_first_ipv4_address() {
    let found = Some(vec![addr("2001:db8::1", false), addr("192.0.2.7", true), addr("192.0.2.8", true)]);
    assert_eq!(resolve_host(&found), Some("192.0.2.7".to_string()));
    assert_eq!(probe_address("example.org", &found), "192.0.2.7");
}

#[test]
fn resolution_falls_back_to_the_host_as_written() {
    assert_eq!(resolve_host(&None), None);
    assert_eq!(probe_address("example.org", &None), "example.org");
    let only_v6 = Some(vec![addr("2001:db8::1", false)]);
    assert_eq!(resolve_host(&only_v6), None);
    assert_eq!(probe_address("example.org", &only_v6), "example.org");
    assert_eq!(probe_address("example.org", &Some(vec![])), "example.org");
}

#[test]
fn targets_from_a_list_are_trimmed() {
    let t = targets(Some("ignored".to_string()), Some(" 1.1.1.1 , 8.8.8.8,example.org ".to_string()));
    assert_eq!(t, vec!["1.1.1.1", "8.8.8.8", "example.org"]);
    let t = targets(None, Some("a,,b".to_string()));
    assert_eq!(t, vec!["a", "", "b"]);
    let t = targets(None, Some("".to_string()));
    assert_eq!(t, vec![""]);
}

#[test]
fn targets_default_to_one_host() {
    assert_eq!(targets(Some("github.com".to_string()), None), vec!["github.com"]);
    assert_eq!(targets(None, None), vec!["google.com"]);
}

#[test]
fn ping_arguments_ask_for_count_and_timeout() {
    assert_eq!(ping_arguments("example.org", 10), vec!["-c", "10", "-W", "2", "example.org"]);
    assert_eq!(ping_arguments("h", 0), vec!["-c", "0", "-W", "2", "h"]);
}

#[test]
fn fallback_makes_as_many_attempts_as_probes() {
    let mut run = TcpFallback::new("example.org".to_string(), "192.0.2.7".to_string(), 3);
    assert_eq!(run.target(), "192.0.2.7:80");
    let outcomes = [Some(12_000), None, Some(8_000)];
    for o in outcomes {
        assert_eq!(run.next_step(), ProbeStep::Connect);
        run = run.on_connect(o);
        assert_eq!(run.next_step(), ProbeStep::Pause);
        run = run.on_pause();
    }
    assert_eq!(run.next_step(), ProbeStep::Finished);
    let stats = run.finish();
    assert_eq!(stats.sent(), 3);
    assert_eq!(stats.latencies(), &[12_000, 8_000]);
    assert_eq!(stats.loss_pct(), 33_333);
}

#[test]
fn fallback_ignores_events_that_are_not_due() {
    let run = TcpFallback::new("h".to_string(), "h".to_string(), 1);
    let run = run.on_pause();
    assert_eq!(run.next_step(), ProbeStep::Connect);
    let run = run.on_connect(Some(5));
    let run = run.on_connect(Some(6));
    assert_eq!(run.next_step(), ProbeStep::Pause);
    let run = run.on_pause();
    let run = run.on_connect(Some(7));
    assert_eq!(run.next_step(), ProbeStep::Finished);
    assert_eq!(run.finish().latencies(), &[5]);
}

#[test]
fn fallback_of_no_probes_is_finished_at_once() {
    let run = TcpFallback::new("h".to_string(), "h".to_string(), 0);
    assert_eq!(run.next_step(), ProbeStep::Finished);
    assert_eq!(run.finish().received(), 0);
}

#[test]
fn do_ping_reads_the_output_where_the_facility_ran() {
    let looked_up = Some(vec![addr("93.184.216.34", true)]);
    let plan = do_ping("example.org", &looked_up, 4, &FacilityOutcome::Output(OUTPUT.to_string()));
    match plan {
        ProbePlan::Measured(stats) => {
            assert_eq!(stats.ip(), "93.184.216.34");
            assert_eq!(stats.sent(), 4);
            assert_eq!(stats.latencies(), &[10_000, 20_000, 30_000]);
        }
        ProbePlan::Fallback(_) => panic!("the facility ran"),
    }
}

#[test]
fn do_ping_with_silent_facility_is_an_empty_series_not_a_fallback() {
    let plan = do_ping("example.org", &None, 4, &FacilityOutcome::Output(String::new()));
    match plan {
        ProbePlan::Measured(stats) => {
            assert_eq!(stats.ip(), "example.org");
            assert_eq!(stats.sent(), 4);
            assert_eq!(stats.received(), 0);
        }
        ProbePlan::Fallback(_) => panic!("the facility ran"),
    }
}

#[test]
fn do_ping_falls_back_where_the_facility_is_missing() {
    let plan = do_ping("example.org", &None, 2, &FacilityOutcome::Unavailable);
    match plan {
        ProbePlan::Fallback(run) => {
            assert_eq!(run.target(), "example.org:80");
            assert_eq!(run.next_step(), ProbeStep::Connect);
        }
        ProbePlan::Measured(_) => panic!("the facility did not run"),
    }
}
