use netctl::speed::{
    download_url, get_servers, measure, measure_download, measure_latency, measure_upload,
    select_index, select_server, throughput, trial_sizes, Direction, SpeedResult, Throughput,
    ThroughputError, TransferStep, TrialOutcome,
};
use netctl::stats::PingStats;

fn ok(bytes: u64, micros: u64) -> TrialOutcome {
    TrialOutcome::Transferred { received_bytes: bytes, elapsed_micros: micros }
}

#[test]
fn ten_megabytes_in_one_second_are_eighty_megabits() {
    assert_eq!(throughput(10_000_000, 1_000_000), 80_000);
}

#[test]
fn throughput_edge_cases() {
    assert_eq!(throughput(10_000_000, 0), 0);
    assert_eq!(throughput(0, 1_000_000), 0);
    assert_eq!(throughput(1, 1_000_000), 0);
    assert_eq!(throughput(125, 1_000_000), 1);
    assert_eq!(throughput(u64::MAX, 1), u64::MAX);
    assert_eq!(throughput(u64::MAX, u64::MAX), 8_000);
}

#[test]
fn the_best_trial_is_returned_not_the_last_or_the_mean() {
    let trials = [
        ok(1_000_000, 1_000_000),
        ok(5_000_000, 500_000),
        ok(10_000_000, 2_000_000),
        ok(25_000_000, 10_000_000),
    ];
    // 8, 80, 40 and 20 megabits per second.
    assert_eq!(measure_download(&trials), Ok(80_000));
    assert_eq!(measure(Direction::Download, &trials), Ok(80_000));
}

#[test]
fn a_failed_trial_fails_the_whole_measurement() {
    let trials = [ok(1_000_000, 1_000_000), TrialOutcome::Failed, ok(10_000_000, 1_000_000)];
    assert_eq!(measure_download(&trials), Err(ThroughputError::TrialFailed(1)));
    assert_eq!(measure_upload(&[TrialOutcome::Failed]), Err(ThroughputError::TrialFailed(0)));
}

#[test]
fn upload_counts_the_bytes_sent() {
    let trials = [ok(0, 1_000_000), ok(17, 1_000_000), ok(0, 10_000_000)];
    // 500 kB, 1 MB and 5 MB sent: 4, 8 and 4 megabits per second.
    assert_eq!(measure_upload(&trials), Ok(8_000));
}

#[test]
fn trials_without_duration_leave_the_best_unchanged() {
    assert_eq!(measure_download(&[ok(1_000_000, 0)]), Ok(0));
    assert_eq!(measure_download(&[ok(1_000_000, 1_000_000), ok(5_000_000, 0)]), Ok(8_000));
    assert_eq!(measure_download(&[]), Ok(0));
}

#[test]
fn outcomes_beyond_the_trial_sizes_do_not_count() {
    let trials = [
        ok(1, 1_000_000),
        ok(1, 1_000_000),
        ok(1, 1_000_000),
        ok(1, 1_000_000),
        ok(1_000_000_000, 1),
        TrialOutcome::Failed,
    ];
    assert_eq!(measure_download(&trials), Ok(0));
}

#[test]
fn trial_sizes_of_both_directions() {
    assert_eq!(trial_sizes(Direction::Download), vec![1_000_000, 5_000_000, 10_000_000, 25_000_000]);
    assert_eq!(trial_sizes(Direction::Upload), vec![500_000, 1_000_000, 5_000_000]);
}

#[test]
fn a_measurement_asks_for_each_size_in_turn() {
    let mut run = Throughput::new(Direction::Upload);
    assert_eq!(run.next_step(), TransferStep::Transfer(500_000));
    run = run.on_trial(ok(0, 1_000_000));
    assert_eq!(run.next_step(), TransferStep::Transfer(1_000_000));
    run = run.on_trial(ok(0, 500_000));
    assert_eq!(run.next_step(), TransferStep::Transfer(5_000_000));
    run = run.on_trial(ok(0, 5_000_000));
    assert_eq!(run.next_step(), TransferStep::Finished);
    assert_eq!(run.result(), Ok(16_000));
    run = run.on_trial(ok(0, 1));
    assert_eq!(run.result(), Ok(16_000));
}

#[test]
fn a_measurement_stops_at_the_first_failure() {
    let mut run = Throughput::new(Direction::Download);
    run = run.on_trial(ok(1_000_000, 1_000_000));
    run = run.on_trial(TrialOutcome::Failed);
    assert_eq!(run.next_step(), TransferStep::Finished);
    assert_eq!(run.result(), Err(ThroughputError::TrialFailed(1)));
    run = run.on_trial(ok(1_000_000, 1));
    assert_eq!(run.result(), Err(ThroughputError::TrialFailed(1)));
}

#[test]
fn download_address_takes_the_size_where_the_endpoint_does() {
    assert_eq!(
        download_url("https://speed.cloudflare.com/__down?bytes=25000000", 5_000_000),
        "https://speed.cloudflare.com/__down?bytes=5000000"
    );
    assert_eq!(
        download_url("https://www.google.com/generate_204", 5_000_000),
        "https://www.google.com/generate_204"
    );
    assert_eq!(download_url("", 1), "");
}

#[test]
fn servers_are_cloudflare_and_google() {
    let servers = get_servers();
    assert_eq!(servers.len(), 2);
    assert_eq!(servers[0].name, "Cloudflare");
    assert_eq!(servers[0].location, "Edge");
    assert_eq!(servers[0].download_url, "https://speed.cloudflare.com/__down?bytes=25000000");
    assert_eq!(servers[0].upload_url, "https://speed.cloudflare.com/__up");
    assert_eq!(servers[1].name, "Google");
    assert_eq!(servers[1].location, "CDN");
    assert_eq!(servers[1].download_url, "https://www.google.com/generate_204");
    assert_eq!(servers[1].upload_url, "https://www.google.com/generate_204");
}

#[test]
fn server_selection_ignores_case_and_defaults_to_the_first() {
    assert_eq!(select_server(None).name, "Cloudflare");
    assert_eq!(select_server(Some("google")).name, "Google");
    assert_eq!(select_server(Some("GOOGLE")).name, "Google");
    assert_eq!(select_server(Some("cloudFLARE")).name, "Cloudflare");
    assert_eq!(select_server(Some("nobody")).name, "Cloudflare");
    assert_eq!(select_server(Some("")).name, "Cloudflare");
    assert_eq!(select_index(Some("Google")), 1);
    assert_eq!(select_index(Some("goo gle")), 0);
    assert_eq!(select_server(Some("google")).upload_url, "https://www.google.com/generate_204");
}

#[test]
fn latency_exchanges_keep_the_successes_in_order() {
    assert_eq!(measure_latency(&[Some(3), None, Some(1), None]), vec![3, 1]);
    assert!(measure_latency(&[None, None]).is_empty());
}

#[test]
fn record_of_a_plain_speed_test() {
    let server = select_server(None);
    let r = SpeedResult::assemble(
        &server,
        &[10_000, 20_000, 30_000, 40_000, 50_000],
        Ok(93_400),
        Err(ThroughputError::TrialFailed(0)),
        None,
        "2024-05-01T12:00:00+02:00".to_string(),
    );
    assert_eq!(r.server, "Cloudflare (Edge)");
    assert_eq!(r.download_kbps, 93_400);
    assert_eq!(r.upload_kbps, 0);
    assert_eq!(r.latency_micros, 30_000);
    assert_eq!(r.jitter_micros, None);
    assert_eq!(r.packet_loss_millipct, None);
    assert_eq!(r.timestamp, "2024-05-01T12:00:00+02:00");
}

#[test]
fn record_of_a_detailed_speed_test() {
    let server = select_server(Some("google"));
    let mut detailed = PingStats::new("Google".to_string(), "url".to_string(), 20);
    for t in [10_000, 14_000, 12_000, 12_000, 20_000, 10_000, 10_000, 10_000, 10_000, 10_000,
        10_000, 10_000, 10_000, 10_000, 10_000, 10_000, 10_000, 10_000] {
        assert!(detailed.record(t));
    }
    let r = SpeedResult::assemble(&server, &[], Ok(1), Ok(2), Some(&detailed), String::new());
    assert_eq!(r.server, "Google (CDN)");
    assert_eq!(r.latency_micros, 0);
    // Differences: 4000 + 2000 + 0 + 8000 + 10000, then zeros: 24000 / 17.
    assert_eq!(r.jitter_micros, Some(1_411));
    assert_eq!(r.packet_loss_millipct, Some(10_000));
}

#[test]
fn record_of_a_detailed_speed_test_without_answers() {
    let server = select_server(None);
    let detailed = PingStats::new("Cloudflare".to_string(), "url".to_string(), 20);
    let r = SpeedResult::assemble(&server, &[], Ok(0), Ok(0), Some(&detailed), String::new());
    assert_eq!(r.jitter_micros, Some(0));
    assert_eq!(r.packet_loss_millipct, Some(100_000));
}
