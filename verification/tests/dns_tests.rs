use netctl::ping::ResolvedAddress;
use netctl::dns::{
    benchmark, benchmark_dns_server, configured_servers, flush, get_system_dns, identify_dns_server,
    lookup_arguments, query_time, recommend, resolver_label, resolvers, second_tool_arguments,
    system_label, test_domains, BenchmarkRow, QueryOutcome, ResolverRun,
};

fn row(server: &str, avg_micros: u32, success_millipct: u32) -> BenchmarkRow {
    BenchmarkRow { server: server.to_string(), avg_micros, success_millipct }
}

fn answered(micros: u32) -> QueryOutcome {
    QueryOutcome::Lookup { success: true, stdout: "93.184.216.34\n".to_string(), elapsed_micros: micros }
}

#[test]
fn recommendation_ignores_the_success_rate() {
    let rows = vec![row("A", 20_000, 100_000), row("B", 15_000, 20_000)];
    assert_eq!(recommend(&rows), Some(1));
}

#[test]
fn recommendation_skips_resolvers_that_never_answered() {
    let rows = vec![row("A", 0, 0), row("B", 40_000, 100_000), row("C", 0, 0)];
    assert_eq!(recommend(&rows), Some(1));
}

#[test]
fn recommendation_takes_the_first_of_equals() {
    let rows = vec![row("A", 30_000, 100_000), row("B", 10_000, 60_000), row("C", 10_000, 100_000)];
    assert_eq!(recommend(&rows), Some(1));
}

#[test]
fn recommendation_is_missing_where_nobody_answered() {
    let rows = vec![row("A", 0, 0), row("B", 0, 0)];
    assert_eq!(recommend(&rows), None);
    assert_eq!(recommend(&[]), None);
}

#[test]
fn a_query_counts_only_with_success_and_an_answer() {
    assert_eq!(query_time(&answered(7_000)), Some(7_000));
    let silent = QueryOutcome::Lookup { success: true, stdout: "  \n".to_string(), elapsed_micros: 5 };
    assert_eq!(query_time(&silent), None);
    let failed = QueryOutcome::Lookup { success: false, stdout: "x".to_string(), elapsed_micros: 5 };
    assert_eq!(query_time(&failed), None);
    assert_eq!(query_time(&QueryOutcome::Second { success: true, elapsed_micros: 9 }), Some(9));
    assert_eq!(query_time(&QueryOutcome::Second { success: false, elapsed_micros: 9 }), None);
    assert_eq!(query_time(&QueryOutcome::NoTool), None);
}

#[test]
fn figures_of_a_resolver_are_mean_and_share() {
    let outcomes = vec![
        answered(10_000),
        QueryOutcome::NoTool,
        answered(20_000),
        answered(30_000),
        QueryOutcome::Lookup { success: false, stdout: String::new(), elapsed_micros: 2_000_000 },
    ];
    assert_eq!(benchmark_dns_server(&outcomes), (20_000, 60_000));
}

#[test]
fn figures_of_a_resolver_that_never_answered() {
    let outcomes = vec![QueryOutcome::NoTool, QueryOutcome::NoTool];
    assert_eq!(benchmark_dns_server(&outcomes), (0, 0));
    assert_eq!(benchmark_dns_server(&[]), (0, 0));
}

#[test]
fn figures_of_one_fast_answer_among_five() {
    let outcomes = vec![
        answered(15_000),
        QueryOutcome::NoTool,
        QueryOutcome::NoTool,
        QueryOutcome::NoTool,
        QueryOutcome::NoTool,
    ];
    assert_eq!(benchmark_dns_server(&outcomes), (15_000, 20_000));
}

#[test]
fn benchmark_recommends_the_fast_resolver_with_few_answers() {
    let all = |t: u32| (0..5).map(|_| answered(t)).collect::<Vec<_>>();
    let mut once = vec![answered(15_000)];
    for _ in 0..4 {
        once.push(QueryOutcome::NoTool);
    }
    let runs = vec![
        ResolverRun { label: "1.1.1.1 (Cloudflare)".to_string(), outcomes: all(20_000) },
        ResolverRun { label: "8.8.8.8 (Google)".to_string(), outcomes: once },
        ResolverRun { label: "9.9.9.9 (Quad9)".to_string(), outcomes: vec![QueryOutcome::NoTool] },
    ];
    let report = benchmark(&runs);
    assert_eq!(report.rows.len(), 3);
    assert_eq!(report.rows[0].server, "1.1.1.1 (Cloudflare)");
    assert_eq!(report.rows[0].avg_micros, 20_000);
    assert_eq!(report.rows[0].success_millipct, 100_000);
    assert_eq!(report.rows[1].avg_micros, 15_000);
    assert_eq!(report.rows[1].success_millipct, 20_000);
    assert_eq!(report.rows[2].avg_micros, 0);
    assert_eq!(report.best, Some(1));
    assert_eq!(report.recommendation, "8.8.8.8 (Google)");
}

#[test]
fn benchmark_without_answers_recommends_nothing() {
    let runs = vec![ResolverRun { label: "x".to_string(), outcomes: vec![QueryOutcome::NoTool] }];
    let report = benchmark(&runs);
    assert_eq!(report.best, None);
    assert_eq!(report.recommendation, "");
}

#[test]
fn row_texts() {
    assert_eq!(row("A", 20_400, 100_000).avg_latency(), "20 ms");
    assert_eq!(row("A", 20_500, 100_000).avg_latency(), "20 ms");
    assert_eq!(row("A", 21_500, 100_000).avg_latency(), "22 ms");
    assert_eq!(row("A", 400, 100_000).avg_latency(), "0 ms");
    assert_eq!(row("A", 0, 0).avg_latency(), "timeout");
    assert_eq!(row("A", 1, 100_000).success(), "100%");
    assert_eq!(row("A", 1, 20_000).success(), "20%");
    assert_eq!(row("A", 1, 33_333).success(), "33%");
    assert_eq!(row("A", 0, 0).success(), "0%");
}

#[test]
fn well_known_resolvers_are_identified() {
    assert_eq!(identify_dns_server("1.1.1.1"), "(Cloudflare)");
    assert_eq!(identify_dns_server("1.0.0.1"), "(Cloudflare)");
    assert_eq!(identify_dns_server("8.8.8.8"), "(Google)");
    assert_eq!(identify_dns_server("8.8.4.4"), "(Google)");
    assert_eq!(identify_dns_server("208.67.222.222"), "(Cisco/OpenDNS)");
    assert_eq!(identify_dns_server("208.67.220.220"), "(Cisco/OpenDNS)");
    assert_eq!(identify_dns_server("9.9.9.9"), "(Quad9)");
    assert_eq!(identify_dns_server("149.112.112.112"), "(Quad9)");
    assert_eq!(identify_dns_server("192.168.1.1"), "(ISP/Custom)");
    assert_eq!(identify_dns_server("1.1.1.10"), "(ISP/Custom)");
    assert_eq!(identify_dns_server(""), "(ISP/Custom)");
}

#[test]
fn the_panel_has_four_resolvers_and_five_domains() {
    let panel = resolvers();
    let got: Vec<(&str, &str)> = panel.iter().map(|r| (r.ip, r.name)).collect();
    assert_eq!(
        got,
        vec![
            ("1.1.1.1", "Cloudflare"),
            ("8.8.8.8", "Google"),
            ("208.67.222.222", "Cisco/OpenDNS"),
            ("9.9.9.9", "Quad9"),
        ]
    );
    assert_eq!(
        test_domains(),
        vec!["google.com", "github.com", "cloudflare.com", "amazon.com", "microsoft.com"]
    );
}

#[test]
fn labels_of_resolvers() {
    assert_eq!(resolver_label("1.1.1.1", "Cloudflare"), "1.1.1.1 (Cloudflare)");
    assert_eq!(system_label("10.0.0.1"), "10.0.0.1 (System)");
}

#[test]
fn arguments_of_the_lookup_tools() {
    assert_eq!(
        lookup_arguments("1.1.1.1", "github.com"),
        vec!["@1.1.1.1", "github.com", "+short", "+time=2", "+tries=1"]
    );
    assert_eq!(second_tool_arguments("1.1.1.1", "github.com"), vec!["github.com", "1.1.1.1"]);
}

const RESOLV: &str = "# generated\nsearch lan\nnameserver 192.168.1.1\nnameserver\t8.8.8.8  # backup\noptions edns0\n";

#[test]
fn system_resolver_is_the_first_nameserver() {
    assert_eq!(get_system_dns(RESOLV), Some("192.168.1.1".to_string()));
    assert_eq!(get_system_dns("search lan\n"), None);
    assert_eq!(get_system_dns(""), None);
}

#[test]
fn system_resolver_is_missing_where_the_first_nameserver_line_is_bare() {
    assert_eq!(get_system_dns("nameserver\nnameserver 1.1.1.1\n"), None);
}

#[test]
fn system_resolver_line_must_begin_with_the_keyword() {
    assert_eq!(get_system_dns(" nameserver 1.1.1.1\n"), None);
    assert_eq!(get_system_dns("nameservers 1.1.1.1\n"), Some("1.1.1.1".to_string()));
}

#[test]
fn configured_servers_are_all_nameservers_in_order() {
    assert_eq!(configured_servers(RESOLV), vec!["192.168.1.1", "8.8.8.8"]);
    assert_eq!(configured_servers("nameserver\nnameserver 1.1.1.1"), vec!["1.1.1.1"]);
    assert!(configured_servers("").is_empty());
}

#[test]
fn listed_servers_stand_behind_the_first_colon() {
    let listing = "resolver #1\n  nameserver[0] : 192.168.1.1\n  nameserver[1] : 2001:db8::1\n  flags : Request A records\n";
    assert_eq!(netctl::dns::listed_servers(listing), vec!["192.168.1.1", "2001"]);
    assert!(netctl::dns::listed_servers("nameserver[0]\n").is_empty());
    assert_eq!(netctl::dns::listed_servers("nameserver[0]:\n"), vec![""]);
}

#[test]
fn resolved_addresses_are_parted_by_family() {
    let a = |t: &str, v4: bool| ResolvedAddress { text: t.to_string(), is_ipv4: v4 };
    let (v4, v6) = netctl::dns::resolve(&[
        a("2001:db8::1", false),
        a("192.0.2.1", true),
        a("2001:db8::2", false),
        a("192.0.2.2", true),
    ]);
    assert_eq!(v4, vec!["192.0.2.1", "192.0.2.2"]);
    assert_eq!(v6, vec!["2001:db8::1", "2001:db8::2"]);
    let (v4, v6) = netctl::dns::resolve(&[]);
    assert!(v4.is_empty() && v6.is_empty());
}

#[test]
fn the_cache_counts_as_flushed_where_one_command_succeeded() {
    assert!(flush(Some(true), None));
    assert!(flush(None, Some(true)));
    assert!(flush(Some(false), Some(true)));
    assert!(!flush(Some(false), Some(false)));
    assert!(!flush(None, None));
}

#[test]
fn system_resolvers_come_from_the_configuration_first() {
    let listing = "nameserver[0] : 10.0.0.1\nnameserver[0] : 10.0.0.1\nnameserver[1] : 10.0.0.2\n";
    assert_eq!(
        netctl::dns::system_dns_servers(Some(RESOLV), Some(listing), true),
        vec!["192.168.1.1", "8.8.8.8"]
    );
    assert_eq!(
        netctl::dns::system_dns_servers(Some("search lan\n"), Some(listing), true),
        vec!["10.0.0.1", "10.0.0.2"]
    );
    assert_eq!(
        netctl::dns::system_dns_servers(None, Some(listing), false),
        vec!["10.0.0.1", "10.0.0.1", "10.0.0.2"]
    );
    assert!(netctl::dns::system_dns_servers(None, None, true).is_empty());
}

#[test]
fn servers_are_shown_with_their_operator() {
    let got = netctl::dns::servers(Some("nameserver 1.1.1.1\nnameserver 10.0.0.1\n"), None);
    let got: Vec<(&str, &str)> = got.iter().map(|e| (e.server.as_str(), e.label.as_str())).collect();
    assert_eq!(got, vec![("1.1.1.1", "(Cloudflare)"), ("10.0.0.1", "(ISP/Custom)")]);
    assert!(netctl::dns::servers(None, None).is_empty());
}

#[test]
fn names_are_kept_once() {
    let names = vec!["a".to_string(), "b".to_string(), "a".to_string(), "c".to_string(), "b".to_string()];
    assert_eq!(netctl::dns::deduplicate(names), vec!["a", "b", "c"]);
}
