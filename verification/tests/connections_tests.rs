use netctl::connections::is_local_address;

#[test]
fn local_addresses() {
    assert!(is_local_address("127.0.0.1:8080"));
    assert!(is_local_address("0.0.0.0:22"));
    assert!(is_local_address("[::1]:631"));
    assert!(is_local_address("*:5353"));
    assert!(is_local_address("localhost:3000"));
    assert!(is_local_address("192.168.1.20:443"));
    assert!(is_local_address("10.0.0.5:53"));
    assert!(is_local_address("172.16.4.1:80"));
}

#[test]
fn external_addresses() {
    assert!(!is_local_address("142.250.74.14:443"));
    assert!(!is_local_address("172.17.0.2:80"));
    assert!(!is_local_address("1.127.0.0:80"));
    assert!(!is_local_address("100.64.0.1:80"));
    assert!(!is_local_address("[2001:db8::1]:443"));
    assert!(!is_local_address(""));
    assert!(!is_local_address("*"));
}

fn chars(s: &str) -> Vec<char> {
    s.chars().collect()
}

fn conn(pid: &str, app: &str, remote: &str, protocol: &str, state: &str) -> netctl::connections::Connection {
    netctl::connections::Connection {
        pid: pid.to_string(),
        application: app.to_string(),
        remote_address: remote.to_string(),
        protocol: protocol.to_string(),
        state: state.to_string(),
    }
}

fn fields(c: &netctl::connections::Connection) -> (&str, &str, &str, &str, &str) {
    (&c.pid, &c.application, &c.remote_address, &c.protocol, &c.state)
}

const LSOF: &str = "COMMAND   PID USER   FD   TYPE DEVICE SIZE/OFF NODE NAME\n\
firefox  1234 me   45u  IPv4 0x1234      0t0  TCP 192.168.1.20:51000->142.250.74.14:443 (ESTABLISHED)\n\
sshd      800 root  3u  IPv4 0x5678      0t0  TCP *:22 (LISTEN)\n\
mDNS      300 me    8u  IPv4 0x9abc      0t0  UDP *:5353\n\
curl     2000 me    5u  IPv4 0xdef0      0t0  TCP 10.0.0.5:40000->93.184.216.34:80 (CLOSE_WAIT)\n\
short line\n\
nc       2100 me    3u  IPv4 0xaaaa      0t0  TCP 10.0.0.5:40001->10.0.0.9:9000 (TIME_WAIT)\n";

#[test]
fn open_files_listing_is_read_line_by_line() {
    let got = netctl::connections::parse_listing(LSOF);
    let got: Vec<_> = got.iter().map(fields).collect();
    assert_eq!(
        got,
        vec![
            ("1234", "firefox", "142.250.74.14:443", "TCP/HTTPS", "ESTAB"),
            ("800", "sshd", "*:22", "TCP", "LISTEN"),
            ("300", "mDNS", "*:5353", "UDP", ""),
            ("2000", "curl", "93.184.216.34:80", "TCP/HTTP", "CLOSE_W"),
            ("2100", "nc", "(TIME_WAIT)", "TCP", "TIME_W"),
        ]
    );
}

#[test]
fn open_files_listing_without_lines_gives_nothing() {
    assert!(netctl::connections::parse_listing("").is_empty());
    assert!(netctl::connections::parse_listing("COMMAND PID USER FD TYPE DEVICE SIZE/OFF NODE NAME\n").is_empty());
}

#[test]
fn open_files_line_needs_nine_columns() {
    assert!(netctl::connections::parse_listed_line(&chars("a b c d e f g h")).is_none());
    let c = netctl::connections::parse_listed_line(&chars("app 1 u fd t d s raw host:1")).expect("nine columns");
    assert_eq!(fields(&c), ("1", "app", "host:1", "raw", ""));
}

#[test]
fn socket_lines_are_read_with_the_name_of_the_process() {
    let line = "tcp   ESTAB  0  0  192.168.1.20:51000  142.250.74.14:443  users:((\"firefox\",pid=1234,fd=45))";
    assert_eq!(netctl::connections::socket_line_pid(line), Some("1234".to_string()));
    let c = netctl::connections::parse_socket_line(line, "firefox").expect("six columns");
    assert_eq!(fields(&c), ("1234", "firefox", "142.250.74.14:443", "TCP", "ESTAB"));
    let bare = "udp UNCONN 0 0 0.0.0.0:68 0.0.0.0:*";
    assert_eq!(netctl::connections::socket_line_pid(bare), Some("-".to_string()));
    let c = netctl::connections::parse_socket_line(bare, "Unknown").expect("six columns");
    assert_eq!(fields(&c), ("-", "Unknown", "0.0.0.0:*", "UDP", "UNCONN"));
    assert_eq!(netctl::connections::socket_line_pid("tcp ESTAB 0 0 a"), None);
    assert!(netctl::connections::parse_socket_line("tcp ESTAB 0 0 a", "x").is_none());
}

#[test]
fn socket_states_are_abbreviated() {
    let short = |s: &str| netctl::connections::abbreviate_socket_state(&chars(s)).into_iter().collect::<String>();
    assert_eq!(short("CLOSE-WAIT"), "CLOSE_W");
    assert_eq!(short("TIME-WAIT"), "TIME_W");
    assert_eq!(short("ESTAB"), "ESTAB");
    assert_eq!(short("LISTEN"), "LISTEN");
    assert_eq!(short("SYN-SENT"), "SYN-SENT");
}

#[test]
fn socket_pid_stands_behind_the_first_mark() {
    let pid = |s: &str| netctl::connections::socket_pid(&chars(s)).into_iter().collect::<String>();
    assert_eq!(pid("users:((\"a\",pid=12,fd=3),(\"b\",pid=13,fd=4))"), "12");
    assert_eq!(pid("pid=77"), "77");
    assert_eq!(pid("pid="), "");
    assert_eq!(pid("users"), "-");
}

#[test]
fn names_are_ordered_as_in_a_dictionary() {
    let less = |a: &str, b: &str| netctl::connections::less(&chars(a), &chars(b));
    assert!(less("abc", "abd"));
    assert!(less("ab", "abc"));
    assert!(less("", "a"));
    assert!(less("Zebra", "apple"));
    assert!(!less("abc", "abc"));
    assert!(!less("b", "a"));
    assert!(!less("a", ""));
    assert!(!less("", ""));
}

#[test]
fn report_counts_filters_and_orders() {
    let all = vec![
        conn("1", "zsh", "142.250.74.14:443", "TCP", "ESTAB"),
        conn("2", "Firefox", "192.168.1.1:53", "UDP", ""),
        conn("3", "firefox", "93.184.216.34:80", "TCP", "ESTAB"),
        conn("3", "firefox", "93.184.216.34:80", "TCP", "ESTAB"),
        conn("4", "curl", "127.0.0.1:8080", "TCP", "ESTAB"),
    ];
    let r = netctl::connections::summarize(&all, None, false);
    assert_eq!(r.total, 5);
    assert_eq!(r.external, 3);
    assert_eq!(r.local, 2);
    let shown: Vec<_> = r.shown.iter().map(|c| (c.pid.as_str(), c.application.as_str())).collect();
    assert_eq!(shown, vec![("2", "Firefox"), ("4", "curl"), ("3", "firefox"), ("1", "zsh")]);

    let r = netctl::connections::summarize(&all, Some("FIRE"), true);
    assert_eq!(r.total, 2);
    assert_eq!(r.external, 2);
    assert_eq!(r.local, 0);
    assert_eq!(r.shown.len(), 1);
    assert_eq!(r.shown[0].pid, "3");
}

#[test]
fn report_shows_thirty_at_most() {
    let all: Vec<_> = (0..40).map(|i| conn(&i.to_string(), "app", "1.2.3.4:1", "TCP", "ESTAB")).collect();
    let r = netctl::connections::summarize(&all, None, false);
    assert_eq!(r.total, 40);
    assert_eq!(r.shown.len(), 30);
    assert_eq!(r.shown[0].pid, "0");
    assert_eq!(r.shown[29].pid, "29");
}

#[test]
fn connections_with_the_same_joined_key_count_as_one() {
    let all = vec![conn("a:b", "x", "c", "TCP", "d"), conn("a", "y", "b:c", "TCP", "d")];
    let unique = netctl::connections::deduplicate(&all);
    assert_eq!(unique.len(), 1);
    assert_eq!(unique[0].application, "x");
}
