//! Resolver benchmarking: what counts as an answered query, the figures
//! of one resolver, and which resolver is recommended.

use crate::display::{round_half_even, rounded_div};
use crate::ping::ResolvedAddress;
use crate::stats::{mean, mean_of};
use crate::text::{
    among, append, chars_of, contains, contains_text, decimal, digits_of, is_text, lines, lines_of,
    split, split_on, starts_with, string_of, string_views, trim, trim_of, views, words,
    words_of,
};
use vstd::prelude::*;

verus! {

/// What came of one query for one domain at one resolver.
pub enum QueryOutcome {
    /// The lookup tool ran.
    Lookup {
        /// Whether it ended with success.
        success: bool,
        /// What it printed.
        stdout: String,
        /// How long it ran, in microseconds.
        elapsed_micros: u32,
    },
    /// The lookup tool could not be started, and the second tool ran in
    /// its place. What it printed plays no part: it prints its own
    /// heading whatever the answer, so only how it ended counts.
    Second {
        /// Whether it ended with success.
        success: bool,
        /// How long it ran, in microseconds.
        elapsed_micros: u32,
    },
    /// Neither tool could be started.
    NoTool,
}

/// The time of a query that counts as answered: the lookup tool ended with
/// success and printed more than white space, or the second tool ended
/// with success.
pub open spec fn answered(outcome: QueryOutcome) -> Option<u32> {
    match outcome {
        QueryOutcome::Lookup { success, stdout, elapsed_micros } => if success && trim_of(
            stdout@,
        ).len() > 0 {
            Some(elapsed_micros)
        } else {
            None
        },
        QueryOutcome::Second { success, elapsed_micros } => if success {
            Some(elapsed_micros)
        } else {
            None
        },
        QueryOutcome::NoTool => None,
    }
}

/// The times of the queries that count as answered, in their order.
pub open spec fn answer_times(outcomes: Seq<QueryOutcome>) -> Seq<u32>
    decreases outcomes.len(),
{
    if outcomes.len() == 0 {
        Seq::empty()
    } else {
        match answered(outcomes.last()) {
            Some(t) => answer_times(outcomes.drop_last()).push(t),
            None => answer_times(outcomes.drop_last()),
        }
    }
}

/// Share of answered queries among `total`, in thousandths of a percent,
/// rounded down; zero where no query was made.
pub open spec fn success_rate_of(answered: int, total: int) -> int {
    if total <= 0 {
        0
    } else {
        answered * 100_000 / total
    }
}

/// The time of a query, in microseconds, if it counts as answered.
pub fn query_time(outcome: &QueryOutcome) -> (r: Option<u32>)
    ensures
        r == answered(*outcome),
{
    match outcome {
        QueryOutcome::Lookup { success, stdout, elapsed_micros } => {
            if *success {
                let text = chars_of(stdout.as_str());
                let t = trim(text.as_slice());
                if t.len() > 0 {
                    Some(*elapsed_micros)
                } else {
                    None
                }
            } else {
                None
            }
        },
        QueryOutcome::Second { success, elapsed_micros } => {
            if *success {
                Some(*elapsed_micros)
            } else {
                None
            }
        },
        QueryOutcome::NoTool => None,
    }
}

proof fn lemma_answer_times_len(outcomes: Seq<QueryOutcome>)
    ensures
        answer_times(outcomes).len() <= outcomes.len(),
    decreases outcomes.len(),
{
    if outcomes.len() > 0 {
        lemma_answer_times_len(outcomes.drop_last());
    }
}

/// The figures of one resolver over the queries made to it: the mean time
/// of the answered queries in microseconds, zero where none was answered,
/// and the share of answered queries in thousandths of a percent.
pub fn benchmark_dns_server(outcomes: &[QueryOutcome]) -> (r: (u32, u32))
    ensures
        r.0 == mean_of(answer_times(outcomes@)),
        r.1 == success_rate_of(answer_times(outcomes@).len() as int, outcomes@.len() as int),
{
    let mut times: Vec<u32> = Vec::new();
    let mut i: usize = 0;
    assert(outcomes@.take(0) == Seq::<QueryOutcome>::empty());
    while i < outcomes.len()
        invariant
            i <= outcomes.len(),
            times@ == answer_times(outcomes@.take(i as int)),
        decreases outcomes.len() - i,
    {
        assert(outcomes@.take(i + 1).drop_last() == outcomes@.take(i as int));
        match query_time(&outcomes[i]) {
            Some(t) => {
                times.push(t);
            },
            None => {},
        }
        i += 1;
    }
    assert(outcomes@.take(i as int) == outcomes@);
    proof {
        lemma_answer_times_len(outcomes@);
    }
    let avg = mean(times.as_slice());
    let rate: u32 = if outcomes.len() == 0 {
        0
    } else {
        let n = times.len() as u128;
        let total = outcomes.len() as u128;
        let q = n * 100_000 / total;
        assert(q <= 100_000) by (nonlinear_arith)
            requires
                q == (n * 100_000) / (total as int),
                0 <= n <= total,
                total > 0,
        ;
        q as u32
    };
    (avg, rate)
}

/// The figures of one resolver over the panel of test domains.
pub struct BenchmarkRow {
    /// The resolver: its address and its name.
    pub server: String,
    /// Mean time of the answered queries, in microseconds; zero where no
    /// query was answered.
    pub avg_micros: u32,
    /// Share of answered queries, in thousandths of a percent.
    pub success_millipct: u32,
}

/// Row `i` is the one to recommend: its mean time is above zero, no row has
/// a lower mean time above zero, and no earlier row has the same. The
/// share of answered queries plays no part.
pub open spec fn is_recommended(rows: Seq<BenchmarkRow>, i: int) -> bool {
    &&& 0 <= i < rows.len()
    &&& rows[i].avg_micros > 0
    &&& forall|j: int|
        0 <= j < rows.len() && rows[j].avg_micros > 0 ==> rows[i].avg_micros
            <= #[trigger] rows[j].avg_micros
    &&& forall|j: int|
        0 <= j < i && rows[j].avg_micros > 0 ==> rows[i].avg_micros < #[trigger] rows[j].avg_micros
}

/// No row has a mean time above zero.
pub open spec fn none_answered(rows: Seq<BenchmarkRow>) -> bool {
    forall|j: int| 0 <= j < rows.len() ==> (#[trigger] rows[j]).avg_micros == 0
}

/// The row to recommend: the first among those with the lowest mean time
/// above zero. Nothing where no resolver answered.
pub fn recommend(rows: &[BenchmarkRow]) -> (r: Option<usize>)
    ensures
        match r {
            Some(i) => is_recommended(rows@, i as int),
            None => none_answered(rows@),
        },
{
    let mut best: Option<usize> = None;
    let mut i: usize = 0;
    while i < rows.len()
        invariant
            i <= rows.len(),
            match best {
                Some(b) => b < i && is_recommended(rows@.take(i as int), b as int),
                None => none_answered(rows@.take(i as int)),
            },
        decreases rows.len() - i,
    {
        let avg = rows[i].avg_micros;
        let ghost before = rows@.take(i as int);
        let ghost after = rows@.take(i + 1);
        assert(forall|j: int| 0 <= j < i ==> before[j] == after[j]);
        assert(after[i as int] == rows@[i as int]);
        match best {
            Some(b) => {
                assert(before[b as int] == after[b as int]);
                if avg > 0 && avg < rows[b].avg_micros {
                    best = Some(i);
                    assert(is_recommended(after, i as int));
                } else {
                    assert(is_recommended(after, b as int));
                }
            },
            None => {
                if avg > 0 {
                    best = Some(i);
                    assert(is_recommended(after, i as int));
                } else {
                    assert(none_answered(after));
                }
            },
        }
        i += 1;
    }
    assert(rows@.take(i as int) == rows@);
    best
}

/// There is one row to recommend at most.
pub proof fn lemma_recommendation_unique(rows: Seq<BenchmarkRow>, i: int, k: int)
    requires
        is_recommended(rows, i),
        is_recommended(rows, k),
    ensures
        i == k,
{
    if i < k {
        assert(rows[k].avg_micros < rows[i].avg_micros);
        assert(rows[i].avg_micros <= rows[k].avg_micros);
    } else if k < i {
        assert(rows[i].avg_micros < rows[k].avg_micros);
        assert(rows[k].avg_micros <= rows[i].avg_micros);
    }
}

/// A mean time in whole milliseconds, or `timeout` where it is zero.
pub open spec fn latency_text(avg_micros: nat) -> Seq<char> {
    if avg_micros > 0 {
        digits_of(round_half_even(avg_micros, 1_000)) + " ms"@
    } else {
        "timeout"@
    }
}

/// A share in whole percent.
pub open spec fn percent_text(millipct: nat) -> Seq<char> {
    digits_of(round_half_even(millipct, 1_000)) + "%"@
}

impl BenchmarkRow {
    /// The mean time as it is shown: in whole milliseconds, or `timeout`
    /// where no query was answered.
    pub fn avg_latency(&self) -> (r: String)
        ensures
            r@ == latency_text(self.avg_micros as nat),
    {
        if self.avg_micros > 0 {
            let mut out = decimal(rounded_div(self.avg_micros as u64, 1_000));
            append(&mut out, chars_of(" ms").as_slice());
            string_of(out.as_slice())
        } else {
            "timeout".to_owned()
        }
    }

    /// The share of answered queries as it is shown: in whole percent.
    pub fn success(&self) -> (r: String)
        ensures
            r@ == percent_text(self.success_millipct as nat),
    {
        let mut out = decimal(rounded_div(self.success_millipct as u64, 1_000));
        append(&mut out, chars_of("%").as_slice());
        string_of(out.as_slice())
    }
}

/// The queries made to one resolver, one for each test domain.
pub struct ResolverRun {
    /// The resolver: its address and its name.
    pub label: String,
    /// What came of each query, in the order of the test domains.
    pub outcomes: Vec<QueryOutcome>,
}

/// The row that the queries made to one resolver give.
pub open spec fn row_of(run: ResolverRun, row: BenchmarkRow) -> bool {
    &&& row.server@ == run.label@
    &&& row.avg_micros == mean_of(answer_times(run.outcomes@))
    &&& row.success_millipct == success_rate_of(
        answer_times(run.outcomes@).len() as int,
        run.outcomes@.len() as int,
    )
}

/// What a benchmark shows: one row for each resolver, in the order in
/// which they were asked, and the resolver to recommend.
pub struct BenchmarkReport {
    /// One row for each resolver.
    pub rows: Vec<BenchmarkRow>,
    /// Position of the recommended resolver among the rows.
    pub best: Option<usize>,
    /// The recommended resolver; empty where none answered.
    pub recommendation: String,
}

/// Benchmark multiple well-known DNS resolvers: reduces the queries made
/// to each resolver to its row, and recommends the resolver with the
/// lowest mean time among those that answered at all.
pub fn benchmark(runs: &[ResolverRun]) -> (r: BenchmarkReport)
    ensures
        r.rows@.len() == runs@.len(),
        forall|i: int| 0 <= i < runs@.len() ==> row_of(#[trigger] runs@[i], r.rows@[i]),
        match r.best {
            Some(i) => is_recommended(r.rows@, i as int) && r.recommendation@ == runs@[i as int].label@,
            None => none_answered(r.rows@) && r.recommendation@ == Seq::<char>::empty(),
        },
{
    let mut rows: Vec<BenchmarkRow> = Vec::new();
    let mut i: usize = 0;
    while i < runs.len()
        invariant
            i <= runs.len(),
            rows@.len() == i,
            forall|j: int| 0 <= j < i ==> row_of(#[trigger] runs@[j], rows@[j]),
        decreases runs.len() - i,
    {
        let figures = benchmark_dns_server(runs[i].outcomes.as_slice());
        rows.push(
            BenchmarkRow {
                server: runs[i].label.clone(),
                avg_micros: figures.0,
                success_millipct: figures.1,
            },
        );
        i += 1;
    }
    let best = recommend(rows.as_slice());
    let recommendation = match best {
        Some(b) => {
            assert(row_of(runs@[b as int], rows@[b as int]));
            rows[b].server.clone()
        },
        None => String::new(),
    };
    BenchmarkReport { rows, best, recommendation }
}

/// The operator of a well-known resolver address, in brackets; any other
/// address belongs to the provider or the user.
pub open spec fn provider_of(ip: Seq<char>) -> Seq<char> {
    if ip == "1.1.1.1"@ || ip == "1.0.0.1"@ {
        "(Cloudflare)"@
    } else if ip == "8.8.8.8"@ || ip == "8.8.4.4"@ {
        "(Google)"@
    } else if ip == "208.67.222.222"@ || ip == "208.67.220.220"@ {
        "(Cisco/OpenDNS)"@
    } else if ip == "9.9.9.9"@ || ip == "149.112.112.112"@ {
        "(Quad9)"@
    } else {
        "(ISP/Custom)"@
    }
}

/// The operator of a resolver address, in brackets.
pub fn identify_dns_server(ip: &str) -> (r: String)
    ensures
        r@ == provider_of(ip@),
{
    let a = chars_of(ip);
    if is_text(a.as_slice(), "1.1.1.1") || is_text(a.as_slice(), "1.0.0.1") {
        "(Cloudflare)".to_owned()
    } else if is_text(a.as_slice(), "8.8.8.8") || is_text(a.as_slice(), "8.8.4.4") {
        "(Google)".to_owned()
    } else if is_text(a.as_slice(), "208.67.222.222") || is_text(a.as_slice(), "208.67.220.220") {
        "(Cisco/OpenDNS)".to_owned()
    } else if is_text(a.as_slice(), "9.9.9.9") || is_text(a.as_slice(), "149.112.112.112") {
        "(Quad9)".to_owned()
    } else {
        "(ISP/Custom)".to_owned()
    }
}

/// A public resolver of the panel.
pub struct Resolver {
    /// Its address.
    pub ip: &'static str,
    /// Its operator.
    pub name: &'static str,
}

/// The public resolvers that are benchmarked, in the order in which they
/// are asked.
pub fn resolvers() -> (r: Vec<Resolver>)
    ensures
        r@.len() == 4,
        r@[0].ip@ == "1.1.1.1"@ && r@[0].name@ == "Cloudflare"@,
        r@[1].ip@ == "8.8.8.8"@ && r@[1].name@ == "Google"@,
        r@[2].ip@ == "208.67.222.222"@ && r@[2].name@ == "Cisco/OpenDNS"@,
        r@[3].ip@ == "9.9.9.9"@ && r@[3].name@ == "Quad9"@,
{
    let mut panel: Vec<Resolver> = Vec::new();
    panel.push(Resolver { ip: "1.1.1.1", name: "Cloudflare" });
    panel.push(Resolver { ip: "8.8.8.8", name: "Google" });
    panel.push(Resolver { ip: "208.67.222.222", name: "Cisco/OpenDNS" });
    panel.push(Resolver { ip: "9.9.9.9", name: "Quad9" });
    panel
}

/// The domains that each resolver is asked for, in their order.
pub fn test_domains() -> (r: Vec<&'static str>)
    ensures
        r@.len() == 5,
        r@[0]@ == "google.com"@,
        r@[1]@ == "github.com"@,
        r@[2]@ == "cloudflare.com"@,
        r@[3]@ == "amazon.com"@,
        r@[4]@ == "microsoft.com"@,
{
    let mut domains: Vec<&'static str> = Vec::new();
    domains.push("google.com");
    domains.push("github.com");
    domains.push("cloudflare.com");
    domains.push("amazon.com");
    domains.push("microsoft.com");
    domains
}

/// A resolver as it is shown: its address, and behind it, in brackets, its
/// name.
pub fn resolver_label(ip: &str, name: &str) -> (r: String)
    ensures
        r@ == ip@ + " ("@ + name@ + ")"@,
{
    let mut out = chars_of(ip);
    append(&mut out, chars_of(" (").as_slice());
    append(&mut out, chars_of(name).as_slice());
    append(&mut out, chars_of(")").as_slice());
    string_of(out.as_slice())
}

/// The resolver that the system is set up with, as it is shown.
pub fn system_label(ip: &str) -> (r: String)
    ensures
        r@ == ip@ + " (System)"@,
{
    let mut out = chars_of(ip);
    append(&mut out, chars_of(" (System)").as_slice());
    string_of(out.as_slice())
}

/// The arguments with which the lookup tool is asked for `domain` at the
/// resolver `server`: a short answer, one try, given up after the query
/// timeout.
pub fn lookup_arguments(server: &str, domain: &str) -> (r: Vec<String>)
    ensures
        string_views(r@) == seq!["@"@ + server@, domain@, "+short"@, "+time=2"@, "+tries=1"@],
{
    let mut at = chars_of("@");
    append(&mut at, chars_of(server).as_slice());
    let mut out: Vec<String> = Vec::new();
    out.push(string_of(at.as_slice()));
    out.push(domain.to_owned());
    out.push("+short".to_owned());
    out.push("+time=2".to_owned());
    out.push("+tries=1".to_owned());
    assert(string_views(out@) =~= seq![
        "@"@ + server@,
        domain@,
        "+short"@,
        "+time=2"@,
        "+tries=1"@,
    ]);
    out
}

/// The arguments with which the second tool is asked for `domain` at the
/// resolver `server`.
pub fn second_tool_arguments(server: &str, domain: &str) -> (r: Vec<String>)
    ensures
        string_views(r@) == seq![domain@, server@],
{
    let mut out: Vec<String> = Vec::new();
    out.push(domain.to_owned());
    out.push(server.to_owned());
    assert(string_views(out@) =~= seq![domain@, server@]);
    out
}

/// The resolver that a line of the resolver configuration names: the line
/// begins with `nameserver`, and its second word is the address.
pub open spec fn nameserver_of(line: Seq<char>) -> Option<Seq<char>> {
    if "nameserver"@.is_prefix_of(line) && words_of(line).len() > 1 {
        Some(words_of(line)[1])
    } else {
        None
    }
}

/// The resolver of the first line that begins with `nameserver`; nothing
/// where there is no such line or that line has no second word.
pub open spec fn system_dns_of(lines: Seq<Seq<char>>) -> Option<Seq<char>>
    decreases lines.len(),
{
    if lines.len() == 0 {
        None
    } else if "nameserver"@.is_prefix_of(lines[0]) {
        nameserver_of(lines[0])
    } else {
        system_dns_of(lines.drop_first())
    }
}

/// The resolvers that the lines name, in the order of the lines.
pub open spec fn nameservers_of(lines: Seq<Seq<char>>) -> Seq<Seq<char>>
    decreases lines.len(),
{
    if lines.len() == 0 {
        Seq::empty()
    } else {
        match nameserver_of(lines.last()) {
            Some(server) => nameservers_of(lines.drop_last()).push(server),
            None => nameservers_of(lines.drop_last()),
        }
    }
}

/// The resolver that one line of the resolver configuration names.
pub fn parse_nameserver(line: &[char]) -> (r: Option<Vec<char>>)
    ensures
        match nameserver_of(line@) {
            Some(server) => r is Some && r->0@ == server,
            None => r is None,
        },
{
    if !starts_with(line, chars_of("nameserver").as_slice()) {
        return None;
    }
    let mut ws = words(line);
    assert(views(ws@).len() == ws@.len());
    if ws.len() > 1 {
        assert(views(ws@)[1] == ws@[1]@);
        Some(ws.swap_remove(1))
    } else {
        None
    }
}

/// The resolver that the system is set up with, read from its resolver
/// configuration.
pub fn get_system_dns(resolv_conf: &str) -> (r: Option<String>)
    ensures
        match system_dns_of(lines_of(resolv_conf@)) {
            Some(server) => r is Some && r->0@ == server,
            None => r is None,
        },
{
    let text = chars_of(resolv_conf);
    let ls = lines(text.as_slice());
    let prefix = chars_of("nameserver");
    let mut i: usize = 0;
    assert(views(ls@).skip(0) == views(ls@));
    while i < ls.len()
        invariant
            i <= ls.len(),
            prefix@ == "nameserver"@,
            views(ls@) == lines_of(resolv_conf@),
            system_dns_of(lines_of(resolv_conf@)) == system_dns_of(views(ls@).skip(i as int)),
        decreases ls.len() - i,
    {
        let ghost rest = views(ls@).skip(i as int);
        assert(rest[0] == ls@[i as int]@);
        assert(rest.drop_first() == views(ls@).skip(i + 1));
        if starts_with(ls[i].as_slice(), prefix.as_slice()) {
            return match parse_nameserver(ls[i].as_slice()) {
                Some(server) => Some(string_of(server.as_slice())),
                None => None,
            };
        }
        i += 1;
    }
    None
}

/// All resolvers that the resolver configuration names, in its order.
pub fn configured_servers(resolv_conf: &str) -> (r: Vec<String>)
    ensures
        string_views(r@) == nameservers_of(lines_of(resolv_conf@)),
{
    let text = chars_of(resolv_conf);
    let ls = lines(text.as_slice());
    let mut out: Vec<String> = Vec::new();
    let mut i: usize = 0;
    assert(views(ls@).take(0) == Seq::<Seq<char>>::empty());
    assert(string_views(out@) =~= Seq::<Seq<char>>::empty());
    while i < ls.len()
        invariant
            i <= ls.len(),
            views(ls@) == lines_of(resolv_conf@),
            string_views(out@) == nameservers_of(views(ls@).take(i as int)),
        decreases ls.len() - i,
    {
        let ghost all = views(ls@);
        assert(all.take(i + 1).drop_last() == all.take(i as int));
        assert(all.take(i + 1).last() == ls@[i as int]@);
        match parse_nameserver(ls[i].as_slice()) {
            Some(server) => {
                let s = string_of(server.as_slice());
                assert(string_views(out@.push(s)) =~= string_views(out@).push(s@));
                out.push(s);
            },
            None => {},
        }
        i += 1;
    }
    assert(views(ls@).take(i as int) == views(ls@));
    out
}

/// The resolver that a line of the macOS resolver listing names: the line
/// holds `nameserver[`, and what stands between its first and second colon,
/// without the white space around it, is the address.
pub open spec fn listed_nameserver_of(line: Seq<char>) -> Option<Seq<char>> {
    if contains_text(line, "nameserver["@) && split_on(line, ':').len() > 1 {
        Some(trim_of(split_on(line, ':')[1]))
    } else {
        None
    }
}

/// The resolvers that the lines of the macOS resolver listing name, in the
/// order of the lines.
pub open spec fn listed_nameservers_of(lines: Seq<Seq<char>>) -> Seq<Seq<char>>
    decreases lines.len(),
{
    if lines.len() == 0 {
        Seq::empty()
    } else {
        match listed_nameserver_of(lines.last()) {
            Some(server) => listed_nameservers_of(lines.drop_last()).push(server),
            None => listed_nameservers_of(lines.drop_last()),
        }
    }
}

/// The resolver that one line of the macOS resolver listing names.
pub fn parse_listed_nameserver(line: &[char]) -> (r: Option<Vec<char>>)
    ensures
        match listed_nameserver_of(line@) {
            Some(server) => r is Some && r->0@ == server,
            None => r is None,
        },
{
    if !contains(line, chars_of("nameserver[").as_slice()) {
        return None;
    }
    let fields = split(line, ':');
    assert(views(fields@).len() == fields@.len());
    if fields.len() > 1 {
        assert(views(fields@)[1] == fields@[1]@);
        Some(trim(fields[1].as_slice()))
    } else {
        None
    }
}

/// All resolvers that the macOS resolver listing names, in its order.
pub fn listed_servers(listing: &str) -> (r: Vec<String>)
    ensures
        string_views(r@) == listed_nameservers_of(lines_of(listing@)),
{
    let text = chars_of(listing);
    let ls = lines(text.as_slice());
    let mut out: Vec<String> = Vec::new();
    let mut i: usize = 0;
    assert(views(ls@).take(0) == Seq::<Seq<char>>::empty());
    assert(string_views(out@) =~= Seq::<Seq<char>>::empty());
    while i < ls.len()
        invariant
            i <= ls.len(),
            views(ls@) == lines_of(listing@),
            string_views(out@) == listed_nameservers_of(views(ls@).take(i as int)),
        decreases ls.len() - i,
    {
        let ghost all = views(ls@);
        assert(all.take(i + 1).drop_last() == all.take(i as int));
        assert(all.take(i + 1).last() == ls@[i as int]@);
        match parse_listed_nameserver(ls[i].as_slice()) {
            Some(server) => {
                let s = string_of(server.as_slice());
                assert(string_views(out@.push(s)) =~= string_views(out@).push(s@));
                out.push(s);
            },
            None => {},
        }
        i += 1;
    }
    assert(views(ls@).take(i as int) == views(ls@));
    out
}

/// The addresses of one family among `addresses`, in their order.
pub open spec fn of_family(addresses: Seq<ResolvedAddress>, ipv4: bool) -> Seq<Seq<char>>
    decreases addresses.len(),
{
    if addresses.len() == 0 {
        Seq::empty()
    } else if addresses.last().is_ipv4 == ipv4 {
        of_family(addresses.drop_last(), ipv4).push(addresses.last().text@)
    } else {
        of_family(addresses.drop_last(), ipv4)
    }
}

/// The addresses that a name resolved to, the IPv4 addresses first and
/// the others second, each in the order in which they came.
pub fn resolve(addresses: &[ResolvedAddress]) -> (r: (Vec<String>, Vec<String>))
    ensures
        string_views(r.0@) == of_family(addresses@, true),
        string_views(r.1@) == of_family(addresses@, false),
{
    let mut ipv4: Vec<String> = Vec::new();
    let mut ipv6: Vec<String> = Vec::new();
    let mut i: usize = 0;
    assert(addresses@.take(0) == Seq::<ResolvedAddress>::empty());
    assert(string_views(ipv4@) =~= Seq::<Seq<char>>::empty());
    assert(string_views(ipv6@) =~= Seq::<Seq<char>>::empty());
    while i < addresses.len()
        invariant
            i <= addresses.len(),
            string_views(ipv4@) == of_family(addresses@.take(i as int), true),
            string_views(ipv6@) == of_family(addresses@.take(i as int), false),
        decreases addresses.len() - i,
    {
        assert(addresses@.take(i + 1).drop_last() == addresses@.take(i as int));
        let s = addresses[i].text.clone();
        if addresses[i].is_ipv4 {
            assert(string_views(ipv4@.push(s)) =~= string_views(ipv4@).push(s@));
            ipv4.push(s);
        } else {
            assert(string_views(ipv6@.push(s)) =~= string_views(ipv6@).push(s@));
            ipv6.push(s);
        }
        i += 1;
    }
    assert(addresses@.take(i as int) == addresses@);
    (ipv4, ipv6)
}

/// Whether the resolver cache counts as flushed: one of the two flush
/// commands, that of macOS or that of Linux, ran and ended with success.
/// A command that could not be started is `None`.
pub fn flush(macos: Option<bool>, linux: Option<bool>) -> (r: bool)
    ensures
        r == (macos == Some(true) || linux == Some(true)),
{
    let a = match macos {
        Some(ok) => ok,
        None => false,
    };
    let b = match linux {
        Some(ok) => ok,
        None => false,
    };
    a || b
}

/// The names without those that repeat an earlier one.
pub open spec fn distinct_names(names: Seq<Seq<char>>) -> Seq<Seq<char>>
    decreases names.len(),
{
    if names.len() == 0 {
        Seq::empty()
    } else if among(distinct_names(names.drop_last()), names.last()) {
        distinct_names(names.drop_last())
    } else {
        distinct_names(names.drop_last()).push(names.last())
    }
}

/// The resolvers of the system: those that the resolver configuration
/// names, or, where it names none or could not be read, those of the
/// macOS resolver listing, each once where `once` is set. What could not
/// be read is `None`.
pub open spec fn system_servers(
    resolv_conf: Option<Seq<char>>,
    listing: Option<Seq<char>>,
    once: bool,
) -> Seq<Seq<char>> {
    let configured = match resolv_conf {
        Some(text) => nameservers_of(lines_of(text)),
        None => Seq::empty(),
    };
    let from_listing = match listing {
        Some(text) => listed_nameservers_of(lines_of(text)),
        None => Seq::empty(),
    };
    if configured.len() > 0 {
        configured
    } else if once {
        distinct_names(from_listing)
    } else {
        from_listing
    }
}

/// What is left of the names holds each name once, and holds every name
/// that was there.
pub proof fn lemma_distinct_names(names: Seq<Seq<char>>)
    ensures
        forall|i: int, j: int|
            0 <= i < j < distinct_names(names).len() ==> #[trigger] distinct_names(names)[i]
                != #[trigger] distinct_names(names)[j],
        forall|k: int| 0 <= k < names.len() ==> among(distinct_names(names), #[trigger] names[k]),
        distinct_names(names).len() <= names.len(),
    decreases names.len(),
{
    if names.len() > 0 {
        let head = names.drop_last();
        let before = distinct_names(head);
        let now = distinct_names(names);
        lemma_distinct_names(head);
        assert forall|k: int| 0 <= k < names.len() implies among(now, #[trigger] names[k]) by {
            if k < head.len() {
                assert(head[k] == names[k]);
                let w = choose|w: int| 0 <= w < before.len() && #[trigger] before[w] == names[k];
                assert(now[w] == names[k]);
            } else if among(before, names.last()) {
            } else {
                assert(now[now.len() - 1] == names[k]);
            }
        }
        if !among(before, names.last()) {
            assert forall|i: int, j: int| 0 <= i < j < now.len() implies #[trigger] now[i]
                != #[trigger] now[j] by {
                if j < before.len() {
                    assert(now[i] == before[i] && now[j] == before[j]);
                } else {
                    assert(now[i] == before[i]);
                }
            }
        }
    }
}

/// The names without those that repeat an earlier one.
pub fn deduplicate(names: Vec<String>) -> (r: Vec<String>)
    ensures
        string_views(r@) == distinct_names(string_views(names@)),
{
    let ghost all = string_views(names@);
    let mut out: Vec<String> = Vec::new();
    let mut seen: Vec<Vec<char>> = Vec::new();
    let mut i: usize = 0;
    assert(all.take(0) == Seq::<Seq<char>>::empty());
    assert(string_views(out@) =~= Seq::<Seq<char>>::empty());
    while i < names.len()
        invariant
            i <= names.len(),
            all == string_views(names@),
            string_views(out@) == distinct_names(all.take(i as int)),
            seen@.len() == out@.len(),
            forall|j: int| 0 <= j < seen@.len() ==> (#[trigger] seen@[j])@ == out@[j]@,
        decreases names.len() - i,
    {
        assert(all.take(i + 1).drop_last() == all.take(i as int));
        assert(all.take(i + 1).last() == names@[i as int]@);
        let name = chars_of(names[i].as_str());
        let found = crate::text::position_of(seen.as_slice(), name.as_slice());
        let ghost so_far = string_views(out@);
        assert(found is Some == among(so_far, name@)) by {
            if found is Some {
                let j = found->0 as int;
                assert(so_far[j] == name@);
            }
            if among(so_far, name@) {
                let j = choose|j: int| 0 <= j < so_far.len() && #[trigger] so_far[j] == name@;
                assert(seen@[j]@ == name@);
            }
        }
        if found.is_none() {
            let s = names[i].clone();
            assert(string_views(out@.push(s)) =~= so_far.push(s@));
            out.push(s);
            seen.push(name);
        }
        i += 1;
    }
    assert(all.take(i as int) == all);
    out
}

/// The resolvers of the system, in their order. What could not be read is
/// `None`; the macOS resolver listing is needed only where the resolver
/// configuration names no resolver.
pub fn system_dns_servers(resolv_conf: Option<&str>, listing: Option<&str>, once: bool) -> (r: Vec<
    String,
>)
    ensures
        string_views(r@) == system_servers(
            match resolv_conf {
                Some(s) => Some(s@),
                None => None,
            },
            match listing {
                Some(s) => Some(s@),
                None => None,
            },
            once,
        ),
{
    let configured = match resolv_conf {
        Some(text) => configured_servers(text),
        None => Vec::new(),
    };
    assert(string_views(configured@).len() == configured@.len());
    if configured.len() > 0 {
        return configured;
    }
    let from_listing = match listing {
        Some(text) => listed_servers(text),
        None => Vec::new(),
    };
    assert(resolv_conf is None ==> string_views(configured@) =~= Seq::<Seq<char>>::empty());
    assert(listing is None ==> string_views(from_listing@) =~= Seq::<Seq<char>>::empty());
    if once {
        deduplicate(from_listing)
    } else {
        from_listing
    }
}

/// A resolver of the system with the name of its operator.
pub struct ServerEntry {
    /// The address of the resolver.
    pub server: String,
    /// The operator, in brackets.
    pub label: String,
}

/// Show the currently configured DNS servers: the resolvers of the system,
/// each as often as it is named, with the operator of each.
pub fn servers(resolv_conf: Option<&str>, listing: Option<&str>) -> (r: Vec<ServerEntry>)
    ensures
        r@.len() == system_servers(
            match resolv_conf {
                Some(s) => Some(s@),
                None => None,
            },
            match listing {
                Some(s) => Some(s@),
                None => None,
            },
            false,
        ).len(),
        forall|i: int|
            0 <= i < r@.len() ==> (#[trigger] r@[i]).server@ == system_servers(
                match resolv_conf {
                    Some(s) => Some(s@),
                    None => None,
                },
                match listing {
                    Some(s) => Some(s@),
                    None => None,
                },
                false,
            )[i] && r@[i].label@ == provider_of(r@[i].server@),
{
    let found = system_dns_servers(resolv_conf, listing, false);
    assert(string_views(found@).len() == found@.len());
    let mut out: Vec<ServerEntry> = Vec::new();
    let mut i: usize = 0;
    while i < found.len()
        invariant
            i <= found.len(),
            out@.len() == i,
            forall|j: int|
                0 <= j < i ==> (#[trigger] out@[j]).server@ == found@[j]@ && out@[j].label@
                    == provider_of(found@[j]@),
        decreases found.len() - i,
    {
        let label = identify_dns_server(found[i].as_str());
        out.push(ServerEntry { server: found[i].clone(), label });
        i += 1;
    }
    assert(forall|j: int| 0 <= j < found@.len() ==> string_views(found@)[j] == found@[j]@);
    out
}

} // verus!
