//! Latency probing: reading the replies of a ping facility into a
//! measurement series, and the steps of the TCP fallback.

use crate::fixed::{is_decimal_number, parse_scaled, scaled_value};
use crate::quality::{classify, tier_of, QualityTier};
use crate::stats::{describes, mean_of, sum, PingStats, SeriesView, Statistics};
use crate::text::{
    append, chars_of, contains_text, copy, decimal, digits_of, lines, lines_of, second_piece,
    second_piece_of, split, split_on, string_of, string_views, trim, trim_end_matches,
    trim_end_matches_of, trim_of, views, words, words_of,
};
use vstd::prelude::*;

verus! {

/// The text that stands between the first `time=` of a reply line and the
/// next one, or the end of the line.
pub open spec fn time_field(line: Seq<char>) -> Seq<char> {
    second_piece_of(line, "time="@)
}

/// The number in a time field: its first word, or `0` where it has none,
/// without the unit `ms` behind it.
pub open spec fn time_number(field: Seq<char>) -> Seq<char> {
    let ws = words_of(field);
    let token = if ws.len() > 0 {
        ws[0]
    } else {
        "0"@
    };
    trim_end_matches_of(token, "ms"@)
}

/// The round-trip time, in microseconds, that a line of ping output
/// reports: the line holds `time=`, and what follows is a decimal number of
/// milliseconds that is below `2^32` microseconds.
pub open spec fn latency_of_line(line: Seq<char>) -> Option<u32> {
    if !contains_text(line, "time="@) {
        None
    } else {
        let number = time_number(time_field(line));
        if is_decimal_number(number) && scaled_value(number, 3) <= u32::MAX {
            Some(scaled_value(number, 3) as u32)
        } else {
            None
        }
    }
}

/// The round-trip times that the lines report, in the order of the lines.
pub open spec fn reply_times(lines: Seq<Seq<char>>) -> Seq<u32>
    decreases lines.len(),
{
    if lines.len() == 0 {
        Seq::empty()
    } else {
        let before = reply_times(lines.drop_last());
        match latency_of_line(lines.last()) {
            Some(v) => before.push(v),
            None => before,
        }
    }
}

/// The round-trip time, in microseconds, that one line of ping output
/// reports, if it reports one.
pub fn parse_reply_line(line: &[char]) -> (r: Option<u32>)
    ensures
        r == latency_of_line(line@),
{
    let field = match second_piece(line, chars_of("time=").as_slice()) {
        Some(f) => f,
        None => {
            return None;
        },
    };
    let ws = words(field.as_slice());
    assert(ws@.len() == views(ws@).len());
    let token = if ws.len() > 0 {
        assert(views(ws@)[0] == ws@[0]@);
        copy(ws[0].as_slice())
    } else {
        chars_of("0")
    };
    let number = trim_end_matches(token.as_slice(), chars_of("ms").as_slice());
    match parse_scaled(number.as_slice(), 3) {
        Some(v) => {
            if v <= u32::MAX as u64 {
                Some(v as u32)
            } else {
                None
            }
        },
        None => None,
    }
}

/// The first `n` items of `s`, or all of them where it has fewer.
pub open spec fn capped(s: Seq<u32>, n: nat) -> Seq<u32> {
    if s.len() <= n {
        s
    } else {
        s.take(n as int)
    }
}

proof fn lemma_capped_push(s: Seq<u32>, v: u32, n: nat)
    ensures
        capped(s.push(v), n) == if capped(s, n).len() < n {
            capped(s, n).push(v)
        } else {
            capped(s, n)
        },
{
    if s.len() >= n {
        assert(s.push(v).take(n as int) == s.take(n as int));
    }
}

/// The series that the output of a ping facility gives for `count` probes
/// to `host`: the round-trip times of the reply lines, in their order, as
/// far as there are no more of them than probes.
pub fn parse_ping_output(host: &str, ip: &str, count: u32, stdout: &str) -> (r: PingStats)
    ensures
        r@ == (SeriesView {
            host: host@,
            ip: ip@,
            sent: count as nat,
            samples: capped(reply_times(lines_of(stdout@)), count as nat),
        }),
{
    let mut stats = PingStats::new(host.to_owned(), ip.to_owned(), count);
    let text = chars_of(stdout);
    let ls = lines(text.as_slice());
    let mut i: usize = 0;
    assert(views(ls@).take(0) == Seq::<Seq<char>>::empty());
    while i < ls.len()
        invariant
            i <= ls.len(),
            views(ls@) == lines_of(stdout@),
            stats@ == (SeriesView {
                host: host@,
                ip: ip@,
                sent: count as nat,
                samples: capped(reply_times(views(ls@).take(i as int)), count as nat),
            }),
        decreases ls.len() - i,
    {
        proof {
            let all = views(ls@);
            assert(all.take(i + 1).drop_last() == all.take(i as int));
            assert(all.take(i + 1).last() == ls@[i as int]@);
        }
        match parse_reply_line(ls[i].as_slice()) {
            Some(v) => {
                proof {
                    lemma_capped_push(
                        reply_times(views(ls@).take(i as int)),
                        v,
                        count as nat,
                    );
                }
                stats.record(v);
            },
            None => {},
        }
        i += 1;
    }
    assert(views(ls@).take(i as int) == views(ls@));
    stats
}

/// One address that a host name resolved to.
pub struct ResolvedAddress {
    /// The address as text.
    pub text: String,
    /// Whether it is an IPv4 address.
    pub is_ipv4: bool,
}

/// The text of the first IPv4 address among `addresses`.
pub open spec fn first_ipv4(addresses: Seq<ResolvedAddress>) -> Option<Seq<char>>
    decreases addresses.len(),
{
    if addresses.len() == 0 {
        None
    } else if addresses[0].is_ipv4 {
        Some(addresses[0].text@)
    } else {
        first_ipv4(addresses.drop_first())
    }
}

/// The address that a lookup gives for probing: the first IPv4 address it
/// found. A lookup that failed is `None` and gives nothing.
pub open spec fn resolved_address(lookup: Option<Vec<ResolvedAddress>>) -> Option<Seq<char>> {
    match lookup {
        Some(addresses) => first_ipv4(addresses@),
        None => None,
    }
}

/// The address that a lookup gives for probing, if it gives one.
pub fn resolve_host(lookup: &Option<Vec<ResolvedAddress>>) -> (r: Option<String>)
    ensures
        match resolved_address(*lookup) {
            Some(text) => r is Some && r->0@ == text,
            None => r is None,
        },
{
    match lookup {
        None => None,
        Some(addresses) => {
            let mut i: usize = 0;
            assert(addresses@.skip(0) == addresses@);
            while i < addresses.len()
                invariant
                    i <= addresses.len(),
                    resolved_address(*lookup) == first_ipv4(addresses@.skip(i as int)),
                decreases addresses.len() - i,
            {
                assert(addresses@.skip(i as int)[0] == addresses@[i as int]);
                if addresses[i].is_ipv4 {
                    return Some(addresses[i].text.clone());
                }
                assert(addresses@.skip(i as int).drop_first() == addresses@.skip(i + 1));
                i += 1;
            }
            None
        },
    }
}

/// The address to probe for `host`: the one its lookup gives, or the host
/// as it was written where the lookup gives none.
pub fn probe_address(host: &str, lookup: &Option<Vec<ResolvedAddress>>) -> (r: String)
    ensures
        r@ == match resolved_address(*lookup) {
            Some(text) => text,
            None => host@,
        },
{
    match resolve_host(lookup) {
        Some(ip) => ip,
        None => host.to_owned(),
    }
}

/// Seconds after which a single probe is given up.
pub const PROBE_TIMEOUT_SECS: u64 = 2;

/// Milliseconds to wait between two connection attempts of the fallback.
pub const FALLBACK_PACING_MILLIS: u64 = 200;

/// What the driver of the TCP fallback has to do next.
#[derive(Clone, Copy, Debug, PartialEq, Eq, Structural)]
pub enum ProbeStep {
    /// Time one connection attempt and report it with `on_connect`.
    Connect,
    /// Wait for the pacing delay and report it with `on_pause`.
    Pause,
    /// Every attempt was made: take the series with `finish`.
    Finished,
}

/// The state of a TCP fallback run, as plain mathematical values.
pub ghost struct FallbackView {
    /// The series measured so far.
    pub series: SeriesView,
    /// Number of attempts that are over, the pause behind them included.
    pub attempted: nat,
    /// Whether an attempt was made whose pause is still due.
    pub pausing: bool,
}

/// The step that is due in a state.
pub open spec fn step_of(v: FallbackView) -> ProbeStep {
    if v.attempted >= v.series.sent {
        ProbeStep::Finished
    } else if v.pausing {
        ProbeStep::Pause
    } else {
        ProbeStep::Connect
    }
}

/// The state after a connection attempt: a successful one adds the time
/// it took to the series, a failed one adds nothing. Outside the step
/// `Connect` nothing changes.
pub open spec fn after_connect(v: FallbackView, outcome: Option<u32>) -> FallbackView {
    if step_of(v) != ProbeStep::Connect {
        v
    } else {
        match outcome {
            Some(micros) => FallbackView {
                series: SeriesView { samples: v.series.samples.push(micros), ..v.series },
                pausing: true,
                ..v
            },
            None => FallbackView { pausing: true, ..v },
        }
    }
}

/// The state after the pacing delay: the attempt is over. Outside the step
/// `Pause` nothing changes.
pub open spec fn after_pause(v: FallbackView) -> FallbackView {
    if step_of(v) != ProbeStep::Pause {
        v
    } else {
        FallbackView { attempted: v.attempted + 1, pausing: false, ..v }
    }
}

/// A run of the TCP fallback: as many timed connection attempts as probes
/// were asked for, each followed by a pause.
pub struct TcpFallback {
    stats: PingStats,
    attempted: u32,
    pausing: bool,
}

impl View for TcpFallback {
    type V = FallbackView;

    closed spec fn view(&self) -> FallbackView {
        FallbackView {
            series: self.stats@,
            attempted: self.attempted as nat,
            pausing: self.pausing,
        }
    }
}

impl TcpFallback {
    #[verifier::type_invariant]
    spec fn well_formed(&self) -> bool {
        &&& self.attempted <= self.stats@.sent
        &&& self.pausing ==> self.attempted < self.stats@.sent
        &&& self.stats@.samples.len() <= self.attempted + if self.pausing {
            1nat
        } else {
            0nat
        }
    }

    /// A run of `count` attempts for `host` at address `ip`, none made yet.
    pub fn new(host: String, ip: String, count: u32) -> (r: Self)
        ensures
            r@ == (FallbackView {
                series: SeriesView {
                    host: host@,
                    ip: ip@,
                    sent: count as nat,
                    samples: Seq::empty(),
                },
                attempted: 0,
                pausing: false,
            }),
    {
        TcpFallback { stats: PingStats::new(host, ip, count), attempted: 0, pausing: false }
    }

    /// What the driver has to do next.
    pub fn next_step(&self) -> (r: ProbeStep)
        ensures
            r == step_of(self@),
    {
        if self.attempted >= self.stats.sent() {
            ProbeStep::Finished
        } else if self.pausing {
            ProbeStep::Pause
        } else {
            ProbeStep::Connect
        }
    }

    /// Where the connection attempts go: the address and port 80.
    pub fn target(&self) -> (r: String)
        ensures
            r@ == self@.series.ip + ":80"@,
    {
        let mut out = chars_of(self.stats.ip());
        append(&mut out, chars_of(":80").as_slice());
        string_of(out.as_slice())
    }

    /// Takes in the outcome of one connection attempt: the time it took in
    /// microseconds, or nothing where it failed or timed out.
    pub fn on_connect(self, outcome: Option<u32>) -> (r: Self)
        ensures
            r@ == after_connect(self@, outcome),
    {
        proof {
            use_type_invariant(&self);
        }
        if self.attempted >= self.stats.sent() || self.pausing {
            return self;
        }
        let TcpFallback { mut stats, attempted, pausing } = self;
        match outcome {
            Some(micros) => {
                let accepted = stats.record(micros);
                assert(accepted);
            },
            None => {},
        }
        TcpFallback { stats, attempted, pausing: true }
    }

    /// Takes in that the pacing delay is over.
    pub fn on_pause(self) -> (r: Self)
        ensures
            r@ == after_pause(self@),
    {
        proof {
            use_type_invariant(&self);
        }
        if self.attempted >= self.stats.sent() || !self.pausing {
            return self;
        }
        let TcpFallback { stats, attempted, pausing } = self;
        TcpFallback { stats, attempted: attempted + 1, pausing: false }
    }

    /// The series measured so far.
    pub fn finish(self) -> (r: PingStats)
        ensures
            r@ == self@.series,
    {
        self.stats
    }
}

/// The state after one whole attempt: the connection attempt, then the
/// pause.
pub open spec fn after_attempt(v: FallbackView, outcome: Option<u32>) -> FallbackView {
    after_pause(after_connect(v, outcome))
}

/// The state after a number of whole attempts with the given outcomes.
pub open spec fn after_attempts(v: FallbackView, outcomes: Seq<Option<u32>>) -> FallbackView
    decreases outcomes.len(),
{
    if outcomes.len() == 0 {
        v
    } else {
        after_attempt(after_attempts(v, outcomes.drop_last()), outcomes.last())
    }
}

/// The times of the attempts that succeeded, in their order.
pub open spec fn successes(outcomes: Seq<Option<u32>>) -> Seq<u32>
    decreases outcomes.len(),
{
    if outcomes.len() == 0 {
        Seq::empty()
    } else {
        match outcomes.last() {
            Some(micros) => successes(outcomes.drop_last()).push(micros),
            None => successes(outcomes.drop_last()),
        }
    }
}

/// A fallback run from its start: after `k` attempts, `k` of them are
/// counted, the series holds the times of those that succeeded, in their
/// order, the number of probes sent is still the number asked for, and the
/// run is finished exactly when `k` is that number.
pub proof fn lemma_fallback_run(start: FallbackView, outcomes: Seq<Option<u32>>)
    requires
        start.attempted == 0,
        !start.pausing,
        start.series.samples.len() == 0,
        outcomes.len() <= start.series.sent,
    ensures
        after_attempts(start, outcomes).attempted == outcomes.len(),
        !after_attempts(start, outcomes).pausing,
        after_attempts(start, outcomes).series == (SeriesView {
            samples: successes(outcomes),
            ..start.series
        }),
        successes(outcomes).len() <= outcomes.len(),
        step_of(after_attempts(start, outcomes)) == ProbeStep::Finished <==> outcomes.len()
            == start.series.sent,
    decreases outcomes.len(),
{
    if outcomes.len() == 0 {
        assert(start.series.samples == Seq::<u32>::empty());
    } else {
        lemma_fallback_run(start, outcomes.drop_last());
    }
}

/// Each text of `fields` without the white space at either end.
pub open spec fn trimmed_all(fields: Seq<Seq<char>>) -> Seq<Seq<char>> {
    Seq::new(fields.len(), |i: int| trim_of(fields[i]))
}

/// The hosts to probe: the entries of the comma-separated list `hosts`,
/// each without white space around it; without a list the single `host`;
/// without either, `google.com`.
pub open spec fn targets_of(host: Option<Seq<char>>, hosts: Option<Seq<char>>) -> Seq<Seq<char>> {
    match hosts {
        Some(list) => trimmed_all(split_on(list, ',')),
        None => match host {
            Some(h) => seq![h],
            None => seq!["google.com"@],
        },
    }
}

/// The hosts to probe.
pub fn targets(host: Option<String>, hosts: Option<String>) -> (r: Vec<String>)
    ensures
        string_views(r@) == targets_of(
            match host {
                Some(h) => Some(h@),
                None => None,
            },
            match hosts {
                Some(h) => Some(h@),
                None => None,
            },
        ),
{
    let mut out: Vec<String> = Vec::new();
    match hosts {
        Some(list) => {
            let text = chars_of(list.as_str());
            let fields = split(text.as_slice(), ',');
            let mut i: usize = 0;
            while i < fields.len()
                invariant
                    i <= fields.len(),
                    out@.len() == i,
                    forall|j: int| 0 <= j < i ==> (#[trigger] out@[j])@ == trim_of(fields@[j]@),
                decreases fields.len() - i,
            {
                let t = trim(fields[i].as_slice());
                out.push(string_of(t.as_slice()));
                i += 1;
            }
            assert(string_views(out@) =~= trimmed_all(views(fields@)));
        },
        None => {
            match host {
                Some(h) => {
                    out.push(h);
                    assert(string_views(out@) =~= seq![h@]);
                },
                None => {
                    out.push("google.com".to_owned());
                    assert(string_views(out@) =~= seq!["google.com"@]);
                },
            }
        },
    }
    out
}

/// The arguments with which the ping facility is asked for `count` probes
/// to `host`, each given up after the probe timeout.
pub fn ping_arguments(host: &str, count: u32) -> (r: Vec<String>)
    ensures
        string_views(r@) == seq!["-c"@, digits_of(count as nat), "-W"@, "2"@, host@],
{
    let mut out: Vec<String> = Vec::new();
    out.push("-c".to_owned());
    out.push(string_of(decimal(count as u64).as_slice()));
    out.push("-W".to_owned());
    out.push("2".to_owned());
    out.push(host.to_owned());
    assert(string_views(out@) =~= seq!["-c"@, digits_of(count as nat), "-W"@, "2"@, host@]);
    out
}

/// What is shown of a series.
pub struct PingReport {
    /// Number of probes sent.
    pub sent: u32,
    /// Number of replies.
    pub received: u32,
    /// The statistics of the series.
    pub statistics: Statistics,
    /// Sum of the round-trip times, in microseconds.
    pub total_micros: u64,
    /// Quality tier of the mean round-trip time; `None` where no reply
    /// came, and only the packet counts and the loss are to be shown.
    pub tier: Option<QualityTier>,
}

/// What is shown of a series.
pub fn report(stats: &PingStats) -> (r: PingReport)
    ensures
        r.sent == stats@.sent,
        r.received == stats@.samples.len(),
        describes(r.statistics, stats@.samples, stats@.sent as int),
        r.total_micros == sum(stats@.samples),
        r.tier == if stats@.samples.len() == 0 {
            None
        } else {
            Some(tier_of(mean_of(stats@.samples)))
        },
{
    let received = stats.received();
    let statistics = stats.statistics();
    let tier = if received == 0 {
        None
    } else {
        Some(classify(statistics.mean))
    };
    PingReport { sent: stats.sent(), received, statistics, total_micros: stats.total_time(), tier }
}

/// What came of asking the ping facility.
pub enum FacilityOutcome {
    /// The facility ran; this is what it printed.
    Output(String),
    /// The facility could not be started at all.
    Unavailable,
}

/// How the probing of one host goes on once the ping facility was asked.
pub enum ProbePlan {
    /// The facility ran: the series is read from its output.
    Measured(PingStats),
    /// The facility could not be started: the TCP fallback runs.
    Fallback(TcpFallback),
}

/// Decides how the probing of `host` goes on. The address is the one its
/// lookup gives, or the host as written. Where the facility ran, its reply
/// lines make the series, however few they are; only where it could not be
/// started does the TCP fallback begin.
pub fn do_ping(
    host: &str,
    lookup: &Option<Vec<ResolvedAddress>>,
    count: u32,
    facility: &FacilityOutcome,
) -> (r: ProbePlan)
    ensures
        match *facility {
            FacilityOutcome::Output(out) => r matches ProbePlan::Measured(stats) && stats@ == (
            SeriesView {
                host: host@,
                ip: match resolved_address(*lookup) {
                    Some(text) => text,
                    None => host@,
                },
                sent: count as nat,
                samples: capped(reply_times(lines_of(out@)), count as nat),
            }),
            FacilityOutcome::Unavailable => r matches ProbePlan::Fallback(run) && run@ == (
            FallbackView {
                series: SeriesView {
                    host: host@,
                    ip: match resolved_address(*lookup) {
                        Some(text) => text,
                        None => host@,
                    },
                    sent: count as nat,
                    samples: Seq::empty(),
                },
                attempted: 0,
                pausing: false,
            }),
        },
{
    let ip = probe_address(host, lookup);
    match facility {
        FacilityOutcome::Output(out) => ProbePlan::Measured(
            parse_ping_output(host, ip.as_str(), count, out.as_str()),
        ),
        FacilityOutcome::Unavailable => ProbePlan::Fallback(
            TcpFallback::new(host.to_owned(), ip, count),
        ),
    }
}

} // verus!
