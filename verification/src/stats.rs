//! Descriptive statistics over a series of round-trip times.
//!
//! A latency sample is a whole number of microseconds. Every statistic is
//! reported in microseconds as well, rounded down, and is zero where the
//! series is too short for it to be defined.

use vstd::prelude::*;

verus! {

/// Sum of the samples.
pub open spec fn sum(s: Seq<u32>) -> int
    decreases s.len(),
{
    if s.len() == 0 {
        0
    } else {
        sum(s.drop_last()) + s.last()
    }
}

/// Smallest sample; zero for the empty series.
pub open spec fn min_of(s: Seq<u32>) -> int
    decreases s.len(),
{
    if s.len() == 0 {
        0
    } else if s.len() == 1 {
        s[0] as int
    } else if s.last() < min_of(s.drop_last()) {
        s.last() as int
    } else {
        min_of(s.drop_last())
    }
}

/// Largest sample; zero for the empty series.
pub open spec fn max_of(s: Seq<u32>) -> int
    decreases s.len(),
{
    if s.len() == 0 {
        0
    } else if s.last() > max_of(s.drop_last()) {
        s.last() as int
    } else {
        max_of(s.drop_last())
    }
}

/// Arithmetic mean, rounded down; zero for the empty series.
pub open spec fn mean_of(s: Seq<u32>) -> int {
    if s.len() == 0 {
        0
    } else {
        sum(s) / (s.len() as int)
    }
}

/// Sum over the samples `x` of `(n * x - t)^2`.
///
/// With `n` the number of samples and `t` their sum this is `n^2` times the
/// sum of the squared deviations from the exact mean.
pub open spec fn scaled_sq_dev(s: Seq<u32>, n: int, t: int) -> int
    decreases s.len(),
{
    if s.len() == 0 {
        0
    } else {
        scaled_sq_dev(s.drop_last(), n, t) + (n * s.last() - t) * (n * s.last() - t)
    }
}

/// Sample variance (divisor `n - 1`) around the exact mean, rounded down;
/// zero for fewer than two samples.
pub open spec fn variance_of(s: Seq<u32>) -> int {
    let n = s.len() as int;
    if n < 2 {
        0
    } else {
        scaled_sq_dev(s, n, sum(s)) / (n * n * (n - 1))
    }
}

/// `r` is the square root of `v`, rounded down.
pub open spec fn is_floor_sqrt(r: int, v: int) -> bool {
    0 <= r && r * r <= v < (r + 1) * (r + 1)
}

/// Sum of the absolute differences between neighbouring samples.
pub open spec fn abs_diff_sum(s: Seq<u32>) -> int
    decreases s.len(),
{
    if s.len() < 2 {
        0
    } else {
        let a = s[s.len() - 2] as int;
        let b = s.last() as int;
        abs_diff_sum(s.drop_last()) + if a <= b { b - a } else { a - b }
    }
}

/// Mean absolute difference between neighbouring samples, rounded down;
/// zero for fewer than two samples.
pub open spec fn jitter_of(s: Seq<u32>) -> int {
    if s.len() < 2 {
        0
    } else {
        abs_diff_sum(s) / (s.len() - 1)
    }
}

/// Share of probes that got no reply, in thousandths of a percent, rounded
/// down; zero when nothing was sent.
pub open spec fn loss_of(sent: int, received: int) -> int {
    if sent <= 0 || received > sent {
        0
    } else {
        (sent - received) * 100_000 / sent
    }
}

/// Sum of the squares of the samples.
pub open spec fn sum_sq(s: Seq<u32>) -> int
    decreases s.len(),
{
    if s.len() == 0 {
        0
    } else {
        sum_sq(s.drop_last()) + s.last() * s.last()
    }
}

proof fn lemma_take_step(s: Seq<u32>, i: int)
    requires
        0 <= i < s.len(),
    ensures
        s.take(i + 1).drop_last() == s.take(i),
        s.take(i + 1).last() == s[i],
        s.take(i + 1).len() == i + 1,
{
    assert(s.take(i + 1).drop_last() =~= s.take(i));
}

/// The sum of `n` samples lies between zero and `n` times the largest
/// value a sample can take.
pub proof fn lemma_sum_bounds(s: Seq<u32>)
    ensures
        0 <= sum(s) <= s.len() * 0xffff_ffff,
    decreases s.len(),
{
    if s.len() > 0 {
        lemma_sum_bounds(s.drop_last());
    }
}

proof fn lemma_sum_sq_bounds(s: Seq<u32>)
    ensures
        0 <= sum_sq(s) <= s.len() * 0xffff_fffe_0000_0001,
    decreases s.len(),
{
    if s.len() > 0 {
        lemma_sum_sq_bounds(s.drop_last());
        let x = s.last() as int;
        assert(0 <= x * x <= 0xffff_fffe_0000_0001) by (nonlinear_arith)
            requires
                0 <= x <= 0xffff_ffff,
        ;
    }
}

proof fn lemma_abs_diff_sum_bounds(s: Seq<u32>)
    ensures
        0 <= abs_diff_sum(s),
        s.len() >= 1 ==> abs_diff_sum(s) <= (s.len() - 1) * 0xffff_ffff,
    decreases s.len(),
{
    if s.len() >= 2 {
        lemma_abs_diff_sum_bounds(s.drop_last());
    }
}

/// Every sample lies between the smallest and the largest one, and both
/// are samples of the series.
pub proof fn lemma_min_max_bounds(s: Seq<u32>)
    ensures
        forall|i: int| 0 <= i < s.len() ==> min_of(s) <= #[trigger] s[i] <= max_of(s),
        s.len() > 0 ==> exists|i: int| 0 <= i < s.len() && #[trigger] s[i] == min_of(s),
        s.len() > 0 ==> exists|i: int| 0 <= i < s.len() && #[trigger] s[i] == max_of(s),
        s.len() == 0 ==> min_of(s) == 0 && max_of(s) == 0,
    decreases s.len(),
{
    if s.len() == 1 {
        lemma_min_max_bounds(s.drop_last());
        assert(s[0] == min_of(s));
        assert(s[0] == max_of(s));
    } else if s.len() > 1 {
        let t = s.drop_last();
        lemma_min_max_bounds(t);
        assert forall|i: int| 0 <= i < s.len() implies min_of(s) <= #[trigger] s[i] <= max_of(
            s,
        ) by {
            if i < t.len() {
                assert(t[i] == s[i]);
            }
        }
        let lo = choose|i: int| 0 <= i < t.len() && #[trigger] t[i] == min_of(t);
        let hi = choose|i: int| 0 <= i < t.len() && #[trigger] t[i] == max_of(t);
        assert(t[lo] == s[lo]);
        assert(t[hi] == s[hi]);
        if s.last() < min_of(t) {
            assert(s[s.len() - 1] == min_of(s));
        } else {
            assert(s[lo] == min_of(s));
        }
        if s.last() > max_of(t) {
            assert(s[s.len() - 1] == max_of(s));
        } else {
            assert(s[hi] == max_of(s));
        }
    }
}

/// Smallest sample, in microseconds; zero for the empty series.
pub fn min(samples: &[u32]) -> (r: u32)
    ensures
        r == min_of(samples@),
{
    let mut best: u32 = 0;
    let mut i: usize = 0;
    while i < samples.len()
        invariant
            i <= samples.len(),
            best == min_of(samples@.take(i as int)),
        decreases samples.len() - i,
    {
        proof {
            lemma_take_step(samples@, i as int);
        }
        if i == 0 || samples[i] < best {
            best = samples[i];
        }
        i += 1;
    }
    assert(samples@.take(i as int) =~= samples@);
    best
}

/// Largest sample, in microseconds; zero for the empty series.
pub fn max(samples: &[u32]) -> (r: u32)
    ensures
        r == max_of(samples@),
{
    let mut best: u32 = 0;
    let mut i: usize = 0;
    while i < samples.len()
        invariant
            i <= samples.len(),
            best == max_of(samples@.take(i as int)),
        decreases samples.len() - i,
    {
        proof {
            lemma_take_step(samples@, i as int);
        }
        if samples[i] > best {
            best = samples[i];
        }
        i += 1;
    }
    assert(samples@.take(i as int) =~= samples@);
    best
}

/// Sum of the samples, in microseconds.
pub fn total(samples: &[u32]) -> (r: u128)
    ensures
        r == sum(samples@),
{
    let mut acc: u128 = 0;
    let mut i: usize = 0;
    while i < samples.len()
        invariant
            i <= samples.len(),
            acc == sum(samples@.take(i as int)),
        decreases samples.len() - i,
    {
        proof {
            lemma_take_step(samples@, i as int);
            lemma_sum_bounds(samples@.take(i as int));
        }
        acc = acc + samples[i] as u128;
        i += 1;
    }
    assert(samples@.take(i as int) =~= samples@);
    acc
}

/// Arithmetic mean of the samples, in microseconds, rounded down; zero for
/// the empty series.
pub fn mean(samples: &[u32]) -> (r: u32)
    ensures
        r == mean_of(samples@),
{
    if samples.len() == 0 {
        return 0;
    }
    let t = total(samples);
    let n = samples.len() as u128;
    let q = t / n;
    proof {
        lemma_sum_bounds(samples@);
        assert(q <= 0xffff_ffff) by (nonlinear_arith)
            requires
                q == t / n,
                n > 0,
                0 <= t <= n * 0xffff_ffff,
        ;
    }
    q as u32
}

/// Mean absolute difference between neighbouring samples, in microseconds,
/// rounded down; zero for fewer than two samples.
pub fn jitter(samples: &[u32]) -> (r: u32)
    ensures
        r == jitter_of(samples@),
{
    if samples.len() < 2 {
        return 0;
    }
    let mut acc: u128 = 0;
    let mut i: usize = 1;
    assert(samples@.take(1).len() == 1);
    while i < samples.len()
        invariant
            1 <= i <= samples.len(),
            acc == abs_diff_sum(samples@.take(i as int)),
        decreases samples.len() - i,
    {
        proof {
            lemma_take_step(samples@, i as int);
            lemma_abs_diff_sum_bounds(samples@.take(i as int));
            assert(samples@.take(i + 1)[i - 1] == samples@[i - 1]);
        }
        let a = samples[i - 1];
        let b = samples[i];
        let d: u32 = if a <= b { b - a } else { a - b };
        acc = acc + d as u128;
        i += 1;
    }
    assert(samples@.take(i as int) =~= samples@);
    let n = (samples.len() - 1) as u128;
    let q = acc / n;
    proof {
        lemma_abs_diff_sum_bounds(samples@);
        assert(q <= 0xffff_ffff) by (nonlinear_arith)
            requires
                q == acc / n,
                n > 0,
                0 <= acc <= n * 0xffff_ffff,
        ;
    }
    q as u32
}

/// Share of probes that got no reply, in thousandths of a percent, rounded
/// down; zero when nothing was sent.
pub fn loss(sent: u32, received: u32) -> (r: u32)
    ensures
        r == loss_of(sent as int, received as int),
{
    if sent == 0 || received > sent {
        0
    } else {
        let lost: u64 = (sent - received) as u64;
        let scaled: u64 = lost * 100_000;
        let q: u64 = scaled / (sent as u64);
        assert(q <= 100_000) by (nonlinear_arith)
            requires
                q == scaled / (sent as u64),
                scaled == lost * 100_000,
                lost <= sent,
                sent > 0,
        ;
        q as u32
    }
}

proof fn lemma_scaled_sq_dev_expand(s: Seq<u32>, n: int, t: int)
    ensures
        scaled_sq_dev(s, n, t) == n * n * sum_sq(s) - 2 * n * t * sum(s) + s.len() * (t * t),
        scaled_sq_dev(s, n, t) >= 0,
    decreases s.len(),
{
    if s.len() > 0 {
        let r = s.drop_last();
        let x = s.last() as int;
        lemma_scaled_sq_dev_expand(r, n, t);
        let a = sum_sq(r);
        let b = sum(r);
        let k = r.len() as int;
        assert((n * x - t) * (n * x - t) >= 0) by (nonlinear_arith);
        assert(n * n * a - 2 * n * t * b + k * (t * t) + (n * x - t) * (n * x - t) == n * n * (a + x
            * x) - 2 * n * t * (b + x) + (k + 1) * (t * t)) by (nonlinear_arith);
    }
}

proof fn lemma_div_cancel(n: int, a: int, b: int)
    requires
        n > 0,
        b > 0,
        a >= 0,
    ensures
        n * b > 0,
        (n * a) / (n * b) == a / b,
{
    let q = a / b;
    let r = a % b;
    assert(a == b * q + r && 0 <= r < b) by {
        vstd::arithmetic::div_mod::lemma_fundamental_div_mod(a, b);
    }
    assert(n * b > 0) by (nonlinear_arith)
        requires
            n > 0,
            b > 0,
    ;
    assert(n * a == q * (n * b) + n * r && 0 <= n * r < n * b) by (nonlinear_arith)
        requires
            a == b * q + r,
            0 <= r < b,
            n > 0,
    ;
    vstd::arithmetic::div_mod::lemma_fundamental_div_mod_converse(n * a, n * b, q, n * r);
}

/// The sample variance written over the sum and the sum of squares:
/// `(n * sum_sq - sum^2) / (n * (n - 1))`, where the numerator is never
/// negative.
pub proof fn lemma_variance_by_sums(s: Seq<u32>)
    requires
        s.len() >= 2,
    ensures
        s.len() * sum_sq(s) - sum(s) * sum(s) >= 0,
        variance_of(s) == (s.len() * sum_sq(s) - sum(s) * sum(s)) / (s.len() * (s.len() - 1)),
        variance_of(s) >= 0,
{
    let n = s.len() as int;
    let q = sum_sq(s);
    let t = sum(s);
    lemma_scaled_sq_dev_expand(s, n, t);
    let d = n * q - t * t;
    assert(scaled_sq_dev(s, n, t) == n * d) by (nonlinear_arith)
        requires
            scaled_sq_dev(s, n, t) == n * n * q - 2 * n * t * t + n * (t * t),
            d == n * q - t * t,
    ;
    assert(d >= 0) by (nonlinear_arith)
        requires
            n * d >= 0,
            n > 0,
    ;
    let m = n * (n - 1);
    assert(m > 0) by (nonlinear_arith)
        requires
            m == n * (n - 1),
            n >= 2,
    ;
    assert(n * n * (n - 1) == n * m) by (nonlinear_arith)
        requires
            m == n * (n - 1),
    ;
    lemma_div_cancel(n, d, m);
    assert(d / m >= 0) by (nonlinear_arith)
        requires
            d >= 0,
            m > 0,
    ;
}

/// Square root of `v`, rounded down.
pub fn floor_sqrt(v: u128) -> (r: u64)
    ensures
        is_floor_sqrt(r as int, v as int),
{
    let mut lo: u128 = 0;
    let mut hi: u128 = 0x1_0000_0000_0000_0000;
    assert(hi * hi > v) by (nonlinear_arith)
        requires
            hi == 0x1_0000_0000_0000_0000,
            v <= 0xffff_ffff_ffff_ffff_ffff_ffff_ffff_ffff,
    ;
    while hi - lo > 1
        invariant
            lo < hi <= 0x1_0000_0000_0000_0000,
            lo * lo <= v,
            hi * hi > v,
        decreases hi - lo,
    {
        let mid: u128 = lo + (hi - lo) / 2;
        assert(mid * mid <= 0xffff_ffff_ffff_ffff * 0xffff_ffff_ffff_ffff) by (nonlinear_arith)
            requires
                mid <= 0xffff_ffff_ffff_ffff,
        ;
        if mid * mid <= v {
            lo = mid;
        } else {
            hi = mid;
        }
    }
    assert(hi == lo + 1);
    lo as u64
}

/// Sample standard deviation (divisor `n - 1`), in microseconds, rounded
/// down; zero for fewer than two samples.
pub fn std_dev(samples: &[u32]) -> (r: u64)
    requires
        samples.len() <= u32::MAX,
    ensures
        is_floor_sqrt(r as int, variance_of(samples@)),
{
    if samples.len() < 2 {
        return 0;
    }
    let n = samples.len() as u128;
    let t = total(samples);
    let mut q: u128 = 0;
    let mut i: usize = 0;
    while i < samples.len()
        invariant
            i <= samples.len(),
            samples.len() <= u32::MAX,
            q == sum_sq(samples@.take(i as int)),
        decreases samples.len() - i,
    {
        proof {
            lemma_take_step(samples@, i as int);
            lemma_sum_sq_bounds(samples@.take(i as int));
        }
        let x = samples[i] as u128;
        assert(x * x <= 0xffff_fffe_0000_0001) by (nonlinear_arith)
            requires
                x <= 0xffff_ffff,
        ;
        q = q + x * x;
        i += 1;
    }
    assert(samples@.take(i as int) =~= samples@);
    proof {
        lemma_sum_bounds(samples@);
        lemma_sum_sq_bounds(samples@);
        lemma_variance_by_sums(samples@);
        assert(n * q <= 0xffff_ffff * (0xffff_ffff * 0xffff_fffe_0000_0001)) by (nonlinear_arith)
            requires
                0 <= n <= 0xffff_ffff,
                0 <= q <= n * 0xffff_fffe_0000_0001,
        ;
        assert(t * t <= n * q) by (nonlinear_arith)
            requires
                n * q - t * t >= 0,
        ;
        assert(n * (n - 1) >= 2) by (nonlinear_arith)
            requires
                n >= 2,
        ;
        assert(n * (n - 1) <= 0xffff_ffff * 0xffff_ffff) by (nonlinear_arith)
            requires
                2 <= n <= 0xffff_ffff,
        ;
    }
    let num = n * q - t * t;
    let den = n * (n - 1);
    floor_sqrt(num / den)
}

/// What a measurement series holds, as plain mathematical values.
pub ghost struct SeriesView {
    /// The host as it was asked for.
    pub host: Seq<char>,
    /// The address the probes went to.
    pub ip: Seq<char>,
    /// Number of probes sent.
    pub sent: nat,
    /// Round-trip times of the replies in microseconds, in the order in
    /// which the probes were emitted.
    pub samples: Seq<u32>,
}

/// The outcome of probing one host: how many probes were sent and the
/// round-trip time of each reply, in emission order.
///
/// The number of replies never exceeds the number of probes sent.
pub struct PingStats {
    host: String,
    ip: String,
    sent: u32,
    latencies: Vec<u32>,
}

impl View for PingStats {
    type V = SeriesView;

    closed spec fn view(&self) -> SeriesView {
        SeriesView {
            host: self.host@,
            ip: self.ip@,
            sent: self.sent as nat,
            samples: self.latencies@,
        }
    }
}

impl PingStats {
    #[verifier::type_invariant]
    spec fn well_formed(&self) -> bool {
        self.latencies@.len() <= self.sent
    }

    /// A series for `sent` probes to `host` at address `ip`, with no reply
    /// recorded yet.
    pub fn new(host: String, ip: String, sent: u32) -> (r: Self)
        ensures
            r@ == (SeriesView { host: host@, ip: ip@, sent: sent as nat, samples: Seq::empty() }),
    {
        PingStats { host, ip, sent, latencies: Vec::new() }
    }

    /// Records the round-trip time of one more reply, unless as many
    /// replies as probes were sent are already recorded.
    pub fn record(&mut self, micros: u32) -> (accepted: bool)
        ensures
            accepted == (old(self)@.samples.len() < old(self)@.sent),
            accepted ==> final(self)@ == (SeriesView {
                samples: old(self)@.samples.push(micros),
                ..old(self)@
            }),
            !accepted ==> final(self)@ == old(self)@,
    {
        proof {
            use_type_invariant(&*self);
        }
        if self.latencies.len() < self.sent as usize {
            let mut samples: Vec<u32> = Vec::new();
            core::mem::swap(&mut self.latencies, &mut samples);
            samples.push(micros);
            core::mem::swap(&mut self.latencies, &mut samples);
            true
        } else {
            false
        }
    }

    /// The host as it was asked for.
    pub fn host(&self) -> (r: &str)
        ensures
            r@ == self@.host,
    {
        self.host.as_str()
    }

    /// The address the probes went to.
    pub fn ip(&self) -> (r: &str)
        ensures
            r@ == self@.ip,
    {
        self.ip.as_str()
    }

    /// Number of probes sent.
    pub fn sent(&self) -> (r: u32)
        ensures
            r == self@.sent,
    {
        self.sent
    }

    /// Number of replies, which is never above the number of probes sent.
    pub fn received(&self) -> (r: u32)
        ensures
            r == self@.samples.len(),
            r <= self@.sent,
    {
        proof {
            use_type_invariant(self);
        }
        self.latencies.len() as u32
    }

    /// The round-trip times of the replies, in microseconds, in emission
    /// order.
    pub fn latencies(&self) -> (r: &[u32])
        ensures
            r@ == self@.samples,
    {
        self.latencies.as_slice()
    }

    /// Sum of the round-trip times, in microseconds.
    pub fn total_time(&self) -> (r: u64)
        ensures
            r == sum(self@.samples),
    {
        proof {
            use_type_invariant(self);
            lemma_sum_bounds(self.latencies@);
        }
        total(self.latencies.as_slice()) as u64
    }

    /// Share of probes without a reply, in thousandths of a percent.
    pub fn loss_pct(&self) -> (r: u32)
        ensures
            r == loss_of(self@.sent as int, self@.samples.len() as int),
            self@.samples.len() <= self@.sent <= u32::MAX,
    {
        proof {
            use_type_invariant(self);
        }
        loss(self.sent, self.latencies.len() as u32)
    }

    /// Smallest round-trip time, in microseconds; zero without replies.
    pub fn min(&self) -> (r: u32)
        ensures
            r == min_of(self@.samples),
    {
        min(self.latencies.as_slice())
    }

    /// Largest round-trip time, in microseconds; zero without replies.
    pub fn max(&self) -> (r: u32)
        ensures
            r == max_of(self@.samples),
    {
        max(self.latencies.as_slice())
    }

    /// Mean round-trip time, in microseconds; zero without replies.
    pub fn avg(&self) -> (r: u32)
        ensures
            r == mean_of(self@.samples),
    {
        mean(self.latencies.as_slice())
    }

    /// Sample standard deviation of the round-trip times, in microseconds;
    /// zero for fewer than two replies.
    pub fn std_dev(&self) -> (r: u64)
        ensures
            is_floor_sqrt(r as int, variance_of(self@.samples)),
    {
        proof {
            use_type_invariant(self);
        }
        std_dev(self.latencies.as_slice())
    }

    /// Mean absolute difference between successive round-trip times, in
    /// microseconds; zero for fewer than two replies.
    pub fn jitter(&self) -> (r: u32)
        ensures
            r == jitter_of(self@.samples),
    {
        jitter(self.latencies.as_slice())
    }
}

/// The statistics of a measurement series. Times are in microseconds, the
/// loss in thousandths of a percent.
#[derive(Clone, Copy, Debug, PartialEq, Eq, Structural)]
pub struct Statistics {
    /// Smallest round-trip time.
    pub min: u32,
    /// Largest round-trip time.
    pub max: u32,
    /// Mean round-trip time.
    pub mean: u32,
    /// Sample standard deviation of the round-trip times.
    pub std_dev: u64,
    /// Mean absolute difference between successive round-trip times.
    pub jitter: u32,
    /// Share of probes without a reply.
    pub loss_pct: u32,
}

/// `st` holds the statistics of the series with these samples and this
/// number of probes sent.
pub open spec fn describes(st: Statistics, samples: Seq<u32>, sent: int) -> bool {
    &&& st.min == min_of(samples)
    &&& st.max == max_of(samples)
    &&& st.mean == mean_of(samples)
    &&& is_floor_sqrt(st.std_dev as int, variance_of(samples))
    &&& st.jitter == jitter_of(samples)
    &&& st.loss_pct == loss_of(sent, samples.len() as int)
}

impl PingStats {
    /// All statistics of the series at once.
    pub fn statistics(&self) -> (r: Statistics)
        ensures
            describes(r, self@.samples, self@.sent as int),
    {
        Statistics {
            min: self.min(),
            max: self.max(),
            mean: self.avg(),
            std_dev: self.std_dev(),
            jitter: self.jitter(),
            loss_pct: self.loss_pct(),
        }
    }
}

/// A number has one rounded-down square root.
pub proof fn lemma_floor_sqrt_unique(a: int, b: int, v: int)
    requires
        is_floor_sqrt(a, v),
        is_floor_sqrt(b, v),
    ensures
        a == b,
{
    if a < b {
        assert((a + 1) * (a + 1) <= b * b) by (nonlinear_arith)
            requires
                0 <= a,
                a + 1 <= b,
        ;
    } else if b < a {
        assert((b + 1) * (b + 1) <= a * a) by (nonlinear_arith)
            requires
                0 <= b,
                b + 1 <= a,
        ;
    }
}

/// The statistics are a function of the series: whatever is computed twice
/// from the same samples and the same number of probes is the same.
pub proof fn lemma_statistics_deterministic(
    samples: Seq<u32>,
    sent: int,
    first: Statistics,
    second: Statistics,
)
    requires
        describes(first, samples, sent),
        describes(second, samples, sent),
    ensures
        first == second,
{
    lemma_floor_sqrt_unique(first.std_dev as int, second.std_dev as int, variance_of(samples));
}

/// A series without replies has zero for its smallest, largest and mean
/// time, for its standard deviation and for its jitter; its loss is zero
/// where nothing was sent and a hundred percent otherwise.
pub proof fn lemma_empty_series_statistics(sent: int, st: Statistics)
    requires
        describes(st, Seq::<u32>::empty(), sent),
    ensures
        st.min == 0,
        st.max == 0,
        st.mean == 0,
        st.std_dev == 0,
        st.jitter == 0,
        st.loss_pct == if sent > 0 {
            100_000int
        } else {
            0int
        },
{
    let r = st.std_dev as int;
    assert(r == 0) by (nonlinear_arith)
        requires
            0 <= r,
            r * r <= 0,
    ;
    if sent > 0 {
        assert(sent * 100_000 / sent == 100_000) by (nonlinear_arith)
            requires
                sent > 0,
        ;
    }
}

/// A series of one reply has that reply as its smallest, largest and mean
/// time, and neither spread nor jitter.
pub proof fn lemma_single_sample_statistics(x: u32, sent: int, st: Statistics)
    requires
        describes(st, seq![x], sent),
    ensures
        st.min == x,
        st.max == x,
        st.mean == x,
        st.std_dev == 0,
        st.jitter == 0,
{
    let s = seq![x];
    assert(s.drop_last() == Seq::<u32>::empty());
    assert(sum(s) == x) by {
        assert(sum(s.drop_last()) == 0);
    }
    assert(max_of(s) == x) by {
        assert(max_of(s.drop_last()) == 0);
    }
    let r = st.std_dev as int;
    assert(r == 0) by (nonlinear_arith)
        requires
            0 <= r,
            r * r <= 0,
    ;
}

/// The mean lies between the smallest and the largest sample.
pub proof fn lemma_mean_between_min_and_max(s: Seq<u32>)
    ensures
        min_of(s) <= mean_of(s) <= max_of(s),
{
    if s.len() > 0 {
        lemma_min_max_bounds(s);
        lemma_sum_between(s, min_of(s), max_of(s));
        let n = s.len() as int;
        let t = sum(s);
        let lo = min_of(s);
        let hi = max_of(s);
        assert(lo <= t / n <= hi) by (nonlinear_arith)
            requires
                n > 0,
                n * lo <= t <= n * hi,
        ;
    }
}

proof fn lemma_sum_between(s: Seq<u32>, lo: int, hi: int)
    requires
        forall|i: int| 0 <= i < s.len() ==> lo <= #[trigger] s[i] <= hi,
    ensures
        s.len() * lo <= sum(s) <= s.len() * hi,
    decreases s.len(),
{
    if s.len() > 0 {
        let t = s.drop_last();
        assert forall|i: int| 0 <= i < t.len() implies lo <= #[trigger] t[i] <= hi by {
            assert(t[i] == s[i]);
        }
        lemma_sum_between(t, lo, hi);
        assert(lo <= s[s.len() - 1] <= hi);
        assert(s.len() * lo == t.len() * lo + lo) by (nonlinear_arith)
            requires
                s.len() == t.len() + 1,
        ;
        assert(s.len() * hi == t.len() * hi + hi) by (nonlinear_arith)
            requires
                s.len() == t.len() + 1,
        ;
    }
}

/// The loss is zero when every probe got its reply and a hundred percent
/// when none did, and it never exceeds a hundred percent.
pub proof fn lemma_loss_range(sent: int, received: int)
    requires
        0 <= received <= sent,
    ensures
        0 <= loss_of(sent, received) <= 100_000,
        received == sent ==> loss_of(sent, received) == 0,
        sent > 0 && received == 0 ==> loss_of(sent, received) == 100_000,
{
    if sent > 0 {
        let lost = sent - received;
        assert(0 <= lost * 100_000 / sent <= 100_000) by (nonlinear_arith)
            requires
                0 <= lost <= sent,
                sent > 0,
        ;
        if received == 0 {
            assert(sent * 100_000 / sent == 100_000) by (nonlinear_arith)
                requires
                    sent > 0,
            ;
        }
    }
}

} // verus!
