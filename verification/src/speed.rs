//! Throughput measurement: the transfer endpoints, the reduction of timed
//! transfers to one figure per direction, and the record of a speed test.

use crate::ping::successes;
use crate::stats::{jitter_of, loss_of, mean, mean_of, PingStats};
use crate::text::{
    append, chars_of, contains, contains_text, decimal, digits_of, lowercase_of, position_of,
    string_of, to_lowercase,
};
use vstd::prelude::*;

verus! {

/// An endpoint to measure against.
pub struct ServerInfo {
    /// Name of the operator.
    pub name: &'static str,
    /// Where the endpoint stands.
    pub location: &'static str,
    /// Address to download from.
    pub download_url: &'static str,
    /// Address to upload to.
    pub upload_url: &'static str,
}

/// The endpoints that can be measured against; the first is the default.
pub fn get_servers() -> (r: Vec<ServerInfo>)
    ensures
        r@.len() == 2,
        r@[0].name@ == "Cloudflare"@,
        r@[0].location@ == "Edge"@,
        r@[0].download_url@ == "https://speed.cloudflare.com/__down?bytes=25000000"@,
        r@[0].upload_url@ == "https://speed.cloudflare.com/__up"@,
        r@[1].name@ == "Google"@,
        r@[1].location@ == "CDN"@,
        r@[1].download_url@ == "https://www.google.com/generate_204"@,
        r@[1].upload_url@ == "https://www.google.com/generate_204"@,
{
    let mut servers: Vec<ServerInfo> = Vec::new();
    servers.push(
        ServerInfo {
            name: "Cloudflare",
            location: "Edge",
            download_url: "https://speed.cloudflare.com/__down?bytes=25000000",
            upload_url: "https://speed.cloudflare.com/__up",
        },
    );
    servers.push(
        ServerInfo {
            name: "Google",
            location: "CDN",
            download_url: "https://www.google.com/generate_204",
            upload_url: "https://www.google.com/generate_204",
        },
    );
    servers
}

/// Server `i` is the one that `wanted` selects: the first whose name has
/// the lowercase form of `wanted`.
pub open spec fn selects(names: Seq<Seq<char>>, wanted: Seq<char>, i: int) -> bool {
    &&& 0 <= i < names.len()
    &&& lowercase_of(names[i]) == lowercase_of(wanted)
    &&& forall|j: int| 0 <= j < i ==> lowercase_of(#[trigger] names[j]) != lowercase_of(wanted)
}

/// No server has a name with the lowercase form of `wanted`.
pub open spec fn selects_none(names: Seq<Seq<char>>, wanted: Seq<char>) -> bool {
    forall|j: int| 0 <= j < names.len() ==> lowercase_of(#[trigger] names[j]) != lowercase_of(wanted)
}

/// The names of the endpoints, in their order.
pub open spec fn server_names() -> Seq<Seq<char>> {
    seq!["Cloudflare"@, "Google"@]
}

/// Position of the endpoint to measure against: the first one whose name
/// is `name` but for the case of its letters; the default where `name` is
/// missing or names none.
pub fn select_index(name: Option<&str>) -> (r: usize)
    ensures
        r < 2,
        match name {
            Some(wanted) => selects(server_names(), wanted@, r as int) || (r == 0 && selects_none(
                server_names(),
                wanted@,
            )),
            None => r == 0,
        },
{
    match name {
        None => 0,
        Some(wanted) => {
            let servers = get_servers();
            let mut lowered: Vec<Vec<char>> = Vec::new();
            let mut i: usize = 0;
            while i < servers.len()
                invariant
                    i <= servers.len(),
                    lowered@.len() == i,
                    forall|j: int|
                        0 <= j < i ==> (#[trigger] lowered@[j])@ == lowercase_of(servers@[j].name@),
                decreases servers.len() - i,
            {
                lowered.push(chars_of(to_lowercase(servers[i].name).as_str()));
                i += 1;
            }
            let key = chars_of(to_lowercase(wanted).as_str());
            let found = position_of(lowered.as_slice(), key.as_slice());
            assert(server_names()[0] == servers@[0].name@);
            assert(server_names()[1] == servers@[1].name@);
            match found {
                Some(k) => {
                    assert(forall|j: int|
                        0 <= j < k ==> lowercase_of(#[trigger] server_names()[j]) == lowered@[j]@);
                    k
                },
                None => {
                    assert(forall|j: int|
                        0 <= j < 2 ==> lowercase_of(#[trigger] server_names()[j]) == lowered@[j]@);
                    0
                },
            }
        },
    }
}

/// The endpoint to measure against: the first one whose name is `name` but
/// for the case of its letters; the default where `name` is missing or
/// names none.
pub fn select_server(name: Option<&str>) -> (r: ServerInfo)
    ensures
        match name {
            Some(wanted) => exists|i: int|
                0 <= i < 2 && r.name@ == #[trigger] server_names()[i] && (selects(
                    server_names(),
                    wanted@,
                    i,
                ) || (i == 0 && selects_none(server_names(), wanted@))),
            None => r.name@ == server_names()[0],
        },
        r.name@ == "Cloudflare"@ ==> r.location@ == "Edge"@ && r.download_url@
            == "https://speed.cloudflare.com/__down?bytes=25000000"@ && r.upload_url@
            == "https://speed.cloudflare.com/__up"@,
        r.name@ == "Google"@ ==> r.location@ == "CDN"@ && r.download_url@
            == "https://www.google.com/generate_204"@ && r.upload_url@
            == "https://www.google.com/generate_204"@,
{
    let i = select_index(name);
    let mut servers = get_servers();
    proof {
        reveal_strlit("Cloudflare");
        reveal_strlit("Google");
        assert("Cloudflare"@.len() == 10 && "Google"@.len() == 6);
    }
    let ghost all = servers@;
    assert(server_names()[0] == all[0].name@);
    assert(server_names()[1] == all[1].name@);
    let picked = servers.swap_remove(i);
    assert(picked == all[i as int]);
    picked
}

/// Direction of a transfer.
#[derive(Clone, Copy, Debug, PartialEq, Eq, Structural)]
pub enum Direction {
    Download,
    Upload,
}

/// Number of bytes asked for in each download trial, in their order.
pub open spec fn download_sizes() -> Seq<u64> {
    seq![1_000_000u64, 5_000_000u64, 10_000_000u64, 25_000_000u64]
}

/// Number of bytes sent in each upload trial, in their order.
pub open spec fn upload_sizes() -> Seq<u64> {
    seq![500_000u64, 1_000_000u64, 5_000_000u64]
}

/// The trial sizes of a direction.
pub open spec fn sizes_of(direction: Direction) -> Seq<u64> {
    match direction {
        Direction::Download => download_sizes(),
        Direction::Upload => upload_sizes(),
    }
}

/// The trial sizes of a direction, in bytes.
pub fn trial_sizes(direction: Direction) -> (r: Vec<u64>)
    ensures
        r@ == sizes_of(direction),
{
    let mut sizes: Vec<u64> = Vec::new();
    match direction {
        Direction::Download => {
            sizes.push(1_000_000);
            sizes.push(5_000_000);
            sizes.push(10_000_000);
            sizes.push(25_000_000);
        },
        Direction::Upload => {
            sizes.push(500_000);
            sizes.push(1_000_000);
            sizes.push(5_000_000);
        },
    }
    assert(sizes@ =~= sizes_of(direction));
    sizes
}

/// Throughput of one transfer in kilobits per second, rounded down:
/// `bytes * 8 / (seconds * 1_000_000)` megabits per second, times a
/// thousand. A transfer that took no time gives zero, and a figure beyond
/// `u64` gives the largest `u64`.
pub open spec fn throughput_of(bytes: nat, elapsed_micros: nat) -> nat {
    if elapsed_micros == 0 {
        0
    } else if bytes * 8_000 / elapsed_micros > u64::MAX {
        u64::MAX as nat
    } else {
        bytes * 8_000 / elapsed_micros
    }
}

/// Throughput of one transfer, in kilobits per second.
pub fn throughput(bytes: u64, elapsed_micros: u64) -> (r: u64)
    ensures
        r == throughput_of(bytes as nat, elapsed_micros as nat),
{
    if elapsed_micros == 0 {
        return 0;
    }
    let q: u128 = (bytes as u128) * 8_000 / (elapsed_micros as u128);
    if q > u64::MAX as u128 {
        u64::MAX
    } else {
        q as u64
    }
}

/// What came of one trial transfer.
#[derive(Clone, Copy, Debug, PartialEq, Eq, Structural)]
pub enum TrialOutcome {
    /// The transfer went through.
    Transferred {
        /// Number of bytes that came back.
        received_bytes: u64,
        /// How long the whole transfer took, in microseconds.
        elapsed_micros: u64,
    },
    /// The transfer failed.
    Failed,
}

/// The number of bytes that counts for a trial: what came back of a
/// download, what was sent of an upload.
pub open spec fn counted_bytes(direction: Direction, size: u64, received_bytes: u64) -> nat {
    match direction {
        Direction::Download => received_bytes as nat,
        Direction::Upload => size as nat,
    }
}

/// The best throughput among the first `n` trials of a direction, in
/// kilobits per second; zero for no trial. Meaningful where none of them
/// failed.
pub open spec fn best_of(direction: Direction, outcomes: Seq<TrialOutcome>, n: nat) -> nat
    decreases n,
{
    if n == 0 {
        0
    } else {
        let before = best_of(direction, outcomes, (n - 1) as nat);
        match outcomes[n - 1] {
            TrialOutcome::Transferred { received_bytes, elapsed_micros } => {
                let this = throughput_of(
                    counted_bytes(direction, sizes_of(direction)[n - 1], received_bytes),
                    elapsed_micros as nat,
                );
                if this > before {
                    this
                } else {
                    before
                }
            },
            TrialOutcome::Failed => before,
        }
    }
}

/// Position of the first failed trial among the first `n`, if one failed.
pub open spec fn first_failure(outcomes: Seq<TrialOutcome>, n: nat) -> Option<nat>
    decreases n,
{
    if n == 0 {
        None
    } else {
        match first_failure(outcomes, (n - 1) as nat) {
            Some(i) => Some(i),
            None => if outcomes[n - 1] == TrialOutcome::Failed {
                Some((n - 1) as nat)
            } else {
                None
            },
        }
    }
}

/// A throughput measurement could not be completed.
#[derive(Clone, Copy, Debug, PartialEq, Eq, Structural)]
pub enum ThroughputError {
    /// The trial at this position failed; the trials after it were not
    /// made.
    TrialFailed(usize),
}

/// What the driver of a throughput measurement has to do next.
#[derive(Clone, Copy, Debug, PartialEq, Eq, Structural)]
pub enum TransferStep {
    /// Make a timed transfer of this many bytes and report it with
    /// `on_trial`.
    Transfer(u64),
    /// The measurement is over: take its result with `result`.
    Finished,
}

/// The state of a throughput measurement, as plain mathematical values.
pub ghost struct MeasurementView {
    /// Direction of the transfers.
    pub direction: Direction,
    /// Number of trials made.
    pub done: nat,
    /// Best throughput among them, in kilobits per second.
    pub best_kbps: nat,
    /// Position of the trial that failed, if one did.
    pub failed: Option<nat>,
}

/// The step that is due in a state.
pub open spec fn transfer_step_of(v: MeasurementView) -> TransferStep {
    if v.failed is Some || v.done >= sizes_of(v.direction).len() {
        TransferStep::Finished
    } else {
        TransferStep::Transfer(sizes_of(v.direction)[v.done as int])
    }
}

/// The state after a trial. A transfer that went through raises the best
/// throughput to its own where that is higher; a failed one ends the
/// measurement. Once the measurement is over nothing changes.
pub open spec fn after_trial(v: MeasurementView, outcome: TrialOutcome) -> MeasurementView {
    if transfer_step_of(v) == TransferStep::Finished {
        v
    } else {
        match outcome {
            TrialOutcome::Transferred { received_bytes, elapsed_micros } => {
                let this = throughput_of(
                    counted_bytes(v.direction, sizes_of(v.direction)[v.done as int], received_bytes),
                    elapsed_micros as nat,
                );
                MeasurementView {
                    done: v.done + 1,
                    best_kbps: if this > v.best_kbps {
                        this
                    } else {
                        v.best_kbps
                    },
                    ..v
                }
            },
            TrialOutcome::Failed => MeasurementView { failed: Some(v.done), ..v },
        }
    }
}

/// The result of a measurement in a state: the best throughput, or the
/// failure that ended it.
pub open spec fn result_of(v: MeasurementView) -> Result<u64, ThroughputError> {
    match v.failed {
        Some(i) => Err(ThroughputError::TrialFailed(i as usize)),
        None => Ok(v.best_kbps as u64),
    }
}

/// A throughput measurement in one direction: timed transfers of growing
/// sizes, reduced to the best throughput seen. One failed transfer fails
/// the whole measurement.
pub struct Throughput {
    direction: Direction,
    done: usize,
    best_kbps: u64,
    failed: Option<usize>,
}

impl View for Throughput {
    type V = MeasurementView;

    closed spec fn view(&self) -> MeasurementView {
        MeasurementView {
            direction: self.direction,
            done: self.done as nat,
            best_kbps: self.best_kbps as nat,
            failed: match self.failed {
                Some(i) => Some(i as nat),
                None => None,
            },
        }
    }
}

impl Throughput {
    #[verifier::type_invariant]
    spec fn well_formed(&self) -> bool {
        &&& self.done <= sizes_of(self.direction).len()
        &&& self.failed matches Some(i) ==> i == self.done && i < sizes_of(self.direction).len()
    }

    /// A measurement in `direction`, no trial made yet.
    pub fn new(direction: Direction) -> (r: Self)
        ensures
            r@ == (MeasurementView { direction, done: 0, best_kbps: 0, failed: None }),
    {
        Throughput { direction, done: 0, best_kbps: 0, failed: None }
    }

    /// What the driver has to do next.
    pub fn next_step(&self) -> (r: TransferStep)
        ensures
            r == transfer_step_of(self@),
    {
        let sizes = trial_sizes(self.direction);
        if self.failed.is_some() || self.done >= sizes.len() {
            TransferStep::Finished
        } else {
            TransferStep::Transfer(sizes[self.done])
        }
    }

    /// Takes in what came of the trial that was due.
    pub fn on_trial(self, outcome: TrialOutcome) -> (r: Self)
        ensures
            r@ == after_trial(self@, outcome),
    {
        proof {
            use_type_invariant(&self);
        }
        let sizes = trial_sizes(self.direction);
        if self.failed.is_some() || self.done >= sizes.len() {
            return self;
        }
        match outcome {
            TrialOutcome::Transferred { received_bytes, elapsed_micros } => {
                let bytes = match self.direction {
                    Direction::Download => received_bytes,
                    Direction::Upload => sizes[self.done],
                };
                let this = throughput(bytes, elapsed_micros);
                Throughput {
                    direction: self.direction,
                    done: self.done + 1,
                    best_kbps: if this > self.best_kbps {
                        this
                    } else {
                        self.best_kbps
                    },
                    failed: None,
                }
            },
            TrialOutcome::Failed => Throughput {
                direction: self.direction,
                done: self.done,
                best_kbps: self.best_kbps,
                failed: Some(self.done),
            },
        }
    }

    /// The best throughput seen, in kilobits per second, or the failure
    /// that ended the measurement.
    pub fn result(&self) -> (r: Result<u64, ThroughputError>)
        ensures
            r == result_of(self@),
    {
        match self.failed {
            Some(i) => Err(ThroughputError::TrialFailed(i)),
            None => Ok(self.best_kbps),
        }
    }
}

/// The state after a number of trials with the given outcomes.
pub open spec fn after_trials(v: MeasurementView, outcomes: Seq<TrialOutcome>) -> MeasurementView
    decreases outcomes.len(),
{
    if outcomes.len() == 0 {
        v
    } else {
        after_trial(after_trials(v, outcomes.drop_last()), outcomes.last())
    }
}

/// The state in which a measurement starts.
pub open spec fn initial(direction: Direction) -> MeasurementView {
    MeasurementView { direction, done: 0, best_kbps: 0, failed: None }
}

/// The result that the outcomes of the trials give: the failure of the
/// first trial that failed, or else the best throughput among them.
pub open spec fn measured(direction: Direction, outcomes: Seq<TrialOutcome>) -> Result<
    u64,
    ThroughputError,
> {
    match first_failure(outcomes, outcomes.len()) {
        Some(i) => Err(ThroughputError::TrialFailed(i as usize)),
        None => Ok(best_of(direction, outcomes, outcomes.len()) as u64),
    }
}

proof fn lemma_prefix_fold(direction: Direction, outcomes: Seq<TrialOutcome>, n: nat)
    requires
        n <= outcomes.len(),
    ensures
        best_of(direction, outcomes.take(n as int), n) == best_of(direction, outcomes, n),
        first_failure(outcomes.take(n as int), n) == first_failure(outcomes, n),
        n > 0 ==> best_of(direction, outcomes.take(n as int), (n - 1) as nat) == best_of(
            direction,
            outcomes,
            (n - 1) as nat,
        ),
        n > 0 ==> first_failure(outcomes.take(n as int), (n - 1) as nat) == first_failure(
            outcomes,
            (n - 1) as nat,
        ),
    decreases n,
{
    if n > 0 {
        lemma_prefix_fold(direction, outcomes, (n - 1) as nat);
        lemma_prefix_fold(direction, outcomes.take(n as int), (n - 1) as nat);
        assert(outcomes.take(n as int).take(n - 1) == outcomes.take(n - 1));
        assert(outcomes.take(n as int)[n - 1] == outcomes[n - 1]);
    }
}

/// The best throughput is never below zero, fits `u64`, and does not fall
/// as trials are added.
pub proof fn lemma_best_of_bounds(direction: Direction, outcomes: Seq<TrialOutcome>, n: nat)
    ensures
        best_of(direction, outcomes, n) <= u64::MAX,
        n > 0 ==> best_of(direction, outcomes, (n - 1) as nat) <= best_of(direction, outcomes, n),
    decreases n,
{
    if n > 0 {
        lemma_best_of_bounds(direction, outcomes, (n - 1) as nat);
    }
}

/// The best throughput is the maximum over the trials: none of the trials
/// that went through has a higher one, and unless it is zero one of them
/// has exactly this one.
pub proof fn lemma_best_is_maximum(direction: Direction, outcomes: Seq<TrialOutcome>, n: nat)
    requires
        n <= outcomes.len(),
    ensures
        forall|i: int|
            0 <= i < n ==> (#[trigger] outcomes[i] matches TrialOutcome::Transferred {
                received_bytes,
                elapsed_micros,
            } ==> throughput_of(
                counted_bytes(direction, sizes_of(direction)[i], received_bytes),
                elapsed_micros as nat,
            ) <= best_of(direction, outcomes, n)),
        best_of(direction, outcomes, n) == 0 || exists|i: int|
            0 <= i < n && (#[trigger] outcomes[i] matches TrialOutcome::Transferred {
                received_bytes,
                elapsed_micros,
            } && throughput_of(
                counted_bytes(direction, sizes_of(direction)[i], received_bytes),
                elapsed_micros as nat,
            ) == best_of(direction, outcomes, n)),
    decreases n,
{
    if n > 0 {
        lemma_best_is_maximum(direction, outcomes, (n - 1) as nat);
        let before = best_of(direction, outcomes, (n - 1) as nat);
        let now = best_of(direction, outcomes, n);
        if now != 0 {
            if now == before {
                let w = choose|i: int|
                    0 <= i < n - 1 && (#[trigger] outcomes[i] matches TrialOutcome::Transferred {
                        received_bytes,
                        elapsed_micros,
                    } && throughput_of(
                        counted_bytes(direction, sizes_of(direction)[i], received_bytes),
                        elapsed_micros as nat,
                    ) == before);
                assert(0 <= w < n && (outcomes[w] matches TrialOutcome::Transferred {
                    received_bytes,
                    elapsed_micros,
                } && throughput_of(
                    counted_bytes(direction, sizes_of(direction)[w], received_bytes),
                    elapsed_micros as nat,
                ) == now));
            } else {
                let w = n - 1;
                assert(0 <= w < n && (outcomes[w] matches TrialOutcome::Transferred {
                    received_bytes,
                    elapsed_micros,
                } && throughput_of(
                    counted_bytes(direction, sizes_of(direction)[w], received_bytes),
                    elapsed_micros as nat,
                ) == now));
            }
        }
    }
}

/// A measurement from its start, one outcome for each trial size of the
/// direction at most: where a trial failed the result is the failure of
/// the first that did; otherwise it is the best throughput among the
/// trials, and the measurement is finished exactly when every size was
/// tried.
pub proof fn lemma_measurement_run(direction: Direction, outcomes: Seq<TrialOutcome>)
    requires
        outcomes.len() <= sizes_of(direction).len(),
    ensures
        result_of(after_trials(initial(direction), outcomes)) == measured(direction, outcomes),
        after_trials(initial(direction), outcomes).direction == direction,
        after_trials(initial(direction), outcomes).failed == first_failure(
            outcomes,
            outcomes.len(),
        ),
        first_failure(outcomes, outcomes.len()) is None ==> after_trials(
            initial(direction),
            outcomes,
        ).done == outcomes.len() && after_trials(initial(direction), outcomes).best_kbps
            == best_of(direction, outcomes, outcomes.len()),
        transfer_step_of(after_trials(initial(direction), outcomes)) == TransferStep::Finished
            <==> (first_failure(outcomes, outcomes.len()) is Some || outcomes.len() == sizes_of(
            direction,
        ).len()),
    decreases outcomes.len(),
{
    let n = outcomes.len();
    lemma_best_of_bounds(direction, outcomes, n);
    if n > 0 {
        let head = outcomes.drop_last();
        lemma_measurement_run(direction, head);
        assert(head == outcomes.take(n - 1));
        lemma_prefix_fold(direction, outcomes, (n - 1) as nat);
        lemma_best_of_bounds(direction, outcomes, (n - 1) as nat);
        let v = after_trials(initial(direction), head);
        assert(v.failed == first_failure(outcomes, (n - 1) as nat));
    }
}

/// The outcomes that count for a direction: one for each of its trial
/// sizes at most.
pub open spec fn counted(direction: Direction, outcomes: Seq<TrialOutcome>) -> Seq<TrialOutcome> {
    if outcomes.len() <= sizes_of(direction).len() {
        outcomes
    } else {
        outcomes.take(sizes_of(direction).len() as int)
    }
}

/// Reduces the outcomes of the trials of one direction, in the order of
/// the trial sizes, to the result of the measurement: the failure of the
/// first trial that failed, or else the best throughput, in kilobits per
/// second.
pub fn measure(direction: Direction, outcomes: &[TrialOutcome]) -> (r: Result<u64, ThroughputError>)
    ensures
        r == measured(direction, counted(direction, outcomes@)),
{
    let sizes = trial_sizes(direction);
    let n = if outcomes.len() <= sizes.len() {
        outcomes.len()
    } else {
        sizes.len()
    };
    let ghost used = counted(direction, outcomes@);
    assert(used == outcomes@.take(n as int));
    let mut run = Throughput::new(direction);
    let mut i: usize = 0;
    assert(used.take(0) == Seq::<TrialOutcome>::empty());
    while i < n
        invariant
            i <= n <= outcomes.len(),
            used == outcomes@.take(n as int),
            run@ == after_trials(initial(direction), used.take(i as int)),
        decreases n - i,
    {
        assert(used.take(i + 1).drop_last() == used.take(i as int));
        assert(used.take(i + 1).last() == outcomes@[i as int]);
        run = run.on_trial(outcomes[i]);
        i += 1;
    }
    assert(used.take(i as int) == used);
    proof {
        lemma_measurement_run(direction, used);
    }
    run.result()
}

/// The best download throughput over the trials, in kilobits per second,
/// or the failure of the first trial that failed.
pub fn measure_download(outcomes: &[TrialOutcome]) -> (r: Result<u64, ThroughputError>)
    ensures
        r == measured(Direction::Download, counted(Direction::Download, outcomes@)),
{
    measure(Direction::Download, outcomes)
}

/// The best upload throughput over the trials, in kilobits per second, or
/// the failure of the first trial that failed.
pub fn measure_upload(outcomes: &[TrialOutcome]) -> (r: Result<u64, ThroughputError>)
    ensures
        r == measured(Direction::Upload, counted(Direction::Upload, outcomes@)),
{
    measure(Direction::Upload, outcomes)
}

/// The address of a download trial of `size` bytes: an endpoint that takes
/// the size in its address is asked for exactly that size, any other is
/// asked as it stands.
pub open spec fn download_url_of(url: Seq<char>, size: nat) -> Seq<char> {
    if contains_text(url, "cloudflare"@) {
        "https://speed.cloudflare.com/__down?bytes="@ + digits_of(size)
    } else {
        url
    }
}

/// The address of a download trial of `size` bytes.
pub fn download_url(url: &str, size: u64) -> (r: String)
    ensures
        r@ == download_url_of(url@, size as nat),
{
    let text = chars_of(url);
    if contains(text.as_slice(), chars_of("cloudflare").as_slice()) {
        let mut out = chars_of("https://speed.cloudflare.com/__down?bytes=");
        append(&mut out, decimal(size).as_slice());
        string_of(out.as_slice())
    } else {
        url.to_owned()
    }
}

/// Number of light exchanges that the latency of a speed test is the
/// mean of.
pub const LATENCY_EXCHANGES: u32 = 5;

/// Number of further light exchanges from which a detailed speed test
/// takes jitter and packet loss.
pub const DETAILED_EXCHANGES: u32 = 20;

/// Seconds after which a request of the speed test is given up.
pub const REQUEST_TIMEOUT_SECS: u64 = 30;

/// The times of the exchanges that succeeded, in microseconds, in their
/// order; an exchange that failed leaves no time.
pub fn measure_latency(outcomes: &[Option<u32>]) -> (r: Vec<u32>)
    ensures
        r@ == successes(outcomes@),
{
    let mut times: Vec<u32> = Vec::new();
    let mut i: usize = 0;
    assert(outcomes@.take(0) == Seq::<Option<u32>>::empty());
    while i < outcomes.len()
        invariant
            i <= outcomes.len(),
            times@ == successes(outcomes@.take(i as int)),
        decreases outcomes.len() - i,
    {
        assert(outcomes@.take(i + 1).drop_last() == outcomes@.take(i as int));
        match outcomes[i] {
            Some(t) => {
                times.push(t);
            },
            None => {},
        }
        i += 1;
    }
    assert(outcomes@.take(i as int) == outcomes@);
    times
}

/// The record of one speed test.
pub struct SpeedResult {
    /// The endpoint: its name and where it stands.
    pub server: String,
    /// Best download throughput, in kilobits per second.
    pub download_kbps: u64,
    /// Best upload throughput, in kilobits per second.
    pub upload_kbps: u64,
    /// Mean latency, in microseconds.
    pub latency_micros: u32,
    /// Jitter, in microseconds; only in a detailed test.
    pub jitter_micros: Option<u32>,
    /// Packet loss, in thousandths of a percent; only in a detailed test.
    pub packet_loss_millipct: Option<u32>,
    /// When the test was made.
    pub timestamp: String,
}

/// The name of an endpoint with where it stands, in brackets, behind it.
pub open spec fn server_label(name: Seq<char>, location: Seq<char>) -> Seq<char> {
    name + " ("@ + location + ")"@
}

/// The throughput that the record shows for a measurement: zero where the
/// measurement failed.
pub open spec fn shown_throughput(measurement: Result<u64, ThroughputError>) -> u64 {
    match measurement {
        Ok(kbps) => kbps,
        Err(_) => 0,
    }
}

impl SpeedResult {
    /// Puts the record of a speed test together: the latency is the plain
    /// mean of the exchange times, a failed throughput measurement counts
    /// as zero, and jitter and packet loss are those of the detailed
    /// exchanges where there were any.
    pub fn assemble(
        server: &ServerInfo,
        latencies: &[u32],
        download: Result<u64, ThroughputError>,
        upload: Result<u64, ThroughputError>,
        detailed: Option<&PingStats>,
        timestamp: String,
    ) -> (r: SpeedResult)
        ensures
            r.server@ == server_label(server.name@, server.location@),
            r.download_kbps == shown_throughput(download),
            r.upload_kbps == shown_throughput(upload),
            r.latency_micros == mean_of(latencies@),
            r.jitter_micros == match detailed {
                Some(series) => Some(jitter_of(series@.samples) as u32),
                None => None,
            },
            r.packet_loss_millipct == match detailed {
                Some(series) => Some(
                    loss_of(series@.sent as int, series@.samples.len() as int) as u32,
                ),
                None => None,
            },
            r.timestamp@ == timestamp@,
    {
        let mut label = chars_of(server.name);
        append(&mut label, chars_of(" (").as_slice());
        append(&mut label, chars_of(server.location).as_slice());
        append(&mut label, chars_of(")").as_slice());
        let (jitter_micros, packet_loss_millipct) = match detailed {
            Some(series) => (Some(series.jitter()), Some(series.loss_pct())),
            None => (None, None),
        };
        SpeedResult {
            server: string_of(label.as_slice()),
            download_kbps: match download {
                Ok(kbps) => kbps,
                Err(_) => 0,
            },
            upload_kbps: match upload {
                Ok(kbps) => kbps,
                Err(_) => 0,
            },
            latency_micros: mean(latencies),
            jitter_micros,
            packet_loss_millipct,
            timestamp,
        }
    }
}

} // verus!
