//! The repetition driver of the watch modes: one measurement pass, then a
//! pause, again and again, or a single pass where nothing is watched.

use vstd::prelude::*;

verus! {

/// Seconds between two passes of the bandwidth monitor.
pub const BANDWIDTH_INTERVAL_SECS: u64 = 2;

/// Seconds between two passes of the VPN monitor.
pub const VPN_INTERVAL_SECS: u64 = 5;

/// Where a monitor stands.
#[derive(Clone, Copy, Debug, PartialEq, Eq, Structural)]
pub enum Phase {
    /// A measurement pass is due.
    Measuring,
    /// The pause between two passes is due.
    Pausing,
    /// The monitor is over.
    Stopped,
}

/// What the driver of a monitor has to do next.
#[derive(Clone, Copy, Debug, PartialEq, Eq, Structural)]
pub enum MonitorStep {
    /// Run one measurement pass and show it, on a cleared display where
    /// `clear_display` is set; then report it with `on_pass`.
    Pass { clear_display: bool },
    /// Sleep for so many seconds; then report it with `on_sleep`.
    Sleep { seconds: u64 },
    /// Leave the loop.
    Stop,
}

/// A monitor: whether it watches, how long it pauses between two passes,
/// and where it stands.
#[derive(Clone, Copy, Debug, PartialEq, Eq, Structural)]
pub struct Monitor {
    /// Whether the passes repeat.
    pub watch: bool,
    /// Seconds between two passes.
    pub interval_secs: u64,
    /// Where the monitor stands.
    pub phase: Phase,
}

/// Something that the driver reports to the monitor.
#[derive(Clone, Copy, Debug, PartialEq, Eq, Structural)]
pub enum MonitorEvent {
    /// A measurement pass is over.
    PassDone,
    /// A pause is over.
    SleepDone,
}

/// The step that is due in a state.
pub open spec fn monitor_step_of(m: Monitor) -> MonitorStep {
    match m.phase {
        Phase::Measuring => MonitorStep::Pass { clear_display: m.watch },
        Phase::Pausing => MonitorStep::Sleep { seconds: m.interval_secs },
        Phase::Stopped => MonitorStep::Stop,
    }
}

/// The state after an event. The end of a pass leads to the pause where the
/// monitor watches and to the end where it does not; the end of a pause
/// leads to the next pass. An event that is not due changes nothing.
pub open spec fn after_event(m: Monitor, event: MonitorEvent) -> Monitor {
    match (m.phase, event) {
        (Phase::Measuring, MonitorEvent::PassDone) => Monitor {
            phase: if m.watch {
                Phase::Pausing
            } else {
                Phase::Stopped
            },
            ..m
        },
        (Phase::Pausing, MonitorEvent::SleepDone) => Monitor { phase: Phase::Measuring, ..m },
        _ => m,
    }
}

/// The state after a sequence of events.
pub open spec fn after_events(m: Monitor, events: Seq<MonitorEvent>) -> Monitor
    decreases events.len(),
{
    if events.len() == 0 {
        m
    } else {
        after_event(after_events(m, events.drop_last()), events.last())
    }
}

impl Monitor {
    /// A monitor before its first pass.
    pub fn new(watch: bool, interval_secs: u64) -> (r: Monitor)
        ensures
            r == (Monitor { watch, interval_secs, phase: Phase::Measuring }),
    {
        Monitor { watch, interval_secs, phase: Phase::Measuring }
    }

    /// What the driver has to do next.
    pub fn next_step(&self) -> (r: MonitorStep)
        ensures
            r == monitor_step_of(*self),
    {
        match self.phase {
            Phase::Measuring => MonitorStep::Pass { clear_display: self.watch },
            Phase::Pausing => MonitorStep::Sleep { seconds: self.interval_secs },
            Phase::Stopped => MonitorStep::Stop,
        }
    }

    /// The monitor after an event.
    pub fn on_event(self, event: MonitorEvent) -> (r: Monitor)
        ensures
            r == after_event(self, event),
    {
        match (self.phase, event) {
            (Phase::Measuring, MonitorEvent::PassDone) => Monitor {
                watch: self.watch,
                interval_secs: self.interval_secs,
                phase: if self.watch {
                    Phase::Pausing
                } else {
                    Phase::Stopped
                },
            },
            (Phase::Pausing, MonitorEvent::SleepDone) => Monitor {
                watch: self.watch,
                interval_secs: self.interval_secs,
                phase: Phase::Measuring,
            },
            _ => self,
        }
    }

    /// The monitor after a measurement pass.
    pub fn on_pass(self) -> (r: Monitor)
        ensures
            r == after_event(self, MonitorEvent::PassDone),
    {
        self.on_event(MonitorEvent::PassDone)
    }

    /// The monitor after a pause.
    pub fn on_sleep(self) -> (r: Monitor)
        ensures
            r == after_event(self, MonitorEvent::SleepDone),
    {
        self.on_event(MonitorEvent::SleepDone)
    }
}

/// A monitor that watches never stops by itself: whatever is reported to
/// it, it does not reach the end, and it keeps watching with the same
/// pause.
pub proof fn lemma_watch_never_stops(m: Monitor, events: Seq<MonitorEvent>)
    requires
        m.watch,
        m.phase != Phase::Stopped,
    ensures
        after_events(m, events).phase != Phase::Stopped,
        after_events(m, events).watch,
        after_events(m, events).interval_secs == m.interval_secs,
    decreases events.len(),
{
    if events.len() > 0 {
        lemma_watch_never_stops(m, events.drop_last());
    }
}

/// A monitor that does not watch makes exactly one pass: its first step is
/// a pass on a display that is not cleared, the end of that pass stops it,
/// and it never asks for a pause.
pub proof fn lemma_single_shot(interval_secs: u64, events: Seq<MonitorEvent>)
    ensures
        monitor_step_of(Monitor { watch: false, interval_secs, phase: Phase::Measuring })
            == (MonitorStep::Pass { clear_display: false }),
        !after_events(
            Monitor { watch: false, interval_secs, phase: Phase::Measuring },
            events,
        ).watch,
        after_events(
            Monitor { watch: false, interval_secs, phase: Phase::Measuring },
            events,
        ).phase != Phase::Pausing,
        events.contains(MonitorEvent::PassDone) <==> after_events(
            Monitor { watch: false, interval_secs, phase: Phase::Measuring },
            events,
        ).phase == Phase::Stopped,
    decreases events.len(),
{
    if events.len() > 0 {
        let head = events.drop_last();
        lemma_single_shot(interval_secs, head);
        if head.contains(MonitorEvent::PassDone) {
            let i = choose|i: int| 0 <= i < head.len() && head[i] == MonitorEvent::PassDone;
            assert(events[i] == MonitorEvent::PassDone);
        }
        if events.contains(MonitorEvent::PassDone) && events.last() != MonitorEvent::PassDone {
            let i = choose|i: int| 0 <= i < events.len() && events[i] == MonitorEvent::PassDone;
            assert(head[i] == MonitorEvent::PassDone);
        }
        if events.last() == MonitorEvent::PassDone {
            assert(events[events.len() - 1] == MonitorEvent::PassDone);
        }
    }
}

} // verus!
