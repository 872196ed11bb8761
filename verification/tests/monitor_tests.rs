use netctl::monitor::{Monitor, MonitorEvent, MonitorStep, Phase};

#[test]
fn single_shot_makes_one_pass_and_stops() {
    let m = Monitor::new(false, 2);
    assert_eq!(m.next_step(), MonitorStep::Pass { clear_display: false });
    let m = m.on_pass();
    assert_eq!(m.next_step(), MonitorStep::Stop);
    assert_eq!(m.phase, Phase::Stopped);
    let m = m.on_sleep().on_pass();
    assert_eq!(m.next_step(), MonitorStep::Stop);
}

#[test]
fn watching_repeats_pass_and_sleep_without_end() {
    let mut m = Monitor::new(true, 5);
    for _ in 0..1000 {
        assert_eq!(m.next_step(), MonitorStep::Pass { clear_display: true });
        m = m.on_pass();
        assert_eq!(m.next_step(), MonitorStep::Sleep { seconds: 5 });
        m = m.on_sleep();
    }
    assert_ne!(m.phase, Phase::Stopped);
}

#[test]
fn events_that_are_not_due_change_nothing() {
    let m = Monitor::new(true, 2);
    assert_eq!(m.on_sleep(), m);
    let paused = m.on_pass();
    assert_eq!(paused.on_pass(), paused);
    assert_eq!(paused.on_event(MonitorEvent::SleepDone), m);
    assert_eq!(m.on_event(MonitorEvent::PassDone), paused);
}
