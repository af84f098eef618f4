use pico_rtic::heartbeat::{simulate, release_time, Busy, Heartbeat, Phase};
use pico_rtic::init::{InitSequencer, InitStep};
use pico_rtic::timer::{deadline_after, lateness, Clock};

#[test]
fn scenario_idealized_run() {
    let r = simulate(500, 2000, &vec![]);
    assert_eq!(r, vec![500, 1000, 1500, 2000]);
}

#[test]
fn scenario_preempted_toggle_is_delayed() {
    let busy = vec![Busy { start: 480, len: 50 }];
    let r = simulate(500, 2000, &busy);
    assert_eq!(r[0], 530);
    assert_eq!(r, vec![530, 1030, 1530]);
    for i in 0..r.len() - 1 {
        assert!(r[i + 1] >= r[i] + 500);
    }
}

#[test]
fn n_periods_give_n_toggles() {
    for n in 1..20u64 {
        assert_eq!(simulate(7, 7 * n, &vec![]).len() as u64, n);
    }
    assert_eq!(simulate(500, 499, &vec![]).len(), 0);
}

#[test]
fn spacing_holds_under_chained_interference() {
    let busy = vec![Busy { start: 90, len: 20 }, Busy { start: 110, len: 5 }, Busy { start: 300, len: 100 }];
    let r = simulate(100, 1000, &busy);
    assert_eq!(r[0], 115);
    assert_eq!(r[1], 215);
    assert_eq!(r[2], 400);
    for i in 0..r.len() - 1 {
        assert!(r[i + 1] >= r[i] + 100);
    }
}

#[test]
fn release_time_skips_busy_interval() {
    let busy = vec![Busy { start: 480, len: 50 }];
    assert_eq!(release_time(500, &busy), 530);
    assert_eq!(release_time(479, &busy), 479);
    assert_eq!(release_time(530, &busy), 530);
}

#[test]
fn heartbeat_toggles_and_rearms() {
    let mut h = Heartbeat::new(500);
    assert!(!h.led_high);
    assert_eq!(h.resume(0), 500);
    assert!(h.led_high);
    assert_eq!(h.phase, Phase::AwaitingDeadline { deadline: 500 });
    // early resumption does nothing
    assert_eq!(h.resume(499), 500);
    assert!(h.led_high);
    assert_eq!(h.resume(530), 1030);
    assert!(!h.led_high);
}

#[test]
fn deadline_saturates() {
    assert_eq!(deadline_after(10, 500), 510);
    assert_eq!(deadline_after(u64::MAX - 1, 5), u64::MAX);
}

#[test]
fn clock_never_goes_backwards() {
    let mut c = Clock::new();
    assert_eq!(c.observe(100), 100);
    assert_eq!(c.observe(50), 100);
    assert_eq!(c.now(), 100);
    assert!(c.reached(100));
    assert!(!c.reached(101));
}

#[test]
fn init_runs_in_order() {
    let mut s = InitSequencer::new();
    assert!(!s.timer_usable());
    assert_eq!(s.advance(true), InitStep::BringUp);
    assert!(s.timer_usable());
    assert_eq!(s.advance(true), InitStep::BuildResources);
    assert_eq!(s.advance(true), InitStep::SpawnInitial);
    assert_eq!(s.advance(true), InitStep::Done);
    assert!(s.finished());
    assert_eq!(s.advance(false), InitStep::Done);
}

#[test]
fn init_halts_on_configuration_failure() {
    let mut s = InitSequencer::new();
    s.advance(true);
    assert_eq!(s.advance(false), InitStep::Halted);
    assert!(s.finished());
    assert_eq!(s.advance(true), InitStep::Halted);
}

#[test]
fn late_wake_is_measured() {
    let busy = vec![Busy { start: 480, len: 50 }];
    let r = simulate(500, 600, &busy);
    assert_eq!(lateness(500, r[0]), 30);
    assert_eq!(lateness(500, 500), 0);
    assert_eq!(lateness(500, 400), 0);
}
