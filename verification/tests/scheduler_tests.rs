use lucid::duration::Dur;
use lucid::scheduler::{
    cycle, run_loop, start_message, CycleStep, Msg, SleepConfig, QUANTUM_MILLIS,
};

fn finite(millis: u64, no_interrupt: bool) -> SleepConfig {
    SleepConfig { target: Some(Dur::from_millis(millis)), no_interrupt }
}

fn forever(no_interrupt: bool) -> SleepConfig {
    SleepConfig { target: None, no_interrupt }
}

#[test]
fn test_cycle_sleeps_full_quantum_far_from_target() {
    let out = cycle(finite(1000, false), 0, false);
    assert!(!out.ignored_interrupt);
    assert_eq!(CycleStep::Sleep { slice: QUANTUM_MILLIS }, out.step);
}

#[test]
fn test_cycle_clamps_the_last_slice() {
    let out = cycle(finite(250, false), 200, false);
    assert_eq!(CycleStep::Sleep { slice: 50 }, out.step);
}

#[test]
fn test_cycle_finishes_at_the_target() {
    let out = cycle(finite(250, false), 250, false);
    assert_eq!(CycleStep::Finish { interrupted: false }, out.step);
    let past = cycle(finite(250, false), 400, false);
    assert_eq!(CycleStep::Finish { interrupted: false }, past.step);
}

#[test]
fn test_cycle_interrupt_wins_over_reached_target() {
    let out = cycle(finite(250, false), 250, true);
    assert!(!out.ignored_interrupt);
    assert_eq!(CycleStep::Finish { interrupted: true }, out.step);
}

#[test]
fn test_cycle_ignores_interrupt_when_configured() {
    let out = cycle(finite(1000, true), 0, true);
    assert!(out.ignored_interrupt);
    assert_eq!(CycleStep::Sleep { slice: QUANTUM_MILLIS }, out.step);
}

#[test]
fn test_cycle_forever_always_sleeps_a_quantum() {
    let out = cycle(forever(false), u64::MAX, false);
    assert_eq!(CycleStep::Sleep { slice: QUANTUM_MILLIS }, out.step);
}

#[test]
fn test_loop_completes_undisturbed() {
    // Target two and a half quanta, latch never set: the loop wakes
    // at exactly the target with one final message.
    let signals = vec![false, false, false, false];
    let r = run_loop(finite(250, false), &signals);
    assert!(r.finished);
    assert!(!r.interrupted);
    assert_eq!(250, r.elapsed);
    assert_eq!(
        vec![
            Msg::Progress { elapsed: 0 },
            Msg::Progress { elapsed: 100 },
            Msg::Progress { elapsed: 200 },
            Msg::Woke { elapsed: 250 },
        ],
        r.msgs
    );
}

#[test]
fn test_loop_zero_target_wakes_at_once() {
    let signals = vec![false];
    let r = run_loop(finite(0, false), &signals);
    assert!(r.finished);
    assert!(!r.interrupted);
    assert_eq!(0, r.elapsed);
    assert_eq!(vec![Msg::Woke { elapsed: 0 }], r.msgs);
}

#[test]
fn test_loop_interrupt_ends_it_early() {
    // A signal lands during the third cycle's sleep: the loop stops
    // well before the one-second target.
    let signals = vec![false, false, true, false, false];
    let r = run_loop(finite(1000, false), &signals);
    assert!(r.finished);
    assert!(r.interrupted);
    assert_eq!(200, r.elapsed);
    assert_eq!(
        vec![
            Msg::Progress { elapsed: 0 },
            Msg::Progress { elapsed: 100 },
            Msg::Interrupted,
            Msg::Woke { elapsed: 200 },
        ],
        r.msgs
    );
}

#[test]
fn test_loop_ignored_interrupt_sleeps_on() {
    // One signal mid-sleep, ignore mode on: announced once, then the
    // sleep still runs to the full target.
    let signals = vec![false, true, false, false, false];
    let r = run_loop(finite(250, true), &signals);
    assert!(r.finished);
    assert!(!r.interrupted);
    assert_eq!(250, r.elapsed);
    assert_eq!(
        vec![
            Msg::Progress { elapsed: 0 },
            Msg::Ignoring,
            Msg::Progress { elapsed: 100 },
            Msg::Progress { elapsed: 200 },
            Msg::Woke { elapsed: 250 },
        ],
        r.msgs
    );
}

#[test]
fn test_loop_forever_still_stops_on_interrupt() {
    let signals = vec![false, false, false, true];
    let r = run_loop(forever(false), &signals);
    assert!(r.finished);
    assert!(r.interrupted);
    assert_eq!(300, r.elapsed);
    assert_eq!(Some(&Msg::Interrupted), r.msgs.get(3));
    assert_eq!(Some(&Msg::Woke { elapsed: 300 }), r.msgs.get(4));
}

#[test]
fn test_loop_forever_undisturbed_keeps_sleeping() {
    let signals = vec![false; 7];
    let r = run_loop(forever(false), &signals);
    assert!(!r.finished);
    assert!(!r.interrupted);
    assert_eq!(700, r.elapsed);
    assert_eq!(7, r.msgs.len());
}

#[test]
fn test_loop_latch_stays_set_until_seen() {
    // The signal is observed at cycle one; without ignore mode the
    // loop stops there even though the cycle saw no fresh signal.
    let signals = vec![true, false];
    let r = run_loop(finite(1000, false), &signals);
    assert!(r.finished);
    assert!(r.interrupted);
    assert_eq!(0, r.elapsed);
    assert_eq!(vec![Msg::Interrupted, Msg::Woke { elapsed: 0 }], r.msgs);
}

#[test]
fn test_message_texts() {
    assert_eq!("Ignoring termination signal.", Msg::Ignoring.text());
    assert_eq!(
        "Caught termination signal - interrupting sleep.",
        Msg::Interrupted.text()
    );
    assert_eq!("Still dreaming after 1.100s", Msg::Progress { elapsed: 1100 }.text());
    assert_eq!("Woke up after 0.250s", Msg::Woke { elapsed: 250 }.text());
}

#[test]
fn test_start_messages() {
    assert_eq!("Going to sleep forever", start_message(&None));
    assert_eq!(
        "Going to sleep for 12.345s",
        start_message(&Some(Dur::from_millis(12345)))
    );
}
