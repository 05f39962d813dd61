use nix::sys::signal::{kill, Signal};
use nix::unistd::Pid;

use whatport::proctree::{FdDir, ProcEntry, ProcTree};
use whatport::signal::{
    is_running, kill_and_confirm, refused_outcome, KillAction, KillEvent, KillOutcome, KillSignal,
    Refusal,
};

#[test]
fn is_running_reflects_whether_the_proc_dir_exists() {
    let root = ProcTree {
        tcp: None,
        tcp6: None,
        listable: true,
        entries: vec![ProcEntry {
            name: "42".to_string(),
            fds: FdDir::Unreadable,
            comm: None,
            cmdline: None,
        }],
    };
    assert!(is_running(&root, 42));
    assert!(!is_running(&root, 43));
}

#[test]
fn signaling_a_pid_that_does_not_exist_on_this_real_host_is_already_gone() {
    // A PID far beyond the default `pid_max` (2^22 on stock Linux) but still
    // within the positive range of `i32`: essentially guaranteed not to exist.
    let mut attempt = kill_and_confirm(999_999_999u32, false);
    if let KillAction::Send { target, signal } = attempt.action() {
        assert_eq!(signal, KillSignal::Term);
        attempt.observe(match kill(Pid::from_raw(target), Signal::SIGTERM) {
            Ok(()) => KillEvent::Sent,
            Err(e) => KillEvent::Refused { errno: e as i32 },
        });
    }
    assert_eq!(attempt.action(), KillAction::Nothing);
    assert_eq!(attempt.outcome(), Some(&KillOutcome::AlreadyGone));
}

fn after(events: &[KillEvent]) -> Option<KillOutcome> {
    let mut attempt = kill_and_confirm(5, true);
    for &event in events {
        attempt.observe(event);
    }
    attempt.outcome().cloned()
}

#[test]
fn every_refusal_has_its_outcome() {
    assert_eq!(after(&[KillEvent::Refused { errno: 3 }]), Some(KillOutcome::AlreadyGone));
    assert_eq!(after(&[KillEvent::Refused { errno: 1 }]), Some(KillOutcome::PermissionDenied));
    assert_eq!(
        after(&[KillEvent::Refused { errno: 22 }]),
        Some(KillOutcome::Error("EINVAL: Invalid argument".to_string()))
    );
    assert_eq!(
        after(&[KillEvent::Refused { errno: 0 }]),
        Some(KillOutcome::Error("UnknownErrno: Unknown errno".to_string()))
    );
    assert_eq!(
        refused_outcome(Refusal::Other, "why".to_string()),
        KillOutcome::Error("why".to_string())
    );
    assert_eq!(
        refused_outcome(Refusal::NotPermitted, "why".to_string()),
        KillOutcome::PermissionDenied
    );
}

#[test]
fn the_signal_and_its_target() {
    assert_eq!(
        kill_and_confirm(5, true).action(),
        KillAction::Send { target: 5, signal: KillSignal::Kill }
    );
    for (pid, target) in [(1, 1), (0x7fff_ffff, 0x7fff_ffff)] {
        assert_eq!(
            kill_and_confirm(pid, false).action(),
            KillAction::Send { target, signal: KillSignal::Term }
        );
    }
}

#[test]
fn nothing_is_sent_where_no_process_can_be() {
    for pid in [0, 0x8000_0000, 4_000_000_000, u32::MAX] {
        for force in [false, true] {
            let mut attempt = kill_and_confirm(pid, force);
            assert_eq!(attempt.action(), KillAction::Nothing);
            assert_eq!(attempt.outcome(), Some(&KillOutcome::AlreadyGone));
            attempt.observe(KillEvent::Sent);
            assert_eq!(attempt.action(), KillAction::Nothing);
        }
    }
}

#[test]
fn one_attempt_sends_one_signal_and_ends() {
    let mut attempt = kill_and_confirm(5, false);
    let (mut sent, mut waits, mut looks, mut events) = (0, 0u64, 0, 0);
    while attempt.outcome().is_none() {
        let event = match attempt.action() {
            KillAction::Send { signal, .. } => {
                assert_eq!(signal, KillSignal::Term);
                sent += 1;
                KillEvent::Sent
            }
            KillAction::ReadClock => KillEvent::Clock { millis: u128::from(50 * waits) },
            KillAction::Look => {
                looks += 1;
                KillEvent::Running { yes: true }
            }
            KillAction::Wait { millis } => {
                assert_eq!(millis, 50);
                waits += 1;
                KillEvent::Waited
            }
            KillAction::Nothing => unreachable!(),
        };
        attempt.observe(event);
        events += 1;
    }
    assert_eq!((sent, waits, looks, events), (1, 60, 61, 1 + 182));
    assert_eq!(attempt.outcome(), Some(&KillOutcome::SentButStillRunning));
}

#[test]
fn a_process_is_dead_once_it_is_looked_for_and_not_found() {
    let mut attempt = kill_and_confirm(5, false);
    attempt.observe(KillEvent::Sent);
    assert_eq!(attempt.outcome(), None);
    assert_eq!(attempt.action(), KillAction::ReadClock);
    attempt.observe(KillEvent::Clock { millis: 0 });
    assert_eq!(attempt.action(), KillAction::Look);
    attempt.observe(KillEvent::Running { yes: true });
    assert_eq!(attempt.action(), KillAction::Wait { millis: 50 });
    attempt.observe(KillEvent::Waited);
    assert_eq!(attempt.action(), KillAction::ReadClock);
    attempt.observe(KillEvent::Clock { millis: 2999 });
    assert_eq!(attempt.action(), KillAction::Look);
    attempt.observe(KillEvent::Running { yes: false });
    assert_eq!(attempt.action(), KillAction::Nothing);
    assert_eq!(attempt.outcome(), Some(&KillOutcome::ConfirmedDead));
    attempt.observe(KillEvent::Refused { errno: 1 });
    assert_eq!(attempt.outcome(), Some(&KillOutcome::ConfirmedDead));
}

#[test]
fn the_last_look_decides_once_the_time_is_up() {
    let late = KillEvent::Clock { millis: 3000 };
    assert_eq!(after(&[KillEvent::Sent, late]), None);
    assert_eq!(
        after(&[KillEvent::Sent, late, KillEvent::Running { yes: true }]),
        Some(KillOutcome::SentButStillRunning)
    );
    assert_eq!(
        after(&[KillEvent::Sent, late, KillEvent::Running { yes: false }]),
        Some(KillOutcome::ConfirmedDead)
    );
}

#[test]
fn events_out_of_turn_are_ignored() {
    let gone = KillEvent::Running { yes: false };
    assert_eq!(after(&[gone]), None);
    assert_eq!(after(&[KillEvent::Sent, gone]), None);
    assert_eq!(after(&[KillEvent::Sent, KillEvent::Refused { errno: 3 }]), None);
}
