use whatport::report::{
    exit_code, kill_report, no_target, nothing_listening, plan, text_report, Plan,
};
use whatport::signal::KillOutcome;
use whatport::{PortMatch, ProcessMatch, ScanOutcome};

fn process(pid: u32, name: Option<&str>, cmdline: Option<&str>) -> ProcessMatch {
    ProcessMatch {
        pid,
        name: name.map(|s| s.to_string()),
        cmdline: cmdline.map(|s| s.to_string()),
    }
}

fn socket(protocol: &'static str, local_addr: &str, processes: Vec<ProcessMatch>) -> PortMatch {
    PortMatch { protocol, local_addr: local_addr.to_string(), inode: 1, processes }
}

fn found(matches: Vec<PortMatch>, permission_denied: bool) -> ScanOutcome {
    ScanOutcome { matches, permission_denied }
}

#[test]
fn one_process_on_one_socket_is_one_line() {
    let cmdline = "python3 -m http.server 18234 --bind 127.0.0.1";
    let owner = process(159853, Some("python3"), Some(cmdline));
    let outcome = found(vec![socket("tcp", "127.0.0.1:18234", vec![owner])], true);
    assert_eq!(
        text_report(18234, &outcome),
        "tcp   127.0.0.1:18234          pid 159853   python3  python3 -m http.server 18234 --bind 127.0.0.1\n"
    );
}

#[test]
fn what_is_unknown_of_a_process_is_left_out() {
    let outcome = found(vec![socket("tcp", "0.0.0.0:80", vec![process(7, None, None)])], false);
    assert_eq!(
        text_report(80, &outcome),
        format!("{:<5} {:<24} pid {:<8} ?\n", "tcp", "0.0.0.0:80", 7)
    );
}

#[test]
fn an_address_wider_than_its_column_is_kept_whole() {
    let addr = "[0000:0000:0000:0000:0000:0000:0000:0001]:80";
    let outcome = found(vec![socket("tcp6", addr, vec![process(7, Some("n"), None)])], false);
    assert_eq!(text_report(80, &outcome), format!("tcp6  {addr} pid 7        n\n"));
}

#[test]
fn a_socket_without_a_known_owner_says_so() {
    let sockets = || vec![socket("tcp", "0.0.0.0:80", vec![])];
    let line = format!("{:<5} {:<24} owning process unknown\n", "tcp", "0.0.0.0:80");
    assert_eq!(text_report(80, &found(sockets(), false)), line);
    assert_eq!(
        text_report(80, &found(sockets(), true)),
        format!("{line}      (permission denied reading some /proc/<pid>/fd directories — the real owner may be one of those)\n")
    );
}

#[test]
fn more_than_one_socket_or_process_is_noted() {
    let note = "note: more than one socket/process matched port 80 (SO_REUSEPORT or a forked listener) — all listed above\n";
    let forked = socket("tcp", "a", vec![process(1, None, None), process(2, None, None)]);
    let text = text_report(80, &found(vec![forked], false));
    assert_eq!(text.lines().count(), 3);
    assert!(text.ends_with(note));
    let shared = |pid| socket("tcp", "a", vec![process(pid, None, None)]);
    assert!(text_report(80, &found(vec![shared(1), shared(1)], false)).ends_with(note));
    assert!(!text_report(80, &found(vec![shared(1)], false)).contains("note"));
}

#[test]
fn every_outcome_has_its_report() {
    assert_eq!(
        kill_report(9, &KillOutcome::ConfirmedDead, false),
        ("sent SIGTERM to pid 9 — confirmed dead (no longer in /proc)\n".to_string(), true)
    );
    assert_eq!(
        kill_report(9, &KillOutcome::SentButStillRunning, true),
        (
            "sent SIGKILL to pid 9 — still running after 3s (try --force for SIGKILL)\n".to_string(),
            false
        )
    );
    assert_eq!(
        kill_report(9, &KillOutcome::AlreadyGone, true),
        ("pid 9 was already gone before the signal was sent\n".to_string(), true)
    );
    assert_eq!(
        kill_report(9, &KillOutcome::PermissionDenied, false),
        (
            "permission denied sending SIGTERM to pid 9 (not our process, not root)\n".to_string(),
            false
        )
    );
    assert_eq!(
        kill_report(9, &KillOutcome::Error("EINVAL: Invalid argument".to_string()), false),
        ("failed to signal pid 9: EINVAL: Invalid argument\n".to_string(), false)
    );
}

#[test]
fn messages_name_the_port() {
    assert_eq!(nothing_listening(8080), "nothing is listening on port 8080\n");
    assert_eq!(
        no_target(8080, false),
        "cannot kill: no owning process could be determined for port 8080\n"
    );
    assert_eq!(
        no_target(8080, true),
        "cannot kill: no owning process could be determined for port 8080 (permission denied reading some process directories)\n"
    );
}

#[test]
fn the_plan_depends_on_what_was_found() {
    let nothing = found(vec![], true);
    let ownerless = found(vec![socket("tcp", "a", vec![])], false);
    let owners = vec![process(4, None, None), process(2, None, None), process(4, None, None)];
    let owned = found(vec![socket("tcp", "a", owners)], false);
    for kill in [false, true] {
        assert_eq!(plan(&nothing, kill), Plan::NothingListening);
    }
    assert_eq!(plan(&ownerless, false), Plan::Report);
    assert_eq!(plan(&ownerless, true), Plan::NoTarget);
    assert_eq!(plan(&owned, false), Plan::Report);
    assert_eq!(plan(&owned, true), Plan::Stop(vec![4, 2]));
}

#[test]
fn the_exit_code_tells_success() {
    assert_eq!(exit_code(&Plan::NothingListening, &[]), 1);
    assert_eq!(exit_code(&Plan::Report, &[]), 0);
    assert_eq!(exit_code(&Plan::NoTarget, &[]), 1);
    assert_eq!(exit_code(&Plan::Stop(vec![4, 2]), &[true, true]), 0);
    assert_eq!(exit_code(&Plan::Stop(vec![4, 2]), &[false, true]), 1);
    assert_eq!(exit_code(&Plan::Stop(vec![4, 2]), &[true]), 1);
}
