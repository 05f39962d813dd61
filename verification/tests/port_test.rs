use whatport::port_search::PortSearch;
use whatport::procinfo::ProcessInfo;
use whatport::proctree::{Answer, FdDir, FdLink, FdListing, ProcEntry, ProcTree, Request};
use whatport::report::{plan, Plan};
use whatport::{distinct_pids, find_port, PortMatch, ProcessMatch, ScanOutcome};

fn entry(name: &str, links: &[&str]) -> ProcEntry {
    let links = links.iter().map(|link| FdLink::Target(link.to_string())).collect();
    ProcEntry { name: name.to_string(), fds: FdDir::Links(links), comm: None, cmdline: None }
}

/// A tree with one TCP listen socket on `port`, owned by `pid`.
fn fake_proc_tree(port: u16, inode: u64, pid: u32) -> ProcTree {
    let port_hex = format!("{port:04X}");
    let mut process = entry(&pid.to_string(), &[&format!("socket:[{inode}]")]);
    process.comm = Some("myserver\n".to_string());
    process.cmdline = Some(b"myserver\0--port\0".to_vec());
    ProcTree {
        tcp: Some(format!(
            "header\n   0: 00000000:{port_hex} 00000000:0000 0A 00000000:00000000 00:00000000 00000000     0        0 {inode} 1 0 100 0 0 10 0\n"
        )),
        tcp6: Some("header\n".to_string()),
        listable: true,
        entries: vec![process],
    }
}

#[test]
fn end_to_end_finds_the_process_bound_to_the_port() {
    let root = fake_proc_tree(8080, 111, 500);
    let outcome = find_port(&root, 8080);
    assert_eq!(outcome.matches.len(), 1);
    assert_eq!(outcome.matches[0].protocol, "tcp");
    assert_eq!(outcome.matches[0].processes.len(), 1);
    assert_eq!(outcome.matches[0].processes[0].pid, 500);
    assert_eq!(outcome.matches[0].processes[0].name, Some("myserver".to_string()));
    assert!(!outcome.permission_denied);
    assert_eq!(distinct_pids(&outcome), vec![500]);
}

#[test]
fn port_not_in_use_returns_no_matches() {
    let root = fake_proc_tree(8080, 111, 500);
    let outcome = find_port(&root, 9999);
    assert!(outcome.matches.is_empty());
    assert!(distinct_pids(&outcome).is_empty());
}

#[test]
fn distinct_pids_dedupes_a_pid_seen_on_both_tcp_and_tcp6() {
    let root = ProcTree {
        tcp: Some("header\n   0: 00000000:1F90 00000000:0000 0A 00000000:00000000 00:00000000 00000000     0        0 111 1 0 100 0 0 10 0\n".to_string()),
        tcp6: Some("header\n   0: 00000000000000000000000000000000:1F90 00000000000000000000000000000000:0000 0A 00000000:00000000 00:00000000 00000000     0        0 222 1 0 100 0 0 10 0\n".to_string()),
        listable: true,
        entries: vec![entry("700", &["socket:[111]", "socket:[222]"])],
    };
    let outcome = find_port(&root, 8080);
    assert_eq!(outcome.matches.len(), 2);
    assert_eq!(distinct_pids(&outcome), vec![700]);
}

#[test]
fn both_tables_are_read_in_order() {
    let root = ProcTree {
        tcp: Some("h\n0: 0100007F:0050 r 0A q t w u o 1\n1: 00000000:0050 r 0A q t w u o 2".to_string()),
        tcp6: Some("h\n0: 00000000000000000000000001000000:0050 r 0A q t w u o 3".to_string()),
        listable: true,
        entries: vec![entry("9", &["socket:[3]"]), entry("8", &["socket:[1]", "socket:[3]"])],
    };
    let outcome = find_port(&root, 80);
    let seen: Vec<(&str, &str, u64, Vec<u32>)> = outcome
        .matches
        .iter()
        .map(|m| {
            let pids = m.processes.iter().map(|p| p.pid).collect();
            (m.protocol, m.local_addr.as_str(), m.inode, pids)
        })
        .collect();
    assert_eq!(
        seen,
        vec![
            ("tcp", "127.0.0.1:80", 1, vec![8]),
            ("tcp", "0.0.0.0:80", 2, vec![]),
            ("tcp6", "[0000:0000:0000:0000:0000:0000:0000:0001]:80", 3, vec![9, 8]),
        ]
    );
    assert_eq!(distinct_pids(&outcome), vec![8, 9]);
}

#[test]
fn a_table_that_cannot_be_read_is_left_out() {
    let mut root = fake_proc_tree(8080, 111, 500);
    root.tcp6 = None;
    assert_eq!(find_port(&root, 8080).matches.len(), 1);
    root.tcp = None;
    assert!(find_port(&root, 8080).matches.is_empty());
}

#[test]
fn what_is_withheld_is_flagged_only_where_a_socket_was_looked_for() {
    let mut root = fake_proc_tree(8080, 111, 500);
    let mut other = entry("501", &[]);
    other.fds = FdDir::Denied;
    root.entries.push(other);
    let outcome = find_port(&root, 8080);
    assert!(outcome.permission_denied);
    assert_eq!(distinct_pids(&outcome), vec![500]);
    assert!(!find_port(&root, 9999).permission_denied);
}

#[test]
fn only_the_owners_of_a_listener_are_stopped() {
    let mut root = fake_proc_tree(8080, 111, 500);
    root.entries.push(entry("501", &["socket:[112]"]));
    root.entries.push(entry("502", &["pipe:[1]", "socket:[111]"]));
    assert_eq!(plan(&find_port(&root, 8080), true), Plan::Stop(vec![500, 502]));
    root.listable = false;
    assert_eq!(plan(&find_port(&root, 8080), true), Plan::NoTarget);
}

#[test]
fn what_was_found_is_kept_whatever_comes_next() {
    let root = fake_proc_tree(8080, 111, 500);
    let mut search = PortSearch::new(8080);
    while search.request() != (Request::ReadTable { ipv6: true }) {
        let request = search.request();
        search.answer(root.answer(request));
    }
    search.answer(Answer::Table(None));
    assert!(search.is_done());
    assert_eq!(search.into_outcome().matches.len(), 1);
}

#[test]
fn a_search_asks_only_for_what_it_needs() {
    let root = fake_proc_tree(8080, 111, 500);
    let mut search = PortSearch::new(8080);
    let mut asked = Vec::new();
    while !search.is_done() {
        let request = search.request();
        asked.push(request);
        search.answer(root.answer(request));
    }
    assert_eq!(
        asked,
        vec![
            Request::ReadTable { ipv6: false },
            Request::ListProcesses,
            Request::ListFds { entry: 0 },
            Request::ReadLink { entry: 0, fd: 0 },
            Request::ReadComm { pid: 500 },
            Request::ReadCmdline { pid: 500 },
            Request::ReadTable { ipv6: true },
        ]
    );
    assert_eq!(search.request(), Request::Nothing);
    let outcome = search.into_outcome();
    assert_eq!(outcome.matches.len(), 1);
    assert_eq!(outcome.matches[0].processes[0].cmdline, Some("myserver --port".to_string()));
}

#[test]
fn a_process_that_vanishes_meanwhile_is_still_listed() {
    let root = fake_proc_tree(8080, 111, 500);
    let mut search = PortSearch::new(8080);
    while !search.is_done() {
        let request = search.request();
        search.answer(match request {
            Request::ReadComm { .. } => Answer::Comm(None),
            Request::ReadCmdline { .. } => Answer::Cmdline(None),
            _ => root.answer(request),
        });
    }
    let outcome = search.into_outcome();
    assert_eq!(outcome.matches[0].processes[0].pid, 500);
    assert_eq!(outcome.matches[0].processes[0].name, None);
    assert_eq!(outcome.matches[0].processes[0].cmdline, None);
}

#[test]
fn answers_to_other_questions_are_ignored() {
    let mut search = PortSearch::new(80);
    search.answer(Answer::Fds(FdListing::Count(1)));
    search.answer(Answer::Nothing);
    assert_eq!(search.request(), Request::ReadTable { ipv6: false });
}

#[test]
fn a_tree_answers_what_it_holds() {
    let root = fake_proc_tree(8080, 111, 500);
    assert_eq!(
        root.answer(Request::ListProcesses),
        Answer::Processes(Some(vec!["500".to_string()]))
    );
    assert_eq!(root.answer(Request::ListFds { entry: 0 }), Answer::Fds(FdListing::Count(1)));
    assert_eq!(root.answer(Request::ListFds { entry: 1 }), Answer::Fds(FdListing::Unreadable));
    assert_eq!(
        root.answer(Request::ReadLink { entry: 0, fd: 0 }),
        Answer::Link(FdLink::Target("socket:[111]".to_string()))
    );
    assert_eq!(root.answer(Request::ReadLink { entry: 0, fd: 1 }), Answer::Link(FdLink::Unreadable));
    assert_eq!(
        root.answer(Request::ReadComm { pid: 500 }),
        Answer::Comm(Some("myserver\n".to_string()))
    );
    assert_eq!(root.answer(Request::ReadComm { pid: 5 }), Answer::Comm(None));
    assert_eq!(root.answer(Request::Nothing), Answer::Nothing);
}

#[test]
fn a_match_says_what_the_process_info_says() {
    let info = ProcessInfo { pid: 3, name: Some("n".to_string()), cmdline: None };
    let process = ProcessMatch::from(&info);
    assert_eq!(process.pid, 3);
    assert_eq!(process.name, Some("n".to_string()));
    assert_eq!(process.cmdline, None);
}

#[test]
fn first_seen_order_is_kept() {
    let socket = |pids: &[u32]| PortMatch {
        protocol: "tcp",
        local_addr: String::new(),
        inode: 0,
        processes: pids
            .iter()
            .map(|&pid| ProcessMatch { pid, name: None, cmdline: None })
            .collect(),
    };
    let outcome = ScanOutcome {
        matches: vec![socket(&[3, 1]), socket(&[]), socket(&[1, 2, 3, 2])],
        permission_denied: false,
    };
    assert_eq!(distinct_pids(&outcome), vec![3, 1, 2]);
}
