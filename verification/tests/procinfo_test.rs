use whatport::inode_search::InodeSearch;
use whatport::procinfo::{
    find_pids_for_inode, join_args, process_cmdline, process_name, read_cmdline, read_name,
    resolve_processes, split_args, InodeScan, ProcessInfo,
};
use whatport::proctree::{Answer, FdDir, FdLink, FdListing, ProcEntry, ProcTree, Request};

fn entry(name: &str, fds: FdDir) -> ProcEntry {
    ProcEntry { name: name.to_string(), fds, comm: None, cmdline: None }
}

fn tree(entries: Vec<ProcEntry>) -> ProcTree {
    ProcTree { tcp: None, tcp6: None, listable: true, entries }
}

fn target(link: &str) -> FdLink {
    FdLink::Target(link.to_string())
}

#[test]
fn finds_pid_for_a_matching_inode() {
    let mut process = entry("500", FdDir::Links(vec![target("socket:[777]")]));
    process.comm = Some("postgres\n".to_string());
    process.cmdline = Some(b"postgres\0-D\0/data\0".to_vec());
    let root = tree(vec![process]);

    let scan = find_pids_for_inode(&root, 777);
    assert_eq!(scan.pids, vec![500]);
    assert!(!scan.permission_denied);
    assert_eq!(process_name(&root, 500), Some("postgres".to_string()));
    assert_eq!(process_cmdline(&root, 500), Some("postgres -D /data".to_string()));
}

#[test]
fn no_match_returns_empty_not_an_error() {
    let scan = find_pids_for_inode(&tree(vec![]), 999);
    assert!(scan.pids.is_empty());
    assert!(!scan.permission_denied);
}

#[test]
fn multiple_pids_can_share_one_inode_forked_listener_case() {
    // A preforking server: every worker inherits the same listen fd.
    let mut entries = Vec::new();
    for pid in ["100", "101", "102"] {
        entries.push(entry(pid, FdDir::Links(vec![target("socket:[888]")])));
    }
    let mut scan = find_pids_for_inode(&tree(entries), 888);
    scan.pids.sort();
    assert_eq!(scan.pids, vec![100, 101, 102]);
}

#[test]
fn permission_denied_on_one_pid_is_flagged_but_others_still_found() {
    let root = tree(vec![
        entry("200", FdDir::Denied),
        entry("300", FdDir::Links(vec![target("socket:[321]")])),
    ]);
    let scan = find_pids_for_inode(&root, 321);
    assert_eq!(scan.pids, vec![300]);
    assert!(scan.permission_denied);
}

#[test]
fn cmdline_with_no_content_is_none() {
    let mut process = entry("400", FdDir::Unreadable);
    process.cmdline = Some(b"".to_vec());
    assert_eq!(process_cmdline(&tree(vec![process]), 400), None);
}

#[test]
fn missing_comm_file_is_none_not_a_panic() {
    assert_eq!(process_name(&tree(vec![]), 12345), None);
}

#[test]
fn entries_that_are_no_process_are_passed_over() {
    let links = || FdDir::Links(vec![target("socket:[1]")]);
    let root = tree(vec![
        entry("net", links()),
        entry("self", FdDir::Denied),
        entry("4294967296", links()),
        entry("-1", links()),
        entry("", links()),
        entry("7", links()),
    ]);
    assert_eq!(
        find_pids_for_inode(&root, 1),
        InodeScan { pids: vec![7], permission_denied: false }
    );
}

#[test]
fn processes_that_are_gone_are_not_flagged() {
    let root = tree(vec![
        entry("1", FdDir::Unreadable),
        entry("2", FdDir::Links(vec![FdLink::Unreadable, target("socket:[12]")])),
    ]);
    assert_eq!(find_pids_for_inode(&root, 1), InodeScan::default());
    assert_eq!(find_pids_for_inode(&root, 12).pids, vec![2]);
}

#[test]
fn a_denied_link_counts_only_before_the_socket_is_found() {
    let before = tree(vec![entry("1", FdDir::Links(vec![FdLink::Denied, target("socket:[5]")]))]);
    let after = tree(vec![entry("1", FdDir::Links(vec![target("socket:[5]"), FdLink::Denied]))]);
    assert_eq!(
        find_pids_for_inode(&before, 5),
        InodeScan { pids: vec![1], permission_denied: true }
    );
    assert_eq!(
        find_pids_for_inode(&after, 5),
        InodeScan { pids: vec![1], permission_denied: false }
    );
    assert!(find_pids_for_inode(&after, 6).permission_denied);
}

#[test]
fn a_process_counts_once_however_many_links_it_has() {
    let links = vec![target("socket:[5]"), target("socket:[5]")];
    assert_eq!(find_pids_for_inode(&tree(vec![entry("9", FdDir::Links(links))]), 5).pids, vec![9]);
}

#[test]
fn the_link_must_match_to_the_letter() {
    let links = ["socket:[55]", "socket:[05]", "socket:[5", "pipe:[5]", "socket:[5] "];
    let links = links.iter().map(|l| target(l)).collect();
    assert!(find_pids_for_inode(&tree(vec![entry("9", FdDir::Links(links))]), 5).pids.is_empty());
}

#[test]
fn a_root_that_cannot_be_listed_shows_no_one() {
    let mut root = tree(vec![entry("9", FdDir::Links(vec![target("socket:[5]")]))]);
    root.listable = false;
    assert_eq!(find_pids_for_inode(&root, 5), InodeScan::default());
}

#[test]
fn a_search_asks_for_one_thing_after_the_other() {
    let mut search = InodeSearch::new(5);
    assert_eq!(search.request(), Request::ListProcesses);
    let names = ["net", "8", "9"].iter().map(|n| n.to_string()).collect();
    search.answer(Answer::Processes(Some(names)));
    assert_eq!(search.request(), Request::ListFds { entry: 1 });
    search.answer(Answer::Comm(None));
    assert_eq!(search.request(), Request::ListFds { entry: 1 });
    search.answer(Answer::Fds(FdListing::Count(3)));
    assert_eq!(search.request(), Request::ReadLink { entry: 1, fd: 0 });
    search.answer(Answer::Link(target("socket:[4]")));
    assert_eq!(search.request(), Request::ReadLink { entry: 1, fd: 1 });
    search.answer(Answer::Link(target("socket:[5]")));
    assert_eq!(search.request(), Request::ListFds { entry: 2 });
    search.answer(Answer::Fds(FdListing::Denied));
    assert_eq!(search.request(), Request::Nothing);
    assert!(search.is_done());
    assert_eq!(search.into_scan(), InodeScan { pids: vec![8], permission_denied: true });
}

#[test]
fn names_are_trimmed_and_never_empty() {
    assert_eq!(read_name(Some(" a b\n")), Some("a b".to_string()));
    assert_eq!(read_name(Some("\n")), None);
    assert_eq!(read_name(None), None);
}

#[test]
fn arguments_end_with_nul() {
    assert_eq!(split_args(b"a\0\0bc\0"), vec![b"a".to_vec(), b"bc".to_vec()]);
    assert_eq!(split_args(b"a"), vec![b"a".to_vec()]);
    assert!(split_args(b"\0\0").is_empty());
    assert_eq!(join_args(&["a".to_string(), "b c".to_string()]), Some("a b c".to_string()));
    assert_eq!(join_args(&[]), None);
}

#[test]
fn command_lines_are_decoded() {
    assert_eq!(read_cmdline(Some(b"ls\0-l\0")), Some("ls -l".to_string()));
    assert_eq!(read_cmdline(Some("é\0ü\0".as_bytes())), Some("é ü".to_string()));
    assert_eq!(read_cmdline(Some(b"a\xffb\0")), Some("a\u{fffd}b".to_string()));
    assert_eq!(read_cmdline(Some(b"\xff")), Some("\u{fffd}".to_string()));
    assert_eq!(read_cmdline(Some(b"\0\x01\0")), Some("\u{1}".to_string()));
    assert_eq!(read_cmdline(Some(b"\0\0")), None);
    assert_eq!(read_cmdline(None), None);
}

#[test]
fn no_nul_is_left_in_a_command_line() {
    for raw in [&b"a\0b\0"[..], &b"\0a\0\0\xff\0\xc3\0b"[..], &b"\xe2\x82\0\xac"[..]] {
        assert!(!read_cmdline(Some(raw)).unwrap().contains('\0'));
    }
}

#[test]
fn every_process_is_resolved_in_order() {
    let mut process = entry("2", FdDir::Unreadable);
    process.comm = Some("two\n".to_string());
    process.cmdline = Some(b"two\0x\0".to_vec());
    assert_eq!(
        resolve_processes(&tree(vec![process]), &[3, 2]),
        vec![
            ProcessInfo { pid: 3, name: None, cmdline: None },
            ProcessInfo {
                pid: 2,
                name: Some("two".to_string()),
                cmdline: Some("two x".to_string()),
            },
        ]
    );
}
