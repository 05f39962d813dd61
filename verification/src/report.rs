//! What to tell the user, whom to stop, and how to exit.
//!
//! Every text comes with the line feeds it needs.

use vstd::prelude::*;

use crate::port_search::{law_matches_are_the_listeners, port_outcome, socket_match, table_sockets};
use crate::procinfo::{holder, inode_scan, law_finds_exactly_the_holders, ProcessInfoView};
use crate::proctree::{ProcEntryView, ProcTreeView};
use crate::signal::{
    law_signals_only_the_process, KillAction, KillAttemptView, KillEvent, KillOutcome,
    KillOutcomeView,
};
use crate::text::{decimal, law_decimals_differ, push_decimal};
use crate::{
    all_pids, distinct_pids, first_seen, law_first_seen, match_pids, PortMatch, PortMatchView,
    ProcessMatch, ScanOutcome, ScanOutcomeView,
};

verus! {

/// `n` spaces.
pub open spec fn spaces(n: int) -> Seq<char> {
    Seq::new(
        if n > 0 {
            n as nat
        } else {
            0
        },
        |i: int| ' ',
    )
}

/// `s`, filled up with spaces to `width` characters.
pub open spec fn padded(s: Seq<char>, width: int) -> Seq<char> {
    s + spaces(width - s.len())
}

/// `lines`, each with its line feed.
pub open spec fn lines_text(lines: Seq<Seq<char>>) -> Seq<char>
    decreases lines.len(),
{
    if lines.len() == 0 {
        Seq::empty()
    } else {
        lines_text(lines.drop_last()) + lines.last() + "\n"@
    }
}

/// The columns that every line on a socket begins with.
pub open spec fn socket_columns(found: PortMatchView) -> Seq<char> {
    padded(found.protocol, 5) + " "@ + padded(found.local_addr, 24)
}

/// The line on a socket whose owner was not found.
pub open spec fn unknown_line(found: PortMatchView) -> Seq<char> {
    socket_columns(found) + " owning process unknown"@
}

/// The line that explains why an owner may not have been found.
pub open spec fn denied_line() -> Seq<char> {
    "      (permission denied reading some /proc/<pid>/fd directories — the real owner may be one of those)"@
}

/// The line on a process that holds a socket.
pub open spec fn process_line(found: PortMatchView, process: ProcessInfoView) -> Seq<char> {
    socket_columns(found) + " pid "@ + padded(decimal(process.pid as nat), 8) + " "@ + (
    match process.name {
        Some(name) => name,
        None => "?"@,
    }) + (match process.cmdline {
        Some(cmdline) => "  "@ + cmdline,
        None => Seq::empty(),
    })
}

/// The lines on one socket.
pub open spec fn match_lines(found: PortMatchView, permission_denied: bool) -> Seq<Seq<char>> {
    if found.processes.len() > 0 {
        found.processes.map_values(|process: ProcessInfoView| process_line(found, process))
    } else if permission_denied {
        seq![unknown_line(found), denied_line()]
    } else {
        seq![unknown_line(found)]
    }
}

/// The lines on all sockets.
pub open spec fn all_match_lines(outcome: ScanOutcomeView) -> Seq<Seq<char>> {
    outcome.matches.flat_map(
        |found: PortMatchView| match_lines(found, outcome.permission_denied),
    )
}

/// Whether more than one socket or process matched.
pub open spec fn several(outcome: ScanOutcomeView) -> bool {
    outcome.matches.len() > 1 || first_seen(all_pids(outcome.matches)).len() > 1
}

/// The note for more than one socket or process.
pub open spec fn several_line(port: u16) -> Seq<char> {
    "note: more than one socket/process matched port "@ + decimal(port as nat)
        + " (SO_REUSEPORT or a forked listener) — all listed above"@
}

/// The lines of the report on what was found.
pub open spec fn report_lines(port: u16, outcome: ScanOutcomeView) -> Seq<Seq<char>> {
    if several(outcome) {
        all_match_lines(outcome).push(several_line(port))
    } else {
        all_match_lines(outcome)
    }
}

/// The name of the signal sent.
pub open spec fn signal_name(force: bool) -> Seq<char> {
    if force {
        "SIGKILL"@
    } else {
        "SIGTERM"@
    }
}

/// The line on how stopping a process went.
pub open spec fn kill_line(pid: u32, outcome: KillOutcomeView, force: bool) -> Seq<char> {
    let verb = signal_name(force);
    let number = decimal(pid as nat);
    match outcome {
        KillOutcomeView::ConfirmedDead => "sent "@ + verb + " to pid "@ + number
            + " — confirmed dead (no longer in /proc)"@,
        KillOutcomeView::SentButStillRunning => "sent "@ + verb + " to pid "@ + number
            + " — still running after 3s (try --force for SIGKILL)"@,
        KillOutcomeView::AlreadyGone => "pid "@ + number
            + " was already gone before the signal was sent"@,
        KillOutcomeView::PermissionDenied => "permission denied sending "@ + verb + " to pid "@
            + number + " (not our process, not root)"@,
        KillOutcomeView::Error(text) => "failed to signal pid "@ + number + ": "@ + text,
    }
}

/// Whether the process is gone, which is what was wanted.
pub open spec fn is_stopped(outcome: KillOutcomeView) -> bool {
    outcome is ConfirmedDead || outcome is AlreadyGone
}

/// The message that nothing listens on `port`.
pub open spec fn nothing_listening_line(port: u16) -> Seq<char> {
    "nothing is listening on port "@ + decimal(port as nat)
}

/// The message that there is no process to stop.
pub open spec fn no_target_line(port: u16, permission_denied: bool) -> Seq<char> {
    "cannot kill: no owning process could be determined for port "@ + decimal(port as nat) + (
    if permission_denied {
        " (permission denied reading some process directories)"@
    } else {
        Seq::empty()
    })
}

/// The text of one line more.
proof fn lemma_lines_text_push(lines: Seq<Seq<char>>, line: Seq<char>)
    ensures
        lines_text(lines.push(line)) == lines_text(lines) + line + "\n"@,
{
    assert(lines.push(line).drop_last() == lines);
}

/// Writes `s`, filled up with spaces to `width` characters, at the end of
/// `out`.
fn push_padded(out: &mut String, s: &str, width: usize)
    ensures
        final(out)@ == old(out)@ + padded(s@, width as int),
{
    out.append(s);
    let mut len: usize = s.unicode_len();
    let ghost start = out@;
    assert(start + spaces(0) == start);
    proof {
        reveal_strlit(" ");
    }
    let ghost from = len as int;
    while len < width
        invariant
            " "@ == seq![' '],
            from <= len,
            from <= width ==> len <= width,
            from > width ==> len == from,
            out@ == start + spaces(len - from),
        decreases width - len,
    {
        out.append(" ");
        len = len + 1;
        assert(spaces(len - 1 - from) + seq![' '] == spaces(len - from));
        assert(out@ == start + spaces(len - from));
    }
    assert(spaces(len - from) == spaces(width - from));
    assert(out@ == old(out)@ + padded(s@, width as int));
}

/// Writes the columns that every line on a socket begins with.
fn push_socket_columns(out: &mut String, found: &PortMatch)
    ensures
        final(out)@ == old(out)@ + socket_columns(found@),
{
    push_padded(out, found.protocol, 5);
    out.append(" ");
    push_padded(out, found.local_addr.as_str(), 24);
    assert(out@ == old(out)@ + socket_columns(found@));
}

/// Writes the line on a process that holds a socket.
fn push_process_line(out: &mut String, found: &PortMatch, process: &ProcessMatch)
    ensures
        final(out)@ == old(out)@ + process_line(found@, process@) + "\n"@,
{
    push_socket_columns(out, found);
    out.append(" pid ");
    let mut number = String::new();
    push_decimal(&mut number, process.pid as u64);
    assert(number@ == decimal(process.pid as nat));
    push_padded(out, number.as_str(), 8);
    out.append(" ");
    match &process.name {
        Some(name) => out.append(name.as_str()),
        None => out.append("?"),
    }
    if let Some(cmdline) = &process.cmdline {
        out.append("  ");
        out.append(cmdline.as_str());
    }
    out.append("\n");
    assert(out@ == old(out)@ + process_line(found@, process@) + "\n"@);
}

/// Writes the lines on one socket below `lines`.
fn push_match_lines(
    out: &mut String,
    found: &PortMatch,
    permission_denied: bool,
    Ghost(lines): Ghost<Seq<Seq<char>>>,
)
    requires
        old(out)@ == lines_text(lines),
    ensures
        final(out)@ == lines_text(lines + match_lines(found@, permission_denied)),
{
    let ghost here = match_lines(found@, permission_denied);
    if found.processes.len() == 0 {
        push_socket_columns(out, found);
        out.append(" owning process unknown");
        out.append("\n");
        proof {
            lemma_lines_text_push(lines, unknown_line(found@));
            assert(out@ == lines_text(lines.push(unknown_line(found@))));
        }
        if permission_denied {
            out.append(
                "      (permission denied reading some /proc/<pid>/fd directories — the real owner may be one of those)",
            );
            out.append("\n");
            proof {
                lemma_lines_text_push(lines.push(unknown_line(found@)), denied_line());
                assert(lines.push(unknown_line(found@)).push(denied_line()) == lines + here);
            }
        } else {
            assert(lines.push(unknown_line(found@)) == lines + here);
        }
    } else {
        assert(lines + here.take(0) == lines);
        for i in 0..found.processes.len()
            invariant
                here == match_lines(found@, permission_denied),
                found.processes@.len() > 0,
                here.len() == found.processes@.len(),
                out@ == lines_text(lines + here.take(i as int)),
        {
            assert(here[i as int] == process_line(found@, found.processes@[i as int]@));
            push_process_line(out, found, &found.processes[i]);
            proof {
                lemma_lines_text_push(lines + here.take(i as int), here[i as int]);
                assert(lines + here.take(i + 1) == (lines + here.take(i as int)).push(
                    here[i as int],
                ));
            }
        }
        assert(here.take(here.len() as int) == here);
    }
}

/// The report on what was found: a line for each process on each socket, and a
/// note where there is more than one.
pub fn text_report(port: u16, outcome: &ScanOutcome) -> (out: String)
    ensures
        out@ == lines_text(report_lines(port, outcome@)),
{
    let ghost matches = outcome@.matches;
    let ghost denied = outcome@.permission_denied;
    let ghost lines_of = |found: PortMatchView| match_lines(found, denied);
    let mut out = String::new();
    for i in 0..outcome.matches.len()
        invariant
            matches == outcome@.matches,
            denied == outcome@.permission_denied,
            lines_of == (|found: PortMatchView| match_lines(found, denied)),
            out@ == lines_text(matches.take(i as int).flat_map(lines_of)),
    {
        let ghost before = matches.take(i as int).flat_map(lines_of);
        assert(matches[i as int] == outcome.matches@[i as int]@);
        push_match_lines(&mut out, &outcome.matches[i], outcome.permission_denied, Ghost(before));
        proof {
            matches.lemma_flat_map_take_append(lines_of, i as int);
        }
    }
    assert(matches.take(matches.len() as int) == matches);
    assert(out@ == lines_text(all_match_lines(outcome@)));
    let pids = distinct_pids(outcome);
    if outcome.matches.len() > 1 || pids.len() > 1 {
        let ghost before = out@;
        out.append("note: more than one socket/process matched port ");
        push_decimal(&mut out, port as u64);
        out.append(" (SO_REUSEPORT or a forked listener) — all listed above");
        out.append("\n");
        proof {
            lemma_lines_text_push(all_match_lines(outcome@), several_line(port));
            assert(out@ == before + several_line(port) + "\n"@);
        }
    }
    out
}

/// The report on how stopping a process went, and whether it is gone.
pub fn kill_report(pid: u32, outcome: &KillOutcome, force: bool) -> (out: (String, bool))
    ensures
        out.0@ == kill_line(pid, outcome@, force) + "\n"@,
        out.1 == is_stopped(outcome@),
{
    let verb = if force {
        "SIGKILL"
    } else {
        "SIGTERM"
    };
    let mut line = String::new();
    let stopped = match outcome {
        KillOutcome::ConfirmedDead => {
            line.append("sent ");
            line.append(verb);
            line.append(" to pid ");
            push_decimal(&mut line, pid as u64);
            line.append(" — confirmed dead (no longer in /proc)");
            true
        },
        KillOutcome::SentButStillRunning => {
            line.append("sent ");
            line.append(verb);
            line.append(" to pid ");
            push_decimal(&mut line, pid as u64);
            line.append(" — still running after 3s (try --force for SIGKILL)");
            false
        },
        KillOutcome::AlreadyGone => {
            line.append("pid ");
            push_decimal(&mut line, pid as u64);
            line.append(" was already gone before the signal was sent");
            true
        },
        KillOutcome::PermissionDenied => {
            line.append("permission denied sending ");
            line.append(verb);
            line.append(" to pid ");
            push_decimal(&mut line, pid as u64);
            line.append(" (not our process, not root)");
            false
        },
        KillOutcome::Error(text) => {
            line.append("failed to signal pid ");
            push_decimal(&mut line, pid as u64);
            line.append(": ");
            line.append(text.as_str());
            false
        },
    };
    assert(line@ == kill_line(pid, outcome@, force));
    line.append("\n");
    (line, stopped)
}

/// The message that nothing listens on `port`.
pub fn nothing_listening(port: u16) -> (out: String)
    ensures
        out@ == nothing_listening_line(port) + "\n"@,
{
    let mut out = String::new();
    out.append("nothing is listening on port ");
    push_decimal(&mut out, port as u64);
    out.append("\n");
    assert(out@ == nothing_listening_line(port) + "\n"@);
    out
}

/// The message that there is no process to stop.
pub fn no_target(port: u16, permission_denied: bool) -> (out: String)
    ensures
        out@ == no_target_line(port, permission_denied) + "\n"@,
{
    let mut out = String::new();
    out.append("cannot kill: no owning process could be determined for port ");
    push_decimal(&mut out, port as u64);
    if permission_denied {
        out.append(" (permission denied reading some process directories)");
    }
    out.append("\n");
    assert(out@ == no_target_line(port, permission_denied) + "\n"@);
    out
}

/// What to do about what was found.
#[derive(Debug, Clone, PartialEq)]
pub enum Plan {
    /// Say that nothing listens on the port.
    NothingListening,
    /// Report what was found, and leave it at that.
    Report,
    /// Report what was found, and say that there is no process to stop.
    NoTarget,
    /// Report what was found, and stop these processes, in this order.
    Stop(Vec<u32>),
}

/// What a [`Plan`] says.
#[verifier::ext_equal]
pub enum PlanView {
    NothingListening,
    Report,
    NoTarget,
    Stop(Seq<u32>),
}

impl View for Plan {
    type V = PlanView;

    open spec fn view(&self) -> PlanView {
        match *self {
            Plan::NothingListening => PlanView::NothingListening,
            Plan::Report => PlanView::Report,
            Plan::NoTarget => PlanView::NoTarget,
            Plan::Stop(pids) => PlanView::Stop(pids@),
        }
    }
}

/// What to do about `outcome`, when asked to stop the owners or not.
pub open spec fn plan_for(outcome: ScanOutcomeView, kill: bool) -> PlanView {
    let pids = first_seen(all_pids(outcome.matches));
    if outcome.matches.len() == 0 {
        PlanView::NothingListening
    } else if !kill {
        PlanView::Report
    } else if pids.len() == 0 {
        PlanView::NoTarget
    } else {
        PlanView::Stop(pids)
    }
}

/// The exit code once `plan` is carried out, where `stopped` says of each
/// process that was to be stopped, in turn, whether it is gone.
pub open spec fn exit_code_of(plan: PlanView, stopped: Seq<bool>) -> i32 {
    match plan {
        PlanView::NothingListening => 1,
        PlanView::Report => 0,
        PlanView::NoTarget => 1,
        PlanView::Stop(pids) => if stopped.len() == pids.len() && forall|i: int|
            0 <= i < stopped.len() ==> stopped[i] {
            0
        } else {
            1
        },
    }
}

/// Decides what to do about what was found.
pub fn plan(outcome: &ScanOutcome, kill: bool) -> (out: Plan)
    ensures
        out@ == plan_for(outcome@, kill),
{
    if outcome.matches.len() == 0 {
        return Plan::NothingListening;
    }
    if !kill {
        return Plan::Report;
    }
    let pids = distinct_pids(outcome);
    if pids.len() == 0 {
        Plan::NoTarget
    } else {
        Plan::Stop(pids)
    }
}

/// The exit code once `plan` is carried out.
pub fn exit_code(plan: &Plan, stopped: &[bool]) -> (code: i32)
    ensures
        code == exit_code_of(plan@, stopped@),
{
    match plan {
        Plan::NothingListening => 1,
        Plan::Report => 0,
        Plan::NoTarget => 1,
        Plan::Stop(pids) => {
            let mut all: bool = stopped.len() == pids.len();
            for i in 0..stopped.len()
                invariant
                    all == (stopped@.len() == pids@.len() && forall|j: int|
                        0 <= j < i ==> stopped@[j]),
            {
                if !stopped[i] {
                    all = false;
                }
            }
            if all {
                0
            } else {
                1
            }
        },
    }
}

/// The exit code is 0 exactly if a listener was found and, where its owners
/// were to be stopped, there was one and every one of them is gone; otherwise
/// it is 1.
pub proof fn law_exit_code(outcome: ScanOutcomeView, kill: bool, stopped: Seq<bool>)
    ensures
        exit_code_of(plan_for(outcome, kill), stopped) == 0 <==> {
            &&& outcome.matches.len() > 0
            &&& kill ==> {
                &&& all_pids(outcome.matches).len() > 0
                &&& stopped.len() == first_seen(all_pids(outcome.matches)).len()
                &&& forall|i: int| 0 <= i < stopped.len() ==> stopped[i]
            }
        },
        exit_code_of(plan_for(outcome, kill), stopped) == 0 || exit_code_of(
            plan_for(outcome, kill),
            stopped,
        ) == 1,
{
    let pids = all_pids(outcome.matches);
    law_first_seen(pids);
    if pids.len() > 0 {
        assert(pids.contains(pids[0]));
        assert(first_seen(pids).contains(pids[0]));
    }
    if first_seen(pids).len() > 0 {
        assert(first_seen(pids).contains(first_seen(pids)[0]));
    }
}

/// Every process that holds a matched socket is to be stopped, once, and no
/// other process is.
pub proof fn law_stops_exactly_the_owners(outcome: ScanOutcomeView, pid: u32)
    ensures
        plan_for(outcome, true) matches PlanView::Stop(pids) ==> {
            &&& pids.no_duplicates()
            &&& pids.contains(pid) <==> exists|i: int, j: int|
                0 <= i < outcome.matches.len() && 0 <= j < outcome.matches[i].processes.len() && (
                #[trigger] outcome.matches[i].processes[j]).pid == pid
        },
        plan_for(outcome, false) matches PlanView::Stop(_) ==> false,
{
    law_first_seen(all_pids(outcome.matches));
    lemma_all_pids(outcome.matches, pid);
}

/// Whether process `pid` holds open a socket that listens on `port`, as far as
/// the tree shows.
pub open spec fn owns_listener(tree: ProcTreeView, port: u16, pid: u32) -> bool {
    tree.listable && exists|ipv6: bool, i: int, k: int|
        0 <= i < table_sockets(tree, port, ipv6).len() && 0 <= k < tree.entries.len() && holder(
            #[trigger] tree.entries[k],
            (#[trigger] table_sockets(tree, port, ipv6)[i]).inode,
        ) == Some(pid)
}

/// When asked to stop what listens on a port, every process is picked that
/// holds open a socket listening there, and no other process is.
pub proof fn law_stops_exactly_the_listeners(tree: ProcTreeView, port: u16, pid: u32)
    ensures
        (plan_for(port_outcome(tree, port), true) matches PlanView::Stop(pids) && pids.contains(pid))
            <==> owns_listener(tree, port, pid),
{
    let outcome = port_outcome(tree, port);
    let pids = first_seen(all_pids(outcome.matches));
    law_first_seen(all_pids(outcome.matches));
    lemma_all_pids(outcome.matches, pid);
    if pids.contains(pid) {
        let (m, p) = choose|m: int, p: int|
            0 <= m < outcome.matches.len() && 0 <= p < outcome.matches[m].processes.len() && (
            #[trigger] outcome.matches[m].processes[p]).pid == pid;
        let found = outcome.matches[m];
        assert(outcome.matches.contains(found));
        law_matches_are_the_listeners(tree, port, found);
        let (ipv6, i) = choose|ipv6: bool, i: int|
            0 <= i < table_sockets(tree, port, ipv6).len() && found == socket_match(
                tree,
                #[trigger] table_sockets(tree, port, ipv6)[i],
                ipv6,
            );
        let inode = table_sockets(tree, port, ipv6)[i].inode;
        assert(inode_scan(tree, inode).pids[p] == pid);
        assert(tree.listable) by {
            assert(tree.entries.take(0) == Seq::<ProcEntryView>::empty());
        }
        law_finds_exactly_the_holders(tree, inode, pid);
        let k = choose|k: int|
            0 <= k < tree.entries.len() && holder(#[trigger] tree.entries[k], inode) == Some(pid);
        assert(holder(tree.entries[k], table_sockets(tree, port, ipv6)[i].inode) == Some(pid));
    }
    if owns_listener(tree, port, pid) {
        let (ipv6, i, k) = choose|ipv6: bool, i: int, k: int|
            0 <= i < table_sockets(tree, port, ipv6).len() && 0 <= k < tree.entries.len() && holder(
                #[trigger] tree.entries[k],
                (#[trigger] table_sockets(tree, port, ipv6)[i]).inode,
            ) == Some(pid);
        let socket = table_sockets(tree, port, ipv6)[i];
        law_finds_exactly_the_holders(tree, socket.inode, pid);
        let scanned = inode_scan(tree, socket.inode).pids;
        let p = choose|p: int| 0 <= p < scanned.len() && scanned[p] == pid;
        let found = socket_match(tree, socket, ipv6);
        law_matches_are_the_listeners(tree, port, found);
        let m = choose|m: int| 0 <= m < outcome.matches.len() && outcome.matches[m] == found;
        assert(outcome.matches[m].processes[p].pid == pid);
        assert(pids.contains(pid));
    }
}

/// Whatever happens while the processes picked are being stopped, every signal
/// goes to a process that holds open a socket listening on the port.
pub proof fn law_signals_only_listeners(
    tree: ProcTreeView,
    port: u16,
    force: bool,
    k: int,
    events: Seq<KillEvent>,
)
    ensures
        plan_for(port_outcome(tree, port), true) matches PlanView::Stop(pids) ==> 0 <= k < pids.len()
            ==> (KillAttemptView::start(pids[k], force).run(events).action() matches KillAction::Send {
            target,
            ..
        } ==> target > 0 && owns_listener(tree, port, target as u32)),
{
    if let PlanView::Stop(pids) = plan_for(port_outcome(tree, port), true) {
        if 0 <= k < pids.len() {
            assert(pids.contains(pids[k]));
            law_stops_exactly_the_listeners(tree, port, pids[k]);
            law_signals_only_the_process(pids[k], force, events);
        }
    }
}

/// The PIDs of all matches are those of each of them.
proof fn lemma_all_pids(matches: Seq<PortMatchView>, pid: u32)
    ensures
        all_pids(matches).contains(pid) <==> exists|i: int, j: int|
            0 <= i < matches.len() && 0 <= j < matches[i].processes.len() && (
            #[trigger] matches[i].processes[j]).pid == pid,
    decreases matches.len(),
{
    let f = |found: PortMatchView| match_pids(found);
    if matches.len() > 0 {
        let init = matches.drop_last();
        let n = init.len() as int;
        let last = match_pids(matches.last());
        lemma_all_pids(init, pid);
        matches.lemma_flat_map_take_append(f, n);
        assert(matches.take(n) == init);
        assert(matches.take(n + 1) == matches);
        assert(all_pids(matches) == all_pids(init) + last);
        let whole = all_pids(matches);
        if whole.contains(pid) {
            let k = choose|k: int| 0 <= k < whole.len() && whole[k] == pid;
            if k < all_pids(init).len() {
                assert(all_pids(init)[k] == pid);
                assert(all_pids(init).contains(pid));
                let (i, j) = choose|i: int, j: int|
                    0 <= i < init.len() && 0 <= j < init[i].processes.len() && (
                    #[trigger] init[i].processes[j]).pid == pid;
                assert(matches[i].processes[j].pid == pid);
            } else {
                let j = k - all_pids(init).len();
                assert(last[j] == pid);
                assert(matches[n].processes[j].pid == pid);
            }
        }
        if exists|i: int, j: int|
            0 <= i < matches.len() && 0 <= j < matches[i].processes.len() && (
            #[trigger] matches[i].processes[j]).pid == pid {
            let (i, j) = choose|i: int, j: int|
                0 <= i < matches.len() && 0 <= j < matches[i].processes.len() && (
                #[trigger] matches[i].processes[j]).pid == pid;
            if i < n {
                assert(init[i].processes[j].pid == pid);
                assert(all_pids(init).contains(pid));
                let k = choose|k: int| 0 <= k < all_pids(init).len() && all_pids(init)[k] == pid;
                assert(whole[k] == pid);
            } else {
                assert(last[j] == pid);
                assert(whole[all_pids(init).len() + j] == pid);
            }
        }
    }
}

/// Every process on every socket has its line in the report, and so does every
/// socket without a known owner.
pub proof fn law_report_lists_everything(port: u16, outcome: ScanOutcomeView, i: int, j: int)
    requires
        0 <= i < outcome.matches.len(),
    ensures
        0 <= j < outcome.matches[i].processes.len() ==> report_lines(port, outcome).contains(
            process_line(outcome.matches[i], outcome.matches[i].processes[j]),
        ),
        outcome.matches[i].processes.len() == 0 ==> report_lines(port, outcome).contains(
            unknown_line(outcome.matches[i]),
        ),
        outcome.matches[i].processes.len() == 0 && outcome.permission_denied ==> report_lines(
            port,
            outcome,
        ).contains(denied_line()),
{
    let denied = outcome.permission_denied;
    let f = |found: PortMatchView| match_lines(found, denied);
    let found = outcome.matches[i];
    let here = match_lines(found, denied);
    assert forall|k: int| 0 <= k < here.len() implies report_lines(port, outcome).contains(
        #[trigger] here[k],
    ) by {
        lemma_flat_map_holds(outcome.matches, f, i, k);
        let all = all_match_lines(outcome);
        let at = choose|at: int| 0 <= at < all.len() && all[at] == here[k];
        assert(report_lines(port, outcome)[at] == here[k]);
    }
    if 0 <= j < found.processes.len() {
        assert(here[j] == process_line(found, found.processes[j]));
    }
    if found.processes.len() == 0 {
        assert(here[0] == unknown_line(found));
        if denied {
            assert(here[1] == denied_line());
        }
    }
}

/// What one element gives is among what all give.
proof fn lemma_flat_map_holds<A, B>(s: Seq<A>, f: spec_fn(A) -> Seq<B>, i: int, k: int)
    requires
        0 <= i < s.len(),
        0 <= k < f(s[i]).len(),
    ensures
        s.flat_map(f).contains(f(s[i])[k]),
    decreases s.len(),
{
    let n = s.len() - 1;
    let init = s.drop_last();
    s.lemma_flat_map_take_append(f, n);
    assert(s.take(n) == init);
    assert(s.take(n + 1) == s);
    let whole = s.flat_map(f);
    assert(whole == init.flat_map(f) + f(s[n]));
    if i < n {
        lemma_flat_map_holds(init, f, i, k);
        let at = choose|at: int|
            0 <= at < init.flat_map(f).len() && init.flat_map(f)[at] == f(s[i])[k];
        assert(whole[at] == f(s[i])[k]);
    } else {
        assert(whole[init.flat_map(f).len() + k] == f(s[i])[k]);
    }
}

/// A text is filled up with spaces to its width, and is never cut.
pub proof fn law_padding_is_spaces(s: Seq<char>, width: int)
    ensures
        padded(s, width).len() == if s.len() >= width {
            s.len() as int
        } else {
            width
        },
        padded(s, width).take(s.len() as int) == s,
        forall|i: int| s.len() <= i < padded(s, width).len() ==> padded(s, width)[i] == ' ',
{
    assert(padded(s, width).take(s.len() as int) == s);
}

/// A text is its lines, each with a line feed at its end.
pub proof fn law_each_line_has_its_line_feed(lines: Seq<Seq<char>>, line: Seq<char>)
    ensures
        lines_text(Seq::empty()).len() == 0,
        lines_text(lines.push(line)) == lines_text(lines) + line.push('\n'),
{
    reveal_strlit("\n");
    lemma_lines_text_push(lines, line);
    assert(lines_text(lines) + line + "\n"@ == lines_text(lines) + line.push('\n'));
}

/// The lines on a socket are one for each process that holds it, in order:
/// protocol, address, that process's own PID, its name or a question mark, and
/// its command line where it has one.
pub proof fn law_line_of_a_process(found: PortMatchView, permission_denied: bool, j: int)
    requires
        0 <= j < found.processes.len(),
    ensures
        match_lines(found, permission_denied).len() == found.processes.len(),
        match_lines(found, permission_denied)[j] == padded(found.protocol, 5) + " "@ + padded(
            found.local_addr,
            24,
        ) + " pid "@ + padded(decimal(found.processes[j].pid as nat), 8) + " "@ + (
        match found.processes[j].name {
            Some(name) => name,
            None => "?"@,
        }) + (match found.processes[j].cmdline {
            Some(cmdline) => "  "@ + cmdline,
            None => Seq::empty(),
        }),
{
}

/// The lines on a socket without a known owner say so, and why that may be
/// where something was withheld.
pub proof fn law_lines_without_a_process(found: PortMatchView, permission_denied: bool)
    requires
        found.processes.len() == 0,
    ensures
        match_lines(found, permission_denied).len() == if permission_denied {
            2int
        } else {
            1
        },
        match_lines(found, permission_denied)[0] == padded(found.protocol, 5) + " "@ + padded(
            found.local_addr,
            24,
        ) + " owning process unknown"@,
        permission_denied ==> match_lines(found, permission_denied)[1]
            == "      (permission denied reading some /proc/<pid>/fd directories — the real owner may be one of those)"@,
{
}

/// A number that is followed by a space is told by what stands before it.
proof fn lemma_number_before_space(m: nat, n: nat, x: Seq<char>, y: Seq<char>)
    requires
        decimal(m) + x == decimal(n) + y,
        x.len() > 0,
        x[0] == ' ',
        y.len() > 0,
        y[0] == ' ',
    ensures
        m == n,
{
    let a = decimal(m);
    let b = decimal(n);
    lemma_decimal_has_no_space(m);
    lemma_decimal_has_no_space(n);
    if a.len() < b.len() {
        assert((a + x)[a.len() as int] == ' ');
        assert((b + y)[a.len() as int] == b[a.len() as int]);
    } else if b.len() < a.len() {
        assert((b + y)[b.len() as int] == ' ');
        assert((a + x)[b.len() as int] == a[b.len() as int]);
    } else {
        assert(a == (a + x).take(a.len() as int));
        assert(b == (b + y).take(a.len() as int));
        law_decimals_differ(m, n);
    }
}

/// No number is written with a space.
proof fn lemma_decimal_has_no_space(n: nat)
    ensures
        forall|i: int| 0 <= i < decimal(n).len() ==> decimal(n)[i] != ' ',
    decreases n,
{
    if n >= 10 {
        lemma_decimal_has_no_space(n / 10);
        let before = decimal(n / 10);
        assert forall|i: int| 0 <= i < decimal(n).len() implies decimal(n)[i] != ' ' by {
            if i < before.len() {
                assert(decimal(n)[i] == before[i]);
            }
        }
    }
}

/// Two processes of one match with different PIDs never have the same line.
pub proof fn law_lines_tell_processes_apart(
    found: PortMatchView,
    permission_denied: bool,
    i: int,
    j: int,
)
    requires
        0 <= i < found.processes.len(),
        0 <= j < found.processes.len(),
        found.processes[i].pid != found.processes[j].pid,
    ensures
        match_lines(found, permission_denied)[i] != match_lines(found, permission_denied)[j],
{
    reveal_strlit(" ");
    let head = socket_columns(found) + " pid "@;
    let m = found.processes[i].pid as nat;
    let n = found.processes[j].pid as nat;
    let x = lemma_line_after_pid(found, found.processes[i]);
    let y = lemma_line_after_pid(found, found.processes[j]);
    if match_lines(found, permission_denied)[i] == match_lines(found, permission_denied)[j] {
        let one = head + (decimal(m) + x);
        let other = head + (decimal(n) + y);
        assert(one == other);
        assert(one.skip(head.len() as int) == decimal(m) + x);
        assert(other.skip(head.len() as int) == decimal(n) + y);
        lemma_number_before_space(m, n, x, y);
    }
}

/// After the PID in a process's line there comes a space.
proof fn lemma_line_after_pid(found: PortMatchView, process: ProcessInfoView) -> (rest: Seq<char>)
    ensures
        process_line(found, process) == socket_columns(found) + " pid "@ + (decimal(
            process.pid as nat,
        ) + rest),
        rest.len() > 0,
        rest[0] == ' ',
{
    reveal_strlit(" ");
    let number = decimal(process.pid as nat);
    let line = process_line(found, process);
    let head = socket_columns(found) + " pid "@;
    let rest = line.skip((head.len() + number.len()) as int);
    assert(line == head + (number + rest));
    rest
}

/// The report has the lines of each match, in order, one match after the
/// other.
pub proof fn law_each_match_adds_its_lines(
    outcome: ScanOutcomeView,
    more: ScanOutcomeView,
    found: PortMatchView,
)
    requires
        more.matches == outcome.matches.push(found),
        more.permission_denied == outcome.permission_denied,
    ensures
        all_match_lines(more) == all_match_lines(outcome) + match_lines(
            found,
            outcome.permission_denied,
        ),
{
    let denied = outcome.permission_denied;
    let f = |one: PortMatchView| match_lines(one, denied);
    let n = outcome.matches.len() as int;
    more.matches.lemma_flat_map_take_append(f, n);
    assert(more.matches.take(n) == outcome.matches);
    assert(more.matches.take(n + 1) == more.matches);
}

/// Where nothing was found there is nothing to report.
pub proof fn law_nothing_found_no_lines(outcome: ScanOutcomeView)
    requires
        outcome.matches.len() == 0,
    ensures
        all_match_lines(outcome).len() == 0,
{
    let denied = outcome.permission_denied;
    let f = |one: PortMatchView| match_lines(one, denied);
    assert(outcome.matches == Seq::<PortMatchView>::empty());
    assert(outcome.matches.flat_map(f).len() == 0);
}

/// The report ends with a note, which names the port, exactly where there are
/// two sockets or two different processes; otherwise it is the lines of the
/// matches alone.
pub proof fn law_note_where_there_are_several(port: u16, outcome: ScanOutcomeView)
    ensures
        ({
            let pids = all_pids(outcome.matches);
            let several = outcome.matches.len() > 1 || exists|i: int, j: int|
                0 <= i < pids.len() && 0 <= j < pids.len() && #[trigger] pids[i] != #[trigger] pids[j];
            &&& several ==> report_lines(port, outcome) == all_match_lines(outcome).push(
                "note: more than one socket/process matched port "@ + decimal(port as nat)
                    + " (SO_REUSEPORT or a forked listener) — all listed above"@,
            )
            &&& !several ==> report_lines(port, outcome) == all_match_lines(outcome)
        }),
{
    let pids = all_pids(outcome.matches);
    let kept = first_seen(pids);
    law_first_seen(pids);
    if kept.len() > 1 {
        assert(kept.contains(kept[0]) && kept.contains(kept[1]));
        assert(pids.contains(kept[0]) && pids.contains(kept[1]));
        let i = choose|i: int| 0 <= i < pids.len() && pids[i] == kept[0];
        let j = choose|j: int| 0 <= j < pids.len() && pids[j] == kept[1];
        assert(pids[i] != pids[j]);
    }
    if exists|i: int, j: int|
        0 <= i < pids.len() && 0 <= j < pids.len() && #[trigger] pids[i] != #[trigger] pids[j] {
        let (i, j) = choose|i: int, j: int|
            0 <= i < pids.len() && 0 <= j < pids.len() && #[trigger] pids[i] != #[trigger] pids[j];
        assert(pids.contains(pids[i]) && pids.contains(pids[j]));
        assert(kept.contains(pids[i]) && kept.contains(pids[j]));
        let a = choose|a: int| 0 <= a < kept.len() && kept[a] == pids[i];
        let b = choose|b: int| 0 <= b < kept.len() && kept[b] == pids[j];
        assert(a != b);
    }
}

/// Each outcome is told in its own words, with the signal that was sent and
/// the PID.
pub proof fn law_outcomes_are_told(pid: u32, force: bool, text: Seq<char>)
    ensures
        ({
            let signal = if force {
                "SIGKILL"@
            } else {
                "SIGTERM"@
            };
            let number = decimal(pid as nat);
            &&& kill_line(pid, KillOutcomeView::ConfirmedDead, force) == "sent "@ + signal
                + " to pid "@ + number + " — confirmed dead (no longer in /proc)"@
            &&& kill_line(pid, KillOutcomeView::SentButStillRunning, force) == "sent "@ + signal
                + " to pid "@ + number + " — still running after 3s (try --force for SIGKILL)"@
            &&& kill_line(pid, KillOutcomeView::AlreadyGone, force) == "pid "@ + number
                + " was already gone before the signal was sent"@
            &&& kill_line(pid, KillOutcomeView::PermissionDenied, force)
                == "permission denied sending "@ + signal + " to pid "@ + number
                + " (not our process, not root)"@
            &&& kill_line(pid, KillOutcomeView::Error(text), force) == "failed to signal pid "@
                + number + ": "@ + text
        }),
{
}

/// A process counts as stopped exactly where it is confirmed dead or was gone
/// already.
pub proof fn law_stopped_is_gone(text: Seq<char>)
    ensures
        is_stopped(KillOutcomeView::ConfirmedDead),
        is_stopped(KillOutcomeView::AlreadyGone),
        !is_stopped(KillOutcomeView::SentButStillRunning),
        !is_stopped(KillOutcomeView::PermissionDenied),
        !is_stopped(KillOutcomeView::Error(text)),
{
}

/// The messages name the port, and say what was withheld where it matters.
pub proof fn law_messages_name_the_port(port: u16)
    ensures
        nothing_listening_line(port) == "nothing is listening on port "@ + decimal(port as nat),
        no_target_line(port, false)
            == "cannot kill: no owning process could be determined for port "@ + decimal(
            port as nat,
        ),
        no_target_line(port, true)
            == "cannot kill: no owning process could be determined for port "@ + decimal(
            port as nat,
        ) + " (permission denied reading some process directories)"@,
{
    assert(no_target_line(port, false)
        == "cannot kill: no owning process could be determined for port "@ + decimal(port as nat));
}

/// Whether there is anything to report, and whom to stop, is settled by what
/// was found and by whether stopping was asked for.
pub proof fn law_plan_follows_what_was_found(outcome: ScanOutcomeView, kill: bool)
    ensures
        outcome.matches.len() == 0 ==> plan_for(outcome, kill) is NothingListening,
        outcome.matches.len() > 0 && !kill ==> plan_for(outcome, kill) is Report,
        outcome.matches.len() > 0 && kill && all_pids(outcome.matches).len() == 0 ==> plan_for(
            outcome,
            kill,
        ) is NoTarget,
        outcome.matches.len() > 0 && kill && all_pids(outcome.matches).len() > 0 ==> plan_for(
            outcome,
            kill,
        ) == PlanView::Stop(first_seen(all_pids(outcome.matches))),
{
    let pids = all_pids(outcome.matches);
    law_first_seen(pids);
    if pids.len() > 0 {
        assert(pids.contains(pids[0]));
        assert(first_seen(pids).contains(pids[0]));
    }
    if first_seen(pids).len() > 0 {
        assert(first_seen(pids).contains(first_seen(pids)[0]));
    }
}

/// A plan is seen as it is.
pub proof fn law_plans_are_seen_whole(plan: Plan)
    ensures
        plan is NothingListening ==> plan@ is NothingListening,
        plan is Report ==> plan@ is Report,
        plan is NoTarget ==> plan@ is NoTarget,
        plan matches Plan::Stop(pids) ==> plan@ == PlanView::Stop(pids@),
{
}

} // verus!
