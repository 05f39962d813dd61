//! Finds whatever processes listen on a TCP port, and decides how to report
//! and stop them.
//!
//! The crate does no input or output. A search asks for what it needs to know
//! and is given the answers (see [`proctree`]); reports come out as text; and
//! stopping a process is a sequence of actions for the caller to perform (see
//! [`signal`]).

pub mod inode_search;
pub mod port_search;
pub mod procinfo;
pub mod proctcp;
pub mod proctree;
pub mod report;
pub mod signal;
pub mod text;

use std::collections::HashSet;

use vstd::prelude::*;
use vstd::std_specs::convert::FromSpec;

use crate::inode_search::{countable, lemma_countable};
use crate::port_search::{lemma_start_agrees, law_port_search_step, port_outcome, PortSearch};
use crate::procinfo::{ProcessInfo, ProcessInfoView};
use crate::proctree::{copy_text, text_view, ProcTree};

verus! {

/// A process that holds a matched socket open.
#[derive(Debug, Clone)]
pub struct ProcessMatch {
    pub pid: u32,
    pub name: Option<String>,
    pub cmdline: Option<String>,
}

impl View for ProcessMatch {
    type V = ProcessInfoView;

    open spec fn view(&self) -> ProcessInfoView {
        ProcessInfoView {
            pid: self.pid,
            name: text_view(self.name),
            cmdline: text_view(self.cmdline),
        }
    }
}

impl From<&ProcessInfo> for ProcessMatch {
    fn from(p: &ProcessInfo) -> (out: Self) {
        ProcessMatch { pid: p.pid, name: copy_text(&p.name), cmdline: copy_text(&p.cmdline) }
    }
}

impl vstd::std_specs::convert::FromSpecImpl<&ProcessInfo> for ProcessMatch {
    open spec fn obeys_from_spec() -> bool {
        true
    }

    open spec fn from_spec(p: &ProcessInfo) -> Self {
        ProcessMatch { pid: p.pid, name: p.name, cmdline: p.cmdline }
    }
}

/// One `LISTEN` socket bound to the port that was asked about, plus whatever
/// process(es), usually exactly one, hold it open.
#[derive(Debug, Clone)]
pub struct PortMatch {
    /// `"tcp"` or `"tcp6"`.
    pub protocol: &'static str,
    pub local_addr: String,
    pub inode: u64,
    /// Normally one entry. Empty means a socket genuinely exists on this port
    /// but no owning process could be found among the PIDs that could be read
    /// (see `permission_denied` on the containing `ScanOutcome`). More than
    /// one is real: a forked listener whose children all inherited the same
    /// fd.
    pub processes: Vec<ProcessMatch>,
}

/// What a [`PortMatch`] says.
#[verifier::ext_equal]
pub struct PortMatchView {
    pub protocol: Seq<char>,
    pub local_addr: Seq<char>,
    pub inode: u64,
    pub processes: Seq<ProcessInfoView>,
}

/// What the processes of a list say.
pub open spec fn process_views(processes: Seq<ProcessMatch>) -> Seq<ProcessInfoView> {
    processes.map_values(|process: ProcessMatch| process@)
}

impl View for PortMatch {
    type V = PortMatchView;

    open spec fn view(&self) -> PortMatchView {
        PortMatchView {
            protocol: self.protocol@,
            local_addr: self.local_addr@,
            inode: self.inode,
            processes: process_views(self.processes@),
        }
    }
}

/// What was found on a port.
#[derive(Debug, Clone)]
pub struct ScanOutcome {
    pub matches: Vec<PortMatch>,
    /// True if something under `/proc/*/fd` belongs to another user and could
    /// not be read, so that the true owner of a socket with zero resolved
    /// processes might just be a process we couldn't see into.
    pub permission_denied: bool,
}

/// What a [`ScanOutcome`] says.
#[verifier::ext_equal]
pub struct ScanOutcomeView {
    pub matches: Seq<PortMatchView>,
    pub permission_denied: bool,
}

/// What the matches of a list say.
pub open spec fn match_views(matches: Seq<PortMatch>) -> Seq<PortMatchView> {
    matches.map_values(|found: PortMatch| found@)
}

impl View for ScanOutcome {
    type V = ScanOutcomeView;

    open spec fn view(&self) -> ScanOutcomeView {
        ScanOutcomeView {
            matches: match_views(self.matches@),
            permission_denied: self.permission_denied,
        }
    }
}

/// The PIDs of a match, in order.
pub open spec fn match_pids(found: PortMatchView) -> Seq<u32> {
    found.processes.map_values(|process: ProcessInfoView| process.pid)
}

/// The PIDs of all matches, in order.
pub open spec fn all_pids(matches: Seq<PortMatchView>) -> Seq<u32> {
    matches.flat_map(|found: PortMatchView| match_pids(found))
}

/// `s` with every value kept only where it occurs first.
pub open spec fn first_seen(s: Seq<u32>) -> Seq<u32>
    decreases s.len(),
{
    if s.len() == 0 {
        s
    } else if s.drop_last().contains(s.last()) {
        first_seen(s.drop_last())
    } else {
        first_seen(s.drop_last()).push(s.last())
    }
}

/// Keeping first occurrences keeps exactly the values there are, each once.
pub proof fn law_first_seen(s: Seq<u32>)
    ensures
        first_seen(s).no_duplicates(),
        forall|pid: u32| first_seen(s).contains(pid) <==> s.contains(pid),
    decreases s.len(),
{
    if s.len() > 0 {
        let init = s.drop_last();
        law_first_seen(init);
        assert(init.push(s.last()) == s);
        assert forall|pid: u32| first_seen(s).contains(pid) <==> s.contains(pid) by {
            if s.contains(pid) {
                let k = choose|k: int| 0 <= k < s.len() && s[k] == pid;
                if k < init.len() {
                    assert(init[k] == pid);
                    assert(init.contains(pid));
                }
                assert(first_seen(init).contains(pid) || pid == s.last());
            }
            if init.contains(pid) {
                let k = choose|k: int| 0 <= k < init.len() && init[k] == pid;
                assert(s[k] == pid);
            }
            assert(s[s.len() - 1] == s.last());
            if !init.contains(s.last()) {
                let kept = first_seen(init);
                if first_seen(s).contains(pid) {
                    let k = choose|k: int| 0 <= k < first_seen(s).len() && first_seen(s)[k] == pid;
                    if k < kept.len() {
                        assert(kept[k] == pid);
                        assert(kept.contains(pid));
                    }
                }
                if kept.contains(pid) {
                    let k = choose|k: int| 0 <= k < kept.len() && kept[k] == pid;
                    assert(first_seen(s)[k] == pid);
                }
                assert(first_seen(s)[kept.len() as int] == s.last());
            }
        }
    }
}

/// First occurrences are kept in the order in which they occur.
pub proof fn law_first_seen_order(s: Seq<u32>, i: int, j: int)
    requires
        0 <= i < j < first_seen(s).len(),
    ensures
        s.index_of_first(first_seen(s)[i]) matches Some(at_i) && s.index_of_first(first_seen(s)[j])
            matches Some(at_j) && at_i < at_j,
    decreases s.len(),
{
    let init = s.drop_last();
    let kept = first_seen(init);
    law_first_seen(s);
    law_first_seen(init);
    let x = first_seen(s)[i];
    let y = first_seen(s)[j];
    assert(first_seen(s).contains(x) && first_seen(s).contains(y));
    s.index_of_first_ensures(x);
    s.index_of_first_ensures(y);
    init.index_of_first_ensures(x);
    init.index_of_first_ensures(y);
    let at_x = s.index_of_first(x)->0;
    let at_y = s.index_of_first(y)->0;
    assert(kept[i] == x);
    assert(kept.contains(x));
    let in_x = init.index_of_first(x)->0;
    assert(s[in_x] == x);
    assert(at_x == in_x) by {
        if at_x < in_x {
            assert(init[at_x] == x);
        }
    }
    if j < kept.len() {
        law_first_seen_order(init, i, j);
        assert(kept.contains(y));
        let in_y = init.index_of_first(y)->0;
        assert(s[in_y] == y);
        assert(at_y == in_y) by {
            if at_y < in_y {
                assert(init[at_y] == y);
            }
        }
    } else {
        assert(y == s.last());
        if at_y < init.len() {
            assert(init[at_y] == y);
        }
    }
}

/// Every distinct PID across every match's process list, in first-seen order:
/// what `--kill` targets. The same PID can legitimately show up more than once
/// (e.g. one process holding both the `tcp` and `tcp6` listen sockets for a
/// dual-stack bind).
pub fn distinct_pids(outcome: &ScanOutcome) -> (out: Vec<u32>)
    ensures
        out@ == first_seen(all_pids(outcome@.matches)),
{
    broadcast use vstd::std_specs::hash::group_hash_axioms;

    let ghost matches = outcome@.matches;
    let ghost pids_of = |found: PortMatchView| match_pids(found);
    let mut seen: HashSet<u32> = HashSet::new();
    let mut pids: Vec<u32> = Vec::new();
    assert(seen@ == Seq::<u32>::empty().to_set());
    for i in 0..outcome.matches.len()
        invariant
            matches == outcome@.matches,
            pids_of == (|found: PortMatchView| match_pids(found)),
            seen@ == all_pids(matches.take(i as int)).to_set(),
            pids@ == first_seen(all_pids(matches.take(i as int))),
    {
        let processes = &outcome.matches[i].processes;
        let ghost before = all_pids(matches.take(i as int));
        let ghost here = match_pids(matches[i as int]);
        assert(here.len() == processes@.len());
        assert(before + here.take(0) == before);
        for j in 0..processes.len()
            invariant
                here.len() == processes@.len(),
                forall|k: int| 0 <= k < here.len() ==> here[k] == (#[trigger] processes@[k]).pid,
                seen@ == (before + here.take(j as int)).to_set(),
                pids@ == first_seen(before + here.take(j as int)),
        {
            let pid = processes[j].pid;
            let ghost read = before + here.take(j as int);
            proof {
                assert(before + here.take(j + 1) == read.push(pid));
                assert(read.push(pid).drop_last() == read);
                assert(read.push(pid).to_set() == read.to_set().insert(pid)) by {
                    lemma_set_of_push(read, pid);
                }
                assert(read.to_set().contains(pid) == read.contains(pid));
            }
            if seen.insert(pid) {
                pids.push(pid);
            }
        }
        proof {
            assert(here.take(here.len() as int) == here);
            matches.lemma_flat_map_take_append(pids_of, i as int);
        }
    }
    assert(matches.take(matches.len() as int) == matches);
    pids
}

/// Adding a value to a list adds it to the set of its values.
proof fn lemma_set_of_push(s: Seq<u32>, x: u32)
    ensures
        s.push(x).to_set() == s.to_set().insert(x),
{
    assert forall|y: u32| s.push(x).to_set().contains(y) == s.to_set().insert(x).contains(y) by {
        if s.contains(y) {
            let k = choose|k: int| 0 <= k < s.len() && s[k] == y;
            assert(s.push(x)[k] == y);
        }
        assert(s.push(x)[s.len() as int] == x);
        if s.push(x).contains(y) && y != x {
            let k = choose|k: int| 0 <= k < s.push(x).len() && s.push(x)[k] == y;
            assert(s[k] == y);
        }
    }
}

/// The full pipeline for one port: read `net/tcp` and `net/tcp6` in `tree`,
/// keep only `LISTEN` rows bound to `port`, and resolve each to its owning
/// process(es) by inode.
pub fn find_port(tree: &ProcTree, port: u16) -> (outcome: ScanOutcome)
    ensures
        outcome@ == port_outcome(tree@, port),
{
    let mut search = PortSearch::new(port);
    proof {
        lemma_countable(tree);
        lemma_start_agrees(tree@, port);
    }
    while !search.is_done()
        invariant
            countable(tree@),
            tree@.entries.len() <= usize::MAX,
            search.well_formed(),
            search@.port == port,
            search@.agrees(tree@),
        decreases search@.sockets_left(tree@), search@.work_left(tree@).0, search@.work_left(tree@).1,
    {
        proof {
            search.lemma_view_well_formed();
            law_port_search_step(search@, tree@);
        }
        let answer = tree.answer(search.request());
        search.answer(answer);
    }
    search.into_outcome()
}

/// What was found is seen whole: each match and each of its processes as it
/// is, in order.
pub proof fn law_outcome_is_seen_whole(outcome: ScanOutcome, i: int, j: int)
    requires
        0 <= i < outcome.matches@.len(),
    ensures
        outcome@.permission_denied == outcome.permission_denied,
        outcome@.matches.len() == outcome.matches@.len(),
        outcome@.matches[i].protocol == outcome.matches@[i].protocol@,
        outcome@.matches[i].local_addr == outcome.matches@[i].local_addr@,
        outcome@.matches[i].inode == outcome.matches@[i].inode,
        outcome@.matches[i].processes.len() == outcome.matches@[i].processes@.len(),
        0 <= j < outcome.matches@[i].processes@.len() ==> {
            let seen = outcome@.matches[i].processes[j];
            let process = outcome.matches@[i].processes@[j];
            &&& seen.pid == process.pid
            &&& seen.name == match process.name {
                Some(text) => Some(text@),
                None => None,
            }
            &&& seen.cmdline == match process.cmdline {
                Some(text) => Some(text@),
                None => None,
            }
        },
{
}

/// Where nothing was found, nothing is seen, but for the flag.
pub proof fn law_empty_outcome_is_seen_empty(outcome: ScanOutcome)
    requires
        outcome.matches@.len() == 0,
    ensures
        outcome@.matches.len() == 0,
        outcome@.permission_denied == outcome.permission_denied,
{
}

/// A match says of a process what is known of it.
pub proof fn law_match_says_what_is_known(info: ProcessInfo)
    ensures
        <ProcessMatch as FromSpec<&ProcessInfo>>::obeys_from_spec(),
        <ProcessMatch as FromSpec<&ProcessInfo>>::from_spec(&info).pid == info.pid,
        <ProcessMatch as FromSpec<&ProcessInfo>>::from_spec(&info).name == info.name,
        <ProcessMatch as FromSpec<&ProcessInfo>>::from_spec(&info).cmdline == info.cmdline,
{
}

/// The PIDs of all matches are those of each match, in order, one after the
/// other.
pub proof fn law_each_match_adds_its_pids(
    matches: Seq<PortMatchView>,
    found: PortMatchView,
    pids: Seq<u32>,
)
    requires
        pids.len() == found.processes.len(),
        forall|j: int| 0 <= j < pids.len() ==> #[trigger] pids[j] == found.processes[j].pid,
    ensures
        all_pids(Seq::empty()).len() == 0,
        all_pids(matches.push(found)) == all_pids(matches) + pids,
{
    let f = |one: PortMatchView| match_pids(one);
    let more = matches.push(found);
    let n = matches.len() as int;
    more.lemma_flat_map_take_append(f, n);
    assert(more.take(n) == matches);
    assert(more.take(n + 1) == more);
    assert(match_pids(found) == pids);
    assert(Seq::<PortMatchView>::empty().flat_map(f).len() == 0);
}

} // verus!
