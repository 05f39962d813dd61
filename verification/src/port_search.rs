//! The search for everything that listens on one port, one request at a time.
//!
//! The two tables are read one after the other. For each listening socket the
//! processes that hold it are looked for (see [`InodeSearch`]), and then the
//! name and command line of each of them are read.

use vstd::prelude::*;

use crate::inode_search::{countable, law_inode_search_step, InodeSearch, InodeSearchView};
use crate::procinfo::{
    cmdline_of, holder, info_of, inode_scan, name_of, read_cmdline, read_name, ProcessInfo,
    ProcessInfoView,
};
use crate::proctcp::{
    listen_sockets, parse_listen_sockets_for_port, socket_views, ListenSocket, ListenSocketView,
};
use crate::proctree::{
    text_view, Answer, AnswerView, FdDirView, ProcEntryView, ProcTreeView, Request,
};
use crate::{
    match_views, process_views, PortMatch, PortMatchView, ProcessMatch, ScanOutcome,
    ScanOutcomeView,
};

verus! {

/// What a [`PortSearch`] waits for.
#[derive(Debug, Clone, Copy, PartialEq, Eq, Structural)]
pub enum PortStage {
    /// The text of a table.
    Table,
    /// Whatever the search for the holders of a socket waits for.
    Holders,
    /// The text of a process's `comm`.
    Comm,
    /// The bytes of a process's `cmdline`.
    Cmdline,
    /// Nothing.
    Done,
}

/// A search under way.
pub struct PortSearch {
    port: u16,
    stage: PortStage,
    /// Whether the table at hand is `net/tcp6`.
    ipv6: bool,
    /// The sockets that the table gave.
    sockets: Vec<ListenSocket>,
    /// The place of the socket looked at.
    socket: usize,
    /// The search for its holders.
    holders: InodeSearch,
    /// The holders that are resolved.
    resolved: Vec<ProcessMatch>,
    /// The name of the holder that is being resolved.
    name: Option<String>,
    outcome: ScanOutcome,
}

/// What a [`PortSearch`] has come to.
#[verifier::ext_equal]
pub struct PortSearchView {
    pub port: u16,
    pub stage: PortStage,
    pub ipv6: bool,
    pub sockets: Seq<ListenSocketView>,
    pub socket: int,
    pub holders: InodeSearchView,
    pub resolved: Seq<ProcessInfoView>,
    pub name: Option<Seq<char>>,
    pub outcome: ScanOutcomeView,
}

/// The name of the protocol that a table is for.
pub open spec fn protocol_name(ipv6: bool) -> Seq<char> {
    if ipv6 {
        "tcp6"@
    } else {
        "tcp"@
    }
}

/// The listening sockets on `port` in one of the tree's tables.
pub open spec fn table_sockets(tree: ProcTreeView, port: u16, ipv6: bool) -> Seq<ListenSocketView> {
    match tree.table(ipv6) {
        Some(contents) => listen_sockets(contents, port, ipv6),
        None => Seq::empty(),
    }
}

/// A listening socket with what the tree tells of the processes that hold it.
pub open spec fn socket_match(
    tree: ProcTreeView,
    socket: ListenSocketView,
    ipv6: bool,
) -> PortMatchView {
    PortMatchView {
        protocol: protocol_name(ipv6),
        local_addr: socket.local_addr,
        inode: socket.inode,
        processes: inode_scan(tree, socket.inode).pids.map_values(|pid: u32| info_of(tree, pid)),
    }
}

/// The matches for a list of sockets of one table.
pub open spec fn socket_matches(
    tree: ProcTreeView,
    sockets: Seq<ListenSocketView>,
    ipv6: bool,
) -> Seq<PortMatchView> {
    sockets.map_values(|socket: ListenSocketView| socket_match(tree, socket, ipv6))
}

/// Whether the search for the holders of one of the sockets met something that
/// belongs to another user.
pub open spec fn any_withheld(tree: ProcTreeView, sockets: Seq<ListenSocketView>) -> bool {
    exists|i: int|
        0 <= i < sockets.len() && inode_scan(
            tree,
            (#[trigger] sockets[i]).inode,
        ).permission_denied
}

/// What is found once the first `n` sockets of a table, and everything in the
/// tables before it, have been looked at.
pub open spec fn outcome_so_far(
    tree: ProcTreeView,
    port: u16,
    ipv6: bool,
    n: int,
) -> ScanOutcomeView {
    let first = if ipv6 {
        table_sockets(tree, port, false)
    } else {
        Seq::empty()
    };
    let here = table_sockets(tree, port, ipv6).take(n);
    ScanOutcomeView {
        matches: socket_matches(tree, first, false) + socket_matches(tree, here, ipv6),
        permission_denied: any_withheld(tree, first) || any_withheld(tree, here),
    }
}

/// Everything that listens on `port` according to the tree: the sockets of
/// `net/tcp`, then those of `net/tcp6`, each with its processes, and whether
/// something was withheld in looking for those.
pub open spec fn port_outcome(tree: ProcTreeView, port: u16) -> ScanOutcomeView {
    outcome_so_far(tree, port, true, table_sockets(tree, port, true).len() as int)
}

impl PortSearchView {
    /// A search that has yet to begin.
    pub open spec fn start(port: u16) -> Self {
        PortSearchView {
            port,
            stage: PortStage::Table,
            ipv6: false,
            sockets: Seq::empty(),
            socket: 0,
            holders: InodeSearchView::start(0),
            resolved: Seq::empty(),
            name: None,
            outcome: ScanOutcomeView { matches: Seq::empty(), permission_denied: false },
        }
    }

    /// Whether the places that the search keeps are places there are.
    pub open spec fn well_formed(self) -> bool {
        &&& self.holders.well_formed()
        &&& 0 <= self.socket <= self.sockets.len()
        &&& self.stage is Holders ==> self.socket < self.sockets.len() && !(
        self.holders.stage is Done)
        &&& self.stage is Comm || self.stage is Cmdline ==> {
            &&& self.socket < self.sockets.len()
            &&& self.resolved.len() < self.holders.scan.pids.len()
        }
    }

    /// The process that is being resolved.
    pub open spec fn pid(self) -> u32 {
        self.holders.scan.pids[self.resolved.len() as int]
    }

    /// What the search needs to know next.
    pub open spec fn request(self) -> Request {
        match self.stage {
            PortStage::Table => Request::ReadTable { ipv6: self.ipv6 },
            PortStage::Holders => self.holders.request(),
            PortStage::Comm => Request::ReadComm { pid: self.pid() },
            PortStage::Cmdline => Request::ReadCmdline { pid: self.pid() },
            PortStage::Done => Request::Nothing,
        }
    }

    /// The search, going on with the next table.
    pub open spec fn next_table(self) -> Self {
        if self.ipv6 {
            PortSearchView { stage: PortStage::Done, ..self }
        } else {
            PortSearchView {
                stage: PortStage::Table,
                ipv6: true,
                sockets: Seq::empty(),
                socket: 0,
                ..self
            }
        }
    }

    /// The search, going on with the socket at place `socket`.
    pub open spec fn look_at(self, socket: int) -> Self {
        if socket < self.sockets.len() {
            PortSearchView {
                stage: PortStage::Holders,
                socket,
                holders: InodeSearchView::start(self.sockets[socket].inode),
                resolved: Seq::empty(),
                name: None,
                ..self
            }
        } else {
            self.next_table()
        }
    }

    /// The search, going on with the next holder of the socket looked at.
    pub open spec fn next_holder(self) -> Self {
        if self.resolved.len() < self.holders.scan.pids.len() {
            PortSearchView { stage: PortStage::Comm, name: None, ..self }
        } else {
            self.matched().look_at(self.socket + 1)
        }
    }

    /// The search with the socket looked at added to what was found.
    pub open spec fn matched(self) -> Self {
        PortSearchView {
            outcome: ScanOutcomeView {
                matches: self.outcome.matches.push(
                    PortMatchView {
                        protocol: protocol_name(self.ipv6),
                        local_addr: self.sockets[self.socket].local_addr,
                        inode: self.sockets[self.socket].inode,
                        processes: self.resolved,
                    },
                ),
                ..self.outcome
            },
            resolved: Seq::empty(),
            ..self
        }
    }

    /// The search with `holders` as the search for the holders; once that is
    /// over, they are resolved.
    pub open spec fn with_holders(self, holders: InodeSearchView) -> Self {
        if holders.stage is Done {
            PortSearchView {
                holders,
                outcome: ScanOutcomeView {
                    permission_denied: self.outcome.permission_denied
                        || holders.scan.permission_denied,
                    ..self.outcome
                },
                ..self
            }.next_holder()
        } else {
            PortSearchView { holders, ..self }
        }
    }

    /// The search once it knows `answer`. An answer to another question leaves
    /// it as it is.
    pub open spec fn step(self, answer: AnswerView) -> Self {
        match (self.stage, answer) {
            (PortStage::Table, AnswerView::Table(Some(contents))) => PortSearchView {
                sockets: listen_sockets(contents, self.port, self.ipv6),
                socket: 0,
                ..self
            }.look_at(0),
            (PortStage::Table, AnswerView::Table(None)) => self.next_table(),
            (PortStage::Holders, _) => self.with_holders(self.holders.step(answer)),
            (PortStage::Comm, AnswerView::Comm(comm)) => PortSearchView {
                stage: PortStage::Cmdline,
                name: name_of(comm),
                ..self
            },
            (PortStage::Cmdline, AnswerView::Cmdline(raw)) => PortSearchView {
                resolved: self.resolved.push(
                    ProcessInfoView {
                        pid: self.pid(),
                        name: self.name,
                        cmdline: cmdline_of(raw),
                    },
                ),
                name: None,
                ..self
            }.next_holder(),
            _ => self,
        }
    }

    /// Whether this is where a search stands that has been answered from
    /// `tree` throughout.
    pub open spec fn agrees(self, tree: ProcTreeView) -> bool {
        match self.stage {
            PortStage::Table => {
                &&& self.socket == 0
                &&& self.outcome == outcome_so_far(tree, self.port, self.ipv6, 0)
            },
            PortStage::Holders => {
                &&& self.sockets == table_sockets(tree, self.port, self.ipv6)
                &&& self.outcome == outcome_so_far(tree, self.port, self.ipv6, self.socket)
                &&& self.holders.inode == self.sockets[self.socket].inode
                &&& self.holders.agrees(tree)
                &&& self.resolved.len() == 0
            },
            PortStage::Comm | PortStage::Cmdline => {
                &&& self.sockets == table_sockets(tree, self.port, self.ipv6)
                &&& self.holders_agree(tree)
                &&& self.stage is Cmdline ==> self.name == name_of(tree.comm(self.pid()))
            },
            PortStage::Done => self.outcome == port_outcome(tree, self.port),
        }
    }

    /// Whether the holders of the socket looked at are the ones the tree
    /// shows, and those that are resolved are what the tree tells of them.
    pub open spec fn holders_agree(self, tree: ProcTreeView) -> bool {
        let before = outcome_so_far(tree, self.port, self.ipv6, self.socket);
        &&& self.holders.scan == inode_scan(tree, self.sockets[self.socket].inode)
        &&& self.outcome.matches == before.matches
        &&& self.outcome.permission_denied == (before.permission_denied
            || self.holders.scan.permission_denied)
        &&& self.resolved.len() <= self.holders.scan.pids.len()
        &&& self.resolved == self.holders.scan.pids.take(self.resolved.len() as int).map_values(
            |pid: u32| info_of(tree, pid),
        )
    }

    /// How many tables and sockets a search answered from `tree` still has to
    /// look at.
    pub open spec fn sockets_left(self, tree: ProcTreeView) -> nat {
        let later = if self.ipv6 {
            0
        } else {
            table_sockets(tree, self.port, true).len() + 1
        };
        match self.stage {
            PortStage::Table => later + table_sockets(tree, self.port, self.ipv6).len() + 1,
            PortStage::Done => 0,
            _ => (later + (self.sockets.len() - self.socket)) as nat,
        }
    }

    /// How much it still has to do for the socket it looks at.
    pub open spec fn work_left(self, tree: ProcTreeView) -> (nat, nat) {
        let to_resolve = (self.holders.scan.pids.len() - self.resolved.len()) as nat;
        match self.stage {
            PortStage::Holders => {
                let (entries, links) = self.holders.left(tree);
                (entries + tree.entries.len() + 1, links)
            },
            PortStage::Comm => (to_resolve, 1),
            PortStage::Cmdline => (to_resolve, 0),
            _ => (0, 0),
        }
    }
}

impl View for PortSearch {
    type V = PortSearchView;

    closed spec fn view(&self) -> PortSearchView {
        PortSearchView {
            port: self.port,
            stage: self.stage,
            ipv6: self.ipv6,
            sockets: socket_views(self.sockets@),
            socket: self.socket as int,
            holders: self.holders@,
            resolved: process_views(self.resolved@),
            name: text_view(self.name),
            outcome: self.outcome@,
        }
    }
}

impl PortSearch {
    /// Whether the search keeps to its invariant.
    pub closed spec fn well_formed(self) -> bool {
        &&& self@.well_formed()
        &&& self.holders.well_formed()
    }

    /// A search that keeps to its invariant has come to a well-formed state.
    pub proof fn lemma_view_well_formed(&self)
        requires
            self.well_formed(),
        ensures
            self@.well_formed(),
    {
    }

    /// Begins the search for what listens on `port`.
    pub fn new(port: u16) -> (search: Self)
        ensures
            search.well_formed(),
            search@ == PortSearchView::start(port),
    {
        let holders = InodeSearch::new(0);
        let search = PortSearch {
            port,
            stage: PortStage::Table,
            ipv6: false,
            sockets: Vec::new(),
            socket: 0,
            holders,
            resolved: Vec::new(),
            name: None,
            outcome: ScanOutcome { matches: Vec::new(), permission_denied: false },
        };
        assert(search@ == PortSearchView::start(port));
        search
    }

    /// What the search needs to know next.
    pub fn request(&self) -> (out: Request)
        requires
            self.well_formed(),
        ensures
            out == self@.request(),
    {
        match self.stage {
            PortStage::Table => Request::ReadTable { ipv6: self.ipv6 },
            PortStage::Holders => self.holders.request(),
            PortStage::Comm => Request::ReadComm { pid: self.pid() },
            PortStage::Cmdline => Request::ReadCmdline { pid: self.pid() },
            PortStage::Done => Request::Nothing,
        }
    }

    /// Whether the search is over.
    pub fn is_done(&self) -> (yes: bool)
        ensures
            yes == (self@.stage is Done),
    {
        match self.stage {
            PortStage::Done => true,
            _ => false,
        }
    }

    /// What was found, when the search is given up or over.
    pub fn into_outcome(self) -> (outcome: ScanOutcome)
        ensures
            outcome@ == self@.outcome,
    {
        self.outcome
    }

    /// The process that is being resolved.
    fn pid(&self) -> (pid: u32)
        requires
            self@.resolved.len() < self@.holders.scan.pids.len(),
        ensures
            pid == self@.pid(),
    {
        self.holders.scan().pids[self.resolved.len()]
    }

    /// Goes on with the next table.
    fn next_table(&mut self)
        requires
            old(self).holders.well_formed(),
            old(self)@.socket <= old(self)@.sockets.len(),
        ensures
            final(self).well_formed(),
            final(self)@ == old(self)@.next_table(),
    {
        if self.ipv6 {
            self.stage = PortStage::Done;
        } else {
            self.stage = PortStage::Table;
            self.ipv6 = true;
            self.sockets = Vec::new();
            self.socket = 0;
        }
        proof {
            self.holders.lemma_view_well_formed();
            assert(self@ == old(self)@.next_table());
        }
    }

    /// Goes on with the socket at place `socket`.
    fn look_at(&mut self, socket: usize)
        requires
            old(self).holders.well_formed(),
            old(self)@.socket <= old(self)@.sockets.len(),
        ensures
            final(self).well_formed(),
            final(self)@ == old(self)@.look_at(socket as int),
    {
        if socket < self.sockets.len() {
            self.stage = PortStage::Holders;
            self.socket = socket;
            self.holders = InodeSearch::new(self.sockets[socket].inode);
            self.resolved = Vec::new();
            self.name = None;
            assert(self@ == old(self)@.look_at(socket as int));
        } else {
            self.next_table();
        }
    }

    /// Goes on with the next holder of the socket looked at.
    fn next_holder(&mut self)
        requires
            old(self).holders.well_formed(),
            old(self)@.socket < old(self)@.sockets.len(),
        ensures
            final(self).well_formed(),
            final(self)@ == old(self)@.next_holder(),
    {
        assert(self.socket < self.sockets.len());
        if self.resolved.len() < self.holders.scan().pids.len() {
            self.stage = PortStage::Comm;
            self.name = None;
            proof {
                self.holders.lemma_view_well_formed();
                assert(self@ == old(self)@.next_holder());
            }
        } else {
            let mut processes: Vec<ProcessMatch> = Vec::new();
            std::mem::swap(&mut processes, &mut self.resolved);
            let protocol = if self.ipv6 {
                "tcp6"
            } else {
                "tcp"
            };
            let found = PortMatch {
                protocol,
                local_addr: self.sockets[self.socket].local_addr.clone(),
                inode: self.sockets[self.socket].inode,
                processes,
            };
            let ghost before = match_views(self.outcome.matches@);
            self.outcome.matches.push(found);
            assert(match_views(self.outcome.matches@) == before.push(found@));
            assert(self@ == old(self)@.matched());
            self.look_at(self.socket + 1);
        }
    }

    /// Takes the answer to the request that the search made. An answer to
    /// another question leaves the search as it is.
    pub fn answer(&mut self, answer: Answer)
        requires
            old(self).well_formed(),
        ensures
            final(self).well_formed(),
            final(self)@ == old(self)@.step(answer@),
    {
        match self.stage {
            PortStage::Table => {
                match answer {
                    Answer::Table(Some(contents)) => {
                        self.sockets = parse_listen_sockets_for_port(
                            contents.as_str(),
                            self.port,
                            self.ipv6,
                        );
                        self.socket = 0;
                        assert(self@ == (PortSearchView {
                            sockets: listen_sockets(contents@, old(self)@.port, old(self)@.ipv6),
                            socket: 0,
                            ..old(self)@
                        }));
                        self.look_at(0);
                    },
                    Answer::Table(None) => self.next_table(),
                    _ => {},
                }
            },
            PortStage::Holders => {
                self.holders.answer(answer);
                if self.holders.is_done() {
                    if self.holders.scan().permission_denied {
                        self.outcome.permission_denied = true;
                    }
                    self.next_holder();
                } else {
                    proof {
                        self.holders.lemma_view_well_formed();
                        assert(self@ == old(self)@.step(answer@));
                    }
                }
            },
            PortStage::Comm => {
                if let Answer::Comm(comm) = answer {
                    self.name = match &comm {
                        Some(text) => read_name(Some(text.as_str())),
                        None => None,
                    };
                    self.stage = PortStage::Cmdline;
                    assert(self@ == old(self)@.step(answer@));
                }
            },
            PortStage::Cmdline => {
                if let Answer::Cmdline(raw) = answer {
                    let cmdline = match &raw {
                        Some(bytes) => read_cmdline(Some(bytes.as_slice())),
                        None => None,
                    };
                    let mut name: Option<String> = None;
                    let pid = self.pid();
                    std::mem::swap(&mut name, &mut self.name);
                    let info = ProcessInfo { pid, name, cmdline };
                    let ghost before = process_views(self.resolved@);
                    let process = ProcessMatch::from(&info);
                    self.resolved.push(process);
                    assert(process_views(self.resolved@) == before.push(info@));
                    self.next_holder();
                }
            },
            PortStage::Done => {},
        }
    }
}

/// A search that has yet to begin agrees with every tree.
pub proof fn lemma_start_agrees(tree: ProcTreeView, port: u16)
    ensures
        PortSearchView::start(port).agrees(tree),
{
    let so_far = outcome_so_far(tree, port, false, 0);
    assert(so_far.matches == Seq::<PortMatchView>::empty());
}

/// What one more socket adds to what was found.
proof fn lemma_one_more_socket(tree: ProcTreeView, port: u16, ipv6: bool, n: int)
    requires
        0 <= n < table_sockets(tree, port, ipv6).len(),
    ensures
        outcome_so_far(tree, port, ipv6, n + 1) == ({
            let before = outcome_so_far(tree, port, ipv6, n);
            let socket = table_sockets(tree, port, ipv6)[n];
            ScanOutcomeView {
                matches: before.matches.push(socket_match(tree, socket, ipv6)),
                permission_denied: before.permission_denied || inode_scan(
                    tree,
                    socket.inode,
                ).permission_denied,
            }
        }),
{
    let sockets = table_sockets(tree, port, ipv6);
    let before = sockets.take(n);
    let after = sockets.take(n + 1);
    assert(after == before.push(sockets[n]));
    assert(socket_matches(tree, after, ipv6) == socket_matches(tree, before, ipv6).push(
        socket_match(tree, sockets[n], ipv6),
    ));
    assert(any_withheld(tree, after) == (any_withheld(tree, before) || inode_scan(
        tree,
        sockets[n].inode,
    ).permission_denied)) by {
        if any_withheld(tree, before) {
            let i = choose|i: int|
                0 <= i < before.len() && inode_scan(
                    tree,
                    (#[trigger] before[i]).inode,
                ).permission_denied;
            assert(after[i] == before[i]);
        }
        if any_withheld(tree, after) {
            let i = choose|i: int|
                0 <= i < after.len() && inode_scan(
                    tree,
                    (#[trigger] after[i]).inode,
                ).permission_denied;
            if i < n {
                assert(before[i] == after[i]);
            }
        }
        assert(after[n] == sockets[n]);
    }
}

/// No more processes hold a socket than there are entries.
proof fn lemma_holders_are_entries(tree: ProcTreeView, inode: u64)
    ensures
        inode_scan(tree, inode).pids.len() <= tree.entries.len(),
{
    let f = |entry: ProcEntryView| holder(entry, inode);
    let n = if tree.listable {
        tree.entries.len() as int
    } else {
        0
    };
    lemma_filter_map_len(tree.entries.take(n), f);
}

/// A list gives no more than one value for each of its elements.
proof fn lemma_filter_map_len<A, B>(s: Seq<A>, f: spec_fn(A) -> Option<B>)
    ensures
        s.filter_map(f).len() <= s.len(),
    decreases s.len(),
{
    if s.len() > 0 {
        lemma_filter_map_len(s.drop_last(), f);
    }
}

/// Going on with the next table, once a table is done, keeps the search in
/// agreement and brings it nearer to the end.
proof fn lemma_next_table(search: PortSearchView, tree: ProcTreeView)
    requires
        search.holders.well_formed(),
        0 <= search.socket <= search.sockets.len(),
        search.outcome == outcome_so_far(
            tree,
            search.port,
            search.ipv6,
            table_sockets(tree, search.port, search.ipv6).len() as int,
        ),
    ensures
        search.next_table().well_formed(),
        search.next_table().agrees(tree),
        search.next_table().sockets_left(tree) <= if search.ipv6 {
            0
        } else {
            table_sockets(tree, search.port, true).len() + 1
        },
{
    if !search.ipv6 {
        let sockets = table_sockets(tree, search.port, false);
        let whole = sockets.take(sockets.len() as int);
        assert(whole == sockets);
        let none = Seq::<ListenSocketView>::empty();
        assert(table_sockets(tree, search.port, true).take(0) == none);
        assert(socket_matches(tree, none, false) + socket_matches(tree, sockets, false)
            == socket_matches(tree, sockets, false) + socket_matches(tree, none, true));
        assert(!any_withheld(tree, none));
        assert(search.outcome == outcome_so_far(tree, search.port, true, 0));
    }
}

/// Going on with the next socket, once the ones before are done, keeps the
/// search in agreement.
proof fn lemma_look_at(search: PortSearchView, tree: ProcTreeView, socket: int)
    requires
        search.holders.well_formed(),
        0 <= search.socket <= search.sockets.len(),
        0 <= socket <= search.sockets.len(),
        search.sockets == table_sockets(tree, search.port, search.ipv6),
        search.outcome == outcome_so_far(tree, search.port, search.ipv6, socket),
    ensures
        search.look_at(socket).well_formed(),
        search.look_at(socket).agrees(tree),
        search.look_at(socket).sockets_left(tree) <= search.sockets.len() - socket
            + if search.ipv6 {
            0
        } else {
            table_sockets(tree, search.port, true).len() + 1
        },
{
    if socket == search.sockets.len() {
        lemma_next_table(search, tree);
    }
}

/// Going on with the next holder keeps the search in agreement.
proof fn lemma_next_holder(search: PortSearchView, tree: ProcTreeView)
    requires
        search.holders.well_formed(),
        0 <= search.socket < search.sockets.len(),
        search.sockets == table_sockets(tree, search.port, search.ipv6),
        search.holders_agree(tree),
    ensures
        search.next_holder().well_formed(),
        search.next_holder().agrees(tree),
        search.resolved.len() < search.holders.scan.pids.len()
            ==> search.next_holder().stage is Comm && search.next_holder().resolved
            == search.resolved && search.next_holder().holders == search.holders
            && search.next_holder().sockets_left(tree) == search.sockets.len() - search.socket
            + if search.ipv6 {
            0
        } else {
            table_sockets(tree, search.port, true).len() + 1
        },
        search.resolved.len() == search.holders.scan.pids.len()
            ==> search.next_holder().sockets_left(tree) < search.sockets.len() - search.socket
            + if search.ipv6 {
            0
        } else {
            table_sockets(tree, search.port, true).len() + 1
        },
{
    if search.resolved.len() == search.holders.scan.pids.len() {
        let pids = search.holders.scan.pids;
        assert(pids.take(pids.len() as int) == pids);
        lemma_one_more_socket(tree, search.port, search.ipv6, search.socket);
        let matched = search.matched();
        assert(matched.outcome == outcome_so_far(
            tree,
            search.port,
            search.ipv6,
            search.socket + 1,
        ));
        lemma_look_at(matched, tree, search.socket + 1);
    }
}

/// A search that is answered from a tree stays in agreement with it, and each
/// answer brings it nearer to the end.
pub proof fn law_port_search_step(search: PortSearchView, tree: ProcTreeView)
    requires
        countable(tree),
        tree.entries.len() <= usize::MAX,
        search.well_formed(),
        search.agrees(tree),
        !(search.stage is Done),
    ensures
        search.step(tree.answer(search.request())).well_formed(),
        search.step(tree.answer(search.request())).agrees(tree),
        search.step(tree.answer(search.request())).port == search.port,
        ({
            let next = search.step(tree.answer(search.request()));
            let before = search.work_left(tree);
            let after = next.work_left(tree);
            ||| next.sockets_left(tree) < search.sockets_left(tree)
            ||| {
                &&& next.sockets_left(tree) == search.sockets_left(tree)
                &&& after.0 < before.0 || (after.0 == before.0 && after.1 < before.1)
            }
        }),
{
    let answer = tree.answer(search.request());
    let port = search.port;
    match search.stage {
        PortStage::Table => {
            match tree.table(search.ipv6) {
                Some(contents) => {
                    let filled = PortSearchView {
                        sockets: listen_sockets(contents, port, search.ipv6),
                        socket: 0,
                        ..search
                    };
                    assert(search.step(answer) == filled.look_at(0));
                    lemma_look_at(filled, tree, 0);
                },
                None => {
                    assert(search.step(answer) == search.next_table());
                    lemma_next_table(search, tree);
                },
            }
        },
        PortStage::Holders => {
            law_inode_search_step(search.holders, tree);
            let holders = search.holders.step(answer);
            assert(search.step(answer) == search.with_holders(holders));
            if holders.stage is Done {
                let known = PortSearchView {
                    holders,
                    outcome: ScanOutcomeView {
                        permission_denied: search.outcome.permission_denied
                            || holders.scan.permission_denied,
                        ..search.outcome
                    },
                    ..search
                };
                assert(known.resolved == Seq::<ProcessInfoView>::empty());
                assert(known.resolved == holders.scan.pids.take(0).map_values(
                    |pid: u32| info_of(tree, pid),
                ));
                lemma_holders_are_entries(tree, holders.inode);
                lemma_next_holder(known, tree);
            }
        },
        PortStage::Comm => {
            assert(answer == AnswerView::Comm(tree.comm(search.pid())));
        },
        PortStage::Cmdline => {
            assert(answer == AnswerView::Cmdline(tree.cmdline(search.pid())));
            let resolved = search.resolved.push(info_of(tree, search.pid()));
            let known = PortSearchView { resolved, name: None, ..search };
            let pids = search.holders.scan.pids;
            assert(pids.take(resolved.len() as int) == pids.take(
                search.resolved.len() as int,
            ).push(search.pid()));
            assert(resolved == pids.take(resolved.len() as int).map_values(
                |pid: u32| info_of(tree, pid),
            ));
            assert(search.step(answer) == known.next_holder());
            lemma_next_holder(known, tree);
        },
        PortStage::Done => {},
    }
}

/// Every match stands for a listening socket in one of the tables, and every
/// listening socket in the tables is matched.
pub proof fn law_matches_are_the_listeners(tree: ProcTreeView, port: u16, found: PortMatchView)
    ensures
        port_outcome(tree, port).matches.contains(found) <==> exists|ipv6: bool, i: int|
            0 <= i < table_sockets(tree, port, ipv6).len() && found == socket_match(
                tree,
                #[trigger] table_sockets(tree, port, ipv6)[i],
                ipv6,
            ),
        port_outcome(tree, port).matches.len() == table_sockets(tree, port, false).len()
            + table_sockets(tree, port, true).len(),
{
    let tcp = table_sockets(tree, port, false);
    let tcp6 = table_sockets(tree, port, true);
    assert(tcp6.take(tcp6.len() as int) == tcp6);
    let first = socket_matches(tree, tcp, false);
    let second = socket_matches(tree, tcp6, true);
    let all = port_outcome(tree, port).matches;
    assert(all == first + second);
    if all.contains(found) {
        let k = choose|k: int| 0 <= k < all.len() && all[k] == found;
        if k < first.len() {
            assert(found == socket_match(tree, table_sockets(tree, port, false)[k], false));
        } else {
            let j = k - first.len();
            assert(found == socket_match(tree, table_sockets(tree, port, true)[j], true));
        }
    }
    if exists|ipv6: bool, i: int|
        0 <= i < table_sockets(tree, port, ipv6).len() && found == socket_match(
            tree,
            #[trigger] table_sockets(tree, port, ipv6)[i],
            ipv6,
        ) {
        let (ipv6, i) = choose|ipv6: bool, i: int|
            0 <= i < table_sockets(tree, port, ipv6).len() && found == socket_match(
                tree,
                #[trigger] table_sockets(tree, port, ipv6)[i],
                ipv6,
            );
        if ipv6 {
            assert(all[first.len() + i] == found);
        } else {
            assert(all[i] == found);
        }
    }
}

/// Where nothing listens on the port, nothing is matched and nothing is said
/// to have been withheld.
pub proof fn law_unused_port(tree: ProcTreeView, port: u16)
    requires
        table_sockets(tree, port, false).len() == 0,
        table_sockets(tree, port, true).len() == 0,
    ensures
        port_outcome(tree, port).matches.len() == 0,
        !port_outcome(tree, port).permission_denied,
{
}

/// Whatever it is told, a search gives up nothing that it has found: matches
/// are only added, and what was withheld stays flagged.
pub proof fn law_search_keeps_what_it_found(search: PortSearchView, answer: AnswerView)
    ensures
        search.outcome.matches.is_prefix_of(search.step(answer).outcome.matches),
        search.outcome.permission_denied ==> search.step(answer).outcome.permission_denied,
        search.step(answer).port == search.port,
{
}

/// What is found is the sockets of `net/tcp` that listen on the port, in order,
/// and then those of `net/tcp6`; a table that cannot be read adds none. Each
/// match has the address and the inode of its socket, and the name of its
/// table.
pub proof fn law_matches_follow_the_tables(
    tree: ProcTreeView,
    port: u16,
    tcp: Seq<ListenSocketView>,
    tcp6: Seq<ListenSocketView>,
    i: int,
)
    requires
        tree.tcp matches Some(contents) ==> tcp == listen_sockets(contents, port, false),
        tree.tcp is None ==> tcp.len() == 0,
        tree.tcp6 matches Some(contents) ==> tcp6 == listen_sockets(contents, port, true),
        tree.tcp6 is None ==> tcp6.len() == 0,
    ensures
        port_outcome(tree, port).matches.len() == tcp.len() + tcp6.len(),
        0 <= i < tcp.len() ==> {
            let found = port_outcome(tree, port).matches[i];
            &&& found.protocol == "tcp"@
            &&& found.local_addr == tcp[i].local_addr
            &&& found.inode == tcp[i].inode
        },
        0 <= i < tcp6.len() ==> {
            let found = port_outcome(tree, port).matches[tcp.len() + i];
            &&& found.protocol == "tcp6"@
            &&& found.local_addr == tcp6[i].local_addr
            &&& found.inode == tcp6[i].inode
        },
{
    lemma_matches_in_order(tree, port);
    assert(table_sockets(tree, port, false) == tcp);
    assert(table_sockets(tree, port, true) == tcp6);
}

/// The matches are those of the first table and then those of the second.
proof fn lemma_matches_in_order(tree: ProcTreeView, port: u16)
    ensures
        port_outcome(tree, port).matches == socket_matches(
            tree,
            table_sockets(tree, port, false),
            false,
        ) + socket_matches(tree, table_sockets(tree, port, true), true),
        port_outcome(tree, port).permission_denied <==> any_withheld(
            tree,
            table_sockets(tree, port, false),
        ) || any_withheld(tree, table_sockets(tree, port, true)),
{
    let tcp6 = table_sockets(tree, port, true);
    assert(tcp6.take(tcp6.len() as int) == tcp6);
}

/// The processes of a match are those that hold its socket, in the order in
/// which they are found, each with what the tree tells of it.
pub proof fn law_match_lists_its_holders(tree: ProcTreeView, port: u16, i: int, j: int)
    requires
        0 <= i < port_outcome(tree, port).matches.len(),
    ensures
        ({
            let found = port_outcome(tree, port).matches[i];
            let pids = inode_scan(tree, found.inode).pids;
            &&& found.processes.len() == pids.len()
            &&& 0 <= j < pids.len() ==> found.processes[j] == info_of(tree, pids[j])
        }),
{
    lemma_matches_in_order(tree, port);
}

/// Something is said to have been withheld exactly where it was in the search
/// for the holders of one of the sockets found.
pub proof fn law_withheld_is_said(tree: ProcTreeView, port: u16)
    ensures
        port_outcome(tree, port).permission_denied <==> exists|i: int|
            0 <= i < port_outcome(tree, port).matches.len() && inode_scan(
                tree,
                (#[trigger] port_outcome(tree, port).matches[i]).inode,
            ).permission_denied,
{
    lemma_matches_in_order(tree, port);
    let matches = port_outcome(tree, port).matches;
    let tcp = table_sockets(tree, port, false);
    let tcp6 = table_sockets(tree, port, true);
    if any_withheld(tree, tcp) {
        let i = choose|i: int|
            0 <= i < tcp.len() && inode_scan(tree, (#[trigger] tcp[i]).inode).permission_denied;
        assert(matches[i].inode == tcp[i].inode);
    }
    if any_withheld(tree, tcp6) {
        let i = choose|i: int|
            0 <= i < tcp6.len() && inode_scan(tree, (#[trigger] tcp6[i]).inode).permission_denied;
        assert(matches[tcp.len() + i].inode == tcp6[i].inode);
    }
    if exists|i: int|
        0 <= i < matches.len() && inode_scan(tree, (#[trigger] matches[i]).inode).permission_denied {
        let i = choose|i: int|
            0 <= i < matches.len() && inode_scan(
                tree,
                (#[trigger] matches[i]).inode,
            ).permission_denied;
        if i < tcp.len() {
            assert(tcp[i].inode == matches[i].inode);
        } else {
            assert(tcp6[i - tcp.len()].inode == matches[i].inode);
        }
    }
}

/// Where a search stands once it has had `n` answers from the tree.
pub open spec fn answered(search: PortSearchView, tree: ProcTreeView, n: nat) -> PortSearchView
    decreases n,
{
    if n == 0 {
        search
    } else {
        let before = answered(search, tree, (n - 1) as nat);
        before.step(tree.answer(before.request()))
    }
}

/// Answers count on from where a search stands.
proof fn lemma_answered_later(search: PortSearchView, tree: ProcTreeView, n: nat)
    ensures
        answered(search, tree, n + 1) == answered(
            search.step(tree.answer(search.request())),
            tree,
            n,
        ),
    decreases n,
{
    reveal_with_fuel(answered, 2);
    if n > 0 {
        lemma_answered_later(search, tree, (n - 1) as nat);
    }
}

/// A search that agrees with the tree comes to its end in agreement.
proof fn lemma_search_ends(search: PortSearchView, tree: ProcTreeView) -> (n: nat)
    requires
        countable(tree),
        tree.entries.len() <= usize::MAX,
        search.well_formed(),
        search.agrees(tree),
    ensures
        answered(search, tree, n).stage is Done,
        answered(search, tree, n).outcome == port_outcome(tree, search.port),
    decreases search.sockets_left(tree), search.work_left(tree).0, search.work_left(tree).1,
{
    if search.stage is Done {
        0
    } else {
        law_port_search_step(search, tree);
        let n = lemma_search_ends(search.step(tree.answer(search.request())), tree);
        lemma_answered_later(search, tree, n);
        n + 1
    }
}

/// Answered from a tree, a search ends, and has then found what there is in
/// the tree; from then on it asks for nothing, and nothing changes it.
pub proof fn law_port_search_ends(tree: ProcTreeView, port: u16)
    requires
        tree.entries.len() <= usize::MAX,
        forall|i: int|
            0 <= i < tree.entries.len() ==> ((#[trigger] tree.entries[i]).fds
                matches FdDirView::Links(links) ==> links.len() <= usize::MAX),
    ensures
        exists|n: nat|
            {
                let last = #[trigger] answered(PortSearchView::start(port), tree, n);
                &&& last.stage is Done
                &&& last.request() is Nothing
                &&& last.outcome == port_outcome(tree, port)
            },
        forall|search: PortSearchView, answer: AnswerView|
            search.stage is Done ==> #[trigger] search.step(answer) == search,
{
    lemma_start_agrees(tree, port);
    let n = lemma_search_ends(PortSearchView::start(port), tree);
    assert(answered(PortSearchView::start(port), tree, n).stage is Done);
}

/// A search begins with the first table, and with nothing found.
pub proof fn law_port_search_begins(port: u16)
    ensures
        PortSearchView::start(port).port == port,
        PortSearchView::start(port).stage is Table,
        PortSearchView::start(port).request() == (Request::ReadTable { ipv6: false }),
        PortSearchView::start(port).outcome.matches.len() == 0,
        !PortSearchView::start(port).outcome.permission_denied,
{
}

/// A table with sockets on the port is gone through from the first of them,
/// each with a search of its own. After one without, or one that cannot be
/// read, comes the other table, or the end.
pub proof fn law_table_is_gone_through(search: PortSearchView, table: Option<Seq<char>>)
    requires
        search.stage is Table,
    ensures
        ({
            let next = search.step(AnswerView::Table(table));
            let sockets = match table {
                Some(contents) => listen_sockets(contents, search.port, search.ipv6),
                None => Seq::empty(),
            };
            &&& next.port == search.port
            &&& next.outcome == search.outcome
            &&& sockets.len() > 0 ==> {
                &&& next.stage is Holders
                &&& next.ipv6 == search.ipv6
                &&& next.sockets == sockets
                &&& next.socket == 0
                &&& next.holders == InodeSearchView::start(sockets[0].inode)
                &&& next.resolved.len() == 0
            }
            &&& sockets.len() == 0 && !search.ipv6 ==> next.stage is Table && next.ipv6
            &&& sockets.len() == 0 && search.ipv6 ==> next.stage is Done
        }),
{
}

/// What is asked while the holders of a socket are looked for goes to that
/// search alone, until it is over; then what was withheld is flagged, and the
/// first holder is resolved, if there is one.
pub proof fn law_holders_are_looked_for(search: PortSearchView, answer: AnswerView)
    requires
        search.stage is Holders,
        search.resolved.len() == 0,
    ensures
        ({
            let next = search.step(answer);
            let holders = search.holders.step(answer);
            &&& search.request() == search.holders.request()
            &&& !(holders.stage is Done) ==> next == (PortSearchView { holders, ..search })
            &&& holders.stage is Done ==> next.outcome.permission_denied == (
            search.outcome.permission_denied || holders.scan.permission_denied)
            &&& holders.stage is Done && holders.scan.pids.len() > 0 ==> {
                &&& next.stage is Comm
                &&& next.port == search.port
                &&& next.ipv6 == search.ipv6
                &&& next.sockets == search.sockets
                &&& next.socket == search.socket
                &&& next.holders == holders
                &&& next.resolved.len() == 0
                &&& next.outcome.matches == search.outcome.matches
            }
        }),
{
}

/// A socket without a holder is matched all the same, and the search goes on
/// with the next socket, the other table, or the end.
pub proof fn law_ownerless_socket_is_matched(search: PortSearchView, answer: AnswerView)
    requires
        search.stage is Holders,
        search.resolved.len() == 0,
        0 <= search.socket < search.sockets.len(),
        search.holders.step(answer).stage is Done,
        search.holders.step(answer).scan.pids.len() == 0,
    ensures
        ({
            let next = search.step(answer);
            let socket = search.sockets[search.socket];
            let last = search.socket + 1 == search.sockets.len();
            &&& next.port == search.port
            &&& next.outcome.matches == search.outcome.matches.push(
                PortMatchView {
                    protocol: if search.ipv6 {
                        "tcp6"@
                    } else {
                        "tcp"@
                    },
                    local_addr: socket.local_addr,
                    inode: socket.inode,
                    processes: Seq::empty(),
                },
            )
            &&& !last ==> {
                &&& next.stage is Holders
                &&& next.ipv6 == search.ipv6
                &&& next.sockets == search.sockets
                &&& next.socket == search.socket + 1
                &&& next.holders == InodeSearchView::start(search.sockets[search.socket + 1].inode)
                &&& next.resolved.len() == 0
            }
            &&& last && !search.ipv6 ==> next.stage is Table && next.ipv6
            &&& last && search.ipv6 ==> next.stage is Done
        }),
{
    assert(search.resolved == Seq::<ProcessInfoView>::empty());
}

/// Each holder is resolved by its own `comm` and then its own `cmdline`.
pub proof fn law_holder_is_resolved(
    search: PortSearchView,
    comm: Option<Seq<char>>,
    raw: Option<Seq<u8>>,
)
    requires
        search.stage is Comm,
        search.resolved.len() < search.holders.scan.pids.len(),
    ensures
        ({
            let pid = search.holders.scan.pids[search.resolved.len() as int];
            let named = search.step(AnswerView::Comm(comm));
            let next = named.step(AnswerView::Cmdline(raw));
            let process = ProcessInfoView {
                pid,
                name: name_of(comm),
                cmdline: cmdline_of(raw),
            };
            let more = search.resolved.len() + 1 < search.holders.scan.pids.len();
            &&& search.request() == (Request::ReadComm { pid })
            &&& named.request() == (Request::ReadCmdline { pid })
            &&& named.outcome == search.outcome
            &&& next.port == search.port
            &&& next.outcome.permission_denied == search.outcome.permission_denied
            &&& more ==> {
                &&& next.stage is Comm
                &&& next.ipv6 == search.ipv6
                &&& next.sockets == search.sockets
                &&& next.socket == search.socket
                &&& next.holders == search.holders
                &&& next.resolved == search.resolved.push(process)
                &&& next.outcome == search.outcome
            }
        }),
{
}

/// Once the last holder is resolved, its socket is matched with all of them,
/// and the search goes on with the next socket, the other table, or the end.
pub proof fn law_owned_socket_is_matched(
    search: PortSearchView,
    comm: Option<Seq<char>>,
    raw: Option<Seq<u8>>,
)
    requires
        search.stage is Comm,
        search.resolved.len() + 1 == search.holders.scan.pids.len(),
        0 <= search.socket < search.sockets.len(),
    ensures
        ({
            let next = search.step(AnswerView::Comm(comm)).step(AnswerView::Cmdline(raw));
            let socket = search.sockets[search.socket];
            let last = search.socket + 1 == search.sockets.len();
            &&& next.port == search.port
            &&& next.outcome.matches == search.outcome.matches.push(
                PortMatchView {
                    protocol: if search.ipv6 {
                        "tcp6"@
                    } else {
                        "tcp"@
                    },
                    local_addr: socket.local_addr,
                    inode: socket.inode,
                    processes: search.resolved.push(
                        ProcessInfoView {
                            pid: search.holders.scan.pids[search.resolved.len() as int],
                            name: name_of(comm),
                            cmdline: cmdline_of(raw),
                        },
                    ),
                },
            )
            &&& next.outcome.permission_denied == search.outcome.permission_denied
            &&& !last ==> {
                &&& next.stage is Holders
                &&& next.ipv6 == search.ipv6
                &&& next.sockets == search.sockets
                &&& next.socket == search.socket + 1
                &&& next.holders == InodeSearchView::start(search.sockets[search.socket + 1].inode)
                &&& next.resolved.len() == 0
            }
            &&& last && !search.ipv6 ==> next.stage is Table && next.ipv6
            &&& last && search.ipv6 ==> next.stage is Done
        }),
{
}

/// A search asks for the table at hand, and an answer to another question
/// changes nothing.
pub proof fn law_port_search_asks(search: PortSearchView, answer: AnswerView)
    ensures
        search.stage is Table ==> search.request() == (Request::ReadTable { ipv6: search.ipv6 }),
        search.stage is Done ==> search.request() is Nothing,
        !(search.stage is Table && answer is Table) && !(search.stage is Holders) && !(
        search.stage is Comm && answer is Comm) && !(search.stage is Cmdline && answer is Cmdline)
            ==> search.step(answer) == search,
{
}

} // verus!
