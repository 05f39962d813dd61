//! The search for the processes that hold one socket open, one request at a
//! time.
//!
//! The root directory is listed once. Then each process's `fd` directory is
//! listed in turn, and its links are read until one points to the socket.

use vstd::prelude::*;

use crate::procinfo::{
    holder, inode_scan, is_socket, pid_of, read_pid, scan_of_first, socket_link, withheld,
    withheld_before, InodeScan, InodeScanView,
};
use crate::proctree::{
    Answer, AnswerView, FdDir, FdDirView, FdLink, FdLinkView, FdListing, ProcEntryView, ProcTree,
    ProcTreeView, Request,
};
use crate::text::{decimal, parse_number, push_decimal, string_rows};

verus! {

/// What an [`InodeSearch`] waits for.
#[derive(Debug, Clone, Copy, PartialEq, Eq, Structural)]
pub enum InodeStage {
    /// The names in the root directory.
    Processes,
    /// The number of links in a process's `fd` directory.
    Fds,
    /// One of those links.
    Link,
    /// Nothing.
    Done,
}

/// A search under way.
pub struct InodeSearch {
    inode: u64,
    stage: InodeStage,
    /// The names in the root directory.
    names: Vec<String>,
    /// The place in `names` of the process looked at.
    entry: usize,
    /// The PID of that process.
    pid: u32,
    /// The number of its links.
    fds: usize,
    /// The place of the link to read next.
    fd: usize,
    scan: InodeScan,
}

/// What an [`InodeSearch`] has come to.
#[verifier::ext_equal]
pub struct InodeSearchView {
    pub inode: u64,
    pub stage: InodeStage,
    pub names: Seq<Seq<char>>,
    pub entry: int,
    pub fds: int,
    pub fd: int,
    pub scan: InodeScanView,
}

/// The first place from `from` on where a process's directory stands, or the
/// end of the listing.
pub open spec fn next_process(names: Seq<Seq<char>>, from: int) -> int
    decreases names.len() - from,
{
    if from >= names.len() {
        names.len() as int
    } else if pid_of(names[from]) is Some {
        from
    } else {
        next_process(names, from + 1)
    }
}

impl InodeSearchView {
    /// A search that has yet to begin.
    pub open spec fn start(inode: u64) -> Self {
        InodeSearchView {
            inode,
            stage: InodeStage::Processes,
            names: Seq::empty(),
            entry: 0,
            fds: 0,
            fd: 0,
            scan: InodeScanView { pids: Seq::empty(), permission_denied: false },
        }
    }

    /// Whether the places that the search keeps are places there are.
    pub open spec fn well_formed(self) -> bool {
        &&& 0 <= self.entry <= self.names.len()
        &&& self.stage is Fds || self.stage is Link ==> self.entry < self.names.len() && pid_of(
            self.names[self.entry],
        ) is Some
        &&& self.stage is Link ==> 0 <= self.fd < self.fds
    }

    /// What the search needs to know next.
    pub open spec fn request(self) -> Request {
        match self.stage {
            InodeStage::Processes => Request::ListProcesses,
            InodeStage::Fds => Request::ListFds { entry: self.entry as usize },
            InodeStage::Link => Request::ReadLink {
                entry: self.entry as usize,
                fd: self.fd as usize,
            },
            InodeStage::Done => Request::Nothing,
        }
    }

    /// The search, going on with the processes from place `from` on.
    pub open spec fn visit(self, from: int) -> Self {
        let entry = next_process(self.names, from);
        InodeSearchView {
            entry,
            stage: if entry < self.names.len() {
                InodeStage::Fds
            } else {
                InodeStage::Done
            },
            fds: 0,
            fd: 0,
            ..self
        }
    }

    /// The search, going on with the link after this one.
    pub open spec fn next_link(self) -> Self {
        if self.fd + 1 < self.fds {
            InodeSearchView { fd: self.fd + 1, ..self }
        } else {
            self.visit(self.entry + 1)
        }
    }

    /// The search with `permission_denied` set.
    pub open spec fn denied(self) -> Self {
        InodeSearchView {
            scan: InodeScanView { permission_denied: true, ..self.scan },
            ..self
        }
    }

    /// The search with the process looked at added to what was found.
    pub open spec fn found(self) -> Self {
        InodeSearchView {
            scan: InodeScanView {
                pids: self.scan.pids.push(pid_of(self.names[self.entry])->0 as u32),
                ..self.scan
            },
            ..self
        }
    }

    /// The search once it knows `answer`. An answer to another question leaves
    /// it as it is.
    pub open spec fn step(self, answer: AnswerView) -> Self {
        match (self.stage, answer) {
            (InodeStage::Processes, AnswerView::Processes(Some(names))) => InodeSearchView {
                names,
                ..self
            }.visit(0),
            (InodeStage::Processes, AnswerView::Processes(None)) => InodeSearchView {
                stage: InodeStage::Done,
                ..self
            },
            (InodeStage::Fds, AnswerView::Fds(FdListing::Count(fds))) => if fds > 0 {
                InodeSearchView { stage: InodeStage::Link, fds: fds as int, fd: 0, ..self }
            } else {
                self.visit(self.entry + 1)
            },
            (InodeStage::Fds, AnswerView::Fds(FdListing::Denied)) => self.denied().visit(
                self.entry + 1,
            ),
            (InodeStage::Fds, AnswerView::Fds(FdListing::Unreadable)) => self.visit(self.entry + 1),
            (InodeStage::Link, AnswerView::Link(link)) => if is_socket(link, self.inode) {
                self.found().visit(self.entry + 1)
            } else if link == FdLinkView::Denied {
                self.denied().next_link()
            } else {
                self.next_link()
            },
            _ => self,
        }
    }
}

impl View for InodeSearch {
    type V = InodeSearchView;

    closed spec fn view(&self) -> InodeSearchView {
        InodeSearchView {
            inode: self.inode,
            stage: self.stage,
            names: string_rows(self.names@),
            entry: self.entry as int,
            fds: self.fds as int,
            fd: self.fd as int,
            scan: self.scan@,
        }
    }
}

/// The next process found is one, and those passed over are none.
proof fn lemma_next_process(names: Seq<Seq<char>>, from: int)
    requires
        0 <= from <= names.len(),
    ensures
        from <= next_process(names, from) <= names.len(),
        next_process(names, from) < names.len() ==> pid_of(names[next_process(names, from)]) is Some,
        forall|i: int|
            from <= i < next_process(names, from) ==> pid_of(#[trigger] names[i]) is None,
    decreases names.len() - from,
{
    if from < names.len() && pid_of(names[from]) is None {
        lemma_next_process(names, from + 1);
    }
}

impl InodeSearch {
    /// Whether the search keeps to its invariant.
    pub closed spec fn well_formed(self) -> bool {
        &&& self@.well_formed()
        &&& self.stage is Fds || self.stage is Link ==> pid_of(self@.names[self@.entry]) == Some(
            self.pid as int,
        )
    }

    /// A search that keeps to its invariant has come to a well-formed state.
    pub proof fn lemma_view_well_formed(&self)
        requires
            self.well_formed(),
        ensures
            self@.well_formed(),
    {
    }

    /// Begins the search for the socket with this inode.
    pub fn new(inode: u64) -> (search: Self)
        ensures
            search.well_formed(),
            search@ == InodeSearchView::start(inode),
    {
        let search = InodeSearch {
            inode,
            stage: InodeStage::Processes,
            names: Vec::new(),
            entry: 0,
            pid: 0,
            fds: 0,
            fd: 0,
            scan: InodeScan::default(),
        };
        assert(search@ == InodeSearchView::start(inode));
        search
    }

    /// What the search needs to know next.
    pub fn request(&self) -> (out: Request)
        ensures
            out == self@.request(),
    {
        match self.stage {
            InodeStage::Processes => Request::ListProcesses,
            InodeStage::Fds => Request::ListFds { entry: self.entry },
            InodeStage::Link => Request::ReadLink { entry: self.entry, fd: self.fd },
            InodeStage::Done => Request::Nothing,
        }
    }

    /// Whether the search is over.
    pub fn is_done(&self) -> (yes: bool)
        ensures
            yes == (self@.stage is Done),
    {
        match self.stage {
            InodeStage::Done => true,
            _ => false,
        }
    }

    /// What was found so far.
    pub fn scan(&self) -> (scan: &InodeScan)
        ensures
            scan@ == self@.scan,
    {
        &self.scan
    }

    /// What was found, when the search is given up or over.
    pub fn into_scan(self) -> (scan: InodeScan)
        ensures
            scan@ == self@.scan,
    {
        self.scan
    }

    /// Goes on with the processes from place `from` on.
    fn visit(&mut self, from: usize)
        requires
            from <= old(self)@.names.len(),
        ensures
            final(self).well_formed(),
            final(self)@ == old(self)@.visit(from as int),
    {
        let ghost names = self@.names;
        let mut entry: usize = from;
        self.fds = 0;
        self.fd = 0;
        proof {
            lemma_next_process(names, from as int);
        }
        while entry < self.names.len()
            invariant
                names == string_rows(self.names@),
                from <= entry <= self.names@.len(),
                next_process(names, entry as int) == next_process(names, from as int),
                self.inode == old(self).inode,
                self.names == old(self).names,
                self.scan == old(self).scan,
                self.fds == 0,
                self.fd == 0,
            decreases self.names@.len() - entry,
        {
            assert(names[entry as int] == self.names@[entry as int]@);
            if let Some(pid) = read_pid(self.names[entry].as_str()) {
                self.entry = entry;
                self.pid = pid;
                self.stage = InodeStage::Fds;
                assert(self@ == old(self)@.visit(from as int));
                return;
            }
            entry = entry + 1;
        }
        self.entry = entry;
        self.stage = InodeStage::Done;
        assert(self@ == old(self)@.visit(from as int));
    }

    /// Goes on with the link after this one.
    fn next_link(&mut self)
        requires
            old(self).well_formed(),
            old(self)@.stage is Link,
        ensures
            final(self).well_formed(),
            final(self)@ == old(self)@.next_link(),
    {
        assert(self.entry < self.names.len());
        if self.fd + 1 < self.fds {
            self.fd = self.fd + 1;
            assert(self@ == old(self)@.next_link());
        } else {
            self.visit(self.entry + 1);
        }
    }

    /// Takes the answer to the request that the search made. An answer to
    /// another question leaves the search as it is.
    pub fn answer(&mut self, answer: Answer)
        requires
            old(self).well_formed(),
        ensures
            final(self).well_formed(),
            final(self)@ == old(self)@.step(answer@),
    {
        assert(self.stage is Fds || self.stage is Link ==> self.entry < self.names.len());
        match (self.stage, answer) {
            (InodeStage::Processes, Answer::Processes(Some(names))) => {
                self.names = names;
                let ghost listed = InodeSearchView { names: string_rows(names@), ..old(self)@ };
                assert(self@ == listed);
                self.visit(0);
            },
            (InodeStage::Processes, Answer::Processes(None)) => {
                self.stage = InodeStage::Done;
                assert(self@ == (InodeSearchView { stage: InodeStage::Done, ..old(self)@ }));
            },
            (InodeStage::Fds, Answer::Fds(FdListing::Count(fds))) => {
                if fds > 0 {
                    self.stage = InodeStage::Link;
                    self.fds = fds;
                    self.fd = 0;
                    assert(self@ == old(self)@.step(answer@));
                } else {
                    self.visit(self.entry + 1);
                }
            },
            (InodeStage::Fds, Answer::Fds(FdListing::Denied)) => {
                self.scan.permission_denied = true;
                assert(self@ == old(self)@.denied());
                self.visit(self.entry + 1);
            },
            (InodeStage::Fds, Answer::Fds(FdListing::Unreadable)) => {
                self.visit(self.entry + 1);
            },
            (InodeStage::Link, Answer::Link(FdLink::Target(target))) => {
                let mut wanted = String::new();
                wanted.append("socket:[");
                push_decimal(&mut wanted, self.inode);
                wanted.append("]");
                assert(wanted@ == socket_link(self.inode));
                if target == wanted {
                    self.scan.pids.push(self.pid);
                    assert(self@ == old(self)@.found());
                    self.visit(self.entry + 1);
                } else {
                    self.next_link();
                }
            },
            (InodeStage::Link, Answer::Link(FdLink::Denied)) => {
                self.scan.permission_denied = true;
                assert(self@ == old(self)@.denied());
                self.next_link();
            },
            (InodeStage::Link, Answer::Link(FdLink::Unreadable)) => {
                self.next_link();
            },
            _ => {},
        }
    }
}

impl InodeSearchView {
    /// Whether this is where a search stands that has been answered from
    /// `tree` throughout: what it has found is what there is in the entries it
    /// has been through.
    pub open spec fn agrees(self, tree: ProcTreeView) -> bool {
        match self.stage {
            InodeStage::Processes => self == Self::start(self.inode),
            InodeStage::Fds => {
                &&& tree.listable
                &&& self.names == tree.names()
                &&& self.scan == scan_of_first(tree, self.inode, self.entry)
            },
            InodeStage::Link => {
                &&& tree.listable
                &&& self.names == tree.names()
                &&& self.scan.pids == scan_of_first(tree, self.inode, self.entry).pids
                &&& tree.entries[self.entry].fds matches FdDirView::Links(links) && {
                    &&& links.len() == self.fds
                    &&& forall|i: int|
                        0 <= i < self.fd ==> !is_socket(#[trigger] links[i], self.inode)
                    &&& self.scan.permission_denied == (scan_of_first(
                        tree,
                        self.inode,
                        self.entry,
                    ).permission_denied || withheld_before(links, self.inode, self.fd))
                }
            },
            InodeStage::Done => self.scan == inode_scan(tree, self.inode),
        }
    }

    /// How much a search answered from `tree` still has to do.
    pub open spec fn left(self, tree: ProcTreeView) -> (nat, nat) {
        let rest = (tree.entries.len() - self.entry) as nat;
        match self.stage {
            InodeStage::Processes => ((tree.entries.len() + 1) as nat, 0),
            InodeStage::Fds => (rest, usize::MAX as nat + 1),
            InodeStage::Link => (rest, (self.fds - self.fd) as nat),
            InodeStage::Done => (0, 0),
        }
    }
}

/// Whether a tree could be one in memory: its directories have no more links
/// than can be counted.
pub open spec fn countable(tree: ProcTreeView) -> bool {
    forall|i: int|
        0 <= i < tree.entries.len() ==> ((#[trigger] tree.entries[i]).fds matches FdDirView::Links(
            links,
        ) ==> links.len() <= usize::MAX)
}

/// A tree in memory can be counted.
pub proof fn lemma_countable(tree: &ProcTree)
    ensures
        countable(tree@),
        tree@.entries.len() <= usize::MAX,
{
    assert(tree@.entries.len() == tree.entries.len());
    assert forall|i: int| 0 <= i < tree@.entries.len() implies ((#[trigger] tree@.entries[i]).fds
        matches FdDirView::Links(links) ==> links.len() <= usize::MAX) by {
        let entry = tree.entries@[i];
        assert(tree@.entries[i] == entry@);
        if let FdDir::Links(links) = entry.fds {
            assert(links@.map_values(|link: FdLink| link@).len() == links.len());
        }
    }
}

/// What one more entry adds to what was found.
proof fn lemma_one_more_entry(tree: ProcTreeView, inode: u64, n: int)
    requires
        0 <= n < tree.entries.len(),
    ensures
        scan_of_first(tree, inode, n + 1) == (InodeScanView {
            pids: match holder(tree.entries[n], inode) {
                Some(pid) => scan_of_first(tree, inode, n).pids.push(pid),
                None => scan_of_first(tree, inode, n).pids,
            },
            permission_denied: scan_of_first(tree, inode, n).permission_denied || withheld(
                tree.entries[n],
                inode,
            ),
        }),
{
    let f = |entry: ProcEntryView| holder(entry, inode);
    tree.entries.lemma_filter_map_take_succ(f, n);
    let before = scan_of_first(tree, inode, n);
    let after = scan_of_first(tree, inode, n + 1);
    if after.permission_denied {
        let i = choose|i: int| 0 <= i < n + 1 && withheld(#[trigger] tree.entries[i], inode);
        if i < n {
            assert(before.permission_denied);
        }
    }
    if before.permission_denied {
        let i = choose|i: int| 0 <= i < n && withheld(#[trigger] tree.entries[i], inode);
        assert(withheld(tree.entries[i], inode));
        assert(after.permission_denied);
    }
    if withheld(tree.entries[n], inode) {
        assert(after.permission_denied);
    }
}

/// Entries that are no process's directory add nothing.
proof fn lemma_pass_over(tree: ProcTreeView, inode: u64, from: int, to: int)
    requires
        0 <= from <= to <= tree.entries.len(),
        forall|i: int| from <= i < to ==> pid_of(#[trigger] tree.names()[i]) is None,
    ensures
        scan_of_first(tree, inode, from) == scan_of_first(tree, inode, to),
    decreases to - from,
{
    if from < to {
        assert(pid_of(tree.names()[from]) is None);
        lemma_one_more_entry(tree, inode, from);
        lemma_pass_over(tree, inode, from + 1, to);
    }
}

/// Going on from an entry that the search is through with keeps it in
/// agreement.
proof fn lemma_visit_agrees(search: InodeSearchView, tree: ProcTreeView, from: int)
    requires
        tree.listable,
        search.names == tree.names(),
        0 <= from <= tree.entries.len(),
        search.scan == scan_of_first(tree, search.inode, from),
    ensures
        search.visit(from).well_formed(),
        search.visit(from).agrees(tree),
        search.visit(from).entry >= from,
{
    lemma_next_process(search.names, from);
    lemma_pass_over(tree, search.inode, from, next_process(search.names, from));
}

/// A search that is answered from a tree stays in agreement with it, and each
/// answer brings it nearer to the end.
pub proof fn law_inode_search_step(search: InodeSearchView, tree: ProcTreeView)
    requires
        countable(tree),
        search.well_formed(),
        search.agrees(tree),
        !(search.stage is Done),
        tree.entries.len() <= usize::MAX,
    ensures
        search.step(tree.answer(search.request())).well_formed(),
        search.step(tree.answer(search.request())).agrees(tree),
        search.step(tree.answer(search.request())).inode == search.inode,
        ({
            let before = search.left(tree);
            let after = search.step(tree.answer(search.request())).left(tree);
            after.0 < before.0 || (after.0 == before.0 && after.1 < before.1)
        }),
{
    let inode = search.inode;
    let answer = tree.answer(search.request());
    match search.stage {
        InodeStage::Processes => {
            if tree.listable {
                let listed = InodeSearchView { names: tree.names(), ..search };
                assert(scan_of_first(tree, inode, 0).pids == Seq::<u32>::empty());
                assert(listed.scan == scan_of_first(tree, inode, 0));
                lemma_visit_agrees(listed, tree, 0);
            } else {
                assert(scan_of_first(tree, inode, 0).pids == Seq::<u32>::empty());
                assert(search.scan == scan_of_first(tree, inode, 0));
            }
        },
        InodeStage::Fds => {
            let entry = tree.entries[search.entry];
            assert(search.names[search.entry] == entry.name);
            lemma_one_more_entry(tree, inode, search.entry);
            match entry.fds {
                FdDirView::Links(links) => {
                    assert(answer == AnswerView::Fds(FdListing::Count(links.len() as usize)));
                    if links.len() == 0 {
                        lemma_visit_agrees(search, tree, search.entry + 1);
                    } else {
                        assert(!withheld_before(links, inode, 0));
                    }
                },
                FdDirView::Denied => {
                    assert(search.denied().scan == scan_of_first(tree, inode, search.entry + 1));
                    lemma_visit_agrees(search.denied(), tree, search.entry + 1);
                },
                FdDirView::Unreadable => {
                    lemma_visit_agrees(search, tree, search.entry + 1);
                },
            }
        },
        InodeStage::Link => {
            let entry = tree.entries[search.entry];
            assert(search.names[search.entry] == entry.name);
            let links = entry.fds->Links_0;
            let link = links[search.fd];
            assert(answer == AnswerView::Link(link));
            lemma_one_more_entry(tree, inode, search.entry);
            lemma_one_more_link(links, inode, search.fd);
            if is_socket(link, inode) {
                assert(holder(entry, inode) == Some(pid_of(entry.name)->0 as u32));
                lemma_links_after_socket(links, inode, search.fd);
                assert(search.found().scan == scan_of_first(tree, inode, search.entry + 1));
                lemma_visit_agrees(search.found(), tree, search.entry + 1);
            } else {
                let marked = if link == FdLinkView::Denied {
                    search.denied()
                } else {
                    search
                };
                if search.fd + 1 < search.fds {
                    assert(marked.next_link().agrees(tree));
                } else {
                    assert(holder(entry, inode) is None);
                    assert(marked.scan == scan_of_first(tree, inode, search.entry + 1));
                    lemma_visit_agrees(marked, tree, search.entry + 1);
                }
            }
        },
        InodeStage::Done => {},
    }
}

/// What one more link adds to what is withheld.
proof fn lemma_one_more_link(links: Seq<FdLinkView>, inode: u64, n: int)
    requires
        0 <= n < links.len(),
        forall|i: int| 0 <= i < n ==> !is_socket(#[trigger] links[i], inode),
    ensures
        withheld_before(links, inode, n + 1) == (withheld_before(links, inode, n) || links[n]
            == FdLinkView::Denied),
{
    if withheld_before(links, inode, n) {
        let i = choose|i: int|
            0 <= i < n && (#[trigger] links[i]) == FdLinkView::Denied && forall|j: int|
                0 <= j < i ==> !is_socket(#[trigger] links[j], inode);
        assert(links[i] == FdLinkView::Denied);
    }
}

/// What comes after the link to the socket does not count.
proof fn lemma_links_after_socket(links: Seq<FdLinkView>, inode: u64, n: int)
    requires
        0 <= n < links.len(),
        is_socket(links[n], inode),
    ensures
        withheld_before(links, inode, links.len() as int) == withheld_before(links, inode, n),
{
    if withheld_before(links, inode, links.len() as int) {
        let i = choose|i: int|
            0 <= i < links.len() && (#[trigger] links[i]) == FdLinkView::Denied && forall|j: int|
                0 <= j < i ==> !is_socket(#[trigger] links[j], inode);
        assert(i < n);
        assert(links[i] == FdLinkView::Denied);
    }
    if withheld_before(links, inode, n) {
        let i = choose|i: int|
            0 <= i < n && (#[trigger] links[i]) == FdLinkView::Denied && forall|j: int|
                0 <= j < i ==> !is_socket(#[trigger] links[j], inode);
        assert(links[i] == FdLinkView::Denied);
    }
}

/// Each entry of the listing adds what it shows, after what the entries before
/// it show: the process that it is named after, once, if one of its links
/// points to the socket; and the flag, if its directory, or a link before any
/// to the socket, belongs to another user.
pub proof fn law_each_entry_adds_what_it_shows(
    tree: ProcTreeView,
    more: ProcTreeView,
    inode: u64,
    entry: ProcEntryView,
)
    requires
        tree.listable,
        more.listable,
        more.entries == tree.entries.push(entry),
    ensures
        ({
            let socket = FdLinkView::Target("socket:["@ + decimal(inode as nat) + "]"@);
            let pid = parse_number(entry.name, 10, 4294967295);
            let holds = entry.fds matches FdDirView::Links(links) && exists|k: int|
                0 <= k < links.len() && (#[trigger] links[k]) == socket;
            let hides = entry.fds is Denied || (entry.fds matches FdDirView::Links(links)
                && exists|k: int|
                0 <= k < links.len() && (#[trigger] links[k]) is Denied && forall|j: int|
                    0 <= j < k ==> (#[trigger] links[j]) != socket);
            let before = inode_scan(tree, inode);
            let after = inode_scan(more, inode);
            &&& pid is Some && holds ==> after.pids == before.pids.push(pid->0 as u32)
            &&& pid is None || !holds ==> after.pids == before.pids
            &&& after.permission_denied <==> before.permission_denied || (pid is Some && hides)
        }),
{
    let n = tree.entries.len() as int;
    let socket = FdLinkView::Target("socket:["@ + decimal(inode as nat) + "]"@);
    assert(socket == FdLinkView::Target(socket_link(inode)));
    lemma_one_more_entry(more, inode, n);
    assert(more.entries.take(n) == tree.entries.take(n));
    let part = scan_of_first(more, inode, n);
    let before = inode_scan(tree, inode);
    assert(part.pids == before.pids);
    if part.permission_denied {
        let i = choose|i: int| 0 <= i < n && withheld(#[trigger] more.entries[i], inode);
        assert(withheld(tree.entries[i], inode));
    }
    if before.permission_denied {
        let i = choose|i: int| 0 <= i < n && withheld(#[trigger] tree.entries[i], inode);
        assert(withheld(more.entries[i], inode));
    }
    assert(more.entries[n] == entry);
    if let FdDirView::Links(links) = entry.fds {
        if exists|k: int| 0 <= k < links.len() && (#[trigger] links[k]) == socket {
            let k = choose|k: int| 0 <= k < links.len() && (#[trigger] links[k]) == socket;
            assert(is_socket(links[k], inode));
        }
        if exists|k: int| 0 <= k < links.len() && is_socket(#[trigger] links[k], inode) {
            let k = choose|k: int| 0 <= k < links.len() && is_socket(#[trigger] links[k], inode);
            assert(links[k] == socket);
        }
        if withheld_before(links, inode, links.len() as int) {
            let k = choose|k: int|
                0 <= k < links.len() && (#[trigger] links[k]) == FdLinkView::Denied && forall|j: int|
                    0 <= j < k ==> !is_socket(#[trigger] links[j], inode);
            assert forall|j: int| 0 <= j < k implies (#[trigger] links[j]) != socket by {
                assert(!is_socket(links[j], inode));
            }
            assert(links[k] is Denied);
        }
        if exists|k: int|
            0 <= k < links.len() && (#[trigger] links[k]) is Denied && forall|j: int|
                0 <= j < k ==> (#[trigger] links[j]) != socket {
            let k = choose|k: int|
                0 <= k < links.len() && (#[trigger] links[k]) is Denied && forall|j: int|
                    0 <= j < k ==> (#[trigger] links[j]) != socket;
            assert forall|j: int| 0 <= j < k implies !is_socket(#[trigger] links[j], inode) by {
                assert(links[j] != socket);
            }
            assert(links[k] == FdLinkView::Denied);
        }
    }
}

/// Where there are no entries, or none can be listed, no process is found and
/// nothing is flagged.
pub proof fn law_nothing_listed_nothing_found(tree: ProcTreeView, inode: u64)
    requires
        !tree.listable || tree.entries.len() == 0,
    ensures
        inode_scan(tree, inode).pids.len() == 0,
        !inode_scan(tree, inode).permission_denied,
{
    assert(tree.entries.take(0) == Seq::<ProcEntryView>::empty());
}

/// Where a search stands once it has had `n` answers from the tree.
pub open spec fn answered(search: InodeSearchView, tree: ProcTreeView, n: nat) -> InodeSearchView
    decreases n,
{
    if n == 0 {
        search
    } else {
        let before = answered(search, tree, (n - 1) as nat);
        before.step(tree.answer(before.request()))
    }
}

/// Answers count on from where a search stands.
proof fn lemma_answered_later(search: InodeSearchView, tree: ProcTreeView, n: nat)
    ensures
        answered(search, tree, n + 1) == answered(
            search.step(tree.answer(search.request())),
            tree,
            n,
        ),
    decreases n,
{
    reveal_with_fuel(answered, 2);
    if n > 0 {
        lemma_answered_later(search, tree, (n - 1) as nat);
    }
}

/// A search that agrees with the tree comes to its end in agreement.
proof fn lemma_search_ends(search: InodeSearchView, tree: ProcTreeView) -> (n: nat)
    requires
        countable(tree),
        tree.entries.len() <= usize::MAX,
        search.well_formed(),
        search.agrees(tree),
    ensures
        answered(search, tree, n).stage is Done,
        answered(search, tree, n).scan == inode_scan(tree, search.inode),
    decreases search.left(tree).0, search.left(tree).1,
{
    if search.stage is Done {
        0
    } else {
        law_inode_search_step(search, tree);
        let n = lemma_search_ends(search.step(tree.answer(search.request())), tree);
        lemma_answered_later(search, tree, n);
        n + 1
    }
}

/// Answered from a tree, a search ends, and has then found what there is in
/// the tree; from then on it asks for nothing, and nothing changes it.
pub proof fn law_inode_search_ends(tree: ProcTreeView, inode: u64)
    requires
        tree.entries.len() <= usize::MAX,
        forall|i: int|
            0 <= i < tree.entries.len() ==> ((#[trigger] tree.entries[i]).fds
                matches FdDirView::Links(links) ==> links.len() <= usize::MAX),
    ensures
        exists|n: nat|
            {
                let last = #[trigger] answered(InodeSearchView::start(inode), tree, n);
                &&& last.stage is Done
                &&& last.request() is Nothing
                &&& last.scan == inode_scan(tree, inode)
            },
        forall|search: InodeSearchView, answer: AnswerView|
            search.stage is Done ==> #[trigger] search.step(answer) == search,
{
    let n = lemma_search_ends(InodeSearchView::start(inode), tree);
    assert(answered(InodeSearchView::start(inode), tree, n).stage is Done);
}

/// A search begins with the root directory, and with nothing found.
pub proof fn law_inode_search_begins(inode: u64)
    ensures
        InodeSearchView::start(inode).inode == inode,
        InodeSearchView::start(inode).stage is Processes,
        InodeSearchView::start(inode).request() is ListProcesses,
        InodeSearchView::start(inode).scan.pids.len() == 0,
        !InodeSearchView::start(inode).scan.permission_denied,
{
}

/// The process to look at next is the first from some place on whose entry has
/// a number for a name; there is none at the end of the listing only.
pub proof fn law_next_process_is_the_first(names: Seq<Seq<char>>, from: int)
    requires
        0 <= from <= names.len(),
    ensures
        from <= next_process(names, from) <= names.len(),
        next_process(names, from) < names.len() ==> parse_number(
            names[next_process(names, from)],
            10,
            4294967295,
        ) is Some,
        forall|i: int|
            from <= i < next_process(names, from) ==> parse_number(
                #[trigger] names[i],
                10,
                4294967295,
            ) is None,
{
    lemma_next_process(names, from);
}

/// A listing is gone through from its start; without one there is nothing to
/// go through.
pub proof fn law_listing_is_gone_through(search: InodeSearchView, names: Seq<Seq<char>>)
    requires
        search.stage is Processes,
    ensures
        ({
            let next = search.step(AnswerView::Processes(Some(names)));
            let entry = next_process(names, 0);
            &&& next.inode == search.inode
            &&& next.names == names
            &&& next.scan == search.scan
            &&& next.entry == entry
            &&& entry < names.len() ==> next.stage is Fds
            &&& entry >= names.len() ==> next.stage is Done
        }),
        search.step(AnswerView::Processes(None)).stage is Done,
        search.step(AnswerView::Processes(None)).scan == search.scan,
{
}

/// A directory that can be listed is gone through link by link; one that
/// cannot, or that is empty, is passed over, and flagged only where it belongs
/// to another user.
pub proof fn law_directory_is_gone_through(search: InodeSearchView, listing: FdListing)
    requires
        search.stage is Fds,
        0 <= search.entry < search.names.len(),
    ensures
        ({
            let next = search.step(AnswerView::Fds(listing));
            let entry = next_process(search.names, search.entry + 1);
            let filled = listing matches FdListing::Count(count) && count > 0;
            &&& next.inode == search.inode
            &&& next.names == search.names
            &&& next.scan.pids == search.scan.pids
            &&& next.scan.permission_denied == (search.scan.permission_denied
                || listing is Denied)
            &&& filled ==> next.stage is Link && next.entry == search.entry && next.fd == 0
                && next.fds == listing->Count_0
            &&& !filled ==> next.entry == entry
            &&& !filled && entry < search.names.len() ==> next.stage is Fds
            &&& !filled && entry >= search.names.len() ==> next.stage is Done
        }),
{
}

/// Links are read one after the other, to the last or to the one that points
/// to the socket: there the process is found, and the next is looked at. A
/// link that belongs to another user is flagged.
pub proof fn law_links_are_gone_through(search: InodeSearchView, link: FdLinkView)
    requires
        search.stage is Link,
        0 <= search.entry < search.names.len(),
        parse_number(search.names[search.entry], 10, 4294967295) is Some,
        0 <= search.fd < search.fds,
    ensures
        ({
            let next = search.step(AnswerView::Link(link));
            let entry = next_process(search.names, search.entry + 1);
            let hit = link == FdLinkView::Target("socket:["@ + decimal(search.inode as nat) + "]"@);
            let on = !hit && search.fd + 1 < search.fds;
            &&& next.inode == search.inode
            &&& next.names == search.names
            &&& hit ==> next.scan.pids == search.scan.pids.push(
                parse_number(search.names[search.entry], 10, 4294967295)->0 as u32,
            )
            &&& !hit ==> next.scan.pids == search.scan.pids
            &&& next.scan.permission_denied == (search.scan.permission_denied || link is Denied)
            &&& on ==> next.stage is Link && next.entry == search.entry && next.fd == search.fd + 1
                && next.fds == search.fds
            &&& !on ==> next.entry == entry
            &&& !on && entry < search.names.len() ==> next.stage is Fds
            &&& !on && entry >= search.names.len() ==> next.stage is Done
        }),
{
    assert(socket_link(search.inode) == "socket:["@ + decimal(search.inode as nat) + "]"@);
}

/// A search asks for what it waits for, at the place where it stands, and an
/// answer to another question changes nothing.
pub proof fn law_inode_search_asks(search: InodeSearchView, answer: AnswerView)
    requires
        0 <= search.entry <= usize::MAX,
        0 <= search.fd <= usize::MAX,
    ensures
        search.stage is Processes ==> search.request() is ListProcesses,
        search.stage is Fds ==> search.request() == (Request::ListFds {
            entry: search.entry as usize,
        }),
        search.stage is Link ==> search.request() == (Request::ReadLink {
            entry: search.entry as usize,
            fd: search.fd as usize,
        }),
        search.stage is Done ==> search.request() is Nothing,
        !(search.stage is Processes && answer is Processes) && !(search.stage is Fds
            && answer is Fds) && !(search.stage is Link && answer is Link) ==> search.step(answer)
            == search,
{
}

} // verus!
