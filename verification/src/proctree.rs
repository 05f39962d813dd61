//! What can be read under a `/proc`-like root directory.
//!
//! A search never touches the file system itself. It puts a [`Request`], is
//! given the [`Answer`], and goes on from there; whoever runs it reads the
//! live `/proc`, or a [`ProcTree`] that holds what there is to read.

use vstd::prelude::*;

use crate::text::{decimal, push_decimal, string_rows};

verus! {

/// What reading one link under `<pid>/fd` gives.
#[derive(Debug, Clone, PartialEq)]
pub enum FdLink {
    /// What the link points to.
    Target(String),
    /// It belongs to another user (`EACCES`).
    Denied,
    /// It could not be read for another reason, such as having been closed.
    Unreadable,
}

/// What a directory `<pid>/fd` holds.
#[derive(Debug, Clone, PartialEq)]
pub enum FdDir {
    /// Its links, in the order in which they are listed.
    Links(Vec<FdLink>),
    /// It belongs to another user (`EACCES`).
    Denied,
    /// It could not be listed for another reason, such as the process being gone.
    Unreadable,
}

/// One entry of the root directory.
#[derive(Debug, Clone, PartialEq)]
pub struct ProcEntry {
    pub name: String,
    pub fds: FdDir,
    /// The text of `<name>/comm`, where it can be read.
    pub comm: Option<String>,
    /// The bytes of `<name>/cmdline`, where they can be read.
    pub cmdline: Option<Vec<u8>>,
}

/// A `/proc`-like directory.
#[derive(Debug, Clone, PartialEq)]
pub struct ProcTree {
    /// The text of `net/tcp`, where it can be read.
    pub tcp: Option<String>,
    /// The text of `net/tcp6`, where it can be read.
    pub tcp6: Option<String>,
    /// Whether the root directory can be listed.
    pub listable: bool,
    /// The entries of the root directory, in the order in which they are listed.
    pub entries: Vec<ProcEntry>,
}

/// Something a search needs to know.
#[derive(Debug, Clone, Copy, PartialEq, Eq)]
pub enum Request {
    /// The text of `net/tcp`, or of `net/tcp6`.
    ReadTable { ipv6: bool },
    /// The names in the root directory.
    ListProcesses,
    /// How many links there are in the `fd` directory of the entry at this
    /// place in the listing of the root directory.
    ListFds { entry: usize },
    /// The link at place `fd` in the `fd` directory of an entry.
    ReadLink { entry: usize, fd: usize },
    /// The text of `<pid>/comm`.
    ReadComm { pid: u32 },
    /// The bytes of `<pid>/cmdline`.
    ReadCmdline { pid: u32 },
    /// Nothing more: the search is over.
    Nothing,
}

/// What listing an `fd` directory gives.
#[derive(Debug, Clone, Copy, PartialEq, Eq)]
pub enum FdListing {
    /// The number of links.
    Count(usize),
    /// It belongs to another user (`EACCES`).
    Denied,
    /// It could not be listed for another reason.
    Unreadable,
}

/// The answer to a [`Request`].
#[derive(Debug, Clone, PartialEq)]
pub enum Answer {
    Table(Option<String>),
    Processes(Option<Vec<String>>),
    Fds(FdListing),
    Link(FdLink),
    Comm(Option<String>),
    Cmdline(Option<Vec<u8>>),
    Nothing,
}

/// What an [`FdLink`] says.
#[verifier::ext_equal]
pub enum FdLinkView {
    Target(Seq<char>),
    Denied,
    Unreadable,
}

/// What an [`FdDir`] says.
#[verifier::ext_equal]
pub enum FdDirView {
    Links(Seq<FdLinkView>),
    Denied,
    Unreadable,
}

/// What a [`ProcEntry`] says.
#[verifier::ext_equal]
pub struct ProcEntryView {
    pub name: Seq<char>,
    pub fds: FdDirView,
    pub comm: Option<Seq<char>>,
    pub cmdline: Option<Seq<u8>>,
}

/// What a [`ProcTree`] says.
#[verifier::ext_equal]
pub struct ProcTreeView {
    pub tcp: Option<Seq<char>>,
    pub tcp6: Option<Seq<char>>,
    pub listable: bool,
    pub entries: Seq<ProcEntryView>,
}

/// What an [`Answer`] says.
#[verifier::ext_equal]
pub enum AnswerView {
    Table(Option<Seq<char>>),
    Processes(Option<Seq<Seq<char>>>),
    Fds(FdListing),
    Link(FdLinkView),
    Comm(Option<Seq<char>>),
    Cmdline(Option<Seq<u8>>),
    Nothing,
}

/// The characters of a text that may be missing.
pub open spec fn text_view(text: Option<String>) -> Option<Seq<char>> {
    match text {
        Some(text) => Some(text@),
        None => None,
    }
}

/// The bytes of a file that may be missing.
pub open spec fn bytes_view(bytes: Option<Vec<u8>>) -> Option<Seq<u8>> {
    match bytes {
        Some(bytes) => Some(bytes@),
        None => None,
    }
}

impl View for FdLink {
    type V = FdLinkView;

    open spec fn view(&self) -> FdLinkView {
        match *self {
            FdLink::Target(target) => FdLinkView::Target(target@),
            FdLink::Denied => FdLinkView::Denied,
            FdLink::Unreadable => FdLinkView::Unreadable,
        }
    }
}

impl View for FdDir {
    type V = FdDirView;

    open spec fn view(&self) -> FdDirView {
        match *self {
            FdDir::Links(links) => FdDirView::Links(links@.map_values(|link: FdLink| link@)),
            FdDir::Denied => FdDirView::Denied,
            FdDir::Unreadable => FdDirView::Unreadable,
        }
    }
}

impl View for ProcEntry {
    type V = ProcEntryView;

    open spec fn view(&self) -> ProcEntryView {
        ProcEntryView {
            name: self.name@,
            fds: self.fds@,
            comm: text_view(self.comm),
            cmdline: bytes_view(self.cmdline),
        }
    }
}

impl View for ProcTree {
    type V = ProcTreeView;

    open spec fn view(&self) -> ProcTreeView {
        ProcTreeView {
            tcp: text_view(self.tcp),
            tcp6: text_view(self.tcp6),
            listable: self.listable,
            entries: self.entries@.map_values(|entry: ProcEntry| entry@),
        }
    }
}

impl View for Answer {
    type V = AnswerView;

    open spec fn view(&self) -> AnswerView {
        match *self {
            Answer::Table(text) => AnswerView::Table(text_view(text)),
            Answer::Processes(Some(names)) => AnswerView::Processes(Some(string_rows(names@))),
            Answer::Processes(None) => AnswerView::Processes(None),
            Answer::Fds(listing) => AnswerView::Fds(listing),
            Answer::Link(link) => AnswerView::Link(link@),
            Answer::Comm(text) => AnswerView::Comm(text_view(text)),
            Answer::Cmdline(bytes) => AnswerView::Cmdline(bytes_view(bytes)),
            Answer::Nothing => AnswerView::Nothing,
        }
    }
}

impl ProcTreeView {
    /// The text of `net/tcp` or `net/tcp6`.
    pub open spec fn table(self, ipv6: bool) -> Option<Seq<char>> {
        if ipv6 {
            self.tcp6
        } else {
            self.tcp
        }
    }

    /// The names in the root directory.
    pub open spec fn names(self) -> Seq<Seq<char>> {
        self.entries.map_values(|entry: ProcEntryView| entry.name)
    }

    /// Whether the directory of process `pid` is there.
    pub open spec fn has_process(self, pid: u32) -> bool {
        self.names().contains(decimal(pid as nat))
    }

    /// The directory of process `pid`, where it is there.
    pub open spec fn process(self, pid: u32) -> ProcEntryView {
        self.entries[self.names().index_of_first(decimal(pid as nat))->0]
    }

    /// The text of `<pid>/comm`, where it can be read.
    pub open spec fn comm(self, pid: u32) -> Option<Seq<char>> {
        if self.has_process(pid) {
            self.process(pid).comm
        } else {
            None
        }
    }

    /// The bytes of `<pid>/cmdline`, where they can be read.
    pub open spec fn cmdline(self, pid: u32) -> Option<Seq<u8>> {
        if self.has_process(pid) {
            self.process(pid).cmdline
        } else {
            None
        }
    }

    /// What listing the `fd` directory of an entry gives.
    pub open spec fn fd_listing(self, entry: int) -> FdListing {
        if 0 <= entry < self.entries.len() {
            match self.entries[entry].fds {
                FdDirView::Links(links) => FdListing::Count(links.len() as usize),
                FdDirView::Denied => FdListing::Denied,
                FdDirView::Unreadable => FdListing::Unreadable,
            }
        } else {
            FdListing::Unreadable
        }
    }

    /// What reading a link gives.
    pub open spec fn fd_link(self, entry: int, fd: int) -> FdLinkView {
        if 0 <= entry < self.entries.len() {
            match self.entries[entry].fds {
                FdDirView::Links(links) => if 0 <= fd < links.len() {
                    links[fd]
                } else {
                    FdLinkView::Unreadable
                },
                _ => FdLinkView::Unreadable,
            }
        } else {
            FdLinkView::Unreadable
        }
    }

    /// The answer that this tree gives to a request.
    pub open spec fn answer(self, request: Request) -> AnswerView {
        match request {
            Request::ReadTable { ipv6 } => AnswerView::Table(self.table(ipv6)),
            Request::ListProcesses => AnswerView::Processes(
                if self.listable {
                    Some(self.names())
                } else {
                    None
                },
            ),
            Request::ListFds { entry } => AnswerView::Fds(self.fd_listing(entry as int)),
            Request::ReadLink { entry, fd } => AnswerView::Link(
                self.fd_link(entry as int, fd as int),
            ),
            Request::ReadComm { pid } => AnswerView::Comm(self.comm(pid)),
            Request::ReadCmdline { pid } => AnswerView::Cmdline(self.cmdline(pid)),
            Request::Nothing => AnswerView::Nothing,
        }
    }
}

/// A copy of a text that may be missing.
pub fn copy_text(text: &Option<String>) -> (out: Option<String>)
    ensures
        out == *text,
{
    match text {
        Some(text) => Some(text.clone()),
        None => None,
    }
}

impl ProcTree {
    /// The place of the directory of process `pid` in the listing.
    fn find(&self, pid: u32) -> (out: Option<usize>)
        ensures
            match out {
                Some(k) => k < self@.entries.len() && self@.names().index_of_first(
                    decimal(pid as nat),
                ) == Some(k as int),
                None => self@.names().index_of_first(decimal(pid as nat)) is None,
            },
            out is Some <==> self@.has_process(pid),
    {
        let mut wanted = String::new();
        push_decimal(&mut wanted, pid as u64);
        let ghost key = decimal(pid as nat);
        assert(wanted@ == key);
        proof {
            self@.names().index_of_first_ensures(key);
        }
        for i in 0..self.entries.len()
            invariant
                wanted@ == key,
                key == decimal(pid as nat),
                forall|j: int| 0 <= j < i ==> self@.names()[j] != key,
        {
            assert(self@.names()[i as int] == self.entries@[i as int].name@);
            if self.entries[i].name == wanted {
                proof {
                    self@.names().index_of_first_ensures(key);
                }
                return Some(i);
            }
        }
        proof {
            self@.names().index_of_first_ensures(key);
        }
        None
    }

    /// Whether the directory of process `pid` is there.
    pub fn has_process(&self, pid: u32) -> (yes: bool)
        ensures
            yes == self@.has_process(pid),
    {
        self.find(pid).is_some()
    }

    /// The text of `<pid>/comm`, where it can be read.
    pub fn comm(&self, pid: u32) -> (out: Option<String>)
        ensures
            text_view(out) == self@.comm(pid),
    {
        match self.find(pid) {
            Some(k) => copy_text(&self.entries[k].comm),
            None => None,
        }
    }

    /// The bytes of `<pid>/cmdline`, where they can be read.
    pub fn cmdline(&self, pid: u32) -> (out: Option<Vec<u8>>)
        ensures
            bytes_view(out) == self@.cmdline(pid),
    {
        match self.find(pid) {
            Some(k) => match &self.entries[k].cmdline {
                Some(bytes) => {
                    let copy = bytes.clone();
                    assert(copy@ == bytes@);
                    Some(copy)
                },
                None => None,
            },
            None => None,
        }
    }

    /// The names in the root directory.
    fn names(&self) -> (out: Vec<String>)
        ensures
            string_rows(out@) == self@.names(),
    {
        let mut out: Vec<String> = Vec::new();
        for i in 0..self.entries.len()
            invariant
                string_rows(out@) == self@.names().take(i as int),
        {
            let name = self.entries[i].name.clone();
            let ghost before = string_rows(out@);
            out.push(name);
            assert(string_rows(out@) == before.push(self@.names()[i as int]));
        }
        out
    }

    /// What listing the `fd` directory of an entry gives.
    fn fd_listing(&self, entry: usize) -> (out: FdListing)
        ensures
            out == self@.fd_listing(entry as int),
    {
        if entry < self.entries.len() {
            assert(self@.entries[entry as int] == self.entries@[entry as int]@);
            match &self.entries[entry].fds {
                FdDir::Links(links) => FdListing::Count(links.len()),
                FdDir::Denied => FdListing::Denied,
                FdDir::Unreadable => FdListing::Unreadable,
            }
        } else {
            FdListing::Unreadable
        }
    }

    /// What reading a link gives.
    fn fd_link(&self, entry: usize, fd: usize) -> (out: FdLink)
        ensures
            out@ == self@.fd_link(entry as int, fd as int),
    {
        if entry < self.entries.len() {
            assert(self@.entries[entry as int] == self.entries@[entry as int]@);
            if let FdDir::Links(links) = &self.entries[entry].fds {
                if fd < links.len() {
                    return match &links[fd] {
                        FdLink::Target(target) => FdLink::Target(target.clone()),
                        FdLink::Denied => FdLink::Denied,
                        FdLink::Unreadable => FdLink::Unreadable,
                    };
                }
            }
        }
        FdLink::Unreadable
    }

    /// Answers a request from what this tree holds.
    pub fn answer(&self, request: Request) -> (out: Answer)
        ensures
            out@ == self@.answer(request),
    {
        match request {
            Request::ReadTable { ipv6 } => if ipv6 {
                Answer::Table(copy_text(&self.tcp6))
            } else {
                Answer::Table(copy_text(&self.tcp))
            },
            Request::ListProcesses => if self.listable {
                Answer::Processes(Some(self.names()))
            } else {
                Answer::Processes(None)
            },
            Request::ListFds { entry } => Answer::Fds(self.fd_listing(entry)),
            Request::ReadLink { entry, fd } => Answer::Link(self.fd_link(entry, fd)),
            Request::ReadComm { pid } => Answer::Comm(self.comm(pid)),
            Request::ReadCmdline { pid } => Answer::Cmdline(self.cmdline(pid)),
            Request::Nothing => Answer::Nothing,
        }
    }
}

/// A tree is seen whole: each file and each entry as it is, in order.
pub proof fn law_tree_is_seen_whole(tree: ProcTree, i: int)
    requires
        0 <= i < tree.entries@.len(),
    ensures
        tree@.tcp == (match tree.tcp {
            Some(text) => Some(text@),
            None => None,
        }),
        tree@.tcp6 == (match tree.tcp6 {
            Some(text) => Some(text@),
            None => None,
        }),
        tree@.listable == tree.listable,
        tree@.entries.len() == tree.entries@.len(),
        tree@.entries[i].name == tree.entries@[i].name@,
        tree@.entries[i].comm == (match tree.entries@[i].comm {
            Some(text) => Some(text@),
            None => None,
        }),
        tree@.entries[i].cmdline == (match tree.entries@[i].cmdline {
            Some(bytes) => Some(bytes@),
            None => None,
        }),
        tree@.entries[i].fds == tree.entries@[i].fds@,
{
}

/// A tree without entries is seen without entries, and its files as they are.
pub proof fn law_bare_tree_is_seen_whole(tree: ProcTree)
    requires
        tree.entries@.len() == 0,
    ensures
        tree@.tcp == (match tree.tcp {
            Some(text) => Some(text@),
            None => None,
        }),
        tree@.tcp6 == (match tree.tcp6 {
            Some(text) => Some(text@),
            None => None,
        }),
        tree@.listable == tree.listable,
        tree@.entries.len() == 0,
{
}

/// A directory is seen whole: each of its links as it is, in order.
pub proof fn law_links_are_seen_whole(fds: FdDir, link: FdLink)
    ensures
        fds matches FdDir::Links(links) ==> (fds@ matches FdDirView::Links(seen) && seen.len()
            == links@.len() && forall|k: int| 0 <= k < links@.len() ==> #[trigger] seen[k] == links@[k]@),
        fds is Denied ==> fds@ is Denied,
        fds is Unreadable ==> fds@ is Unreadable,
        link matches FdLink::Target(target) ==> link@ == FdLinkView::Target(target@),
        link is Denied ==> link@ is Denied,
        link is Unreadable ==> link@ is Unreadable,
{
}

/// An answer is seen as it was given.
pub proof fn law_answers_are_seen_whole(answer: Answer)
    ensures
        answer matches Answer::Table(text) ==> answer@ == AnswerView::Table(
            match text {
                Some(text) => Some(text@),
                None => None,
            },
        ),
        answer matches Answer::Processes(Some(names)) ==> (answer@ matches AnswerView::Processes(
            Some(seen),
        ) && seen.len() == names@.len() && forall|k: int|
            0 <= k < names@.len() ==> #[trigger] seen[k] == names@[k]@),
        answer matches Answer::Processes(None) ==> answer@ == AnswerView::Processes(None),
        answer matches Answer::Fds(listing) ==> answer@ == AnswerView::Fds(listing),
        answer matches Answer::Link(link) ==> answer@ == AnswerView::Link(link@),
        answer matches Answer::Comm(text) ==> answer@ == AnswerView::Comm(
            match text {
                Some(text) => Some(text@),
                None => None,
            },
        ),
        answer matches Answer::Cmdline(bytes) ==> answer@ == AnswerView::Cmdline(
            match bytes {
                Some(bytes) => Some(bytes@),
                None => None,
            },
        ),
        answer is Nothing ==> answer@ is Nothing,
{
}

/// A process is there where an entry is named after its PID, and its files are
/// those of the first such entry.
pub proof fn law_process_has_its_files(tree: ProcTreeView, pid: u32, i: int)
    requires
        0 <= i < tree.entries.len(),
        tree.entries[i].name == decimal(pid as nat),
        forall|j: int| 0 <= j < i ==> (#[trigger] tree.entries[j]).name != decimal(pid as nat),
    ensures
        tree.has_process(pid),
        tree.comm(pid) == tree.entries[i].comm,
        tree.cmdline(pid) == tree.entries[i].cmdline,
{
    let key = decimal(pid as nat);
    assert(tree.names()[i] == key);
    assert(tree.names().contains(key));
    tree.names().index_of_first_ensures(key);
    let k = tree.names().index_of_first(key)->0;
    assert(tree.names()[k] == tree.entries[k].name);
    assert(k == i) by {
        if k < i {
            assert(tree.entries[k].name != key);
        }
    }
}

/// Where no entry is named after its PID, a process is not there and has no
/// files.
pub proof fn law_absent_process_has_no_files(tree: ProcTreeView, pid: u32)
    requires
        forall|j: int|
            0 <= j < tree.entries.len() ==> (#[trigger] tree.entries[j]).name != decimal(pid as nat),
    ensures
        !tree.has_process(pid),
        tree.comm(pid) is None,
        tree.cmdline(pid) is None,
{
    let key = decimal(pid as nat);
    if tree.names().contains(key) {
        let k = choose|k: int| 0 <= k < tree.names().len() && tree.names()[k] == key;
        assert(tree.entries[k].name == key);
    }
}

/// A tree answers for its files: each table, and the two files of a process.
pub proof fn law_tree_answers_for_files(tree: ProcTreeView, pid: u32)
    ensures
        tree.answer(Request::ReadTable { ipv6: false }) == AnswerView::Table(tree.tcp),
        tree.answer(Request::ReadTable { ipv6: true }) == AnswerView::Table(tree.tcp6),
        tree.answer(Request::ReadComm { pid }) == AnswerView::Comm(tree.comm(pid)),
        tree.answer(Request::ReadCmdline { pid }) == AnswerView::Cmdline(tree.cmdline(pid)),
        tree.answer(Request::Nothing) is Nothing,
{
}

/// A tree answers for its directories: the names in the root directory where
/// it can be listed, the number of links of each entry, and each of the links.
pub proof fn law_tree_answers_for_directories(tree: ProcTreeView, entry: usize, fd: usize)
    requires
        entry < tree.entries.len(),
    ensures
        !tree.listable ==> tree.answer(Request::ListProcesses) == AnswerView::Processes(None),
        tree.listable ==> (tree.answer(Request::ListProcesses) matches AnswerView::Processes(
            Some(names),
        ) && names.len() == tree.entries.len() && forall|k: int|
            0 <= k < names.len() ==> #[trigger] names[k] == tree.entries[k].name),
        tree.entries[entry as int].fds matches FdDirView::Links(links) ==> links.len() <= usize::MAX
            ==> tree.answer(Request::ListFds { entry }) == AnswerView::Fds(
            FdListing::Count(links.len() as usize),
        ),
        tree.entries[entry as int].fds is Denied ==> tree.answer(Request::ListFds { entry })
            == AnswerView::Fds(FdListing::Denied),
        tree.entries[entry as int].fds is Unreadable ==> tree.answer(Request::ListFds { entry })
            == AnswerView::Fds(FdListing::Unreadable),
        tree.entries[entry as int].fds matches FdDirView::Links(links) ==> fd < links.len()
            ==> tree.answer(Request::ReadLink { entry, fd }) == AnswerView::Link(links[fd as int]),
{
}

/// A tree has nothing to say of entries and links that it does not hold.
pub proof fn law_tree_answers_for_nothing_else(tree: ProcTreeView, entry: usize, fd: usize)
    ensures
        entry >= tree.entries.len() ==> tree.answer(Request::ListFds { entry }) == AnswerView::Fds(
            FdListing::Unreadable,
        ),
        entry >= tree.entries.len() || !(tree.entries[entry as int].fds matches FdDirView::Links(
            links,
        ) && fd < links.len()) ==> tree.answer(Request::ReadLink { entry, fd })
            == AnswerView::Link(FdLinkView::Unreadable),
        tree.listable && tree.entries.len() == 0 ==> tree.answer(Request::ListProcesses)
            == AnswerView::Processes(Some(Seq::empty())),
        !tree.listable ==> tree.answer(Request::ListProcesses) == AnswerView::Processes(None),
{
    if tree.entries.len() == 0 {
        assert(tree.names() == Seq::<Seq<char>>::empty());
    }
}

/// What can be read is seen as it is, and what is missing is missing.
pub proof fn law_missing_is_missing(text: String, bytes: Vec<u8>)
    ensures
        text_view(Some(text)) == Some(text@),
        text_view(None) is None,
        bytes_view(Some(bytes)) == Some(bytes@),
        bytes_view(None) is None,
{
}

} // verus!
