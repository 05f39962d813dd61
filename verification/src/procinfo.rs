//! Maps a socket inode back to the processes that hold it open.
//!
//! A process holds a socket where one of the links under `<pid>/fd` points to
//! `socket:[<inode>]`. The module also makes a process's name and command line
//! out of what `<pid>/comm` and `<pid>/cmdline` hold.

use vstd::prelude::*;
use vstd::utf8::{
    char_is_scalar, char_u32_cast, decode_utf8, decode_utf8_encode_utf8, encode_scalar,
    encode_utf8, encode_utf8_decode_utf8, encode_utf8_valid_utf8, is_scalar, valid_utf8,
};

use crate::inode_search::{countable, law_inode_search_step, lemma_countable, InodeSearch};
use crate::proctree::{
    law_absent_process_has_no_files, law_process_has_its_files, text_view, FdDirView, FdLinkView,
    ProcEntryView, ProcTree, ProcTreeView,
};
use crate::text::{
    chars_of, decimal, digits_value, is_white_space, join, join_strings, law_decimal_is_read_back,
    law_trim, law_trim_leaves_the_rest,
    lemma_filter_all, lemma_split_at_separator, lemma_split_run, lemma_split_where_len, non_empty,
    parse_number, read_number, split_filled, split_where, string_rows, trim, trimmed,
};

verus! {

/// One process found holding an fd for a matched socket inode.
#[derive(Debug, Clone, PartialEq)]
pub struct ProcessInfo {
    pub pid: u32,
    pub name: Option<String>,
    pub cmdline: Option<String>,
}

/// What a [`ProcessInfo`] says.
#[verifier::ext_equal]
pub struct ProcessInfoView {
    pub pid: u32,
    pub name: Option<Seq<char>>,
    pub cmdline: Option<Seq<char>>,
}

impl View for ProcessInfo {
    type V = ProcessInfoView;

    open spec fn view(&self) -> ProcessInfoView {
        ProcessInfoView {
            pid: self.pid,
            name: text_view(self.name),
            cmdline: text_view(self.cmdline),
        }
    }
}

/// Result of scanning every `<pid>/fd` directory for one target inode.
#[derive(Debug, Clone, PartialEq)]
pub struct InodeScan {
    /// Usually 0 or 1 PID. More than one is real: a listening socket's fd is
    /// commonly inherited across `fork()`.
    pub pids: Vec<u32>,
    /// Set when something that belongs to another user could not be read, so
    /// that some other process could also (or instead) be the owner. What was
    /// found is reported all the same.
    pub permission_denied: bool,
}

/// What an [`InodeScan`] says.
#[verifier::ext_equal]
pub struct InodeScanView {
    pub pids: Seq<u32>,
    pub permission_denied: bool,
}

impl View for InodeScan {
    type V = InodeScanView;

    open spec fn view(&self) -> InodeScanView {
        InodeScanView { pids: self.pids@, permission_denied: self.permission_denied }
    }
}

impl Default for InodeScan {
    fn default() -> (scan: Self)
        ensures
            scan@ == (InodeScanView { pids: Seq::empty(), permission_denied: false }),
    {
        InodeScan { pids: Vec::new(), permission_denied: false }
    }
}

/// The process whose directory has this name, where it is a process's.
pub open spec fn pid_of(name: Seq<char>) -> Option<int> {
    parse_number(name, 10, u32::MAX as int)
}

/// What a link to the socket with this inode points to.
pub open spec fn socket_link(inode: u64) -> Seq<char> {
    "socket:["@ + decimal(inode as nat) + "]"@
}

/// Whether this link points to the socket.
pub open spec fn is_socket(link: FdLinkView, inode: u64) -> bool {
    link == FdLinkView::Target(socket_link(inode))
}

/// The process that this entry shows to hold the socket open.
pub open spec fn holder(entry: ProcEntryView, inode: u64) -> Option<u32> {
    match (pid_of(entry.name), entry.fds) {
        (Some(pid), FdDirView::Links(links)) => if exists|i: int|
            0 <= i < links.len() && is_socket(#[trigger] links[i], inode) {
            Some(pid as u32)
        } else {
            None
        },
        _ => None,
    }
}

/// Whether looking for the socket in this process's directory meets something
/// that belongs to another user. The links are read up to the one that points
/// to the socket.
pub open spec fn withheld(entry: ProcEntryView, inode: u64) -> bool {
    pid_of(entry.name) is Some && match entry.fds {
        FdDirView::Links(links) => withheld_before(links, inode, links.len() as int),
        FdDirView::Denied => true,
        FdDirView::Unreadable => false,
    }
}

/// Whether one of the first `n` links belongs to another user and comes before
/// every link to the socket.
pub open spec fn withheld_before(links: Seq<FdLinkView>, inode: u64, n: int) -> bool {
    exists|i: int|
        0 <= i < n && (#[trigger] links[i]) == FdLinkView::Denied && forall|j: int|
            0 <= j < i ==> !is_socket(#[trigger] links[j], inode)
}

/// What is found in the first `n` entries of the tree.
pub open spec fn scan_of_first(tree: ProcTreeView, inode: u64, n: int) -> InodeScanView {
    InodeScanView {
        pids: tree.entries.take(n).filter_map(|entry: ProcEntryView| holder(entry, inode)),
        permission_denied: exists|i: int| 0 <= i < n && withheld(#[trigger] tree.entries[i], inode),
    }
}

/// The processes that hold the socket open, in the order of the listing, and
/// whether something was withheld. Entries that are no process's directory are
/// passed over.
pub open spec fn inode_scan(tree: ProcTreeView, inode: u64) -> InodeScanView {
    scan_of_first(
        tree,
        inode,
        if tree.listable {
            tree.entries.len() as int
        } else {
            0
        },
    )
}

/// The process name that the text of `comm` gives.
pub open spec fn name_of(comm: Option<Seq<char>>) -> Option<Seq<char>> {
    match comm {
        Some(text) => if trim(text).len() > 0 {
            Some(trim(text))
        } else {
            None
        },
        None => None,
    }
}

/// The text that the standard library makes of bytes that are not valid UTF-8:
/// what is invalid is replaced.
pub uninterp spec fn utf8_lossy(bytes: Seq<u8>) -> Seq<char>;

/// The text that bytes stand for: their UTF-8 decoding, with what is invalid
/// replaced.
pub open spec fn lossy_text(bytes: Seq<u8>) -> Seq<char> {
    if valid_utf8(bytes) {
        decode_utf8(bytes)
    } else {
        utf8_lossy(bytes)
    }
}

/// The arguments in `raw`, which ends each with a NUL byte. Empty ones are
/// left out.
pub open spec fn raw_args(raw: Seq<u8>) -> Seq<Seq<u8>> {
    non_empty(split_where(raw, |b: u8| b == 0))
}

/// The command line made of `args`, or `None` where nothing is left to show.
pub open spec fn args_line(args: Seq<Seq<char>>) -> Option<Seq<char>> {
    let line = join(args, " "@);
    if line.len() > 0 {
        Some(line)
    } else {
        None
    }
}

/// The command line that the bytes of `cmdline` give.
pub open spec fn cmdline_of(raw: Option<Seq<u8>>) -> Option<Seq<char>> {
    match raw {
        Some(raw) => args_line(raw_args(raw).map_values(|arg: Seq<u8>| lossy_text(arg))),
        None => None,
    }
}

/// What the tree tells of process `pid`.
pub open spec fn info_of(tree: ProcTreeView, pid: u32) -> ProcessInfoView {
    ProcessInfoView { pid, name: name_of(tree.comm(pid)), cmdline: cmdline_of(tree.cmdline(pid)) }
}

/// The text of `bytes`, by [`String::from_utf8_lossy`]: the characters that
/// they encode where they are valid UTF-8, and otherwise a text in which what
/// is invalid is replaced by U+FFFD, and which holds a NUL only where the bytes
/// do. How many U+FFFD stand for what is invalid stays unsaid; it depends on
/// the bytes alone.
#[verifier::external_body]
fn decode_lossy(bytes: &[u8]) -> (out: String)
    ensures
        out@ == (if valid_utf8(bytes@) {
            decode_utf8(bytes@)
        } else {
            utf8_lossy(bytes@)
        }),
        !valid_utf8(bytes@) ==> out@.contains('\u{fffd}'),
        !valid_utf8(bytes@) && !bytes@.contains(0) ==> !out@.contains('\0'),
{
    String::from_utf8_lossy(bytes).into_owned()
}

/// The process whose directory has this name.
pub fn read_pid(name: &str) -> (out: Option<u32>)
    ensures
        match out {
            Some(pid) => pid_of(name@) == Some(pid as int),
            None => pid_of(name@) is None,
        },
{
    let chars = chars_of(name);
    match read_number(chars.as_slice(), 10, u32::MAX as u64) {
        Some(pid) => Some(pid as u32),
        None => None,
    }
}

/// The process name that the text of `comm` gives: the text without the white
/// space around it, unless nothing is left.
pub fn read_name(comm: Option<&str>) -> (out: Option<String>)
    ensures
        text_view(out) == name_of(
            match comm {
                Some(text) => Some(text@),
                None => None,
            },
        ),
{
    match comm {
        Some(text) => {
            let name = trimmed(text);
            if name.as_str().is_empty() {
                None
            } else {
                Some(name)
            }
        },
        None => None,
    }
}

/// The arguments in `raw`, which ends each with a NUL byte.
pub fn split_args(raw: &[u8]) -> (out: Vec<Vec<u8>>)
    ensures
        out@.map_values(|arg: Vec<u8>| arg@) == raw_args(raw@),
{
    let is_sep = |b: u8| -> (yes: bool)
        ensures
            yes == (b == 0),
    {
        b == 0
    };
    split_filled(raw, is_sep, Ghost(|b: u8| b == 0))
}

/// The command line made of `args`, or `None` where nothing is left to show.
pub fn join_args(args: &[String]) -> (out: Option<String>)
    ensures
        text_view(out) == args_line(string_rows(args@)),
{
    let line = join_strings(args, " ");
    if line.as_str().is_empty() {
        None
    } else {
        Some(line)
    }
}

/// The command line that the bytes of `cmdline` give: the arguments, joined
/// with spaces, unless there are none. No NUL is left in it.
pub fn read_cmdline(raw: Option<&[u8]>) -> (out: Option<String>)
    ensures
        text_view(out) == cmdline_of(
            match raw {
                Some(bytes) => Some(bytes@),
                None => None,
            },
        ),
        out is Some <==> (raw matches Some(bytes) && raw_args(bytes@).len() > 0),
        out matches Some(line) ==> !line@.contains('\0'),
{
    match raw {
        Some(bytes) => {
            let args = split_args(bytes);
            let ghost texts = raw_args(bytes@).map_values(|arg: Seq<u8>| lossy_text(arg));
            let mut shown: Vec<String> = Vec::new();
            for i in 0..args.len()
                invariant
                    args@.map_values(|arg: Vec<u8>| arg@) == raw_args(bytes@),
                    texts == raw_args(bytes@).map_values(|arg: Seq<u8>| lossy_text(arg)),
                    texts.len() == args@.len(),
                    string_rows(shown@) == texts.take(i as int),
                    i > 0 ==> texts[0].len() > 0,
                    forall|k: int| 0 <= k < i ==> !(#[trigger] texts[k]).contains('\0'),
            {
                let text = decode_lossy(args[i].as_slice());
                let ghost before = string_rows(shown@);
                assert(raw_args(bytes@)[i as int] == args@[i as int]@);
                proof {
                    lemma_arguments_hold_something(bytes@, i as int);
                    lemma_arguments_without_nul(bytes@, i as int);
                    if valid_utf8(args@[i as int]@) {
                        lemma_decoded_without_nul(args@[i as int]@);
                    }
                }
                shown.push(text);
                assert(string_rows(shown@) == before.push(texts[i as int]));
            }
            proof {
                assert(texts.take(args@.len() as int) == texts);
                if texts.len() > 0 {
                    lemma_join_len(texts, " "@);
                }
                lemma_join_without_nul(texts);
            }
            join_args(shown.as_slice())
        },
        None => None,
    }
}

/// `/proc/<pid>/comm`: the short process name (e.g. `python3`).
pub fn process_name(tree: &ProcTree, pid: u32) -> (out: Option<String>)
    ensures
        text_view(out) == name_of(tree@.comm(pid)),
{
    match tree.comm(pid) {
        Some(comm) => read_name(Some(comm.as_str())),
        None => None,
    }
}

/// `/proc/<pid>/cmdline`: the process's argv, NUL-separated there and joined
/// with spaces here. Empty (a zombie, or some kernel threads) yields `None`.
pub fn process_cmdline(tree: &ProcTree, pid: u32) -> (out: Option<String>)
    ensures
        text_view(out) == cmdline_of(tree@.cmdline(pid)),
        out is Some <==> (tree@.cmdline(pid) matches Some(raw) && raw_args(raw).len() > 0),
        out matches Some(line) ==> !line@.contains('\0'),
{
    match tree.cmdline(pid) {
        Some(raw) => read_cmdline(Some(raw.as_slice())),
        None => None,
    }
}

/// Resolves every PID into a full `ProcessInfo`; what is missing becomes
/// `None`.
pub fn resolve_processes(tree: &ProcTree, pids: &[u32]) -> (out: Vec<ProcessInfo>)
    ensures
        out@.map_values(|info: ProcessInfo| info@) == pids@.map_values(
            |pid: u32| info_of(tree@, pid),
        ),
{
    let ghost view = |info: ProcessInfo| info@;
    let ghost infos = pids@.map_values(|pid: u32| info_of(tree@, pid));
    let mut out: Vec<ProcessInfo> = Vec::new();
    for i in 0..pids.len()
        invariant
            view == (|info: ProcessInfo| info@),
            infos == pids@.map_values(|pid: u32| info_of(tree@, pid)),
            out@.map_values(view) == infos.take(i as int),
    {
        let pid = pids[i];
        let info = ProcessInfo {
            pid,
            name: process_name(tree, pid),
            cmdline: process_cmdline(tree, pid),
        };
        let ghost before = out@.map_values(view);
        assert(info@ == infos[i as int]);
        out.push(info);
        assert(out@.map_values(view) == before.push(infos[i as int]));
    }
    assert(infos.take(pids@.len() as int) == infos);
    out
}

/// Walks every PID directory of `tree` looking for an fd that resolves to
/// `socket:[<inode>]`. Directories that cannot be read because the process is
/// gone, and entries that aren't numeric PID directories, are passed over.
pub fn find_pids_for_inode(tree: &ProcTree, inode: u64) -> (scan: InodeScan)
    ensures
        scan@ == inode_scan(tree@, inode),
{
    let mut search = InodeSearch::new(inode);
    proof {
        lemma_countable(tree);
    }
    while !search.is_done()
        invariant
            countable(tree@),
            tree@.entries.len() <= usize::MAX,
            search.well_formed(),
            search@.inode == inode,
            search@.agrees(tree@),
        decreases search@.left(tree@).0, search@.left(tree@).1,
    {
        proof {
            search.lemma_view_well_formed();
            law_inode_search_step(search@, tree@);
        }
        let answer = tree.answer(search.request());
        search.answer(answer);
    }
    search.into_scan()
}

/// No argument is empty.
proof fn lemma_arguments_hold_something(raw: Seq<u8>, i: int)
    requires
        0 <= i < raw_args(raw).len(),
    ensures
        raw_args(raw)[i].len() > 0,
{
    let holds = |piece: Seq<u8>| piece.len() > 0;
    split_where(raw, |b: u8| b == 0).lemma_filter_pred(holds, i);
    assert(holds(raw_args(raw)[i]));
}

/// No piece between separators holds one.
proof fn lemma_pieces_without_separator<T>(s: Seq<T>, sep: spec_fn(T) -> bool, k: int, x: T)
    requires
        0 <= k < split_where(s, sep).len(),
        sep(x),
    ensures
        !split_where(s, sep)[k].contains(x),
    decreases s.len(),
{
    if s.len() > 0 {
        let init = s.drop_last();
        let head = split_where(init, sep);
        lemma_split_where_len(init, sep);
        if k < head.len() {
            lemma_pieces_without_separator(init, sep, k, x);
            if !sep(s.last()) && k == head.len() - 1 {
                let grown = head.last().push(s.last());
                if grown.contains(x) {
                    let j = choose|j: int| 0 <= j < grown.len() && grown[j] == x;
                    assert(head.last()[j] == x);
                }
            }
        }
    }
}

/// No argument holds a NUL byte.
proof fn lemma_arguments_without_nul(raw: Seq<u8>, i: int)
    requires
        0 <= i < raw_args(raw).len(),
    ensures
        !raw_args(raw)[i].contains(0),
{
    let sep = |b: u8| b == 0;
    let holds = |piece: Seq<u8>| piece.len() > 0;
    let pieces = split_where(raw, sep);
    pieces.lemma_filter_contains_rev(holds, raw_args(raw)[i]);
    let k = choose|k: int| 0 <= k < pieces.len() && pieces[k] == raw_args(raw)[i];
    lemma_pieces_without_separator(raw, sep, k, 0u8);
}

/// Bytes without NUL decode to a text without NUL.
proof fn lemma_decoded_without_nul(bytes: Seq<u8>)
    requires
        valid_utf8(bytes),
        !bytes.contains(0),
    ensures
        !decode_utf8(bytes).contains('\0'),
{
    let text = decode_utf8(bytes);
    decode_utf8_encode_utf8(bytes);
    if text.contains('\0') {
        let k = choose|k: int| 0 <= k < text.len() && text[k] == '\0';
        lemma_nul_is_encoded(text, k);
    }
}

/// A NUL in a text is a zero byte in its encoding.
proof fn lemma_nul_is_encoded(text: Seq<char>, k: int)
    requires
        0 <= k < text.len(),
        text[k] == '\0',
    ensures
        encode_utf8(text).contains(0),
    decreases text.len(),
{
    let head = encode_scalar(text[0] as u32);
    let tail = encode_utf8(text.drop_first());
    assert(encode_utf8(text) == head + tail);
    if k == 0 {
        assert(0u32 & 0x7F == 0u32) by (bit_vector);
        assert(head[0] == 0);
        assert((head + tail)[0] == 0);
    } else {
        lemma_nul_is_encoded(text.drop_first(), k - 1);
        let j = choose|j: int| 0 <= j < tail.len() && tail[j] == 0;
        assert((head + tail)[head.len() + j] == 0);
    }
}

/// Texts without NUL, joined with spaces, give a text without NUL.
proof fn lemma_join_without_nul(parts: Seq<Seq<char>>)
    requires
        forall|k: int| 0 <= k < parts.len() ==> !(#[trigger] parts[k]).contains('\0'),
    ensures
        !join(parts, " "@).contains('\0'),
    decreases parts.len(),
{
    reveal_strlit(" ");
    let line = join(parts, " "@);
    if parts.len() == 1 {
        assert(!parts[0].contains('\0'));
    } else if parts.len() > 1 {
        let init = parts.drop_last();
        assert forall|k: int| 0 <= k < init.len() implies !(#[trigger] init[k]).contains('\0') by {
            assert(!parts[k].contains('\0'));
        }
        lemma_join_without_nul(init);
        let head = join(init, " "@);
        let last = parts[parts.len() - 1];
        if line.contains('\0') {
            let k = choose|k: int| 0 <= k < line.len() && line[k] == '\0';
            if k < head.len() {
                assert(head[k] == '\0');
            } else if k > head.len() {
                assert(last[k - head.len() - 1] == '\0');
            }
        }
    }
}

/// A command line that is shown holds no NUL: those that ended the arguments
/// are gone.
pub proof fn law_cmdline_without_nul(raw: Seq<u8>)
    requires
        forall|i: int| 0 <= i < raw_args(raw).len() ==> valid_utf8(#[trigger] raw_args(raw)[i]),
    ensures
        cmdline_of(Some(raw)) matches Some(line) ==> !line.contains('\0'),
{
    let texts = raw_args(raw).map_values(|arg: Seq<u8>| lossy_text(arg));
    assert forall|k: int| 0 <= k < texts.len() implies !(#[trigger] texts[k]).contains('\0') by {
        assert(valid_utf8(raw_args(raw)[k]));
        lemma_arguments_without_nul(raw, k);
        lemma_decoded_without_nul(raw_args(raw)[k]);
    }
    lemma_join_without_nul(texts);
}

/// There is an argument to show exactly where there is a byte other than NUL.
pub proof fn law_arguments_are_bytes(raw: Seq<u8>)
    ensures
        raw_args(raw).len() > 0 <==> exists|i: int| 0 <= i < raw.len() && (#[trigger] raw[i]) != 0,
{
    lemma_arguments_are_bytes(raw);
    let pieces = split_where(raw, |b: u8| b == 0);
    lemma_split_where_len(raw, |b: u8| b == 0);
    let holds = |piece: Seq<u8>| piece.len() > 0;
    pieces.drop_last().lemma_filter_push(pieces.last(), holds);
    assert(pieces.drop_last().push(pieces.last()) == pieces);
}

/// Of the pieces between NUL bytes, the finished ones or the last one hold
/// something exactly where there is a byte other than NUL.
proof fn lemma_arguments_are_bytes(raw: Seq<u8>)
    ensures
        ({
            let pieces = split_where(raw, |b: u8| b == 0);
            non_empty(pieces.drop_last()).len() > 0 || pieces.last().len() > 0
        }) <==> exists|i: int| 0 <= i < raw.len() && (#[trigger] raw[i]) != 0,
    decreases raw.len(),
{
    let sep = |b: u8| b == 0;
    let holds = |piece: Seq<u8>| piece.len() > 0;
    let pieces = split_where(raw, sep);
    if raw.len() == 0 {
        assert(pieces.drop_last() == Seq::<Seq<u8>>::empty());
        reveal(Seq::filter);
    } else {
        let init = raw.drop_last();
        let head = split_where(init, sep);
        lemma_arguments_are_bytes(init);
        lemma_split_where_len(init, sep);
        assert(head.drop_last().push(head.last()) == head);
        head.drop_last().lemma_filter_push(head.last(), holds);
        if sep(raw.last()) {
            assert(pieces.drop_last() == head);
        } else {
            assert(pieces.drop_last() == head.drop_last());
            assert(raw[raw.len() - 1] != 0);
        }
        if exists|i: int| 0 <= i < init.len() && (#[trigger] init[i]) != 0 {
            let i = choose|i: int| 0 <= i < init.len() && (#[trigger] init[i]) != 0;
            assert(raw[i] != 0);
        }
        if exists|i: int| 0 <= i < raw.len() && (#[trigger] raw[i]) != 0 {
            let i = choose|i: int| 0 <= i < raw.len() && (#[trigger] raw[i]) != 0;
            if i < init.len() {
                assert(init[i] != 0);
            }
        }
    }
}

/// The directory that the kernel makes for a process is that process's.
pub proof fn law_directory_of_a_process(pid: u32)
    ensures
        pid_of(decimal(pid as nat)) == Some(pid as int),
{
    law_decimal_is_read_back(pid as nat, u32::MAX as int);
}

/// A process is reported exactly if some entry shows it to hold the socket. In
/// particular what cannot be read in other entries hides no one.
pub proof fn law_finds_exactly_the_holders(tree: ProcTreeView, inode: u64, pid: u32)
    requires
        tree.listable,
    ensures
        inode_scan(tree, inode).pids.contains(pid) <==> exists|i: int|
            0 <= i < tree.entries.len() && holder(#[trigger] tree.entries[i], inode) == Some(pid),
{
    let f = |entry: ProcEntryView| holder(entry, inode);
    let entries = tree.entries;
    assert(entries.take(entries.len() as int) == entries);
    if inode_scan(tree, inode).pids.contains(pid) {
        entries.lemma_filter_map_contains(f, pid);
        let t = choose|t: ProcEntryView| entries.contains(t) && #[trigger] f(t) == Some(pid);
        let k = choose|k: int| 0 <= k < entries.len() && entries[k] == t;
        assert(holder(entries[k], inode) == Some(pid));
    }
    if exists|i: int|
        0 <= i < tree.entries.len() && holder(#[trigger] tree.entries[i], inode) == Some(pid) {
        let i = choose|i: int|
            0 <= i < tree.entries.len() && holder(#[trigger] tree.entries[i], inode) == Some(pid);
        lemma_filter_map_holds(entries, f, i);
    }
}

/// What one element gives is among what all give.
proof fn lemma_filter_map_holds<A, B>(s: Seq<A>, f: spec_fn(A) -> Option<B>, i: int)
    requires
        0 <= i < s.len(),
        f(s[i]) is Some,
    ensures
        s.filter_map(f).contains(f(s[i])->0),
    decreases s.len(),
{
    let rest = s.drop_last();
    let whole = s.filter_map(f);
    if i < rest.len() {
        lemma_filter_map_holds(rest, f, i);
        let k = choose|k: int|
            0 <= k < rest.filter_map(f).len() && rest.filter_map(f)[k] == f(s[i])->0;
        assert(whole[k] == f(s[i])->0);
    } else {
        assert(whole[rest.filter_map(f).len() as int] == f(s[i])->0);
    }
}

/// A process's directory that belongs to another user is flagged.
pub proof fn law_denied_is_flagged(tree: ProcTreeView, inode: u64, i: int)
    requires
        tree.listable,
        0 <= i < tree.entries.len(),
        pid_of(tree.entries[i].name) is Some,
        tree.entries[i].fds is Denied,
    ensures
        inode_scan(tree, inode).permission_denied,
{
    assert(withheld(tree.entries[i], inode));
}

/// Whether something in this entry belongs to another user.
pub open spec fn holds_denied(entry: ProcEntryView) -> bool {
    match entry.fds {
        FdDirView::Denied => true,
        FdDirView::Unreadable => false,
        FdDirView::Links(links) => exists|l: int|
            0 <= l < links.len() && (#[trigger] links[l]) == FdLinkView::Denied,
    }
}

/// Only what belongs to another user sets the flag: a directory or a link that
/// is gone does not.
pub proof fn law_only_denied_is_flagged(tree: ProcTreeView, inode: u64)
    requires
        forall|k: int|
            0 <= k < tree.entries.len() ==> !holds_denied(#[trigger] tree.entries[k]),
    ensures
        !inode_scan(tree, inode).permission_denied,
{
    assert forall|k: int| 0 <= k < tree.entries.len() implies !withheld(
        #[trigger] tree.entries[k],
        inode,
    ) by {
        assert(!holds_denied(tree.entries[k]));
    }
}

/// A process name is never empty and has no white space around it.
pub proof fn law_name_is_trimmed(comm: Option<Seq<char>>)
    ensures
        name_of(comm) matches Some(name) ==> name.len() > 0 && !is_white_space(name[0])
            && !is_white_space(name.last()),
{
    if let Some(text) = comm {
        law_trim(text);
    }
}

/// A command line is never shown empty, and there is none for an empty file.
pub proof fn law_no_empty_cmdline(raw: Option<Seq<u8>>)
    ensures
        cmdline_of(raw) matches Some(line) ==> line.len() > 0,
        raw == Some(Seq::<u8>::empty()) ==> cmdline_of(raw) is None,
{
    if raw == Some(Seq::<u8>::empty()) {
        let sep = |b: u8| b == 0;
        let holds = |piece: Seq<u8>| piece.len() > 0;
        let none = Seq::<Seq<u8>>::empty();
        assert(split_where(Seq::<u8>::empty(), sep) == none.push(Seq::<u8>::empty()));
        none.lemma_filter_push(Seq::<u8>::empty(), holds);
        reveal(Seq::filter);
        assert(raw_args(Seq::empty()) == none);
        assert(none.map_values(|arg: Seq<u8>| lossy_text(arg)) == Seq::<Seq<char>>::empty());
    }
}

/// The bytes of `cmdline` for a process with these arguments: each of them in
/// UTF-8, and a NUL byte after each.
pub open spec fn terminated(args: Seq<Seq<char>>) -> Seq<u8>
    decreases args.len(),
{
    if args.len() == 0 {
        Seq::empty()
    } else {
        terminated(args.drop_last()) + encode_utf8(args.last()) + seq![0u8]
    }
}

/// The encoding of a character other than NUL holds no zero byte.
proof fn lemma_scalar_without_nul(c: u32)
    requires
        is_scalar(c),
        c != 0,
    ensures
        encode_scalar(c).len() > 0,
        forall|i: int| 0 <= i < encode_scalar(c).len() ==> encode_scalar(c)[i] != 0,
{
    assert(0 < c <= 0x7f ==> (c & 0x7F) as u8 != 0) by (bit_vector);
    assert(0xC0u8 | ((c >> 6) & 0x1F) as u8 != 0) by (bit_vector);
    assert(0xE0u8 | ((c >> 12) & 0x0F) as u8 != 0) by (bit_vector);
    assert(0xF0u8 | ((c >> 18) & 0x7) as u8 != 0) by (bit_vector);
    assert(0x80u8 | (c & 0x3F) as u8 != 0) by (bit_vector);
    assert(0x80u8 | ((c >> 6) & 0x3F) as u8 != 0) by (bit_vector);
    assert(0x80u8 | ((c >> 12) & 0x3F) as u8 != 0) by (bit_vector);
}

/// The encoding of a text without NUL holds no zero byte.
proof fn lemma_text_without_nul(text: Seq<char>)
    requires
        forall|i: int| 0 <= i < text.len() ==> text[i] != '\0',
    ensures
        text.len() > 0 ==> encode_utf8(text).len() > 0,
        forall|i: int| 0 <= i < encode_utf8(text).len() ==> encode_utf8(text)[i] != 0,
    decreases text.len(),
{
    if text.len() > 0 {
        let first = text[0];
        let rest = text.drop_first();
        assert(first != '\0');
        char_is_scalar(first);
        char_u32_cast(first, first as u32);
        lemma_scalar_without_nul(first as u32);
        assert forall|i: int| 0 <= i < rest.len() implies rest[i] != '\0' by {
            assert(text[i + 1] != '\0');
        }
        lemma_text_without_nul(rest);
        let head = encode_scalar(first as u32);
        let tail = encode_utf8(rest);
        assert(encode_utf8(text) == head + tail);
        assert forall|i: int| 0 <= i < encode_utf8(text).len() implies encode_utf8(text)[i] != 0 by {
            if i < head.len() {
                assert(encode_utf8(text)[i] == head[i]);
            } else {
                assert(encode_utf8(text)[i] == tail[i - head.len()]);
            }
        }
    }
}

/// Terminated arguments come apart where they were put together.
proof fn lemma_split_terminated(args: Seq<Seq<char>>)
    requires
        forall|i: int, j: int|
            0 <= i < args.len() && 0 <= j < args[i].len() ==> #[trigger] args[i][j] != '\0',
    ensures
        split_where(terminated(args), |b: u8| b == 0) == args.map_values(
            |arg: Seq<char>| encode_utf8(arg),
        ).push(Seq::empty()),
    decreases args.len(),
{
    let sep = |b: u8| b == 0;
    let encode = |arg: Seq<char>| encode_utf8(arg);
    if args.len() == 0 {
        assert(args.map_values(encode).push(Seq::empty()) == seq![Seq::<u8>::empty()]);
    } else {
        let init = args.drop_last();
        let last = args.last();
        assert forall|i: int, j: int| 0 <= i < init.len() && 0 <= j < init[i].len() implies
            #[trigger] init[i][j] != '\0' by {
            assert(args[i][j] != '\0');
        }
        lemma_split_terminated(init);
        assert forall|j: int| 0 <= j < last.len() implies last[j] != '\0' by {
            assert(args[args.len() - 1][j] != '\0');
        }
        lemma_text_without_nul(last);
        let head = terminated(init);
        lemma_split_run(head, encode_utf8(last), sep);
        assert(Seq::<u8>::empty() + encode_utf8(last) == encode_utf8(last));
        let joined = head + encode_utf8(last);
        lemma_split_at_separator(joined, 0u8, sep);
        assert(joined.push(0u8) == terminated(args));
        assert(init.map_values(encode).push(Seq::empty()).drop_last() == init.map_values(encode));
        assert(init.map_values(encode).push(encode_utf8(last)) == args.map_values(encode));
    }
}

/// The arguments of a process, none of them empty, are shown joined with
/// spaces.
pub proof fn law_cmdline_shows_the_arguments(args: Seq<Seq<char>>)
    requires
        args.len() > 0,
        forall|i: int| 0 <= i < args.len() ==> (#[trigger] args[i]).len() > 0,
        forall|i: int, j: int|
            0 <= i < args.len() && 0 <= j < args[i].len() ==> #[trigger] args[i][j] != '\0',
    ensures
        cmdline_of(Some(terminated(args))) == Some(join(args, " "@)),
{
    let encode = |arg: Seq<char>| encode_utf8(arg);
    let holds = |piece: Seq<u8>| piece.len() > 0;
    let encoded = args.map_values(encode);
    lemma_split_terminated(args);
    assert forall|i: int| 0 <= i < encoded.len() implies holds(#[trigger] encoded[i]) by {
        assert forall|j: int| 0 <= j < args[i].len() implies args[i][j] != '\0' by {}
        assert(args[i].len() > 0);
        lemma_text_without_nul(args[i]);
    }
    lemma_filter_all(encoded, holds);
    encoded.lemma_filter_push(Seq::empty(), holds);
    let shown = raw_args(terminated(args)).map_values(|arg: Seq<u8>| lossy_text(arg));
    assert forall|i: int| 0 <= i < args.len() implies shown[i] == args[i] by {
        encode_utf8_valid_utf8(args[i]);
        encode_utf8_decode_utf8(args[i]);
    }
    assert(shown == args);
    assert(args[0].len() > 0);
    lemma_join_len(args, " "@);
}

/// Joining loses nothing.
proof fn lemma_join_len(parts: Seq<Seq<char>>, sep: Seq<char>)
    requires
        parts.len() > 0,
    ensures
        join(parts, sep).len() >= parts[0].len(),
    decreases parts.len(),
{
    if parts.len() > 1 {
        lemma_join_len(parts.drop_last(), sep);
    }
}

/// A process is seen whole, and so is a scan.
pub proof fn law_processes_are_seen_whole(info: ProcessInfo, scan: InodeScan)
    ensures
        info@.pid == info.pid,
        info@.name == (match info.name {
            Some(text) => Some(text@),
            None => None,
        }),
        info@.cmdline == (match info.cmdline {
            Some(text) => Some(text@),
            None => None,
        }),
        scan@.pids == scan.pids@,
        scan@.permission_denied == scan.permission_denied,
{
}

/// A process whose directory is there is found to hold a socket wherever among
/// its links the one to the socket stands.
pub proof fn law_every_link_is_looked_at(
    tree: ProcTreeView,
    inode: u64,
    pid: u32,
    i: int,
    links: Seq<FdLinkView>,
    k: int,
)
    requires
        tree.listable,
        0 <= i < tree.entries.len(),
        tree.entries[i].name == decimal(pid as nat),
        tree.entries[i].fds == FdDirView::Links(links),
        0 <= k < links.len(),
        links[k] == FdLinkView::Target("socket:["@ + decimal(inode as nat) + "]"@),
    ensures
        inode_scan(tree, inode).pids.contains(pid),
{
    law_directory_of_a_process(pid);
    assert(pid_of(tree.entries[i].name) == Some(pid as int));
    assert(is_socket(links[k], inode));
    let entry = tree.entries[i];
    assert(entry.fds->Links_0 == links);
    assert(is_socket(entry.fds->Links_0[k], inode));
    assert(holder(entry, inode) is Some);
    assert(holder(entry, inode) == Some(pid_of(entry.name)->0 as u32));
    assert(pid_of(entry.name)->0 as u32 == pid);
    law_finds_exactly_the_holders(tree, inode, pid);
}

/// A process is found only where an entry with its number as a name has a link
/// to the socket.
pub proof fn law_no_process_is_made_up(tree: ProcTreeView, inode: u64, pid: u32)
    requires
        inode_scan(tree, inode).pids.contains(pid),
    ensures
        tree.listable,
        exists|i: int, links: Seq<FdLinkView>, k: int|
            {
                &&& 0 <= i < tree.entries.len()
                &&& parse_number((#[trigger] tree.entries[i]).name, 10, 4294967295) == Some(
                    pid as int,
                )
                &&& tree.entries[i].fds == FdDirView::Links(links)
                &&& 0 <= k < links.len()
                &&& (#[trigger] links[k]) == FdLinkView::Target(
                    "socket:["@ + decimal(inode as nat) + "]"@,
                )
            },
{
    assert(tree.listable) by {
        if !tree.listable {
            assert(tree.entries.take(0) == Seq::<ProcEntryView>::empty());
        }
    }
    law_finds_exactly_the_holders(tree, inode, pid);
    let i = choose|i: int|
        0 <= i < tree.entries.len() && holder(#[trigger] tree.entries[i], inode) == Some(pid);
    let links = tree.entries[i].fds->Links_0;
    let k = choose|k: int| 0 <= k < links.len() && is_socket(#[trigger] links[k], inode);
    assert(links[k] == FdLinkView::Target(socket_link(inode)));
    lemma_pid_in_range(tree.entries[i].name);
}

/// A PID that is read is one.
proof fn lemma_pid_in_range(name: Seq<char>)
    ensures
        parse_number(name, 10, 4294967295) matches Some(n) ==> 0 <= n <= 4294967295,
{
    lemma_value_not_negative(name);
    lemma_value_not_negative(name.skip(1));
}

/// No decimal digits have a negative value.
proof fn lemma_value_not_negative(s: Seq<char>)
    ensures
        digits_value(s, 10) matches Some(n) ==> 0 <= n,
    decreases s.len(),
{
    if s.len() > 0 {
        lemma_value_not_negative(s.drop_last());
    }
}

/// The name given is exactly what stands between the white space around it, of
/// whatever length; white space alone gives no name, and neither does a file
/// that cannot be read.
pub proof fn law_name_is_given_whole(before: Seq<char>, name: Seq<char>, after: Seq<char>)
    requires
        forall|i: int| 0 <= i < before.len() ==> is_white_space(#[trigger] before[i]),
        forall|i: int| 0 <= i < after.len() ==> is_white_space(#[trigger] after[i]),
        name.len() > 0 ==> !is_white_space(name[0]) && !is_white_space(name.last()),
    ensures
        name.len() > 0 ==> name_of(Some(before + name + after)) == Some(name),
        name.len() > 0 ==> name_of(Some(before + name + "\n"@)) == Some(name),
        name.len() == 0 ==> name_of(Some(before + name + after)) is None,
        name_of(None) is None,
{
    reveal_strlit("\n");
    law_trim_leaves_the_rest(before, name, after);
    law_trim_leaves_the_rest(before, name, "\n"@);
}

/// NUL bytes alone hold no argument, and a run of other bytes, after a NUL or
/// at the start, is one argument more.
pub proof fn law_nul_ends_arguments(raw: Seq<u8>, arg: Seq<u8>, gap: Seq<u8>)
    requires
        raw.len() == 0 || raw.last() == 0,
        arg.len() > 0,
        forall|i: int| 0 <= i < arg.len() ==> arg[i] != 0,
        forall|i: int| 0 <= i < gap.len() ==> gap[i] == 0,
    ensures
        raw_args(gap).len() == 0,
        raw_args(raw + arg + gap) == raw_args(raw).push(arg),
{
    let sep = |b: u8| b == 0;
    let holds = |piece: Seq<u8>| piece.len() > 0;
    law_arguments_are_bytes(gap);
    let pieces = split_where(raw, sep);
    lemma_split_where_len(raw, sep);
    assert(pieces.last().len() == 0);
    lemma_split_run(raw, arg, sep);
    assert(pieces.last() + arg == arg);
    assert(pieces.drop_last().push(pieces.last()) == pieces);
    pieces.drop_last().lemma_filter_push(pieces.last(), holds);
    pieces.drop_last().lemma_filter_push(arg, holds);
    assert(raw_args(raw + arg) == raw_args(raw).push(arg));
    lemma_nul_adds_nothing(raw + arg, gap);
}

/// NUL bytes at the end add no argument.
proof fn lemma_nul_adds_nothing(raw: Seq<u8>, gap: Seq<u8>)
    requires
        forall|i: int| 0 <= i < gap.len() ==> gap[i] == 0,
    ensures
        raw_args(raw + gap) == raw_args(raw),
    decreases gap.len(),
{
    let sep = |b: u8| b == 0;
    let holds = |piece: Seq<u8>| piece.len() > 0;
    if gap.len() == 0 {
        assert(raw + gap == raw);
    } else {
        let init = gap.drop_last();
        lemma_nul_adds_nothing(raw, init);
        assert((raw + init).push(0) == raw + gap);
        lemma_split_at_separator(raw + init, 0u8, sep);
        split_where(raw + init, sep).lemma_filter_push(Seq::empty(), holds);
    }
}

/// The command line shows the text of every argument, in order and with single
/// spaces between: the characters that its bytes encode, or, where they encode
/// none, what the standard library makes of them. Without text there is none.
pub proof fn law_cmdline_shows_every_argument(raw: Seq<u8>, texts: Seq<Seq<char>>)
    requires
        texts.len() == raw_args(raw).len(),
        forall|i: int|
            0 <= i < texts.len() ==> #[trigger] texts[i] == if valid_utf8(raw_args(raw)[i]) {
                decode_utf8(raw_args(raw)[i])
            } else {
                utf8_lossy(raw_args(raw)[i])
            },
    ensures
        join(texts, " "@).len() > 0 ==> cmdline_of(Some(raw)) == Some(join(texts, " "@)),
        join(texts, " "@).len() == 0 ==> cmdline_of(Some(raw)) is None,
        cmdline_of(None) is None,
{
    let shown = raw_args(raw).map_values(|arg: Seq<u8>| lossy_text(arg));
    assert forall|i: int| 0 <= i < texts.len() implies shown[i] == texts[i] by {}
    assert(shown == texts);
}

/// What is told of a process is its own PID, and the name and command line
/// that its own files give.
pub proof fn law_process_is_told_by_its_files(tree: ProcTreeView, pid: u32, i: int)
    requires
        0 <= i < tree.entries.len(),
        tree.entries[i].name == decimal(pid as nat),
        forall|j: int| 0 <= j < i ==> (#[trigger] tree.entries[j]).name != decimal(pid as nat),
    ensures
        info_of(tree, pid).pid == pid,
        info_of(tree, pid).name == name_of(tree.entries[i].comm),
        info_of(tree, pid).cmdline == cmdline_of(tree.entries[i].cmdline),
{
    law_process_has_its_files(tree, pid, i);
}

/// Of a process that is not there nothing is told but its PID.
pub proof fn law_absent_process_is_only_numbered(tree: ProcTreeView, pid: u32)
    requires
        forall|j: int|
            0 <= j < tree.entries.len() ==> (#[trigger] tree.entries[j]).name != decimal(pid as nat),
    ensures
        info_of(tree, pid).pid == pid,
        info_of(tree, pid).name is None,
        info_of(tree, pid).cmdline is None,
{
    law_absent_process_has_no_files(tree, pid);
}

} // verus!
