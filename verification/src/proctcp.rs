//! Parsing for `/proc/net/tcp` and `/proc/net/tcp6`.
//!
//! Both tables have the same columns; only the width of an address differs,
//! 8 hexadecimal digits for IPv4 and 32 for IPv6:
//!
//! ```text
//!   sl  local_address rem_address   st tx_queue rx_queue tr tm->when retrnsmt   uid  timeout inode
//!    0: 0100007F:1F90 00000000:0000 0A 00000000:00000000 00:00000000 00000000     0        0 111 1 0 100 0 0 10 0
//! ```
//!
//! Column 1 is `<hex addr>:<hex port>`, column 3 the state of the socket (`0A`
//! is `TCP_LISTEN`), and column 9 its inode, which ties the row to the
//! processes that hold the socket open.

use vstd::prelude::*;
use vstd::slice::slice_subrange;

use crate::text::{
    char_rows, chars_of, cut_once, decimal, digit_char, digits_value, fields, hex_byte, join,
    law_cut_at_the_first, law_decimal_is_read_back, law_line_feeds_end_lines,
    law_split_undoes_join, lemma_split_where_len, lines, parse_number, push_decimal,
    push_hex_byte, read_number, split_fields, split_lines, split_once,
};

verus! {

/// The state that marks a listening socket.
pub const TCP_LISTEN: u8 = 0x0A;

/// A `LISTEN` row whose local port is the one asked for.
#[derive(Debug, Clone, PartialEq)]
pub struct ListenSocket {
    /// Displayable `ip:port` (or `[ipv6]:port`) the socket is bound to.
    pub local_addr: String,
    pub port: u16,
    pub inode: u64,
}

/// What a [`ListenSocket`] says.
#[verifier::ext_equal]
pub struct ListenSocketView {
    pub local_addr: Seq<char>,
    pub port: u16,
    pub inode: u64,
}

impl View for ListenSocket {
    type V = ListenSocketView;

    open spec fn view(&self) -> ListenSocketView {
        ListenSocketView { local_addr: self.local_addr@, port: self.port, inode: self.inode }
    }
}

/// What the sockets of a list say.
pub open spec fn socket_views(sockets: Seq<ListenSocket>) -> Seq<ListenSocketView> {
    sockets.map_values(|socket: ListenSocket| socket@)
}

/// The byte that the two digits of pair `i` write.
pub open spec fn hex_pair(hex: Seq<char>, i: int) -> Option<int> {
    parse_number(hex.subrange(2 * i, 2 * i + 2), 16, 0xff)
}

/// The bytes that `hex` writes, two digits each, or `None` where it is not
/// made of such pairs.
pub open spec fn hex_bytes(hex: Seq<char>) -> Option<Seq<u8>> {
    if hex.len() % 2 == 0 && forall|i: int|
        0 <= i < hex.len() / 2 ==> (#[trigger] hex_pair(hex, i)) is Some {
        Some(Seq::new(hex.len() / 2, |i: int| hex_pair(hex, i)->0 as u8))
    } else {
        None
    }
}

/// `a.b.c.d`.
pub open spec fn dotted(a: u8, b: u8, c: u8, d: u8) -> Seq<char> {
    decimal(a as nat) + "."@ + decimal(b as nat) + "."@ + decimal(c as nat) + "."@ + decimal(
        d as nat,
    )
}

/// The IPv4 address and port of a `local_address` column: the four bytes of
/// the address stand in reverse of network order.
pub open spec fn ipv4_local(addr_hex: Seq<char>, port_hex: Seq<char>) -> Option<(Seq<char>, u16)> {
    match (hex_bytes(addr_hex), parse_number(port_hex, 16, 0xffff)) {
        (Some(bytes), Some(port)) => if bytes.len() == 4 {
            Some(
                (
                    dotted(bytes[3], bytes[2], bytes[1], bytes[0]) + ":"@ + decimal(port as nat),
                    port as u16,
                ),
            )
        } else {
            None
        },
        _ => None,
    }
}

/// The 16 bytes of an IPv6 address in network order, from the column's four
/// words, in each of which the bytes are reversed.
pub open spec fn network_order(raw: Seq<u8>) -> Seq<u8> {
    Seq::new(16, |i: int| raw[i / 4 * 4 + 3 - i % 4])
}

/// The 16-bit groups of an IPv6 address, four hexadecimal digits each.
pub open spec fn ipv6_groups(bytes: Seq<u8>) -> Seq<Seq<char>> {
    Seq::new(8, |g: int| hex_byte(bytes[2 * g]) + hex_byte(bytes[2 * g + 1]))
}

/// The IPv6 address and port of a `local_address` column.
pub open spec fn ipv6_local(addr_hex: Seq<char>, port_hex: Seq<char>) -> Option<(Seq<char>, u16)> {
    match (hex_bytes(addr_hex), parse_number(port_hex, 16, 0xffff)) {
        (Some(raw), Some(port)) => if raw.len() == 16 {
            Some(
                (
                    "["@ + join(ipv6_groups(network_order(raw)), ":"@) + "]:"@ + decimal(
                        port as nat,
                    ),
                    port as u16,
                ),
            )
        } else {
            None
        },
        _ => None,
    }
}

/// The local address and port that a row's column 1 gives.
pub open spec fn local_address(column: Seq<char>, ipv6: bool) -> Option<(Seq<char>, u16)> {
    match split_once(column, ':') {
        Some((addr_hex, port_hex)) => if ipv6 {
            ipv6_local(addr_hex, port_hex)
        } else {
            ipv4_local(addr_hex, port_hex)
        },
        None => None,
    }
}

/// The listening socket that a row describes, whatever its port. A row that is
/// too short, in another state, or malformed in a column that matters
/// describes none.
pub open spec fn listen_row(line: Seq<char>, ipv6: bool) -> Option<ListenSocketView> {
    let columns = fields(line);
    if columns.len() < 10 {
        None
    } else {
        match (
            parse_number(columns[3], 16, 0xff),
            local_address(columns[1], ipv6),
            parse_number(columns[9], 10, u64::MAX as int),
        ) {
            (Some(state), Some((local_addr, port)), Some(inode)) => if state == TCP_LISTEN {
                Some(ListenSocketView { local_addr, port, inode: inode as u64 })
            } else {
                None
            },
            _ => None,
        }
    }
}

/// The listening socket on `port` that a row describes.
pub open spec fn row_on_port(line: Seq<char>, port: u16, ipv6: bool) -> Option<ListenSocketView> {
    match listen_row(line, ipv6) {
        Some(socket) => if socket.port == port {
            Some(socket)
        } else {
            None
        },
        None => None,
    }
}

/// The listening sockets on `port` that a table describes, in the order of
/// its rows. The first line is the header.
pub open spec fn listen_sockets(contents: Seq<char>, port: u16, ipv6: bool) -> Seq<
    ListenSocketView,
> {
    lines(contents).skip(1).filter_map(|line: Seq<char>| row_on_port(line, port, ipv6))
}

/// The bytes that `hex` writes.
pub fn hex_to_bytes(hex: &[char]) -> (out: Option<Vec<u8>>)
    ensures
        match out {
            Some(bytes) => hex_bytes(hex@) == Some(bytes@),
            None => hex_bytes(hex@) is None,
        },
{
    if hex.len() % 2 != 0 {
        return None;
    }
    let mut bytes: Vec<u8> = Vec::new();
    for i in 0..hex.len() / 2
        invariant
            hex@.len() % 2 == 0,
            bytes@.len() == i,
            forall|j: int|
                0 <= j < i ==> (#[trigger] hex_pair(hex@, j)) is Some && bytes@[j] == hex_pair(
                    hex@,
                    j,
                )->0 as u8,
    {
        match read_number(slice_subrange(hex, 2 * i, 2 * i + 2), 16, 0xff) {
            Some(byte) => {
                assert(hex_pair(hex@, i as int) is Some);
                bytes.push(byte as u8);
            },
            None => {
                assert(hex_pair(hex@, i as int) is None);
                return None;
            },
        }
    }
    assert(hex_bytes(hex@)->0 == bytes@);
    Some(bytes)
}

/// Decodes an IPv4 `local_address` column: `0100007F:1F90` is
/// `127.0.0.1:8080`.
pub fn decode_ipv4(addr_hex: &[char], port_hex: &[char]) -> (out: Option<(String, u16)>)
    ensures
        match out {
            Some((addr, port)) => ipv4_local(addr_hex@, port_hex@) == Some((addr@, port)),
            None => ipv4_local(addr_hex@, port_hex@) is None,
        },
{
    let bytes = match hex_to_bytes(addr_hex) {
        Some(bytes) => bytes,
        None => return None,
    };
    if bytes.len() != 4 {
        return None;
    }
    let port = match read_number(port_hex, 16, 0xffff) {
        Some(port) => port,
        None => return None,
    };
    let mut addr = String::new();
    push_decimal(&mut addr, bytes[3] as u64);
    addr.append(".");
    push_decimal(&mut addr, bytes[2] as u64);
    addr.append(".");
    push_decimal(&mut addr, bytes[1] as u64);
    addr.append(".");
    push_decimal(&mut addr, bytes[0] as u64);
    addr.append(":");
    push_decimal(&mut addr, port);
    assert(addr@ == dotted(bytes@[3], bytes@[2], bytes@[1], bytes@[0]) + ":"@ + decimal(
        port as nat,
    ));
    Some((addr, port as u16))
}

/// Decodes an IPv6 `local_address` column: `::1` is
/// `00000000000000000000000001000000`.
pub fn decode_ipv6(addr_hex: &[char], port_hex: &[char]) -> (out: Option<(String, u16)>)
    ensures
        match out {
            Some((addr, port)) => ipv6_local(addr_hex@, port_hex@) == Some((addr@, port)),
            None => ipv6_local(addr_hex@, port_hex@) is None,
        },
{
    let raw = match hex_to_bytes(addr_hex) {
        Some(raw) => raw,
        None => return None,
    };
    if raw.len() != 16 {
        return None;
    }
    let port = match read_number(port_hex, 16, 0xffff) {
        Some(port) => port,
        None => return None,
    };
    let mut addr = String::new();
    addr.append("[");
    let ghost groups = ipv6_groups(network_order(raw@));
    for g in 0..8usize
        invariant
            raw@.len() == 16,
            groups == ipv6_groups(network_order(raw@)),
            addr@ == "["@ + join(groups.take(g as int), ":"@),
    {
        let word: usize = g / 2 * 4;
        let at: usize = 3 - g % 2 * 2;
        if g > 0 {
            addr.append(":");
        }
        push_hex_byte(&mut addr, raw[word + at]);
        push_hex_byte(&mut addr, raw[word + at - 1]);
        proof {
            assert(groups.take(g + 1).drop_last() == groups.take(g as int));
            assert(network_order(raw@)[2 * g] == raw@[word + at]);
            assert(network_order(raw@)[2 * g + 1] == raw@[word + at - 1]);
            assert(groups[g as int] == hex_byte(raw@[word + at]) + hex_byte(raw@[word + at - 1]));
            assert(addr@ == "["@ + join(groups.take(g + 1), ":"@));
        }
    }
    assert(groups.take(8) == groups);
    addr.append("]:");
    push_decimal(&mut addr, port);
    Some((addr, port as u16))
}

/// The listening socket on `port` that a row describes.
fn parse_row(line: &[char], port: u16, ipv6: bool) -> (out: Option<ListenSocket>)
    ensures
        match out {
            Some(socket) => row_on_port(line@, port, ipv6) == Some(socket@),
            None => row_on_port(line@, port, ipv6) is None,
        },
{
    let columns = split_fields(line);
    assert(columns@.len() == fields(line@).len());
    if columns.len() < 10 {
        return None;
    }
    assert(fields(line@)[1] == columns@[1]@);
    assert(fields(line@)[3] == columns@[3]@);
    assert(fields(line@)[9] == columns@[9]@);
    match read_number(columns[3].as_slice(), 16, 0xff) {
        Some(state) => if state != TCP_LISTEN as u64 {
            return None;
        },
        None => return None,
    }
    let decoded = match cut_once(columns[1].as_slice(), ':') {
        Some((addr_hex, port_hex)) => if ipv6 {
            decode_ipv6(addr_hex, port_hex)
        } else {
            decode_ipv4(addr_hex, port_hex)
        },
        None => return None,
    };
    let (local_addr, found_port) = match decoded {
        Some(found) => found,
        None => return None,
    };
    if found_port != port {
        return None;
    }
    match read_number(columns[9].as_slice(), 10, u64::MAX) {
        Some(inode) => Some(ListenSocket { local_addr, port: found_port, inode }),
        None => None,
    }
}

/// Returns every `LISTEN` row in `contents` whose local port equals `port`.
///
/// There is usually at most one, but `SO_REUSEPORT` lets independent sockets
/// bind the same port. Malformed and short rows are skipped.
pub fn parse_listen_sockets_for_port(contents: &str, port: u16, ipv6: bool) -> (out: Vec<
    ListenSocket,
>)
    ensures
        socket_views(out@) == listen_sockets(contents@, port, ipv6),
{
    let text = chars_of(contents);
    let rows = split_lines(text.as_slice());
    let ghost body = lines(contents@).skip(1);
    let ghost row = |line: Seq<char>| row_on_port(line, port, ipv6);
    let mut out: Vec<ListenSocket> = Vec::new();
    proof {
        lemma_split_where_len(contents@, |c: char| c == '\n');
        assert(rows@.len() == lines(contents@).len());
    }
    for i in 1..rows.len()
        invariant
            1 <= i,
            rows@.len() == body.len() + 1,
            body == lines(contents@).skip(1),
            char_rows(rows@) == lines(contents@),
            row == (|line: Seq<char>| row_on_port(line, port, ipv6)),
            socket_views(out@) == body.take(i - 1).filter_map(row),
    {
        proof {
            body.lemma_filter_map_take_succ(row, i - 1);
            assert(body[i - 1] == rows@[i as int]@);
        }
        if let Some(socket) = parse_row(rows[i].as_slice(), port, ipv6) {
            let ghost before = socket_views(out@);
            out.push(socket);
            assert(socket_views(out@) == before.push(socket@));
        }
    }
    assert(body.take(body.len() as int) == body);
    out
}

/// The digit for `d`, which is below 16; upper case from ten on.
pub open spec fn upper_digit(d: int) -> char {
    if d == 10 {
        'A'
    } else if d == 11 {
        'B'
    } else if d == 12 {
        'C'
    } else if d == 13 {
        'D'
    } else if d == 14 {
        'E'
    } else if d == 15 {
        'F'
    } else {
        digit_char(d)
    }
}

/// `bytes` as the kernel prints them in an address, two digits each.
pub open spec fn upper_hex(bytes: Seq<u8>) -> Seq<char> {
    Seq::new(
        2 * bytes.len(),
        |i: int|
            if i % 2 == 0 {
                upper_digit(bytes[i / 2] as int / 16)
            } else {
                upper_digit(bytes[i / 2] as int % 16)
            },
    )
}

/// `port` as the kernel prints it, four digits.
pub open spec fn upper_hex_port(port: u16) -> Seq<char> {
    upper_hex(seq![(port / 256) as u8, (port % 256) as u8])
}

/// Two digits write the byte that they were made from.
proof fn lemma_pair_value(pair: Seq<char>, b: u8)
    requires
        pair.len() == 2,
        pair[0] == upper_digit(b as int / 16),
        pair[1] == upper_digit(b as int % 16),
    ensures
        digits_value(pair, 16) == Some(b as int),
        parse_number(pair, 16, 0xff) == Some(b as int),
{
    reveal_with_fuel(digits_value, 3);
    assert(pair.drop_last().drop_last() == Seq::<char>::empty());
}

/// Bytes that the kernel prints in hexadecimal are read back as they were.
pub proof fn law_hex_is_read_back(bytes: Seq<u8>)
    ensures
        hex_bytes(upper_hex(bytes)) == Some(bytes),
{
    let hex = upper_hex(bytes);
    assert forall|i: int| 0 <= i < hex.len() / 2 implies (#[trigger] hex_pair(hex, i)) == Some(
        bytes[i] as int,
    ) by {
        lemma_pair_value(hex.subrange(2 * i, 2 * i + 2), bytes[i]);
    }
    assert(hex_bytes(hex)->0 == bytes);
}

/// A port that the kernel prints is read back as it was.
proof fn lemma_port_is_read_back(port: u16)
    ensures
        parse_number(upper_hex_port(port), 16, 0xffff) == Some(port as int),
{
    let hex = upper_hex_port(port);
    let high = (port / 256) as u8;
    let low = (port % 256) as u8;
    lemma_pair_value(hex.take(2), high);
    reveal_with_fuel(digits_value, 3);
    assert(hex.drop_last().drop_last() == hex.take(2));
}

/// The address and port that the kernel prints for an IPv4 socket are the ones
/// shown: the bytes come back in network order.
pub proof fn law_ipv4_address_is_shown(a: u8, b: u8, c: u8, d: u8, port: u16)
    ensures
        ipv4_local(upper_hex(seq![d, c, b, a]), upper_hex_port(port)) == Some(
            (dotted(a, b, c, d) + ":"@ + decimal(port as nat), port),
        ),
{
    law_hex_is_read_back(seq![d, c, b, a]);
    lemma_port_is_read_back(port);
}

/// Reversing the bytes of each word twice changes nothing.
proof fn lemma_network_order_twice(address: Seq<u8>)
    requires
        address.len() == 16,
    ensures
        network_order(network_order(address)) == address,
{
    let once = network_order(address);
    let twice = network_order(once);
    assert forall|i: int| 0 <= i < 16 implies twice[i] == address[i] by {
        let k = i / 4 * 4 + 3 - i % 4;
        assert(k / 4 == i / 4 && k % 4 == 3 - i % 4);
        assert(twice[i] == once[k]);
        assert(once[k] == address[k / 4 * 4 + 3 - k % 4]);
    }
    assert(twice == address);
}

/// An IPv6 address is always shown as eight groups of four lower-case digits,
/// never shortened.
pub proof fn law_ipv6_groups_are_whole(address: Seq<u8>)
    ensures
        ipv6_groups(address).len() == 8,
        forall|g: int| 0 <= g < 8 ==> (#[trigger] ipv6_groups(address)[g]).len() == 4,
        forall|g: int, k: int|
            0 <= g < 8 && 0 <= k < 4 ==> is_lower_digit(#[trigger] ipv6_groups(address)[g][k]),
{
}

/// Whether `c` is a hexadecimal digit, and no upper-case letter.
pub open spec fn is_lower_digit(c: char) -> bool {
    '0' <= c <= '9' || 'a' <= c <= 'f'
}

/// The address and port that the kernel prints for an IPv6 socket, four words
/// with their bytes reversed, are the ones shown.
#[verifier::rlimit(40)]
pub proof fn law_ipv6_address_is_shown(address: Seq<u8>, port: u16)
    requires
        address.len() == 16,
    ensures
        ipv6_local(upper_hex(network_order(address)), upper_hex_port(port)) == Some(
            ("["@ + join(ipv6_groups(address), ":"@) + "]:"@ + decimal(port as nat), port),
        ),
{
    law_hex_is_read_back(network_order(address));
    lemma_port_is_read_back(port);
    lemma_network_order_twice(address);
}

/// The columns of a listening socket's row as the kernel prints them: at least
/// ten, among them the address, the state and the inode.
pub open spec fn kernel_row(columns: Seq<Seq<char>>, local: Seq<char>, inode: u64) -> bool {
    &&& columns.len() >= 10
    &&& columns[1] == local
    &&& columns[3] == "0A"@
    &&& columns[9] == decimal(inode as nat)
}

/// The row of an IPv4 socket that listens describes that socket, whatever the
/// white space between and around its columns.
pub proof fn law_ipv4_listener_is_found(
    line: Seq<char>,
    columns: Seq<Seq<char>>,
    a: u8,
    b: u8,
    c: u8,
    d: u8,
    port: u16,
    inode: u64,
)
    requires
        fields(line) == columns,
        kernel_row(columns, upper_hex(seq![d, c, b, a]) + seq![':'] + upper_hex_port(port), inode),
    ensures
        row_on_port(line, port, false) == Some(
            (ListenSocketView {
                local_addr: dotted(a, b, c, d) + ":"@ + decimal(port as nat),
                port,
                inode,
            }),
        ),
{
    lemma_listen_state();
    law_decimal_is_read_back(inode as nat, u64::MAX as int);
    lemma_column_splits(upper_hex(seq![d, c, b, a]), upper_hex_port(port));
    law_ipv4_address_is_shown(a, b, c, d, port);
}

/// The row of an IPv6 socket that listens describes that socket, whatever the
/// white space between and around its columns.
pub proof fn law_ipv6_listener_is_found(
    line: Seq<char>,
    columns: Seq<Seq<char>>,
    address: Seq<u8>,
    port: u16,
    inode: u64,
)
    requires
        address.len() == 16,
        fields(line) == columns,
        kernel_row(
            columns,
            upper_hex(network_order(address)) + seq![':'] + upper_hex_port(port),
            inode,
        ),
    ensures
        row_on_port(line, port, true) == Some(
            (ListenSocketView {
                local_addr: "["@ + join(ipv6_groups(address), ":"@) + "]:"@ + decimal(port as nat),
                port,
                inode,
            }),
        ),
{
    lemma_listen_state();
    law_decimal_is_read_back(inode as nat, u64::MAX as int);
    lemma_column_splits(upper_hex(network_order(address)), upper_hex_port(port));
    law_ipv6_address_is_shown(address, port);
}

/// `0A` is how the kernel prints the state of a listening socket.
proof fn lemma_listen_state()
    ensures
        parse_number("0A"@, 16, 0xff) == Some(TCP_LISTEN as int),
{
    reveal_strlit("0A");
    lemma_pair_value("0A"@, TCP_LISTEN);
}

/// The colon of a printed address column is found where it was put.
proof fn lemma_column_splits(addr_hex: Seq<char>, port_hex: Seq<char>)
    requires
        forall|i: int| 0 <= i < addr_hex.len() ==> addr_hex[i] != ':',
    ensures
        split_once(addr_hex + seq![':'] + port_hex, ':') == Some((addr_hex, port_hex)),
{
    let column = addr_hex + seq![':'] + port_hex;
    column.index_of_first_ensures(':');
    let k = column.index_of_first(':')->0;
    assert(column[addr_hex.len() as int] == ':');
    assert(column.contains(':'));
    if k < addr_hex.len() {
        assert(column[k] == addr_hex[k]);
    }
    assert(column.take(k) == addr_hex);
    assert(column.skip(k + 1) == port_hex);
}

/// What the rows of a list describe is what the parts of the list describe.
proof fn lemma_filter_map_add<A, B>(s: Seq<A>, t: Seq<A>, f: spec_fn(A) -> Option<B>)
    ensures
        (s + t).filter_map(f) == s.filter_map(f) + t.filter_map(f),
    decreases t.len(),
{
    if t.len() == 0 {
        assert(s + t == s);
    } else {
        assert((s + t).drop_last() == s + t.drop_last());
        lemma_filter_map_add(s, t.drop_last(), f);
    }
}

/// A table of a header and rows.
pub open spec fn table(header: Seq<char>, rows: Seq<Seq<char>>) -> Seq<char> {
    join(seq![header] + rows, seq!['\n'])
}

/// Whether no line of a table holds a line feed.
pub open spec fn whole_lines(header: Seq<char>, rows: Seq<Seq<char>>) -> bool {
    forall|i: int, j: int|
        0 <= i <= rows.len() && 0 <= j < (seq![header] + rows)[i].len() ==> (#[trigger] (
        seq![header] + rows)[i][j]) != '\n'
}

/// A table gives the sockets that its rows describe, one after the other: each
/// row that listens on the port, however many there are, and nothing for the
/// header.
pub proof fn law_table_gives_its_rows(
    header: Seq<char>,
    rows: Seq<Seq<char>>,
    port: u16,
    ipv6: bool,
)
    requires
        whole_lines(header, rows),
    ensures
        listen_sockets(table(header, rows), port, ipv6) == rows.filter_map(
            |line: Seq<char>| row_on_port(line, port, ipv6),
        ),
{
    let parts = seq![header] + rows;
    law_split_undoes_join(parts, '\n', |c: char| c == '\n');
    assert(parts.skip(1) == rows);
}

/// A row that describes no listening socket on the port is skipped: the table
/// gives what it gives without it.
pub proof fn law_other_rows_are_skipped(
    header: Seq<char>,
    before: Seq<Seq<char>>,
    row: Seq<char>,
    after: Seq<Seq<char>>,
    port: u16,
    ipv6: bool,
)
    requires
        whole_lines(header, before + seq![row] + after),
        row_on_port(row, port, ipv6) is None,
    ensures
        listen_sockets(table(header, before + seq![row] + after), port, ipv6) == listen_sockets(
            table(header, before + after),
            port,
            ipv6,
        ),
{
    let f = |line: Seq<char>| row_on_port(line, port, ipv6);
    let full = seq![header] + (before + seq![row] + after);
    let short = seq![header] + (before + after);
    assert forall|i: int, j: int|
        0 <= i <= (before + after).len() && 0 <= j < short[i].len() implies (
    #[trigger] short[i][j]) != '\n' by {
        if i <= before.len() {
            assert(short[i] == full[i]);
            assert(full[i][j] != '\n');
        } else {
            assert(short[i] == full[i + 1]);
            assert(full[i + 1][j] != '\n');
        }
    }
    law_table_gives_its_rows(header, before + seq![row] + after, port, ipv6);
    law_table_gives_its_rows(header, before + after, port, ipv6);
    lemma_filter_map_add(before + seq![row], after, f);
    lemma_filter_map_add(before, seq![row], f);
    lemma_filter_map_add(before, after, f);
    Seq::lemma_filter_map_singleton(row, f);
    assert(before.filter_map(f) + Seq::<ListenSocketView>::empty() == before.filter_map(f));
}

/// A socket is reported exactly where some row below the header describes it
/// as listening, and then its port is the one asked for.
pub proof fn law_reports_exactly_the_listeners(
    contents: Seq<char>,
    port: u16,
    ipv6: bool,
    socket: ListenSocketView,
)
    ensures
        listen_sockets(contents, port, ipv6).contains(socket) <==> (socket.port == port && exists|
            i: int,
        |
            1 <= i < lines(contents).len() && listen_row(#[trigger] lines(contents)[i], ipv6)
                == Some(socket)),
{
    let f = |line: Seq<char>| row_on_port(line, port, ipv6);
    let body = lines(contents).skip(1);
    if listen_sockets(contents, port, ipv6).contains(socket) {
        body.lemma_filter_map_contains(f, socket);
        let t = choose|t: Seq<char>| body.contains(t) && #[trigger] f(t) == Some(socket);
        let k = choose|k: int| 0 <= k < body.len() && body[k] == t;
        assert(lines(contents)[k + 1] == t);
    }
    if socket.port == port && exists|i: int|
        1 <= i < lines(contents).len() && listen_row(#[trigger] lines(contents)[i], ipv6) == Some(
            socket,
        ) {
        let i = choose|i: int|
            1 <= i < lines(contents).len() && listen_row(#[trigger] lines(contents)[i], ipv6)
                == Some(socket);
        let k = i - 1;
        assert(body[k] == lines(contents)[i]);
        lemma_filter_map_add(body.take(k + 1), body.skip(k + 1), f);
        body.lemma_filter_map_take_succ(f, k);
        assert(body.take(k + 1) + body.skip(k + 1) == body);
        let head = body.take(k).filter_map(f);
        let tail = body.skip(k + 1).filter_map(f);
        assert(body.filter_map(f) == head + seq![socket] + tail);
        assert((head + seq![socket] + tail)[head.len() as int] == socket);
    }
}

/// What is said of a list of sockets is said of each of them, in order, and
/// nothing of it is left out.
pub proof fn law_sockets_are_seen_whole(sockets: Seq<ListenSocket>, i: int)
    requires
        0 <= i < sockets.len(),
    ensures
        socket_views(sockets).len() == sockets.len(),
        socket_views(sockets)[i].local_addr == sockets[i].local_addr@,
        socket_views(sockets)[i].port == sockets[i].port,
        socket_views(sockets)[i].inode == sockets[i].inode,
{
}

/// A text writes these bytes exactly if it is as long as two digits each, and
/// every two digits have the value of their byte.
pub proof fn law_two_digits_are_a_byte(hex: Seq<char>, bytes: Seq<u8>)
    ensures
        hex_bytes(hex) == Some(bytes) <==> hex.len() == 2 * bytes.len() && forall|i: int|
            0 <= i < bytes.len() ==> parse_number(#[trigger] hex.subrange(2 * i, 2 * i + 2), 16, 255)
                == Some(bytes[i] as int),
{
    if hex_bytes(hex) == Some(bytes) {
        assert forall|i: int| 0 <= i < bytes.len() implies parse_number(
            #[trigger] hex.subrange(2 * i, 2 * i + 2),
            16,
            255,
        ) == Some(bytes[i] as int) by {
            assert(hex_pair(hex, i) is Some);
            lemma_number_in_range(hex.subrange(2 * i, 2 * i + 2), 16, 255);
        }
    }
    if hex.len() == 2 * bytes.len() && forall|i: int|
        0 <= i < bytes.len() ==> parse_number(#[trigger] hex.subrange(2 * i, 2 * i + 2), 16, 255)
            == Some(bytes[i] as int) {
        assert forall|i: int| 0 <= i < hex.len() / 2 implies (#[trigger] hex_pair(hex, i)) == Some(
            bytes[i] as int,
        ) by {
            assert(parse_number(hex.subrange(2 * i, 2 * i + 2), 16, 255) == Some(bytes[i] as int));
        }
        assert(hex_bytes(hex)->0 == bytes);
    }
}

/// A number that is read is not negative and not too large.
proof fn lemma_number_in_range(s: Seq<char>, radix: int, max: int)
    requires
        2 <= radix <= 36,
    ensures
        parse_number(s, radix, max) matches Some(n) ==> 0 <= n <= max,
{
    lemma_digits_not_negative(s, radix);
    lemma_digits_not_negative(s.skip(1), radix);
}

/// No digits have a negative value.
proof fn lemma_digits_not_negative(s: Seq<char>, radix: int)
    requires
        2 <= radix <= 36,
    ensures
        digits_value(s, radix) matches Some(n) ==> 0 <= n,
    decreases s.len(),
{
    if s.len() > 0 {
        lemma_digits_not_negative(s.drop_last(), radix);
        if let Some(high) = digits_value(s.drop_last(), radix) {
            assert(high * radix >= 0) by (nonlinear_arith)
                requires
                    high >= 0,
                    radix >= 2,
            ;
        }
    }
}

/// An IPv4 column is shown exactly where it has four bytes and a port: last
/// byte first, with dots between, and the port in decimal.
pub proof fn law_ipv4_column(
    addr_hex: Seq<char>,
    port_hex: Seq<char>,
    d: u8,
    c: u8,
    b: u8,
    a: u8,
    port: u16,
)
    ensures
        hex_bytes(addr_hex) == Some(seq![d, c, b, a]) && parse_number(port_hex, 16, 65535) == Some(
            port as int,
        ) ==> ipv4_local(addr_hex, port_hex) == Some(
            (
                join(
                    seq![
                        decimal(a as nat),
                        decimal(b as nat),
                        decimal(c as nat),
                        decimal(d as nat),
                    ],
                    "."@,
                ) + ":"@ + decimal(port as nat),
                port,
            ),
        ),
        ipv4_local(addr_hex, port_hex) is Some ==> (hex_bytes(addr_hex) matches Some(bytes)
            && bytes.len() == 4) && parse_number(port_hex, 16, 65535) is Some,
{
    let parts = seq![
        decimal(a as nat),
        decimal(b as nat),
        decimal(c as nat),
        decimal(d as nat),
    ];
    reveal_with_fuel(join, 5);
    assert(parts.drop_last().drop_last().drop_last()[0] == decimal(a as nat));
    assert(join(parts, "."@) == dotted(a, b, c, d));
}

/// An IPv6 column is shown exactly where it has sixteen bytes and a port: as
/// eight groups of two bytes each, with colons between and in brackets. The
/// bytes of a group are those of its half of a word, the last of which stand
/// first.
pub proof fn law_ipv6_column(
    addr_hex: Seq<char>,
    port_hex: Seq<char>,
    raw: Seq<u8>,
    groups: Seq<Seq<char>>,
    port: u16,
)
    requires
        groups.len() == 8,
        raw.len() == 16 ==> forall|w: int|
            0 <= w < 4 ==> #[trigger] groups[2 * w] == hex_byte(raw[4 * w + 3]) + hex_byte(
                raw[4 * w + 2],
            ),
        raw.len() == 16 ==> forall|w: int|
            0 <= w < 4 ==> #[trigger] groups[2 * w + 1] == hex_byte(raw[4 * w + 1]) + hex_byte(
                raw[4 * w],
            ),
    ensures
        hex_bytes(addr_hex) == Some(raw) && raw.len() == 16 && parse_number(port_hex, 16, 65535)
            == Some(port as int) ==> ipv6_local(addr_hex, port_hex) == Some(
            ("["@ + join(groups, ":"@) + "]:"@ + decimal(port as nat), port),
        ),
        ipv6_local(addr_hex, port_hex) is Some ==> (hex_bytes(addr_hex) matches Some(bytes)
            && bytes.len() == 16) && parse_number(port_hex, 16, 65535) is Some,
{
    if raw.len() == 16 {
        let shown = ipv6_groups(network_order(raw));
        assert forall|g: int| 0 <= g < 8 implies shown[g] == groups[g] by {
            let w = g / 2;
            if g % 2 == 0 {
                assert(groups[2 * w] == hex_byte(raw[4 * w + 3]) + hex_byte(raw[4 * w + 2]));
            } else {
                assert(groups[2 * w + 1] == hex_byte(raw[4 * w + 1]) + hex_byte(raw[4 * w]));
            }
        }
        assert(shown == groups);
    }
}

/// The address of a column is what stands before its first colon, and the port
/// what stands after it; without a colon there is neither.
pub proof fn law_colon_parts_address_and_port(addr_hex: Seq<char>, port_hex: Seq<char>)
    requires
        forall|i: int| 0 <= i < addr_hex.len() ==> addr_hex[i] != ':',
    ensures
        local_address(addr_hex + seq![':'] + port_hex, false) == ipv4_local(addr_hex, port_hex),
        local_address(addr_hex + seq![':'] + port_hex, true) == ipv6_local(addr_hex, port_hex),
        local_address(addr_hex, false) is None,
        local_address(addr_hex, true) is None,
{
    law_cut_at_the_first(addr_hex, ':', port_hex);
}

/// A row describes a socket on the port exactly if it has ten columns, is in
/// the listening state, shows that address with that port, and has that inode.
pub proof fn law_row_describes_its_columns(
    line: Seq<char>,
    port: u16,
    ipv6: bool,
    socket: ListenSocketView,
)
    ensures
        row_on_port(line, port, ipv6) == Some(socket) <==> {
            &&& fields(line).len() >= 10
            &&& parse_number(fields(line)[3], 16, 255) == Some(10int)
            &&& local_address(fields(line)[1], ipv6) == Some((socket.local_addr, port))
            &&& parse_number(fields(line)[9], 10, 18446744073709551615) == Some(socket.inode as int)
            &&& socket.port == port
        },
{
    let columns = fields(line);
    if columns.len() >= 10 {
        lemma_number_in_range(columns[9], 10, 18446744073709551615);
    }
}

/// A row in any state but the listening one describes no socket, on whatever
/// port and in either table.
pub proof fn law_other_states_are_not_listening(line: Seq<char>, port: u16, ipv6: bool)
    requires
        fields(line).len() >= 10,
        parse_number(fields(line)[3], 16, 0xff) != Some(10int),
    ensures
        row_on_port(line, port, ipv6) is None,
        listen_row(line, ipv6) is None,
{
}

/// The header gives nothing, and each line below adds the socket that it
/// describes, after those of the lines above it.
pub proof fn law_each_line_adds_its_socket(
    contents: Seq<char>,
    line: Seq<char>,
    port: u16,
    ipv6: bool,
)
    requires
        forall|i: int| 0 <= i < line.len() ==> line[i] != '\n',
    ensures
        listen_sockets(line, port, ipv6).len() == 0,
        row_on_port(line, port, ipv6) matches Some(socket) ==> listen_sockets(
            contents + seq!['\n'] + line,
            port,
            ipv6,
        ) == listen_sockets(contents, port, ipv6).push(socket),
        row_on_port(line, port, ipv6) is None ==> listen_sockets(
            contents + seq!['\n'] + line,
            port,
            ipv6,
        ) == listen_sockets(contents, port, ipv6),
{
    let f = |row: Seq<char>| row_on_port(row, port, ipv6);
    law_line_feeds_end_lines(contents, line);
    lemma_split_where_len(contents, |c: char| c == '\n');
    let body = lines(contents).skip(1);
    assert(lines(line).skip(1) == Seq::<Seq<char>>::empty());
    assert(lines(contents + seq!['\n'] + line).skip(1) == body.push(line));
    assert(body.push(line).drop_last() == body);
}

} // verus!
