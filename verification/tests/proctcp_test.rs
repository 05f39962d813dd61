use whatport::proctcp::{
    decode_ipv4, decode_ipv6, hex_to_bytes, parse_listen_sockets_for_port, ListenSocket,
};
use whatport::text::chars_of;

const FIXTURE_TCP: &str = "\
  sl  local_address rem_address   st tx_queue rx_queue tr tm->when retrnsmt   uid  timeout inode
   0: 00000000:1F90 00000000:0000 0A 00000000:00000000 00:00000000 00000000     0        0 111 1 0000000000000000 100 0 0 10 0
   1: 0100007F:0050 00000000:0000 0A 00000000:00000000 00:00000000 00000000     0        0 222 1 0000000000000000 100 0 0 10 0
   2: 0100007F:1538 0A00A8C0:C6C4 01 00000000:00000000 00:00000000 00000000     0        0 333 1 0000000000000000 100 0 0 10 0
";

#[test]
fn finds_the_listen_row_matching_the_requested_port() {
    // 0x1F90 == 8080
    let sockets = parse_listen_sockets_for_port(FIXTURE_TCP, 8080, false);
    assert_eq!(sockets.len(), 1);
    assert_eq!(sockets[0].inode, 111);
    assert_eq!(sockets[0].local_addr, "0.0.0.0:8080");
}

#[test]
fn loopback_bound_port_decodes_the_real_ip() {
    // 0x0050 == 80, "0100007F" -> 127.0.0.1
    let sockets = parse_listen_sockets_for_port(FIXTURE_TCP, 80, false);
    assert_eq!(sockets.len(), 1);
    assert_eq!(sockets[0].local_addr, "127.0.0.1:80");
    assert_eq!(sockets[0].inode, 222);
}

#[test]
fn non_listen_state_rows_are_never_matched_even_on_port_match() {
    // row 2 is ESTABLISHED (01) on local port 0x1538 (5432)
    let sockets = parse_listen_sockets_for_port(FIXTURE_TCP, 0x1538, false);
    assert!(sockets.is_empty());
}

#[test]
fn port_with_no_matching_row_returns_empty() {
    assert!(parse_listen_sockets_for_port(FIXTURE_TCP, 9999, false).is_empty());
}

#[test]
fn empty_table_returns_empty() {
    assert!(parse_listen_sockets_for_port("header only\n", 80, false).is_empty());
}

#[test]
fn malformed_lines_are_skipped_not_fatal() {
    let contents = "header\nnot enough fields\n";
    assert!(parse_listen_sockets_for_port(contents, 80, false).is_empty());
}

#[test]
fn so_reuseport_two_inodes_same_port_are_both_returned() {
    let contents = "header\n\
   0: 00000000:1F90 00000000:0000 0A 00000000:00000000 00:00000000 00000000     0        0 111 1 0 100 0 0 10 0\n\
   1: 00000000:1F90 00000000:0000 0A 00000000:00000000 00:00000000 00000000     0        0 222 1 0 100 0 0 10 0\n";
    let sockets = parse_listen_sockets_for_port(contents, 8080, false);
    assert_eq!(sockets.len(), 2);
    let inodes: Vec<u64> = sockets.iter().map(|s| s.inode).collect();
    assert!(inodes.contains(&111));
    assert!(inodes.contains(&222));
}

#[test]
fn ipv6_any_address_decodes_and_matches_by_port() {
    let contents = "header\n   0: 00000000000000000000000000000000:1F90 00000000000000000000000000000000:0000 0A 00000000:00000000 00:00000000 00000000     0        0 444 1 0 100 0 0 10 0\n";
    let sockets = parse_listen_sockets_for_port(contents, 8080, true);
    assert_eq!(sockets.len(), 1);
    assert_eq!(
        sockets[0].local_addr,
        "[0000:0000:0000:0000:0000:0000:0000:0000]:8080"
    );
    assert_eq!(sockets[0].inode, 444);
}

#[test]
fn ipv6_loopback_decodes_the_real_address() {
    let contents = "header\n   0: 00000000000000000000000001000000:0050 00000000000000000000000000000000:0000 0A 00000000:00000000 00:00000000 00000000     0        0 555 1 0 100 0 0 10 0\n";
    let sockets = parse_listen_sockets_for_port(contents, 80, true);
    assert_eq!(sockets.len(), 1);
    assert_eq!(
        sockets[0].local_addr,
        "[0000:0000:0000:0000:0000:0000:0000:0001]:80"
    );
}

#[test]
fn bad_inode_column_is_skipped_not_fatal() {
    let contents = "header\n   0: 00000000:1F90 00000000:0000 0A 00000000:00000000 00:00000000 00000000     0        0 not-a-number 1 0 100 0 0 10 0\n";
    assert!(parse_listen_sockets_for_port(contents, 8080, false).is_empty());
}

fn row(local: &str, state: &str, inode: &str) -> String {
    format!("   0: {local} 00000000:0000 {state} 0:0 00:0 0 0 0 {inode} 1 0 100")
}

fn one(row: &str, port: u16, ipv6: bool) -> Vec<ListenSocket> {
    parse_listen_sockets_for_port(&format!("header\n{row}"), port, ipv6)
}

#[test]
fn every_byte_of_an_ipv4_address_is_put_in_its_place() {
    let found = one(&row("0A00A8C0:C6C4", "0A", "7"), 0xC6C4, false);
    assert_eq!(
        found,
        vec![ListenSocket {
            local_addr: "192.168.0.10:50884".to_string(),
            port: 0xC6C4,
            inode: 7,
        }]
    );
}

#[test]
fn every_byte_of_an_ipv6_address_is_put_in_its_place() {
    // 0123:4567:89ab:cdef:fedc:ba98:7654:3210
    let found = one(
        &row("67452301EFCDAB8998BADCFE10325476:FFFF", "0A", "18446744073709551615"),
        65535,
        true,
    );
    assert_eq!(
        found,
        vec![ListenSocket {
            local_addr: "[0123:4567:89ab:cdef:fedc:ba98:7654:3210]:65535".to_string(),
            port: 65535,
            inode: u64::MAX,
        }]
    );
}

#[test]
fn decoding_undoes_the_kernels_encoding() {
    let port_hex = chars_of("1F90");
    assert_eq!(
        decode_ipv4(&chars_of("FE01A8C0"), &port_hex),
        Some(("192.168.1.254:8080".to_string(), 8080))
    );
    assert_eq!(
        decode_ipv6(&chars_of("B80D0120000000000000000001000000"), &port_hex),
        Some(("[2001:0db8:0000:0000:0000:0000:0000:0001]:8080".to_string(), 8080))
    );
    assert_eq!(decode_ipv4(&chars_of("FE01A8"), &port_hex), None);
    assert_eq!(decode_ipv6(&chars_of("FE01A8C0"), &port_hex), None);
    assert_eq!(decode_ipv4(&chars_of("FE01A8C0"), &chars_of("10000")), None);
    assert_eq!(decode_ipv6(&chars_of("B80D0120000000000000000001000000"), &[]), None);
}

#[test]
fn the_white_space_between_columns_does_not_matter() {
    let found = one(&row("0100007F:1F90", "0A", "7"), 8080, false);
    assert_eq!(found.len(), 1);
    for line in [
        "0: 0100007F:1F90 r 0A q t w u o 7",
        "   0:\t0100007F:1F90   r  0A q\t\tt w u      o 7   ",
        "\u{3000}0: 0100007F:1F90 r 0A q t w u o 7 1 0\r",
    ] {
        assert_eq!(one(line, 8080, false), found, "{line}");
    }
}

#[test]
fn bytes_are_pairs_of_digits() {
    assert_eq!(hex_to_bytes(&chars_of("00fFA5")), Some(vec![0, 255, 0xa5]));
    assert_eq!(hex_to_bytes(&[]), Some(vec![]));
    assert_eq!(hex_to_bytes(&chars_of("0")), None);
    assert_eq!(hex_to_bytes(&chars_of("0g")), None);
}

#[test]
fn hexadecimal_digits_may_be_of_either_case() {
    let found = one(&row("0100007f:1f90", "0a", "7"), 8080, false);
    assert_eq!(found.len(), 1);
    assert_eq!(found[0].local_addr, "127.0.0.1:8080");
}

#[test]
fn the_first_line_is_never_a_row() {
    let contents = row("00000000:1F90", "0A", "7");
    assert!(parse_listen_sockets_for_port(&contents, 8080, false).is_empty());
}

#[test]
fn a_table_without_a_last_line_feed_is_read_to_its_end() {
    assert_eq!(one(&row("00000000:1F90", "0A", "7"), 8080, false).len(), 1);
}

#[test]
fn carriage_returns_do_not_matter() {
    let contents = format!("header\r\n{}\r\n", row("00000000:1F90", "0A", "7"));
    assert_eq!(parse_listen_sockets_for_port(&contents, 8080, false).len(), 1);
}

#[test]
fn ten_columns_are_enough_and_nine_are_not() {
    assert_eq!(one("0: 00000000:1F90 r 0A q t w u o 9", 8080, false).len(), 1);
    assert!(one("0: 00000000:1F90 r 0A q t w u 9", 8080, false).is_empty());
}

#[test]
fn malformed_columns_are_skipped() {
    for local in [
        "000000001F90",
        "0000000:1F90",
        "0000000G:1F90",
        "000000:1F90",
        "00000000:1F9G",
        "00000000:11F90",
        "00000000:",
        ":1F90",
        "00000000:1F90:0000",
        "0é0000:1F90",
    ] {
        assert!(one(&row(local, "0A", "7"), 8080, false).is_empty(), "{local}");
    }
    for state in ["0B", "10A", "x", "-A"] {
        assert!(one(&row("00000000:1F90", state, "7"), 8080, false).is_empty(), "{state}");
    }
    for inode in ["18446744073709551616", "-1", "7x", "+"] {
        assert!(one(&row("00000000:1F90", "0A", inode), 8080, false).is_empty(), "{inode}");
    }
}

#[test]
fn a_row_of_the_wrong_address_width_is_skipped() {
    assert!(one(&row("00000000:1F90", "0A", "7"), 8080, true).is_empty());
    let any = "00000000000000000000000000000000:1F90";
    assert!(one(&row(any, "0A", "7"), 8080, false).is_empty());
}

#[test]
fn a_skipped_row_changes_nothing_around_it() {
    let first = row("00000000:1F90", "0A", "1");
    let last = row("0100007F:1F90", "0A", "2");
    let with = format!("header\n{first}\ngarbage\n{last}\n");
    let without = format!("header\n{first}\n{last}\n");
    let found = parse_listen_sockets_for_port(&with, 8080, false);
    assert_eq!(found, parse_listen_sockets_for_port(&without, 8080, false));
    assert_eq!(found.iter().map(|s| s.inode).collect::<Vec<u64>>(), vec![1, 2]);
}
