use netscan::addr::{format_ip, format_prefix, parse_octet, parse_prefix};
use netscan::net::network_info_of;
use netscan::scan::sweep_addresses;

#[test]
fn formats_octets_of_every_width() {
    assert_eq!(format_ip(0, 7, 42, 255), "0.7.42.255");
    assert_eq!(format_ip(192, 168, 1, 42), "192.168.1.42");
    assert_eq!(format_prefix(10, 0, 0), "10.0.0");
    assert_eq!(format_prefix(172, 16, 254), "172.16.254");
}

#[test]
fn parse_octet_accepts_canonical_decimals() {
    assert_eq!(parse_octet("0"), Some(0));
    assert_eq!(parse_octet("9"), Some(9));
    assert_eq!(parse_octet("10"), Some(10));
    assert_eq!(parse_octet("99"), Some(99));
    assert_eq!(parse_octet("100"), Some(100));
    assert_eq!(parse_octet("255"), Some(255));
}

#[test]
fn parse_octet_rejects_everything_else() {
    assert_eq!(parse_octet(""), None);
    assert_eq!(parse_octet("256"), None);
    assert_eq!(parse_octet("999"), None);
    assert_eq!(parse_octet("1000"), None);
    assert_eq!(parse_octet("00"), None);
    assert_eq!(parse_octet("007"), None);
    assert_eq!(parse_octet("01"), None);
    assert_eq!(parse_octet("-1"), None);
    assert_eq!(parse_octet("1a"), None);
    assert_eq!(parse_octet(" 1"), None);
}

#[test]
fn parse_prefix_accepts_three_octets() {
    assert_eq!(parse_prefix("10.0.0"), Some((10, 0, 0)));
    assert_eq!(parse_prefix("192.168.1"), Some((192, 168, 1)));
    assert_eq!(parse_prefix("255.255.255"), Some((255, 255, 255)));
    assert_eq!(parse_prefix("0.0.0"), Some((0, 0, 0)));
}

#[test]
fn parse_prefix_rejects_malformed_text() {
    assert_eq!(parse_prefix(""), None);
    assert_eq!(parse_prefix("10"), None);
    assert_eq!(parse_prefix("10.0"), None);
    assert_eq!(parse_prefix("10.0.0.1"), None);
    assert_eq!(parse_prefix("300.1.2"), None);
    assert_eq!(parse_prefix("01.2.3"), None);
    assert_eq!(parse_prefix("a.b.c"), None);
    assert_eq!(parse_prefix("10..0"), None);
    assert_eq!(parse_prefix("10.0."), None);
    assert_eq!(parse_prefix(".0.0"), None);
    assert_eq!(parse_prefix("10 .0.0"), None);
}

#[test]
fn parse_round_trips_formatting() {
    assert_eq!(parse_prefix(&format_prefix(172, 16, 9)), Some((172, 16, 9)));
    assert_eq!(parse_octet("137"), Some(137));
}

#[test]
fn sweep_covers_the_whole_host_range() {
    let addrs = sweep_addresses(10, 0, 0);
    assert_eq!(addrs.len(), 254);
    assert_eq!(addrs[0], "10.0.0.1");
    assert_eq!(addrs[8], "10.0.0.9");
    assert_eq!(addrs[9], "10.0.0.10");
    assert_eq!(addrs[253], "10.0.0.254");
}

#[test]
fn network_context_prefix_matches_local_address() {
    let info = network_info_of(192, 168, 1, 42);
    assert_eq!(info.local_ip, "192.168.1.42");
    assert_eq!(info.subnet, "192.168.1");
    assert!(info.local_ip.starts_with(&info.subnet));
    let info = network_info_of(10, 0, 0, 254);
    assert_eq!(info.local_ip, "10.0.0.254");
    assert_eq!(info.subnet, "10.0.0");
}
