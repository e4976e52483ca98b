use netscan::resolve::{filter_resolved, hostname_from_lookup, parse_reverse_lookup};

#[test]
fn parses_pointer_line() {
    let output = "5.0.0.10.in-addr.arpa domain name pointer myhost.local.\n";
    assert_eq!(parse_reverse_lookup(output).as_deref(), Some("myhost.local"));
}

#[test]
fn parses_only_the_first_line() {
    let output = "no pointer here\n9.0.0.10.in-addr.arpa domain name pointer other.local.\n";
    assert_eq!(parse_reverse_lookup(output), None);
}

#[test]
fn trims_all_trailing_dots() {
    let output = "x domain name pointer host.example...\n";
    assert_eq!(parse_reverse_lookup(output).as_deref(), Some("host.example"));
}

#[test]
fn missing_marker_yields_absent() {
    assert_eq!(parse_reverse_lookup(""), None);
    assert_eq!(parse_reverse_lookup("Host 10.0.0.5 not found: 3(NXDOMAIN)\n"), None);
    assert_eq!(parse_reverse_lookup("domain name\n"), None);
}

#[test]
fn resolver_echo_is_treated_as_absent() {
    let ip = String::from("10.0.0.5");
    assert_eq!(filter_resolved(&ip, Some(String::from("10.0.0.5"))), None);
    assert_eq!(
        filter_resolved(&ip, Some(String::from("printer.lan"))).as_deref(),
        Some("printer.lan")
    );
    assert_eq!(filter_resolved(&ip, None), None);
}

#[test]
fn lookup_and_echo_rule_compose() {
    let ip = String::from("10.0.0.5");
    let echoing = "5.0.0.10.in-addr.arpa domain name pointer 10.0.0.5.\n";
    assert_eq!(hostname_from_lookup(&ip, echoing), None);
    let informative = "5.0.0.10.in-addr.arpa domain name pointer nas.home.\n";
    assert_eq!(hostname_from_lookup(&ip, informative).as_deref(), Some("nas.home"));
    assert_eq!(hostname_from_lookup(&ip, "no such host\n"), None);
}
