//! End-to-end exercises of the pure scanning pipeline: address sweep, probe
//! outcome classification, host record assembly, and ordered collection.

use netscan::scan::{
    collect_hosts, merge_ports, open_port_records, scan_host_record, sweep_addresses, HostInfo,
};
use netscan::service::ServiceType;

/// Run the pure pipeline over a simulated subnet: `open_at(host_octet, port)`
/// says which probes would have succeeded.
fn run_pipeline<F: Fn(u8, u16) -> bool>(
    a: u8,
    b: u8,
    c: u8,
    extra_ports: Option<Vec<u16>>,
    open_at: F,
) -> Vec<HostInfo> {
    let ports = merge_ports(&extra_ports);
    let addresses = sweep_addresses(a, b, c);
    let mut per_host: Vec<Option<HostInfo>> = Vec::new();
    for (idx, address) in addresses.into_iter().enumerate() {
        let octet = (idx + 1) as u8;
        let open: Vec<bool> = ports.iter().map(|&p| open_at(octet, p)).collect();
        let records = open_port_records(&ports, &open);
        per_host.push(scan_host_record(address, None, records));
    }
    collect_hosts(per_host)
}

#[test]
fn single_host_single_extra_port() {
    // only 10.0.0.5:12345 is open anywhere in the subnet
    let result = run_pipeline(10, 0, 0, Some(vec![12345]), |octet, port| {
        octet == 5 && port == 12345
    });
    assert_eq!(result.len(), 1);
    assert_eq!(result[0].ip, "10.0.0.5");
    assert_eq!(result[0].hostname, None);
    assert_eq!(result[0].ports.len(), 1);
    assert_eq!(result[0].ports[0].port, 12345);
    assert_eq!(result[0].ports[0].service, ServiceType::Unknown);
    assert_eq!(result[0].ports[0].service_label, "Unknown");
}

#[test]
fn silent_subnet_yields_empty_result() {
    let result = run_pipeline(10, 0, 0, None, |_, _| false);
    assert!(result.is_empty());
}

#[test]
fn hosts_sort_numerically_not_textually() {
    // ".9" must come before ".10" and ".100"
    let result = run_pipeline(10, 0, 0, None, |octet, port| {
        (octet == 9 || octet == 10 || octet == 100) && port == 22
    });
    let addresses: Vec<&str> = result.iter().map(|h| h.ip.as_str()).collect();
    assert_eq!(addresses, vec!["10.0.0.9", "10.0.0.10", "10.0.0.100"]);
}

#[test]
fn host_accepting_only_port_80() {
    // the default list includes 22 and 80; a host accepting only 80 reports
    // exactly one HTTP record and none for 22
    let result = run_pipeline(192, 168, 1, None, |octet, port| octet == 3 && port == 80);
    assert_eq!(result.len(), 1);
    let host = &result[0];
    assert_eq!(host.ip, "192.168.1.3");
    assert_eq!(host.ports.len(), 1);
    assert_eq!(host.ports[0].port, 80);
    assert_eq!(host.ports[0].service, ServiceType::HTTP);
    assert_eq!(host.ports[0].service_label, "HTTP");
    assert!(host.ports.iter().all(|p| p.port != 22));
}

#[test]
fn records_within_a_host_ascend_by_port() {
    let result = run_pipeline(10, 0, 0, Some(vec![12345, 2]), |octet, port| {
        octet == 1 && (port == 12345 || port == 2 || port == 443 || port == 22)
    });
    assert_eq!(result.len(), 1);
    let numbers: Vec<u16> = result[0].ports.iter().map(|p| p.port).collect();
    assert_eq!(numbers, vec![2, 22, 443, 12345]);
}
