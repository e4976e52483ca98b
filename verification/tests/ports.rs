use netscan::scan::{default_ports, merge_ports, open_port_records, scan_host_record};
use netscan::service::ServiceType;

const EXPECTED_DEFAULTS: [u16; 34] = [
    21, 22, 23, 25, 53, 67, 68, 80, 443, 445, 465, 587, 1883, 2375, 2376, 3000, 3306, 3389, 5000,
    5173, 5432, 5900, 5901, 6379, 6443, 8080, 8443, 8883, 8888, 9000, 9090, 9200, 9300, 27017,
];

fn assert_ascending_no_dups(v: &[u16]) {
    for w in v.windows(2) {
        assert!(w[0] < w[1], "not strictly ascending: {} then {}", w[0], w[1]);
    }
}

#[test]
fn default_list_is_fixed_and_sorted() {
    let d = default_ports();
    assert_eq!(d.as_slice(), EXPECTED_DEFAULTS.as_slice());
    assert_ascending_no_dups(&d);
    assert!(d.contains(&22));
    assert!(d.contains(&80));
}

#[test]
fn merge_without_extras_is_default() {
    let merged = merge_ports(&None);
    assert_eq!(merged.as_slice(), EXPECTED_DEFAULTS.as_slice());
}

#[test]
fn merge_overlapping_extras_has_no_duplicates() {
    let merged = merge_ports(&Some(vec![22, 80, 12345, 12345, 21]));
    assert_ascending_no_dups(&merged);
    assert_eq!(merged.len(), EXPECTED_DEFAULTS.len() + 1);
    assert!(merged.contains(&12345));
    assert_eq!(merged.iter().filter(|&&p| p == 22).count(), 1);
    assert_eq!(merged.iter().filter(|&&p| p == 80).count(), 1);
    assert_eq!(merged.iter().filter(|&&p| p == 12345).count(), 1);
}

#[test]
fn merge_disjoint_extras_are_inserted_in_order() {
    let merged = merge_ports(&Some(vec![65000, 1]));
    assert_ascending_no_dups(&merged);
    assert_eq!(merged.len(), EXPECTED_DEFAULTS.len() + 2);
    assert_eq!(merged[0], 1);
    assert_eq!(merged[merged.len() - 1], 65000);
}

#[test]
fn only_open_ports_become_records() {
    // a host probed on 22 and 80 that only accepts connections on 80
    let ports = vec![22u16, 80];
    let open = vec![false, true];
    let records = open_port_records(&ports, &open);
    assert_eq!(records.len(), 1);
    assert_eq!(records[0].port, 80);
    assert_eq!(records[0].service, ServiceType::HTTP);
    assert_eq!(records[0].service_label, "HTTP");
}

#[test]
fn records_stay_ascending() {
    let ports = vec![21u16, 22, 80, 443, 8080];
    let open = vec![true, false, true, true, true];
    let records = open_port_records(&ports, &open);
    let numbers: Vec<u16> = records.iter().map(|r| r.port).collect();
    assert_eq!(numbers, vec![21, 80, 443, 8080]);
    assert_ascending_no_dups(&numbers);
}

#[test]
fn host_with_no_open_ports_is_suppressed() {
    let r = scan_host_record(String::from("10.0.0.1"), None, Vec::new());
    assert!(r.is_none());
}

#[test]
fn host_with_open_ports_keeps_its_fields() {
    let ports = vec![22u16, 80];
    let open = vec![true, true];
    let records = open_port_records(&ports, &open);
    let r = scan_host_record(String::from("10.0.0.7"), Some(String::from("printer")), records);
    let host = r.expect("host with open ports must be reported");
    assert_eq!(host.ip, "10.0.0.7");
    assert_eq!(host.hostname.as_deref(), Some("printer"));
    assert_eq!(host.ports.len(), 2);
    assert_eq!(host.ports[0].port, 22);
    assert_eq!(host.ports[1].port, 80);
}
