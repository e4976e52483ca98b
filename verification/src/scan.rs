//! Scan data records and the pure parts of the scanning pipeline: the
//! effective port list, per-host record assembly, and ordered aggregation.

use vstd::prelude::*;

use crate::addr::{ip_chars, ip_lt, octets_lt};
use crate::service::{is_known_port, spec_label, spec_service_of, ServiceType};

verus! {

/// One open port discovered on a host, with its classified service.
#[derive(Clone, Debug)]
pub struct PortInfo {
    pub port: u16,
    pub service: ServiceType,
    pub service_label: String,
}

/// A port record is well formed when its service and label agree with the
/// classification table.
pub open spec fn port_info_wf(p: PortInfo) -> bool {
    &&& p.service == spec_service_of(p.port)
    &&& p.service_label@ == spec_label(p.service)
}

/// One live host: its dotted address, an optional resolved hostname, and the
/// open ports found, ascending by port number.
#[derive(Clone, Debug)]
pub struct HostInfo {
    pub ip: String,
    pub hostname: Option<String>,
    pub ports: Vec<PortInfo>,
}

/// Strictly ascending port numbers; implies that the sequence has no
/// duplicates.
pub open spec fn strictly_ascending(s: Seq<u16>) -> bool {
    forall|i: int, j: int| 0 <= i < j < s.len() ==> s[i] < s[j]
}

/// The default scan list: every port of the classification table, ascending.
pub open spec fn spec_default_ports() -> Seq<u16> {
    seq![
        21u16, 22u16, 23u16, 25u16, 53u16, 67u16, 68u16, 80u16, 443u16, 445u16,
        465u16, 587u16, 1883u16, 2375u16, 2376u16, 3000u16, 3306u16, 3389u16,
        5000u16, 5173u16, 5432u16, 5900u16, 5901u16, 6379u16, 6443u16, 8080u16,
        8443u16, 8883u16, 8888u16, 9000u16, 9090u16, 9200u16, 9300u16, 27017u16,
    ]
}

/// The default scan list as a vector.
pub fn default_ports() -> (r: Vec<u16>)
    ensures
        r@ == spec_default_ports(),
{
    let r: Vec<u16> = vec![
        21u16, 22u16, 23u16, 25u16, 53u16, 67u16, 68u16, 80u16, 443u16, 445u16,
        465u16, 587u16, 1883u16, 2375u16, 2376u16, 3000u16, 3306u16, 3389u16,
        5000u16, 5173u16, 5432u16, 5900u16, 5901u16, 6379u16, 6443u16, 8080u16,
        8443u16, 8883u16, 8888u16, 9000u16, 9090u16, 9200u16, 9300u16, 27017u16,
    ];
    assert(r@ =~= spec_default_ports());
    r
}

/// Insert `p` into the ascending list `v`, keeping it ascending and
/// duplicate-free; a port already present is left alone.
pub fn sorted_insert(v: &mut Vec<u16>, p: u16)
    requires
        strictly_ascending(old(v)@),
    ensures
        strictly_ascending(final(v)@),
        forall|q: u16| final(v)@.contains(q) <==> (old(v)@.contains(q) || q == p),
        final(v)@.len() <= old(v)@.len() + 1,
{
    let ghost orig = v@;
    let mut idx: usize = 0;
    while idx < v.len() && v[idx] < p
        invariant
            v@ == orig,
            idx <= v@.len(),
            forall|k: int| 0 <= k < idx ==> v@[k] < p,
            strictly_ascending(v@),
        decreases v@.len() - idx,
    {
        idx = idx + 1;
    }
    if idx < v.len() && v[idx] == p {
        assert(v@.contains(p)) by {
            assert(v@[idx as int] == p);
        }
        return ;
    }
    v.insert(idx, p);
    proof {
        orig.insert_ensures(idx as int, p);
        assert(strictly_ascending(v@)) by {
            assert forall|i: int, j: int| 0 <= i < j < v@.len() implies v@[i] < v@[j] by {
                if j < idx {
                    assert(v@[i] == orig[i] && v@[j] == orig[j]);
                } else if i > idx {
                    assert(v@[i] == orig[i - 1] && v@[j] == orig[j - 1]);
                } else if i < idx && j == idx {
                    assert(v@[i] == orig[i] && v@[j] == p);
                } else if i == idx && j > idx {
                    // every original element at or past idx exceeds p
                    assert(v@[j] == orig[j - 1]);
                    if idx < orig.len() {
                        assert(orig[idx as int] >= p);
                        assert(orig[idx as int] != p);
                    }
                } else if i < idx && j > idx {
                    assert(v@[i] == orig[i] && v@[j] == orig[j - 1]);
                }
            }
        }
        assert forall|q: u16| final(v)@.contains(q) <==> (orig.contains(q) || q == p) by {
            if final(v)@.contains(q) {
                let m = choose|m: int| 0 <= m < v@.len() && v@[m] == q;
                if m < idx {
                    assert(orig[m] == q);
                    assert(orig.contains(q));
                } else if m == idx {
                    assert(q == p);
                } else {
                    assert(orig[m - 1] == q);
                    assert(orig.contains(q));
                }
            }
            if orig.contains(q) {
                let m = choose|m: int| 0 <= m < orig.len() && orig[m] == q;
                if m < idx {
                    assert(v@[m] == q);
                } else {
                    assert(v@[m + 1] == q);
                }
                assert(final(v)@.contains(q));
            }
            if q == p {
                assert(v@[idx as int] == p);
                assert(final(v)@.contains(q));
            }
        }
    }
}

/// Whether the optional extra list mentions `q`.
pub open spec fn extra_contains(extra: Option<Vec<u16>>, q: u16) -> bool {
    match extra {
        Some(e) => e@.contains(q),
        None => false,
    }
}

/// Build the effective scan list: the default ports merged with the caller's
/// extra ports, ascending, with every duplicate collapsed.
pub fn merge_ports(extra: &Option<Vec<u16>>) -> (r: Vec<u16>)
    ensures
        strictly_ascending(r@),
        forall|q: u16|
            r@.contains(q) <==> (spec_default_ports().contains(q) || extra_contains(*extra, q)),
        forall|i: int, j: int| 0 <= i < j < r@.len() ==> r@[i] != r@[j],
{
    let defaults = default_ports();
    let mut v: Vec<u16> = Vec::new();
    let mut i: usize = 0;
    while i < defaults.len()
        invariant
            defaults@ == spec_default_ports(),
            i <= defaults@.len(),
            strictly_ascending(v@),
            forall|q: u16|
                v@.contains(q) <==> exists|k: int| 0 <= k < i && defaults@[k] == q,
        decreases defaults@.len() - i,
    {
        sorted_insert(&mut v, defaults[i]);
        i = i + 1;
    }
    assert(forall|q: u16| v@.contains(q) <==> spec_default_ports().contains(q));
    match extra {
        Some(e) => {
            let mut j: usize = 0;
            while j < e.len()
                invariant
                    j <= e@.len(),
                    strictly_ascending(v@),
                    forall|q: u16|
                        v@.contains(q) <==> (spec_default_ports().contains(q) || exists|k: int|
                            0 <= k < j && e@[k] == q),
                decreases e@.len() - j,
            {
                sorted_insert(&mut v, e[j]);
                j = j + 1;
            }
            v
        },
        None => v,
    }
}


/// The default scan list holds exactly the ports of the classification
/// table: a port classifies to a known service if and only if the default
/// list contains it.
pub proof fn lemma_default_ports_are_known_table(p: u16)
    ensures
        is_known_port(p) <==> spec_default_ports().contains(p),
{
    let s = spec_default_ports();
    assert(s.len() == 34);
        assert(s[0] == 21u16);
        assert(s[1] == 22u16);
        assert(s[2] == 23u16);
        assert(s[3] == 25u16);
        assert(s[4] == 53u16);
        assert(s[5] == 67u16);
        assert(s[6] == 68u16);
        assert(s[7] == 80u16);
        assert(s[8] == 443u16);
        assert(s[9] == 445u16);
        assert(s[10] == 465u16);
        assert(s[11] == 587u16);
        assert(s[12] == 1883u16);
        assert(s[13] == 2375u16);
        assert(s[14] == 2376u16);
        assert(s[15] == 3000u16);
        assert(s[16] == 3306u16);
        assert(s[17] == 3389u16);
        assert(s[18] == 5000u16);
        assert(s[19] == 5173u16);
        assert(s[20] == 5432u16);
        assert(s[21] == 5900u16);
        assert(s[22] == 5901u16);
        assert(s[23] == 6379u16);
        assert(s[24] == 6443u16);
        assert(s[25] == 8080u16);
        assert(s[26] == 8443u16);
        assert(s[27] == 8883u16);
        assert(s[28] == 8888u16);
        assert(s[29] == 9000u16);
        assert(s[30] == 9090u16);
        assert(s[31] == 9200u16);
        assert(s[32] == 9300u16);
        assert(s[33] == 27017u16);
    if is_known_port(p) {
        assert(s.contains(p));
    }
}


/// The open ports selected from an aligned (port, outcome) table, in input
/// order.
pub open spec fn spec_open_ports(ports: Seq<u16>, open: Seq<bool>) -> Seq<u16>
    decreases ports.len(),
{
    if ports.len() == 0 || open.len() == 0 {
        Seq::empty()
    } else {
        let rest = spec_open_ports(ports.drop_last(), open.drop_last());
        if open.last() {
            rest.push(ports.last())
        } else {
            rest
        }
    }
}

/// Selecting from an ascending port list keeps the selection ascending, and
/// selects only ports of the list.
pub proof fn lemma_open_ports_ascending(ports: Seq<u16>, open: Seq<bool>)
    requires
        ports.len() == open.len(),
        strictly_ascending(ports),
    ensures
        strictly_ascending(spec_open_ports(ports, open)),
        forall|q: u16| spec_open_ports(ports, open).contains(q) ==> ports.contains(q),
        spec_open_ports(ports, open).len() <= ports.len(),
    decreases ports.len(),
{
    if ports.len() > 0 {
        let tp = ports.drop_last();
        let to = open.drop_last();
        assert(strictly_ascending(tp)) by {
            assert(forall|i: int| 0 <= i < tp.len() ==> tp[i] == ports[i]);
        }
        lemma_open_ports_ascending(tp, to);
        let rest = spec_open_ports(tp, to);
        assert forall|q: u16| rest.contains(q) implies ports.contains(q) by {
            assert(tp.contains(q));
            let m = choose|m: int| 0 <= m < tp.len() && tp[m] == q;
            assert(ports[m] == q);
        }
        if open.last() {
            let s = rest.push(ports.last());
            assert(strictly_ascending(s)) by {
                assert forall|i: int, j: int| 0 <= i < j < s.len() implies s[i] < s[j] by {
                    if j < s.len() - 1 {
                        assert(s[i] == rest[i] && s[j] == rest[j]);
                    } else {
                        assert(s[i] == rest[i]);
                        assert(rest.contains(rest[i]));
                        assert(tp.contains(rest[i]));
                        let m = choose|m: int| 0 <= m < tp.len() && tp[m] == rest[i];
                        assert(ports[m] == rest[i]);
                        assert(ports[m] < ports.last());
                    }
                }
            }
            assert forall|q: u16| s.contains(q) implies ports.contains(q) by {
                let m = choose|m: int| 0 <= m < s.len() && s[m] == q;
                if m < s.len() - 1 {
                    assert(rest[m] == q);
                    assert(rest.contains(q));
                } else {
                    assert(ports.last() == q);
                }
            }
        }
    }
}

/// Classify the ports reported open into port records, in ascending port
/// order. `open[i]` is the probe outcome for `ports[i]`.
pub fn open_port_records(ports: &Vec<u16>, open: &Vec<bool>) -> (r: Vec<PortInfo>)
    requires
        ports@.len() == open@.len(),
        strictly_ascending(ports@),
    ensures
        r@.map_values(|p: PortInfo| p.port) == spec_open_ports(ports@, open@),
        forall|k: int| 0 <= k < r@.len() ==> port_info_wf(#[trigger] r@[k]),
        forall|i: int, j: int| 0 <= i < j < r@.len() ==> r@[i].port < r@[j].port,
{
    let mut r: Vec<PortInfo> = Vec::new();
    let mut i: usize = 0;
    while i < ports.len()
        invariant
            ports@.len() == open@.len(),
            i <= ports@.len(),
            strictly_ascending(ports@),
            r@.map_values(|p: PortInfo| p.port) == spec_open_ports(
                ports@.take(i as int),
                open@.take(i as int),
            ),
            forall|k: int| 0 <= k < r@.len() ==> port_info_wf(#[trigger] r@[k]),
        decreases ports@.len() - i,
    {
        let ghost pre = r@;
        if open[i] {
            let port = ports[i];
            let svc = crate::service::ServiceType::from_port(port);
            let label = svc.label().to_owned();
            r.push(PortInfo { port, service: svc, service_label: label });
        }
        proof {
            let tp = ports@.take(i + 1);
            let to = open@.take(i + 1);
            assert(tp.drop_last() =~= ports@.take(i as int));
            assert(to.drop_last() =~= open@.take(i as int));
            assert(tp.last() == ports@[i as int] && to.last() == open@[i as int]);
            if open@[i as int] {
                assert(r@.map_values(|p: PortInfo| p.port) =~= pre.map_values(
                    |p: PortInfo| p.port,
                ).push(ports@[i as int]));
            }
        }
        i = i + 1;
    }
    proof {
        assert(ports@.take(ports@.len() as int) =~= ports@);
        assert(open@.take(open@.len() as int) =~= open@);
        lemma_open_ports_ascending(ports@, open@);
        let m = r@.map_values(|p: PortInfo| p.port);
        assert forall|i: int, j: int| 0 <= i < j < r@.len() implies r@[i].port < r@[j].port by {
            assert(m[i] == r@[i].port && m[j] == r@[j].port);
        }
    }
    r
}

/// Build the record for one host, or nothing: a host with no open port is
/// suppressed, never reported as an empty record.
pub fn scan_host_record(address: String, hostname: Option<String>, records: Vec<PortInfo>) -> (r:
    Option<HostInfo>)
    ensures
        records@.len() == 0 <==> r is None,
        r matches Some(h) ==> h.ip == address && h.hostname == hostname && h.ports == records
            && h.ports@.len() > 0,
{
    if records.len() == 0 {
        None
    } else {
        Some(HostInfo { ip: address, hostname, ports: records })
    }
}

/// The 254 host addresses of the /24 sweep, "P.1" through "P.254", in order.
pub fn sweep_addresses(a: u8, b: u8, c: u8) -> (r: Vec<String>)
    ensures
        r@.len() == 254,
        forall|i: int| 0 <= i < 254 ==> (#[trigger] r@[i])@ == ip_chars(a, b, c, (i + 1) as u8),
{
    let mut r: Vec<String> = Vec::new();
    let mut i: u8 = 1;
    while i <= 254
        invariant
            1 <= i,
            i <= 255,
            r@.len() == i - 1,
            forall|k: int| 0 <= k < i - 1 ==> (#[trigger] r@[k])@ == ip_chars(a, b, c, (k + 1) as u8),
        decreases 255 - i,
    {
        r.push(crate::addr::format_ip(a, b, c, i));
        i = i + 1;
    }
    r
}

/// The present host records of a sweep, in sweep order.
pub open spec fn spec_present(hosts: Seq<Option<HostInfo>>) -> Seq<HostInfo>
    decreases hosts.len(),
{
    if hosts.len() == 0 {
        Seq::empty()
    } else {
        let rest = spec_present(hosts.drop_last());
        match hosts.last() {
            Some(h) => rest.push(h),
            None => rest,
        }
    }
}

/// Keep the present host records, in sweep order: absent hosts contribute
/// nothing to the result.
pub fn collect_hosts(hosts: Vec<Option<HostInfo>>) -> (r: Vec<HostInfo>)
    ensures
        r@ == spec_present(hosts@),
{
    let ghost orig = hosts@;
    let mut hosts = hosts;
    let mut r: Vec<HostInfo> = Vec::new();
    while hosts.len() > 0
        invariant
            spec_present(orig) == spec_present(hosts@) + r@,
        decreases hosts@.len(),
    {
        let ghost pre = hosts@;
        let x = hosts.pop();
        proof {
            assert(hosts@ =~= pre.drop_last());
        }
        match x {
            Some(Some(h)) => {
                r.insert(0, h);
                proof {
                    assert(spec_present(pre) =~= spec_present(pre.drop_last()).push(
                        pre.last()->Some_0,
                    ));
                    assert(spec_present(pre.drop_last()).push(pre.last()->Some_0) + r@.subrange(
                        1,
                        r@.len() as int,
                    ) =~= spec_present(pre.drop_last()) + r@);
                }
            },
            Some(None) => {
            },
            None => {
            },
        }
    }
    proof {
        assert(spec_present(hosts@) =~= Seq::<HostInfo>::empty());
        assert(spec_present(orig) =~= r@);
    }
    r
}


/// Host records collected in sweep order are strictly ascending by the
/// numeric four-octet order of their addresses: completion order of the
/// probes can never show through in the result.
pub proof fn lemma_result_ordered(hosts: Seq<Option<HostInfo>>, a: u8, b: u8, c: u8, base: int)
    requires
        1 <= base,
        base + hosts.len() <= 255,
        forall|i: int| 0 <= i < hosts.len() ==> (#[trigger] hosts[i] matches Some(h) ==> h.ip@
            == ip_chars(a, b, c, (base + i) as u8)),
    ensures
        forall|p: int| 0 <= p < spec_present(hosts).len() ==> exists|t: u8|
            base <= t < base + hosts.len() && (#[trigger] spec_present(hosts)[p]).ip@ == ip_chars(
                a,
                b,
                c,
                t,
            ),
        forall|p: int, q: int| 0 <= p < q < spec_present(hosts).len() ==> ip_lt(
            spec_present(hosts)[p].ip@,
            spec_present(hosts)[q].ip@,
        ),
    decreases hosts.len(),
{
    if hosts.len() > 0 {
        let tl = hosts.drop_last();
        assert(forall|i: int| 0 <= i < tl.len() ==> tl[i] == hosts[i]);
        lemma_result_ordered(tl, a, b, c, base);
        let rest = spec_present(tl);
        let s = spec_present(hosts);
        match hosts.last() {
            Some(h) => {
                assert(s == rest.push(h));
                assert(hosts[hosts.len() - 1] == hosts.last());
                assert(h.ip@ == ip_chars(a, b, c, (base + hosts.len() - 1) as u8));
                let td: u8 = (base + hosts.len() - 1) as u8;
                assert forall|p: int| 0 <= p < s.len() implies exists|t: u8|
                    base <= t < base + hosts.len() && (#[trigger] s[p]).ip@ == ip_chars(
                        a,
                        b,
                        c,
                        t,
                    ) by {
                    if p < s.len() - 1 {
                        assert(s[p] == rest[p]);
                        let t = choose|t: u8|
                            base <= t < base + tl.len() && rest[p].ip@ == ip_chars(a, b, c, t);
                        assert(s[p].ip@ == ip_chars(a, b, c, t));
                    } else {
                        assert(s[p] == h);
                        assert(s[p].ip@ == ip_chars(a, b, c, td));
                    }
                }
                assert forall|p: int, q: int| 0 <= p < q < s.len() implies ip_lt(
                    s[p].ip@,
                    s[q].ip@,
                ) by {
                    if q < s.len() - 1 {
                        assert(s[p] == rest[p] && s[q] == rest[q]);
                    } else {
                        assert(s[p] == rest[p]);
                        let t = choose|t: u8|
                            base <= t < base + tl.len() && rest[p].ip@ == ip_chars(a, b, c, t);
                        assert(t < td);
                        assert(octets_lt(a, b, c, t, a, b, c, td));
                        assert(s[p].ip@ == ip_chars(a, b, c, t));
                        assert(s[q].ip@ == ip_chars(a, b, c, td));
                    }
                }
            },
            None => {
                assert(s == rest);
            },
        }
    }
}

} // verus!

