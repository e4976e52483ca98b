//! Port-to-service classification: a fixed, total mapping from TCP port
//! numbers to presumed service identities and display labels.

use vstd::prelude::*;

verus! {

/// The service identity presumed for a well-known TCP port. `Unknown` is the
/// catch-all for every port outside the fixed table.
#[derive(Clone, Copy, Debug, PartialEq, Eq, Structural)]
pub enum ServiceType {
    SSH,
    HTTP,
    HTTPS,
    FTP,
    Telnet,
    SMTP,
    DNS,
    DHCP,
    Redis,
    PostgreSQL,
    MySQL,
    MongoDB,
    MQTT,
    SMB,
    RDP,
    VNC,
    Docker,
    Kubernetes,
    Elasticsearch,
    Grafana,
    Prometheus,
    MinIO,
    Gitea,
    Unknown,
}

/// The fixed port table. Total: every port maps to exactly one kind.
/// Port 3000 maps to Gitea by a deliberate tie-break, although Grafana
/// commonly listens there as well.
pub open spec fn spec_service_of(port: u16) -> ServiceType {
    match port {
        21u16 => ServiceType::FTP,
        22u16 => ServiceType::SSH,
        23u16 => ServiceType::Telnet,
        25u16 | 587u16 | 465u16 => ServiceType::SMTP,
        53u16 => ServiceType::DNS,
        67u16 | 68u16 => ServiceType::DHCP,
        80u16 => ServiceType::HTTP,
        443u16 => ServiceType::HTTPS,
        445u16 => ServiceType::SMB,
        1883u16 | 8883u16 => ServiceType::MQTT,
        2375u16 | 2376u16 => ServiceType::Docker,
        3000u16 => ServiceType::Gitea,
        3306u16 => ServiceType::MySQL,
        3389u16 => ServiceType::RDP,
        5432u16 => ServiceType::PostgreSQL,
        5900u16 | 5901u16 => ServiceType::VNC,
        6379u16 => ServiceType::Redis,
        6443u16 => ServiceType::Kubernetes,
        8080u16 | 8443u16 | 8888u16 | 5000u16 | 5173u16 => ServiceType::HTTP,
        9000u16 => ServiceType::MinIO,
        9090u16 => ServiceType::Prometheus,
        9200u16 | 9300u16 => ServiceType::Elasticsearch,
        27017u16 => ServiceType::MongoDB,
        _ => ServiceType::Unknown,
    }
}

/// A port is in the known-service table exactly when it does not classify
/// to `Unknown`.
pub open spec fn is_known_port(port: u16) -> bool {
    spec_service_of(port) != ServiceType::Unknown
}

/// The display label of each service kind.
pub open spec fn spec_label(s: ServiceType) -> Seq<char> {
    match s {
        ServiceType::SSH => "SSH"@,
        ServiceType::HTTP => "HTTP"@,
        ServiceType::HTTPS => "HTTPS"@,
        ServiceType::FTP => "FTP"@,
        ServiceType::Telnet => "Telnet"@,
        ServiceType::SMTP => "SMTP"@,
        ServiceType::DNS => "DNS"@,
        ServiceType::DHCP => "DHCP"@,
        ServiceType::Redis => "Redis"@,
        ServiceType::PostgreSQL => "PostgreSQL"@,
        ServiceType::MySQL => "MySQL"@,
        ServiceType::MongoDB => "MongoDB"@,
        ServiceType::MQTT => "MQTT"@,
        ServiceType::SMB => "SMB"@,
        ServiceType::RDP => "RDP"@,
        ServiceType::VNC => "VNC"@,
        ServiceType::Docker => "Docker"@,
        ServiceType::Kubernetes => "K8s API"@,
        ServiceType::Elasticsearch => "Elasticsearch"@,
        ServiceType::Grafana => "Grafana"@,
        ServiceType::Prometheus => "Prometheus"@,
        ServiceType::MinIO => "MinIO"@,
        ServiceType::Gitea => "Gitea"@,
        ServiceType::Unknown => "Unknown"@,
    }
}

impl ServiceType {
    /// Classify a port number. Pure and total; ports outside the table yield
    /// `Unknown`.
    pub fn from_port(port: u16) -> (s: ServiceType)
        ensures
            s == spec_service_of(port),
    {
        match port {
            21 => ServiceType::FTP,
            22 => ServiceType::SSH,
            23 => ServiceType::Telnet,
            25 | 587 | 465 => ServiceType::SMTP,
            53 => ServiceType::DNS,
            67 | 68 => ServiceType::DHCP,
            80 => ServiceType::HTTP,
            443 => ServiceType::HTTPS,
            445 => ServiceType::SMB,
            1883 | 8883 => ServiceType::MQTT,
            2375 | 2376 => ServiceType::Docker,
            3000 => ServiceType::Gitea,
            3306 => ServiceType::MySQL,
            3389 => ServiceType::RDP,
            5432 => ServiceType::PostgreSQL,
            5900 | 5901 => ServiceType::VNC,
            6379 => ServiceType::Redis,
            6443 => ServiceType::Kubernetes,
            8080 | 8443 | 8888 | 5000 | 5173 => ServiceType::HTTP,
            9000 => ServiceType::MinIO,
            9090 => ServiceType::Prometheus,
            9200 | 9300 => ServiceType::Elasticsearch,
            27017 => ServiceType::MongoDB,
            _ => ServiceType::Unknown,
        }
    }

    /// The display label of this service kind.
    pub fn label(&self) -> (r: &'static str)
        ensures
            r@ == spec_label(*self),
    {
        match self {
            ServiceType::SSH => "SSH",
            ServiceType::HTTP => "HTTP",
            ServiceType::HTTPS => "HTTPS",
            ServiceType::FTP => "FTP",
            ServiceType::Telnet => "Telnet",
            ServiceType::SMTP => "SMTP",
            ServiceType::DNS => "DNS",
            ServiceType::DHCP => "DHCP",
            ServiceType::Redis => "Redis",
            ServiceType::PostgreSQL => "PostgreSQL",
            ServiceType::MySQL => "MySQL",
            ServiceType::MongoDB => "MongoDB",
            ServiceType::MQTT => "MQTT",
            ServiceType::SMB => "SMB",
            ServiceType::RDP => "RDP",
            ServiceType::VNC => "VNC",
            ServiceType::Docker => "Docker",
            ServiceType::Kubernetes => "K8s API",
            ServiceType::Elasticsearch => "Elasticsearch",
            ServiceType::Grafana => "Grafana",
            ServiceType::Prometheus => "Prometheus",
            ServiceType::MinIO => "MinIO",
            ServiceType::Gitea => "Gitea",
            ServiceType::Unknown => "Unknown",
        }
    }
}

/// Classification is deterministic: any two results of classifying the same
/// port carry the same kind and the same label.
pub proof fn lemma_classify_deterministic(port: u16, k1: ServiceType, k2: ServiceType)
    requires
        k1 == spec_service_of(port),
        k2 == spec_service_of(port),
    ensures
        k1 == k2,
        spec_label(k1) == spec_label(k2),
{
}

} // verus!
