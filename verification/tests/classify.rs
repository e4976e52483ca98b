use netscan::service::ServiceType;

#[test]
fn classify_is_deterministic() {
    for port in [0u16, 1, 21, 22, 80, 443, 3000, 54321, 65535] {
        let first = ServiceType::from_port(port);
        let second = ServiceType::from_port(port);
        assert_eq!(first, second);
        assert_eq!(first.label(), second.label());
    }
}

#[test]
fn classify_known_table() {
    assert_eq!(ServiceType::from_port(21), ServiceType::FTP);
    assert_eq!(ServiceType::from_port(22), ServiceType::SSH);
    assert_eq!(ServiceType::from_port(23), ServiceType::Telnet);
    assert_eq!(ServiceType::from_port(25), ServiceType::SMTP);
    assert_eq!(ServiceType::from_port(587), ServiceType::SMTP);
    assert_eq!(ServiceType::from_port(465), ServiceType::SMTP);
    assert_eq!(ServiceType::from_port(53), ServiceType::DNS);
    assert_eq!(ServiceType::from_port(67), ServiceType::DHCP);
    assert_eq!(ServiceType::from_port(68), ServiceType::DHCP);
    assert_eq!(ServiceType::from_port(80), ServiceType::HTTP);
    assert_eq!(ServiceType::from_port(443), ServiceType::HTTPS);
    assert_eq!(ServiceType::from_port(445), ServiceType::SMB);
    assert_eq!(ServiceType::from_port(1883), ServiceType::MQTT);
    assert_eq!(ServiceType::from_port(8883), ServiceType::MQTT);
    assert_eq!(ServiceType::from_port(2375), ServiceType::Docker);
    assert_eq!(ServiceType::from_port(2376), ServiceType::Docker);
    assert_eq!(ServiceType::from_port(3000), ServiceType::Gitea);
    assert_eq!(ServiceType::from_port(3306), ServiceType::MySQL);
    assert_eq!(ServiceType::from_port(3389), ServiceType::RDP);
    assert_eq!(ServiceType::from_port(5432), ServiceType::PostgreSQL);
    assert_eq!(ServiceType::from_port(5900), ServiceType::VNC);
    assert_eq!(ServiceType::from_port(5901), ServiceType::VNC);
    assert_eq!(ServiceType::from_port(6379), ServiceType::Redis);
    assert_eq!(ServiceType::from_port(6443), ServiceType::Kubernetes);
    assert_eq!(ServiceType::from_port(8080), ServiceType::HTTP);
    assert_eq!(ServiceType::from_port(8443), ServiceType::HTTP);
    assert_eq!(ServiceType::from_port(8888), ServiceType::HTTP);
    assert_eq!(ServiceType::from_port(5000), ServiceType::HTTP);
    assert_eq!(ServiceType::from_port(5173), ServiceType::HTTP);
    assert_eq!(ServiceType::from_port(9000), ServiceType::MinIO);
    assert_eq!(ServiceType::from_port(9090), ServiceType::Prometheus);
    assert_eq!(ServiceType::from_port(9200), ServiceType::Elasticsearch);
    assert_eq!(ServiceType::from_port(9300), ServiceType::Elasticsearch);
    assert_eq!(ServiceType::from_port(27017), ServiceType::MongoDB);
}

#[test]
fn classify_outside_table_is_unknown() {
    assert_eq!(ServiceType::from_port(54321), ServiceType::Unknown);
    assert_eq!(ServiceType::from_port(0), ServiceType::Unknown);
    assert_eq!(ServiceType::from_port(1), ServiceType::Unknown);
    assert_eq!(ServiceType::from_port(65535), ServiceType::Unknown);
    assert_eq!(ServiceType::from_port(12345), ServiceType::Unknown);
}

#[test]
fn labels_match_kinds() {
    assert_eq!(ServiceType::SSH.label(), "SSH");
    assert_eq!(ServiceType::HTTP.label(), "HTTP");
    assert_eq!(ServiceType::HTTPS.label(), "HTTPS");
    assert_eq!(ServiceType::FTP.label(), "FTP");
    assert_eq!(ServiceType::Telnet.label(), "Telnet");
    assert_eq!(ServiceType::SMTP.label(), "SMTP");
    assert_eq!(ServiceType::DNS.label(), "DNS");
    assert_eq!(ServiceType::DHCP.label(), "DHCP");
    assert_eq!(ServiceType::Redis.label(), "Redis");
    assert_eq!(ServiceType::PostgreSQL.label(), "PostgreSQL");
    assert_eq!(ServiceType::MySQL.label(), "MySQL");
    assert_eq!(ServiceType::MongoDB.label(), "MongoDB");
    assert_eq!(ServiceType::MQTT.label(), "MQTT");
    assert_eq!(ServiceType::SMB.label(), "SMB");
    assert_eq!(ServiceType::RDP.label(), "RDP");
    assert_eq!(ServiceType::VNC.label(), "VNC");
    assert_eq!(ServiceType::Docker.label(), "Docker");
    assert_eq!(ServiceType::Kubernetes.label(), "K8s API");
    assert_eq!(ServiceType::Elasticsearch.label(), "Elasticsearch");
    assert_eq!(ServiceType::Grafana.label(), "Grafana");
    assert_eq!(ServiceType::Prometheus.label(), "Prometheus");
    assert_eq!(ServiceType::MinIO.label(), "MinIO");
    assert_eq!(ServiceType::Gitea.label(), "Gitea");
    assert_eq!(ServiceType::Unknown.label(), "Unknown");
}
