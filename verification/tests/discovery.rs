use tonic_consistent_hashing_lb::{
    nodes_from_pods, statefulset_matches, ContainerInfo, DiscoveryError, Node, PodInfo,
    PodSpecInfo, PodStatusInfo, PortInfo,
};

fn port(name: Option<&str>, number: i32) -> PortInfo {
    PortInfo { name: name.map(|s| s.to_string()), container_port: number }
}

fn container(ports: Option<Vec<PortInfo>>) -> ContainerInfo {
    ContainerInfo { ports }
}

fn pod(ip: Option<&str>, containers: Option<Vec<ContainerInfo>>) -> PodInfo {
    PodInfo {
        status: Some(PodStatusInfo { pod_ip: ip.map(|s| s.to_string()) }),
        spec: containers.map(|containers| PodSpecInfo { containers }),
    }
}

#[test]
fn statefulset_name_checks() {
    assert_eq!(statefulset_matches(&None, "lb"), Err(DiscoveryError::MissingStatefulSetName));
    assert_eq!(statefulset_matches(&Some("lb".to_string()), "lb"), Ok(true));
    assert_eq!(statefulset_matches(&Some("other".to_string()), "lb"), Ok(false));
}

#[test]
fn pods_become_nodes_in_order() {
    let pods = vec![
        pod(Some("10.0.0.1"), Some(vec![container(Some(vec![port(Some("grpc"), 8086)]))])),
        pod(
            Some("10.0.0.2"),
            Some(vec![
                container(Some(vec![port(Some("grpc"), 8086), port(Some("grpc"), 9000)])),
                container(Some(vec![])),
            ]),
        ),
    ];
    assert_eq!(
        nodes_from_pods(&pods, "grpc"),
        Ok(vec![
            Node::new("10.0.0.1", 8086),
            Node::new("10.0.0.2", 8086),
            Node::new("10.0.0.2", 9000)
        ])
    );
    assert_eq!(nodes_from_pods(&vec![], "grpc"), Ok(vec![]));
}

#[test]
fn port_number_keeps_its_low_16_bits() {
    let pods = vec![pod(Some("h"), Some(vec![container(Some(vec![port(Some("p"), 70000)]))]))];
    assert_eq!(nodes_from_pods(&pods, "p"), Ok(vec![Node::new("h", 4464)]));
}

#[test]
fn each_missing_field_is_its_own_error() {
    let no_status = PodInfo { status: None, spec: Some(PodSpecInfo { containers: vec![] }) };
    assert_eq!(nodes_from_pods(&vec![no_status], "p"), Err(DiscoveryError::MissingPodStatus));
    assert_eq!(
        nodes_from_pods(&vec![pod(None, Some(vec![]))], "p"),
        Err(DiscoveryError::MissingPodIp)
    );
    assert_eq!(nodes_from_pods(&vec![pod(Some("h"), None)], "p"), Err(DiscoveryError::MissingPodSpec));
    assert_eq!(
        nodes_from_pods(&vec![pod(Some("h"), Some(vec![container(None)]))], "p"),
        Err(DiscoveryError::MissingPorts)
    );
    assert_eq!(
        nodes_from_pods(&vec![pod(Some("h"), Some(vec![container(Some(vec![port(None, 1)]))]))], "p"),
        Err(DiscoveryError::MissingPortName)
    );
}

#[test]
fn a_port_with_another_name_stops_discovery() {
    let pods = vec![
        pod(Some("h"), Some(vec![container(Some(vec![port(Some("p"), 1), port(Some("metrics"), 2)]))])),
        pod(None, None),
    ];
    assert_eq!(nodes_from_pods(&pods, "p"), Err(DiscoveryError::PortNotFound("p".to_string())));
}

#[test]
fn the_first_error_wins() {
    let pods = vec![pod(Some("h"), None), PodInfo { status: None, spec: None }];
    assert_eq!(nodes_from_pods(&pods, "p"), Err(DiscoveryError::MissingPodSpec));
}

#[test]
fn error_messages() {
    assert_eq!(DiscoveryError::MissingStatefulSetName.message(), "statefulset");
    assert_eq!(DiscoveryError::MissingPodStatus.message(), "pod status");
    assert_eq!(DiscoveryError::MissingPodIp.message(), "pod ip");
    assert_eq!(DiscoveryError::MissingPodSpec.message(), "spec containers");
    assert_eq!(DiscoveryError::MissingPorts.message(), "port");
    assert_eq!(DiscoveryError::MissingPortName.message(), "port name");
    assert_eq!(DiscoveryError::PortNotFound("grpc".to_string()).message(), "port: grpc not found");
}
