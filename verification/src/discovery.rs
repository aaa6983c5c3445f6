//! Turning the pods of a Kubernetes stateful set into ring nodes.
//!
//! The caller reads the stateful set and its pods from the cluster and hands
//! over the fields that matter here, as plain values.
use vstd::prelude::*;

use crate::node::Node;

verus! {

/// A container port: its name, if any, and its number.
pub struct PortInfo {
    pub name: Option<String>,
    pub container_port: i32,
}

/// A container of a pod, with its declared ports, if any.
pub struct ContainerInfo {
    pub ports: Option<Vec<PortInfo>>,
}

/// The spec of a pod: its containers.
pub struct PodSpecInfo {
    pub containers: Vec<ContainerInfo>,
}

/// The status of a pod: its IP address, if assigned.
pub struct PodStatusInfo {
    pub pod_ip: Option<String>,
}

/// A pod: its status and spec, each of which may be missing.
pub struct PodInfo {
    pub status: Option<PodStatusInfo>,
    pub spec: Option<PodSpecInfo>,
}

/// Why discovery failed.
#[derive(Debug, PartialEq, Eq)]
pub enum DiscoveryError {
    /// The stateful set has no name.
    MissingStatefulSetName,
    /// A pod has no status.
    MissingPodStatus,
    /// A pod has no IP address.
    MissingPodIp,
    /// A pod has no spec.
    MissingPodSpec,
    /// A container declares no ports.
    MissingPorts,
    /// A container port has no name.
    MissingPortName,
    /// A container port is named otherwise than the wanted port name.
    PortNotFound(String),
}

/// A `DiscoveryError` with its text as a character sequence.
pub enum DiscoveryErrorView {
    MissingStatefulSetName,
    MissingPodStatus,
    MissingPodIp,
    MissingPodSpec,
    MissingPorts,
    MissingPortName,
    PortNotFound(Seq<char>),
}

impl View for DiscoveryError {
    type V = DiscoveryErrorView;

    open spec fn view(&self) -> DiscoveryErrorView {
        match self {
            DiscoveryError::MissingStatefulSetName => DiscoveryErrorView::MissingStatefulSetName,
            DiscoveryError::MissingPodStatus => DiscoveryErrorView::MissingPodStatus,
            DiscoveryError::MissingPodIp => DiscoveryErrorView::MissingPodIp,
            DiscoveryError::MissingPodSpec => DiscoveryErrorView::MissingPodSpec,
            DiscoveryError::MissingPorts => DiscoveryErrorView::MissingPorts,
            DiscoveryError::MissingPortName => DiscoveryErrorView::MissingPortName,
            DiscoveryError::PortNotFound(name) => DiscoveryErrorView::PortNotFound(name@),
        }
    }
}

/// The text of an error.
pub open spec fn error_text(e: DiscoveryErrorView) -> Seq<char> {
    match e {
        DiscoveryErrorView::MissingStatefulSetName => "statefulset"@,
        DiscoveryErrorView::MissingPodStatus => "pod status"@,
        DiscoveryErrorView::MissingPodIp => "pod ip"@,
        DiscoveryErrorView::MissingPodSpec => "spec containers"@,
        DiscoveryErrorView::MissingPorts => "port"@,
        DiscoveryErrorView::MissingPortName => "port name"@,
        DiscoveryErrorView::PortNotFound(name) => "port: "@ + name + " not found"@,
    }
}

impl DiscoveryError {
    /// The error's text.
    pub fn message(&self) -> (text: String)
        ensures
            text@ == error_text(self@),
    {
        match self {
            DiscoveryError::MissingStatefulSetName => String::from_str("statefulset"),
            DiscoveryError::MissingPodStatus => String::from_str("pod status"),
            DiscoveryError::MissingPodIp => String::from_str("pod ip"),
            DiscoveryError::MissingPodSpec => String::from_str("spec containers"),
            DiscoveryError::MissingPorts => String::from_str("port"),
            DiscoveryError::MissingPortName => String::from_str("port name"),
            DiscoveryError::PortNotFound(name) => {
                let mut text = String::from_str("port: ");
                text.append(name.as_str());
                text.append(" not found");
                text
            },
        }
    }
}

/// A node as plain values: host and port.
pub open spec fn node_view(n: Node) -> (Seq<char>, u16) {
    (n.host@, n.port)
}

/// Puts `nodes` in front of the nodes of an outcome; errors pass through.
pub open spec fn prepend(
    nodes: Seq<(Seq<char>, u16)>,
    r: Result<Seq<(Seq<char>, u16)>, DiscoveryErrorView>,
) -> Result<Seq<(Seq<char>, u16)>, DiscoveryErrorView> {
    match r {
        Ok(rest) => Ok(nodes + rest),
        Err(e) => Err(e),
    }
}

/// The nodes of the ports of one container of the pod at `ip`, in order:
/// a port without a name is an error, a port named `wanted` gives the node
/// `ip`, port number (truncated to 16 bits), and any other port name is an
/// error.
pub open spec fn ports_outcome(ports: Seq<PortInfo>, ip: Seq<char>, wanted: Seq<char>) -> Result<
    Seq<(Seq<char>, u16)>,
    DiscoveryErrorView,
>
    decreases ports.len(),
{
    if ports.len() == 0 {
        Ok(Seq::empty())
    } else {
        match ports[0].name {
            None => Err(DiscoveryErrorView::MissingPortName),
            Some(name) => if name@ == wanted {
                prepend(
                    seq![(ip, ports[0].container_port as u16)],
                    ports_outcome(ports.drop_first(), ip, wanted),
                )
            } else {
                Err(DiscoveryErrorView::PortNotFound(wanted))
            },
        }
    }
}

/// The nodes of the containers of the pod at `ip`, in order; a container
/// without declared ports is an error.
pub open spec fn containers_outcome(
    containers: Seq<ContainerInfo>,
    ip: Seq<char>,
    wanted: Seq<char>,
) -> Result<Seq<(Seq<char>, u16)>, DiscoveryErrorView>
    decreases containers.len(),
{
    if containers.len() == 0 {
        Ok(Seq::empty())
    } else {
        match containers[0].ports {
            None => Err(DiscoveryErrorView::MissingPorts),
            Some(ports) => match ports_outcome(ports@, ip, wanted) {
                Err(e) => Err(e),
                Ok(first) => prepend(first, containers_outcome(containers.drop_first(), ip, wanted)),
            },
        }
    }
}

/// The nodes of all pods, in order; a pod without status, IP address or
/// spec is an error.
pub open spec fn pods_outcome(pods: Seq<PodInfo>, wanted: Seq<char>) -> Result<
    Seq<(Seq<char>, u16)>,
    DiscoveryErrorView,
>
    decreases pods.len(),
{
    if pods.len() == 0 {
        Ok(Seq::empty())
    } else {
        match pods[0].status {
            None => Err(DiscoveryErrorView::MissingPodStatus),
            Some(status) => match status.pod_ip {
                None => Err(DiscoveryErrorView::MissingPodIp),
                Some(ip) => match pods[0].spec {
                    None => Err(DiscoveryErrorView::MissingPodSpec),
                    Some(spec) => match containers_outcome(spec.containers@, ip@, wanted) {
                        Err(e) => Err(e),
                        Ok(first) => prepend(first, pods_outcome(pods.drop_first(), wanted)),
                    },
                },
            },
        }
    }
}

/// Whether the stateful set that was read is the one asked for: an error
/// when it has no name.
pub fn statefulset_matches(found_name: &Option<String>, statefulset_name: &str) -> (r: Result<
    bool,
    DiscoveryError,
>)
    ensures
        match found_name {
            None => r matches Err(e) && e == DiscoveryError::MissingStatefulSetName,
            Some(name) => r matches Ok(b) && b == (name@ == statefulset_name@),
        },
{
    match found_name {
        None => Err(DiscoveryError::MissingStatefulSetName),
        Some(name) => {
            let wanted = String::from_str(statefulset_name);
            Ok(*name == wanted)
        },
    }
}

/// Appends the nodes of `ports` (of the pod at `ip`) to `out`.
fn collect_ports(ports: &Vec<PortInfo>, ip: &String, wanted: &String, out: &mut Vec<Node>) -> (r:
    Result<(), DiscoveryError>)
    ensures
        match ports_outcome(ports@, ip@, wanted@) {
            Ok(s) => r is Ok && final(out)@.map_values(|n: Node| node_view(n)) == old(
                out,
            )@.map_values(|n: Node| node_view(n)) + s,
            Err(e) => r matches Err(e2) && e2@ == e,
        },
{
    let ghost out0 = old(out)@.map_values(|n: Node| node_view(n));
    let ghost whole = ports_outcome(ports@, ip@, wanted@);
    let mut i: usize = 0;
    assert(ports@.skip(0) =~= ports@);
    while i < ports.len()
        invariant
            i <= ports@.len(),
            whole == ports_outcome(ports@, ip@, wanted@),
            whole == prepend(
                out@.map_values(|n: Node| node_view(n)).skip(out0.len() as int),
                ports_outcome(ports@.skip(i as int), ip@, wanted@),
            ),
            out@.len() >= out0.len(),
            out@.map_values(|n: Node| node_view(n)).take(out0.len() as int) == out0,
        decreases ports.len() - i,
    {
        let ghost before = out@.map_values(|n: Node| node_view(n));
        assert(ports@.skip(i as int).drop_first() =~= ports@.skip(i + 1));
        assert(ports@.skip(i as int)[0] == ports@[i as int]);
        let port = &ports[i];
        match &port.name {
            None => {
                return Err(DiscoveryError::MissingPortName);
            },
            Some(name) => {
                if *name == *wanted {
                    let node = Node { host: ip.clone(), port: port.container_port as u16 };
                    out.push(node);
                    proof {
                        let after = out@.map_values(|n: Node| node_view(n));
                        assert(after =~= before.push((ip@, port.container_port as u16)));
                        assert(after.skip(out0.len() as int) =~= before.skip(out0.len() as int)
                            + seq![(ip@, port.container_port as u16)]);
                        assert(after.take(out0.len() as int) =~= before.take(out0.len() as int));
                        let done = before.skip(out0.len() as int);
                        match ports_outcome(ports@.skip(i + 1), ip@, wanted@) {
                            Ok(rest) => {
                                assert(done + (seq![(ip@, port.container_port as u16)] + rest)
                                    =~= (done + seq![(ip@, port.container_port as u16)]) + rest);
                            },
                            Err(_) => {},
                        }
                    }
                } else {
                    return Err(DiscoveryError::PortNotFound(wanted.clone()));
                }
            },
        }
        i = i + 1;
    }
    proof {
        let after = out@.map_values(|n: Node| node_view(n));
        assert(ports@.skip(i as int) =~= Seq::<PortInfo>::empty());
        assert(after =~= after.take(out0.len() as int) + after.skip(out0.len() as int));
        assert(after.skip(out0.len() as int) + Seq::empty() =~= after.skip(out0.len() as int));
    }
    Ok(())
}

/// Appends the nodes of `containers` (of the pod at `ip`) to `out`.
fn collect_containers(
    containers: &Vec<ContainerInfo>,
    ip: &String,
    wanted: &String,
    out: &mut Vec<Node>,
) -> (r: Result<(), DiscoveryError>)
    ensures
        match containers_outcome(containers@, ip@, wanted@) {
            Ok(s) => r is Ok && final(out)@.map_values(|n: Node| node_view(n)) == old(
                out,
            )@.map_values(|n: Node| node_view(n)) + s,
            Err(e) => r matches Err(e2) && e2@ == e,
        },
{
    let ghost out0 = old(out)@.map_values(|n: Node| node_view(n));
    let ghost whole = containers_outcome(containers@, ip@, wanted@);
    let mut i: usize = 0;
    assert(containers@.skip(0) =~= containers@);
    while i < containers.len()
        invariant
            i <= containers@.len(),
            whole == containers_outcome(containers@, ip@, wanted@),
            whole == prepend(
                out@.map_values(|n: Node| node_view(n)).skip(out0.len() as int),
                containers_outcome(containers@.skip(i as int), ip@, wanted@),
            ),
            out@.len() >= out0.len(),
            out@.map_values(|n: Node| node_view(n)).take(out0.len() as int) == out0,
        decreases containers.len() - i,
    {
        let ghost before = out@.map_values(|n: Node| node_view(n));
        assert(containers@.skip(i as int).drop_first() =~= containers@.skip(i + 1));
        assert(containers@.skip(i as int)[0] == containers@[i as int]);
        match &containers[i].ports {
            None => {
                return Err(DiscoveryError::MissingPorts);
            },
            Some(ports) => {
                let r = collect_ports(ports, ip, wanted, out);
                match r {
                    Err(e) => {
                        return Err(e);
                    },
                    Ok(()) => {},
                }
                proof {
                    let after = out@.map_values(|n: Node| node_view(n));
                    let first = ports_outcome(ports@, ip@, wanted@)->Ok_0;
                    assert(after =~= before + first);
                    assert(after.skip(out0.len() as int) =~= before.skip(out0.len() as int)
                        + first);
                    assert(after.take(out0.len() as int) =~= before.take(out0.len() as int));
                    let done = before.skip(out0.len() as int);
                    match containers_outcome(containers@.skip(i + 1), ip@, wanted@) {
                        Ok(rest) => {
                            assert(done + (first + rest) =~= (done + first) + rest);
                        },
                        Err(_) => {},
                    }
                }
            },
        }
        i = i + 1;
    }
    proof {
        let after = out@.map_values(|n: Node| node_view(n));
        assert(containers@.skip(i as int) =~= Seq::<ContainerInfo>::empty());
        assert(after =~= after.take(out0.len() as int) + after.skip(out0.len() as int));
        assert(after.skip(out0.len() as int) + Seq::empty() =~= after.skip(out0.len() as int));
    }
    Ok(())
}

/// The nodes that the pods of a stateful set stand for: for each pod, in
/// order, its IP address paired with the number of each of its containers'
/// ports; every port must be named `port_name`. The first pod, container or
/// port that lacks a field, or a port named otherwise, ends the walk with
/// the matching error.
pub fn nodes_from_pods(pods: &Vec<PodInfo>, port_name: &str) -> (r: Result<
    Vec<Node>,
    DiscoveryError,
>)
    ensures
        match pods_outcome(pods@, port_name@) {
            Ok(s) => r matches Ok(nodes) && nodes@.map_values(|n: Node| node_view(n)) == s,
            Err(e) => r matches Err(e2) && e2@ == e,
        },
{
    let wanted = String::from_str(port_name);
    let mut out: Vec<Node> = Vec::new();
    let ghost whole = pods_outcome(pods@, wanted@);
    let mut i: usize = 0;
    assert(pods@.skip(0) =~= pods@);
    assert(out@.map_values(|n: Node| node_view(n)) =~= Seq::empty());
    while i < pods.len()
        invariant
            i <= pods@.len(),
            wanted@ == port_name@,
            whole == pods_outcome(pods@, wanted@),
            whole == prepend(
                out@.map_values(|n: Node| node_view(n)),
                pods_outcome(pods@.skip(i as int), wanted@),
            ),
        decreases pods.len() - i,
    {
        let ghost before = out@.map_values(|n: Node| node_view(n));
        assert(pods@.skip(i as int).drop_first() =~= pods@.skip(i + 1));
        assert(pods@.skip(i as int)[0] == pods@[i as int]);
        let pod = &pods[i];
        let ip = match &pod.status {
            None => {
                return Err(DiscoveryError::MissingPodStatus);
            },
            Some(status) => match &status.pod_ip {
                None => {
                    return Err(DiscoveryError::MissingPodIp);
                },
                Some(ip) => ip,
            },
        };
        match &pod.spec {
            None => {
                return Err(DiscoveryError::MissingPodSpec);
            },
            Some(spec) => {
                let r = collect_containers(&spec.containers, ip, &wanted, &mut out);
                match r {
                    Err(e) => {
                        return Err(e);
                    },
                    Ok(()) => {},
                }
                proof {
                    let after = out@.map_values(|n: Node| node_view(n));
                    let first = containers_outcome(spec.containers@, ip@, wanted@)->Ok_0;
                    match pods_outcome(pods@.skip(i + 1), wanted@) {
                        Ok(rest) => {
                            assert(before + (first + rest) =~= (before + first) + rest);
                        },
                        Err(_) => {},
                    }
                }
            },
        }
        i = i + 1;
    }
    proof {
        assert(pods@.skip(i as int) =~= Seq::<PodInfo>::empty());
        assert(out@.map_values(|n: Node| node_view(n)) + Seq::empty() =~= out@.map_values(
            |n: Node| node_view(n),
        ));
    }
    Ok(out)
}

} // verus!
