//! What the discovery walk yields, stated per port rather than step by step.
use vstd::prelude::*;

use crate::discovery::{ports_outcome, DiscoveryErrorView, PortInfo};

verus! {

/// The port is named `wanted`.
pub open spec fn port_named(p: PortInfo, wanted: Seq<char>) -> bool {
    p.name matches Some(n) && n@ == wanted
}

/// The error that a port not named `wanted` raises.
pub open spec fn port_error(p: PortInfo, wanted: Seq<char>) -> DiscoveryErrorView {
    if p.name is None {
        DiscoveryErrorView::MissingPortName
    } else {
        DiscoveryErrorView::PortNotFound(wanted)
    }
}

/// The ports of a container yield nodes exactly when every port is named
/// `wanted`; then there is one node per port, in order, at `ip` with the
/// port's number truncated to 16 bits (the number itself when it lies in
/// 0..=65535). Otherwise the first port not so named decides the error.
pub proof fn law_ports_yield_their_numbers(ports: Seq<PortInfo>, ip: Seq<char>, wanted: Seq<char>)
    ensures
        ports_outcome(ports, ip, wanted) is Ok <==> forall|i: int|
            0 <= i < ports.len() ==> port_named(#[trigger] ports[i], wanted),
        ports_outcome(ports, ip, wanted) matches Ok(s) ==> {
            &&& s.len() == ports.len()
            &&& forall|i: int|
                0 <= i < ports.len() ==> #[trigger] s[i] == (ip, ports[i].container_port as u16)
            &&& forall|i: int|
                0 <= i < ports.len() && 0 <= ports[i].container_port <= 65535 ==> #[trigger] s[i].1
                    as int == ports[i].container_port
        },
        ports_outcome(ports, ip, wanted) matches Err(e) ==> exists|i: int|
            0 <= i < ports.len() && (forall|j: int| 0 <= j < i ==> port_named(#[trigger] ports[j], wanted))
                && !port_named(#[trigger] ports[i], wanted) && e == port_error(ports[i], wanted),
    decreases ports.len(),
{
    if ports.len() > 0 {
        let rest = ports.drop_first();
        law_ports_yield_their_numbers(rest, ip, wanted);
        assert forall|i: int| 0 < i < ports.len() implies ports[i] == rest[i - 1] by {}
        if port_named(ports[0], wanted) {
            if ports_outcome(ports, ip, wanted) is Ok {
                assert forall|i: int| 0 <= i < ports.len() implies port_named(
                    #[trigger] ports[i],
                    wanted,
                ) by {
                    if i > 0 {
                        assert(port_named(rest[i - 1], wanted));
                    }
                }
            } else {
                if forall|i: int| 0 <= i < ports.len() ==> port_named(#[trigger] ports[i], wanted) {
                    assert forall|i: int| 0 <= i < rest.len() implies port_named(
                        #[trigger] rest[i],
                        wanted,
                    ) by {
                        assert(port_named(ports[i + 1], wanted));
                    }
                }
            }
            match ports_outcome(ports, ip, wanted) {
                Ok(s) => {
                    let t = ports_outcome(rest, ip, wanted)->Ok_0;
                    assert(s == seq![(ip, ports[0].container_port as u16)] + t);
                    assert forall|i: int| 0 <= i < ports.len() implies #[trigger] s[i] == (
                        ip,
                        ports[i].container_port as u16,
                    ) by {
                        if i > 0 {
                            assert(s[i] == t[i - 1]);
                        }
                    }
                },
                Err(e) => {
                    let i = choose|i: int|
                        0 <= i < rest.len() && (forall|j: int|
                            0 <= j < i ==> port_named(#[trigger] rest[j], wanted)) && !port_named(
                            #[trigger] rest[i],
                            wanted,
                        ) && e == port_error(rest[i], wanted);
                    assert(ports[i + 1] == rest[i]);
                    assert forall|j: int| 0 <= j < i + 1 implies port_named(
                        #[trigger] ports[j],
                        wanted,
                    ) by {
                        if j > 0 {
                            assert(ports[j] == rest[j - 1]);
                        }
                    }
                },
            }
        } else {
            assert(!port_named(ports[0], wanted));
        }
    }
}

} // verus!
