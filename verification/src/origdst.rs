//! The destination that a redirected connection had before it was
//! redirected, from what the kernel answers.

use crate::target::{Target, TargetView};
use vstd::prelude::*;

verus! {

/// Which of the two queries for the original destination to make.
#[derive(Clone, Copy, Debug, PartialEq, Eq, Structural)]
pub enum Family {
    V4,
    V6,
}

/// What the kernel answered: nothing, or the address and the port of a socket
/// address, each as its octets lie in memory, in network byte order.
pub enum ProbeReply {
    Failed,
    V4([u8; 4], [u8; 2]),
    V6([u8; 16], [u8; 2]),
}

/// Whether sixteen address octets are an IPv4 address mapped into IPv6:
/// ten zero octets, then two of `0xff`.
pub open spec fn is_v4_mapped(a: Seq<u8>) -> bool {
    &&& a.len() == 16
    &&& forall|i: int| 0 <= i < 10 ==> a[i] == 0
    &&& a[10] == 0xff
    &&& a[11] == 0xff
}

/// The query that fits a local address: the IPv4 one for an IPv4 address and
/// for an IPv4 address mapped into IPv6, else the IPv6 one.
pub open spec fn family_of(local: TargetView) -> Family {
    match local {
        TargetView::IPv4(_, _) => Family::V4,
        TargetView::IPv6(a, _) => if is_v4_mapped(a) {
            Family::V4
        } else {
            Family::V6
        },
        TargetView::Hostname(_) => Family::V6,
    }
}

/// The port that two octets in network byte order stand for.
pub open spec fn port_of(octets: Seq<u8>) -> u16 {
    (octets[0] * 256 + octets[1]) as u16
}

/// The endpoint that the kernel's answer names, if it gave one.
pub open spec fn destination_of(reply: ProbeReply) -> Option<TargetView> {
    match reply {
        ProbeReply::Failed => None,
        ProbeReply::V4(addr, port) => Some(TargetView::IPv4(addr@, port_of(port@))),
        ProbeReply::V6(addr, port) => Some(TargetView::IPv6(addr@, port_of(port@))),
    }
}

/// Which query to make for a socket with the local address `local`.
pub fn probe_family(local: &Target) -> (out: Family)
    ensures
        out == family_of(local@),
{
    match local {
        Target::IPv4(_, _) => Family::V4,
        Target::IPv6(a, _) => {
            let mut i: usize = 0;
            while i < 10
                invariant
                    i <= 10,
                    local@ == TargetView::IPv6(a@, local@->IPv6_1),
                    forall|j: int| 0 <= j < i ==> a@[j] == 0,
                decreases 10 - i,
            {
                if a[i] != 0 {
                    return Family::V6;
                }
                i += 1;
            }
            if a[10] == 0xff && a[11] == 0xff {
                Family::V4
            } else {
                Family::V6
            }
        },
        Target::Hostname(_) => Family::V6,
    }
}

fn read_port(octets: &[u8; 2]) -> (out: u16)
    ensures
        out == port_of(octets@),
{
    (octets[0] as u16) * 256 + (octets[1] as u16)
}

/// The original destination of a redirected connection, from the kernel's
/// answer to the query: the address as given and the port read in network
/// byte order. A failed query gives `None`.
pub fn get_target_address(reply: ProbeReply) -> (out: Option<Target>)
    ensures
        match out {
            Some(t) => destination_of(reply) == Some(t@),
            None => destination_of(reply) is None,
        },
{
    match reply {
        ProbeReply::Failed => None,
        ProbeReply::V4(addr, port) => Some(Target::IPv4(addr, read_port(&port))),
        ProbeReply::V6(addr, port) => Some(Target::IPv6(addr, read_port(&port))),
    }
}

} // verus!
