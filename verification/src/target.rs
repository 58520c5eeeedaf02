//! Where a connection is to be sent: a host name or an IP endpoint.

use crate::text::{before_first, chars_of, copy_range, decimal, decimal_text, find_from, text_of};
use vstd::prelude::*;

verus! {

/// The destination of an outbound connection.
#[derive(Clone, Debug)]
pub enum Target {
    /// `host` or `host:port`.
    Hostname(String),
    /// The four address octets, most significant first, and the port.
    IPv4([u8; 4], u16),
    /// The sixteen address octets, most significant first, and the port.
    IPv6([u8; 16], u16),
}

/// A `Target` as plain values.
pub enum TargetView {
    Hostname(Seq<char>),
    IPv4(Seq<u8>, u16),
    IPv6(Seq<u8>, u16),
}

impl View for Target {
    type V = TargetView;

    open spec fn view(&self) -> TargetView {
        match self {
            Target::Hostname(h) => TargetView::Hostname(h@),
            Target::IPv4(a, p) => TargetView::IPv4(a@, *p),
            Target::IPv6(a, p) => TargetView::IPv6(a@, *p),
        }
    }
}

/// `host:port` for the host part of `name` and the port `p`.
pub open spec fn with_port(name: Seq<char>, p: u16) -> Seq<char> {
    before_first(name, ':') + seq![':'] + decimal(p as nat)
}

/// A target with its port replaced: a host name gets `p` in place of any port
/// it carried; an IP endpoint keeps its own.
pub open spec fn target_with_port(t: TargetView, p: u16) -> TargetView {
    match t {
        TargetView::Hostname(h) => TargetView::Hostname(with_port(h, p)),
        other => other,
    }
}

/// The host part of `host` or `host:port`: what stands before the first colon.
pub fn just_hostname(hostname: String) -> (host: String)
    ensures
        host@ == before_first(hostname@, ':'),
{
    let chars = chars_of(hostname.as_str());
    let p = find_from(chars.as_slice(), 0, ':');
    proof {
        assert(chars@.skip(0) == chars@);
    }
    if p < chars.len() {
        let head = copy_range(chars.as_slice(), 0, p);
        text_of(head.as_slice())
    } else {
        proof {
            assert(hostname@.take(p as int) == hostname@);
        }
        hostname
    }
}

impl Target {
    /// Attaches the port `p` to a host name, replacing any port it carried.
    /// An IP endpoint is returned as it is.
    pub fn set_port(self, p: u16) -> (out: Target)
        ensures
            out@ == target_with_port(self@, p),
    {
        match self {
            Target::Hostname(hostname) => {
                let ghost name = hostname@;
                let host = just_hostname(hostname);
                let mut chars = chars_of(host.as_str());
                chars.push(':');
                let mut digits = decimal_text(p);
                chars.append(&mut digits);
                assert(chars@ =~= with_port(name, p));
                Target::Hostname(text_of(chars.as_slice()))
            },
            Target::IPv4(a, q) => Target::IPv4(a, q),
            Target::IPv6(a, q) => Target::IPv6(a, q),
        }
    }
}

} // verus!
