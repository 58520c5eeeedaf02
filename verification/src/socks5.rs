//! The client side of a SOCKS5 tunnel with the no-authentication method:
//! which bytes to send, how many to read next, and when the tunnel is ready.

use crate::target::{with_port, Target, TargetView};
use crate::text::{
    after_first, before_first, chars_of, copy_range, decimal, find_from, law_decimal_round_trip,
    lemma_position_bounds, lemma_position_is, parse_u16, position, read_u16, text_of,
};
use vstd::prelude::*;
use vstd::utf8::encode_utf8;

verus! {

/// Why a dial was given up.
#[derive(Clone, Copy, Debug, PartialEq, Eq, Structural)]
pub enum DialError {
    /// The proxy did not settle on the no-authentication method.
    MethodNotSupported,
    /// The host name has no `:port`, a port that is no 16-bit number, or a
    /// host longer than 255 octets.
    BadTarget,
    /// The proxy did not answer the request with success.
    Refused,
    /// The reply binds an address of a type that is none of IPv4, host
    /// name and IPv6.
    UnknownAddressType,
    /// Fewer or more bytes were handed in than the last action asked for.
    ShortRead,
    /// The dial had already ended.
    Finished,
}

/// How far a dial has come.
#[derive(Clone, Copy, Debug, PartialEq, Eq, Structural)]
pub enum DialState {
    /// Connected to the proxy; nothing sent yet.
    Start,
    /// The greeting is out; the method choice is awaited.
    Greeted,
    /// The request is out; the first four bytes of the reply are awaited.
    Requested,
    /// The reply binds a host name; its length octet is awaited.
    NameLength,
    /// The rest of the bound address, of this many octets, is awaited.
    Bound(usize),
    /// The tunnel is ready.
    Done,
    /// The dial was given up.
    Failed,
}

/// What the caller is to do next.
pub enum DialAction {
    /// Write `send` to the proxy, then read exactly `expect` bytes and hand them in.
    Exchange { send: Vec<u8>, expect: usize },
    /// The tunnel is ready for data.
    Ready,
    /// Give the connection up.
    Fail(DialError),
}

/// A `DialAction` as plain values.
pub enum DialActionView {
    Exchange { send: Seq<u8>, expect: usize },
    Ready,
    Fail(DialError),
}

impl View for DialAction {
    type V = DialActionView;

    open spec fn view(&self) -> DialActionView {
        match self {
            DialAction::Exchange { send, expect } => DialActionView::Exchange {
                send: send@,
                expect: *expect,
            },
            DialAction::Ready => DialActionView::Ready,
            DialAction::Fail(e) => DialActionView::Fail(*e),
        }
    }
}

/// The greeting: version 5, one method offered, no authentication.
pub open spec fn greeting_frame() -> Seq<u8> {
    seq![5u8, 1u8, 0u8]
}

/// A port as two octets, most significant first.
pub open spec fn port_octets(p: u16) -> Seq<u8> {
    seq![(p / 256) as u8, (p % 256) as u8]
}

/// The CONNECT request for a target, if the target can be put into one.
pub open spec fn connect_frame(t: TargetView) -> Option<Seq<u8>> {
    match t {
        TargetView::IPv4(a, p) => Some(seq![5u8, 1u8, 0u8, 1u8] + a + port_octets(p)),
        TargetView::IPv6(a, p) => Some(seq![5u8, 1u8, 0u8, 4u8] + a + port_octets(p)),
        TargetView::Hostname(h) => {
            let host = encode_utf8(before_first(h, ':'));
            match after_first(h, ':') {
                None => None,
                Some(tail) => match parse_u16(tail) {
                    None => None,
                    Some(p) => if host.len() > 255 {
                        None
                    } else {
                        Some(seq![5u8, 1u8, 0u8, 3u8, host.len() as u8] + host + port_octets(p))
                    },
                },
            }
        },
    }
}

/// The state and the action after a reply head that names the address type
/// `atyp`: six octets of address and port follow for IPv4 (1), eighteen for
/// IPv6 (4), a length octet for a host name (3). Any other type ends the
/// dial.
pub open spec fn after_reply_head(atyp: u8) -> (DialState, DialActionView) {
    if atyp == 1 {
        (DialState::Bound(6), DialActionView::Exchange { send: Seq::empty(), expect: 6 })
    } else if atyp == 4 {
        (DialState::Bound(18), DialActionView::Exchange { send: Seq::empty(), expect: 18 })
    } else if atyp == 3 {
        (DialState::NameLength, DialActionView::Exchange { send: Seq::empty(), expect: 1 })
    } else {
        (DialState::Failed, DialActionView::Fail(DialError::UnknownAddressType))
    }
}

/// The next state and action of a dial, from its state and the bytes that the
/// last action read.
pub open spec fn dial_next(state: DialState, t: TargetView, input: Seq<u8>) -> (
    DialState,
    DialActionView,
) {
    match state {
        DialState::Start => (
            DialState::Greeted,
            DialActionView::Exchange { send: greeting_frame(), expect: 2 },
        ),
        DialState::Greeted => if input.len() != 2 {
            (DialState::Failed, DialActionView::Fail(DialError::ShortRead))
        } else if input[0] != 5 || input[1] != 0 {
            (DialState::Failed, DialActionView::Fail(DialError::MethodNotSupported))
        } else {
            match connect_frame(t) {
                Some(f) => (DialState::Requested, DialActionView::Exchange { send: f, expect: 4 }),
                None => (DialState::Failed, DialActionView::Fail(DialError::BadTarget)),
            }
        },
        DialState::Requested => if input.len() != 4 {
            (DialState::Failed, DialActionView::Fail(DialError::ShortRead))
        } else if input[0] != 5 || input[1] != 0 {
            (DialState::Failed, DialActionView::Fail(DialError::Refused))
        } else {
            after_reply_head(input[3])
        },
        DialState::NameLength => if input.len() != 1 {
            (DialState::Failed, DialActionView::Fail(DialError::ShortRead))
        } else {
            (
                DialState::Bound((input[0] + 2) as usize),
                DialActionView::Exchange { send: Seq::empty(), expect: (input[0] + 2) as usize },
            )
        },
        DialState::Bound(n) => if input.len() != n {
            (DialState::Failed, DialActionView::Fail(DialError::ShortRead))
        } else {
            (DialState::Done, DialActionView::Ready)
        },
        DialState::Done => (DialState::Failed, DialActionView::Fail(DialError::Finished)),
        DialState::Failed => (DialState::Failed, DialActionView::Fail(DialError::Finished)),
    }
}

/// No request goes out unless the proxy has settled on the
/// no-authentication method: any other answer to the greeting ends the dial.
pub proof fn law_request_needs_method(t: TargetView, input: Seq<u8>)
    requires
        input != seq![5u8, 0u8],
    ensures
        dial_next(DialState::Greeted, t, input).0 == DialState::Failed,
        dial_next(DialState::Greeted, t, input).1 is Fail,
{
    if input.len() == 2 && input[0] == 5 && input[1] == 0 {
        assert(input =~= seq![5u8, 0u8]);
    }
}

/// A reply that binds an address of an unknown type ends the dial, whatever
/// else it holds.
pub proof fn law_unknown_address_type_fails(t: TargetView, input: Seq<u8>)
    requires
        input.len() == 4,
        input[3] != 1 && input[3] != 3 && input[3] != 4,
    ensures
        dial_next(DialState::Requested, t, input).0 == DialState::Failed,
        dial_next(DialState::Requested, t, input).1 is Fail,
{
}

/// A host name that got its port attached can be put into a request, unless
/// the host is longer than 255 octets; the request names that host and that
/// port.
pub proof fn law_host_with_port_is_requested(name: Seq<char>, p: u16)
    requires
        encode_utf8(before_first(name, ':')).len() <= 255,
    ensures
        connect_frame(TargetView::Hostname(with_port(name, p))) == Some(
            seq![5u8, 1u8, 0u8, 3u8, encode_utf8(before_first(name, ':')).len() as u8]
                + encode_utf8(before_first(name, ':')) + port_octets(p),
        ),
{
    let host = before_first(name, ':');
    let whole = with_port(name, p);
    lemma_position_bounds(name, ':');
    assert forall|j: int| 0 <= j < host.len() implies whole[j] != ':' by {
        assert(whole[j] == name[j]);
    }
    assert(whole[host.len() as int] == ':');
    lemma_position_is(whole, ':', host.len() as int);
    assert(whole.take(host.len() as int) =~= host);
    assert(whole.skip(host.len() as int + 1) =~= decimal(p as nat));
    law_decimal_round_trip(p);
}

/// The greeting that opens every dial.
pub fn greeting() -> (out: Vec<u8>)
    ensures
        out@ == greeting_frame(),
{
    let mut out: Vec<u8> = Vec::new();
    out.push(5);
    out.push(1);
    out.push(0);
    assert(out@ =~= greeting_frame());
    out
}

fn push_port(out: &mut Vec<u8>, p: u16)
    ensures
        final(out)@ == old(out)@ + port_octets(p),
{
    out.push((p / 256) as u8);
    out.push((p % 256) as u8);
    assert(out@ =~= old(out)@ + port_octets(p));
}

/// The CONNECT request for `target`; `None` where the target cannot be put
/// into one.
pub fn connect_request(target: &Target) -> (out: Option<Vec<u8>>)
    ensures
        match out {
            Some(f) => connect_frame(target@) == Some(f@),
            None => connect_frame(target@) is None,
        },
{
    let mut out: Vec<u8> = Vec::new();
    out.push(5);
    out.push(1);
    out.push(0);
    match target {
        Target::IPv4(a, p) => {
            out.push(1);
            out.extend_from_slice(a.as_slice());
            assert(out@ =~= seq![5u8, 1u8, 0u8, 1u8] + a@);
            push_port(&mut out, *p);
            Some(out)
        },
        Target::IPv6(a, p) => {
            out.push(4);
            out.extend_from_slice(a.as_slice());
            assert(out@ =~= seq![5u8, 1u8, 0u8, 4u8] + a@);
            push_port(&mut out, *p);
            Some(out)
        },
        Target::Hostname(h) => {
            let chars = chars_of(h.as_str());
            let colon = find_from(chars.as_slice(), 0, ':');
            proof {
                assert(chars@.skip(0) == chars@);
            }
            if colon >= chars.len() {
                return None;
            }
            let tail = copy_range(chars.as_slice(), colon + 1, chars.len());
            let port = match read_u16(tail.as_slice()) {
                Some(p) => p,
                None => {
                    return None;
                },
            };
            let head = copy_range(chars.as_slice(), 0, colon);
            let host = text_of(head.as_slice());
            let bytes = host.as_str().as_bytes();
            if bytes.len() > 255 {
                return None;
            }
            out.push(3);
            out.push(bytes.len() as u8);
            out.extend_from_slice(bytes);
            assert(out@ =~= seq![5u8, 1u8, 0u8, 3u8, bytes@.len() as u8] + bytes@);
            push_port(&mut out, port);
            Some(out)
        },
    }
}

/// One step of a dial: from the state and the bytes read for the last action
/// (none at the start) to the next state and action.
pub fn dial_step(state: DialState, target: &Target, input: &[u8]) -> (out: (DialState, DialAction))
    ensures
        (out.0, out.1@) == dial_next(state, target@, input@),
{
    match state {
        DialState::Start => (DialState::Greeted, DialAction::Exchange { send: greeting(), expect: 2 }),
        DialState::Greeted => {
            if input.len() != 2 {
                (DialState::Failed, DialAction::Fail(DialError::ShortRead))
            } else if input[0] != 5 || input[1] != 0 {
                (DialState::Failed, DialAction::Fail(DialError::MethodNotSupported))
            } else {
                match connect_request(target) {
                    Some(f) => (DialState::Requested, DialAction::Exchange { send: f, expect: 4 }),
                    None => (DialState::Failed, DialAction::Fail(DialError::BadTarget)),
                }
            }
        },
        DialState::Requested => {
            if input.len() != 4 {
                (DialState::Failed, DialAction::Fail(DialError::ShortRead))
            } else if input[0] != 5 || input[1] != 0 {
                (DialState::Failed, DialAction::Fail(DialError::Refused))
            } else if input[3] == 1 {
                (DialState::Bound(6), DialAction::Exchange { send: Vec::new(), expect: 6 })
            } else if input[3] == 4 {
                (DialState::Bound(18), DialAction::Exchange { send: Vec::new(), expect: 18 })
            } else if input[3] == 3 {
                (DialState::NameLength, DialAction::Exchange { send: Vec::new(), expect: 1 })
            } else {
                (DialState::Failed, DialAction::Fail(DialError::UnknownAddressType))
            }
        },
        DialState::NameLength => {
            if input.len() != 1 {
                (DialState::Failed, DialAction::Fail(DialError::ShortRead))
            } else {
                let n: usize = input[0] as usize + 2;
                (DialState::Bound(n), DialAction::Exchange { send: Vec::new(), expect: n })
            }
        },
        DialState::Bound(n) => {
            if input.len() != n {
                (DialState::Failed, DialAction::Fail(DialError::ShortRead))
            } else {
                (DialState::Done, DialAction::Ready)
            }
        },
        DialState::Done => (DialState::Failed, DialAction::Fail(DialError::Finished)),
        DialState::Failed => (DialState::Failed, DialAction::Fail(DialError::Finished)),
    }
}

} // verus!
