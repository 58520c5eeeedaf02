//! What the dispatcher decides for one connection: where it goes, by which
//! road, and with which mark.

use crate::http::{
    extended, joined, law_chunks_do_not_matter, law_sniffing_keeps_bytes, sniff_of, sniffed,
    BufferView, HostSniffer, Sniff, SniffView, SnifferView, CAPACITY,
};
use crate::rule::{target_matches, Filter};
use crate::target::{with_port, Target, TargetView};
use crate::text::{chars_of, find_from, lemma_position_bounds};
use crate::tls::{get_https_domain, sni_host, SniError};
use vstd::prelude::*;

verus! {

/// The port of an HTTPS connection whose original destination is unknown.
pub const HTTPS_PORT: u16 = 443;

/// The port of an HTTP connection whose original destination is unknown.
pub const HTTP_PORT: u16 = 80;

/// The road that a connection takes.
#[derive(Clone, Copy, Debug, PartialEq, Eq, Structural)]
pub enum Route {
    /// Straight to the target.
    Direct,
    /// Through the upstream SOCKS5 proxy.
    Socks5,
}

/// An optional target as plain values.
pub open spec fn view_of(t: Option<Target>) -> Option<TargetView> {
    match t {
        Some(t) => Some(t@),
        None => None,
    }
}

/// The port of the original destination, or `default` where none is known.
pub open spec fn port_or(dst: Option<TargetView>, default: u16) -> u16 {
    match dst {
        Some(TargetView::IPv4(_, p)) => p,
        Some(TargetView::IPv6(_, p)) => p,
        _ => default,
    }
}

/// The target of an HTTPS connection: the host that the ClientHello names,
/// with the port of the original destination or 443; without such a name the
/// original destination; without either, none.
pub open spec fn https_choice(sni: Result<Seq<char>, SniError>, dst: Option<TargetView>) -> Option<
    TargetView,
> {
    match sni {
        Ok(h) => Some(TargetView::Hostname(with_port(h, port_or(dst, HTTPS_PORT)))),
        Err(_) => dst,
    }
}

/// The target of an HTTP connection: the value of the `Host` header, as it
/// is where it holds a colon, else with the port of the original
/// destination or 80; without a header the original destination; without
/// either, none.
pub open spec fn http_choice(host: Option<Seq<char>>, dst: Option<TargetView>) -> Option<
    TargetView,
> {
    match host {
        Some(v) => Some(
            TargetView::Hostname(
                if v.contains(':') {
                    v
                } else {
                    with_port(v, port_or(dst, HTTP_PORT))
                },
            ),
        ),
        None => dst,
    }
}

/// The road for a connection whose target the rules match or do not match.
pub open spec fn route_of(matched: bool) -> Route {
    if matched {
        Route::Socks5
    } else {
        Route::Direct
    }
}

fn port_of_destination(dst: &Option<Target>, default: u16) -> (out: u16)
    ensures
        out == port_or(view_of(*dst), default),
{
    match dst {
        Some(Target::IPv4(_, p)) => *p,
        Some(Target::IPv6(_, p)) => *p,
        _ => default,
    }
}

/// The target of an HTTPS connection, from the bytes peeked from the client
/// and the original destination.
pub fn https_target(peeked: &[u8], dst: Option<Target>) -> (out: Option<Target>)
    ensures
        view_of(out) == https_choice(sni_host(peeked@), view_of(dst)),
{
    match get_https_domain(peeked) {
        Ok(t) => {
            let port = port_of_destination(&dst, HTTPS_PORT);
            Some(t.set_port(port))
        },
        Err(_) => dst,
    }
}

/// The target of an HTTP connection, from the value of the `Host` header, if
/// one was read, and the original destination.
pub fn http_target(host: Option<String>, dst: Option<Target>) -> (out: Option<Target>)
    ensures
        view_of(out) == http_choice(
            match host {
                Some(v) => Some(v@),
                None => None,
            },
            view_of(dst),
        ),
{
    match host {
        Some(v) => {
            let chars = chars_of(v.as_str());
            let colon = find_from(chars.as_slice(), 0, ':');
            proof {
                assert(chars@.skip(0) == chars@);
                lemma_position_bounds(v@, ':');
            }
            if colon < chars.len() {
                assert(v@.contains(':'));
                Some(Target::Hostname(v))
            } else {
                assert(!v@.contains(':'));
                let port = port_of_destination(&dst, HTTP_PORT);
                Some(Target::Hostname(v).set_port(port))
            }
        },
        None => dst,
    }
}

/// What happened on the client's stream since the last step.
pub enum HttpEvent {
    /// Nothing yet: the connection was just accepted.
    Accepted,
    /// A read returned these bytes; none means that the stream has ended.
    Bytes(Vec<u8>),
    /// A read failed.
    ReadFailed,
}

/// What to do next with an HTTP connection.
pub enum HttpStep {
    /// Read at most this many bytes from the client and hand them in.
    Read(usize),
    /// Connect to this target; the bytes taken so far are to be sent to it
    /// before anything else.
    Connect(Target),
    /// Give the connection up: neither a `Host` header nor an original
    /// destination is known.
    Drop,
}

/// An `HttpStep` as plain values.
pub enum HttpStepView {
    Read(usize),
    Connect(TargetView),
    Drop,
}

impl View for HttpStep {
    type V = HttpStepView;

    open spec fn view(&self) -> HttpStepView {
        match self {
            HttpStep::Read(n) => HttpStepView::Read(*n),
            HttpStep::Connect(t) => HttpStepView::Connect(t@),
            HttpStep::Drop => HttpStepView::Drop,
        }
    }
}

/// Where a connection goes once the search for the header is over.
pub open spec fn settled(target: Option<TargetView>) -> HttpStepView {
    match target {
        Some(t) => HttpStepView::Connect(t),
        None => HttpStepView::Drop,
    }
}

/// The sniffer and the step after the lines at hand were read.
pub open spec fn after_lines(v: SnifferView, dst: Option<TargetView>) -> (SnifferView, HttpStepView) {
    let (after, found) = sniff_of(v);
    match found {
        SniffView::Host(h) => (after, settled(http_choice(Some(h), dst))),
        SniffView::NeedMore => (after, HttpStepView::Read((CAPACITY - after.buffer.bytes.len()) as usize)),
        SniffView::Failed(_) => (after, settled(http_choice(None, dst))),
    }
}

/// The sniffer and the step after an event: bytes that fit are taken and
/// the lines read; an ended stream, a failed read, too many bytes, a full
/// buffer and a malformed line all end the search, and the connection falls
/// back to its original destination.
pub open spec fn http_step(v: SnifferView, dst: Option<TargetView>, event: HttpEvent) -> (
    SnifferView,
    HttpStepView,
) {
    match event {
        HttpEvent::Accepted => after_lines(v, dst),
        HttpEvent::Bytes(b) => if 0 < b@.len() <= CAPACITY - v.buffer.bytes.len() {
            after_lines(
                SnifferView {
                    buffer: BufferView { bytes: v.buffer.bytes + b@, pos: v.buffer.pos },
                    past_request_line: v.past_request_line,
                },
                dst,
            )
        } else {
            (v, settled(http_choice(None, dst)))
        },
        HttpEvent::ReadFailed => (v, settled(http_choice(None, dst))),
    }
}

/// The sniffer and the step after a run of events: each is served in turn,
/// as long as the step before it asked for a read.
pub open spec fn http_steps(
    v: SnifferView,
    dst: Option<TargetView>,
    first: HttpEvent,
    later: Seq<HttpEvent>,
) -> (SnifferView, HttpStepView)
    decreases later.len(),
{
    let (after, step) = http_step(v, dst, first);
    if later.len() > 0 && step is Read {
        http_steps(after, dst, later[0], later.drop_first())
    } else {
        (after, step)
    }
}

/// The bytes that a run of reads returned, read by read.
pub open spec fn chunks_of(reads: Seq<HttpEvent>) -> Seq<Seq<u8>> {
    Seq::new(
        reads.len(),
        |i: int|
            match reads[i] {
                HttpEvent::Bytes(b) => b@,
                _ => Seq::empty(),
            },
    )
}

/// Whether every event is a read that returned at least one byte.
pub open spec fn all_bytes(reads: Seq<HttpEvent>) -> bool {
    forall|i: int|
        0 <= i < reads.len() ==> (#[trigger] reads[i]) is Bytes && chunks_of(reads)[i].len() > 0
}

/// A sniffer that has taken no bytes, as plain values.
pub open spec fn fresh_sniffer() -> SnifferView {
    SnifferView {
        buffer: BufferView { bytes: Seq::empty(), pos: 0 },
        past_request_line: false,
    }
}

/// The sniffer that an event is served on: with the bytes of a read that
/// fits taken, else as it is.
pub open spec fn taken(v: SnifferView, event: HttpEvent) -> SnifferView {
    match event {
        HttpEvent::Bytes(b) => if 0 < b@.len() <= CAPACITY - v.buffer.bytes.len() {
            extended(v, b@)
        } else {
            v
        },
        _ => v,
    }
}

proof fn lemma_steps_follow_the_search(
    v: SnifferView,
    dst: Option<TargetView>,
    first: HttpEvent,
    later: Seq<HttpEvent>,
)
    requires
        first is Accepted || (first is Bytes && taken(v, first) != v),
        all_bytes(later),
        taken(v, first).buffer.pos <= taken(v, first).buffer.bytes.len(),
        taken(v, first).buffer.bytes.len() + joined(chunks_of(later)).len() <= CAPACITY,
    ensures
        http_steps(v, dst, first, later).0 == sniffed(taken(v, first), chunks_of(later)).0,
        http_steps(v, dst, first, later).1 == after_lines(
            extended(taken(v, first), joined(chunks_of(later))),
            dst,
        ).1,
    decreases later.len(),
{
    let start = taken(v, first);
    let chunks = chunks_of(later);
    assert(http_step(v, dst, first) == after_lines(start, dst));
    let (after, found) = sniff_of(start);
    let whole = extended(start, joined(chunks));
    law_sniffing_keeps_bytes(start);
    law_sniffing_keeps_bytes(whole);
    law_chunks_do_not_matter(start, chunks);
    if later.len() == 0 {
        assert(start.buffer.bytes + joined(chunks) =~= start.buffer.bytes);
        assert(whole == start);
    } else if found is NeedMore {
        let rest = later.drop_first();
        assert(chunks_of(rest) =~= chunks.drop_first());
        assert(joined(chunks) == chunks[0] + joined(chunks.drop_first()));
        assert(later[0] is Bytes && chunks[0].len() > 0);
        assert(taken(after, later[0]) == extended(after, chunks[0]));
        assert(all_bytes(rest)) by {
            assert forall|i: int| 0 <= i < rest.len() implies (#[trigger] rest[i]) is Bytes
                && chunks_of(rest)[i].len() > 0 by {
                assert(rest[i] == later[i + 1]);
                assert(chunks_of(rest)[i] == chunks[i + 1]);
            }
        }
        lemma_steps_follow_the_search(after, dst, later[0], rest);
        let next = extended(after, chunks[0]);
        let next_whole = extended(next, joined(chunks_of(rest)));
        law_chunks_do_not_matter(next, chunks_of(rest));
        law_sniffing_keeps_bytes(next_whole);
        assert(next_whole.buffer.bytes =~= whole.buffer.bytes);
    }
}

/// However the head of a request is cut into reads, the connection ends up
/// where it does when the head arrives in one read: at the same target, or
/// dropped, or asking for more. The bytes held for replay are then the
/// start of what was sent, in order.
pub proof fn law_reads_do_not_matter(dst: Option<TargetView>, reads: Seq<HttpEvent>)
    requires
        all_bytes(reads),
        joined(chunks_of(reads)).len() <= CAPACITY,
    ensures
        http_steps(fresh_sniffer(), dst, HttpEvent::Accepted, reads).1 == after_lines(
            extended(fresh_sniffer(), joined(chunks_of(reads))),
            dst,
        ).1,
        http_steps(
            fresh_sniffer(),
            dst,
            HttpEvent::Accepted,
            reads,
        ).0.buffer.bytes.is_prefix_of(joined(chunks_of(reads))),
{
    let v = fresh_sniffer();
    lemma_steps_follow_the_search(v, dst, HttpEvent::Accepted, reads);
    law_chunks_do_not_matter(v, chunks_of(reads));
    assert(v.buffer.bytes + joined(chunks_of(reads)) =~= joined(chunks_of(reads)));
}

/// A request whose host the rules match goes through the proxy, however its
/// head is cut into reads: the target is the one that the whole head names,
/// the road is the proxy, and what is held for replay is the start of what
/// the client sent.
pub proof fn law_matched_request_is_tunnelled(
    rules: crate::rules::Trie,
    dst: Option<TargetView>,
    reads: Seq<HttpEvent>,
    target: TargetView,
)
    requires
        all_bytes(reads),
        joined(chunks_of(reads)).len() <= CAPACITY,
        after_lines(extended(fresh_sniffer(), joined(chunks_of(reads))), dst).1
            == HttpStepView::Connect(target),
        target_matches(rules, target),
    ensures
        http_steps(fresh_sniffer(), dst, HttpEvent::Accepted, reads).1 == HttpStepView::Connect(
            target,
        ),
        route_of(target_matches(rules, target)) == Route::Socks5,
        http_steps(
            fresh_sniffer(),
            dst,
            HttpEvent::Accepted,
            reads,
        ).0.buffer.bytes.is_prefix_of(joined(chunks_of(reads))),
{
    law_reads_do_not_matter(dst, reads);
}

fn settle(target: Option<Target>) -> (out: HttpStep)
    ensures
        out@ == settled(view_of(target)),
{
    match target {
        Some(t) => HttpStep::Connect(t),
        None => HttpStep::Drop,
    }
}

fn read_lines(sniffer: &mut HostSniffer, dst: Option<Target>) -> (out: HttpStep)
    requires
        old(sniffer).wf(),
    ensures
        final(sniffer).wf(),
        (final(sniffer)@, out@) == after_lines(old(sniffer)@, view_of(dst)),
{
    match sniffer.advance() {
        Sniff::Host(h) => settle(http_target(Some(h), dst)),
        Sniff::NeedMore => HttpStep::Read(sniffer.room()),
        Sniff::Failed(_) => settle(http_target(None, dst)),
    }
}

/// One step of finding the target of an HTTP connection: from the sniffer,
/// the original destination and what happened on the stream to what to do
/// next.
pub fn get_http_domain(sniffer: &mut HostSniffer, dst: Option<Target>, event: HttpEvent) -> (out:
    HttpStep)
    requires
        old(sniffer).wf(),
    ensures
        final(sniffer).wf(),
        (final(sniffer)@, out@) == http_step(old(sniffer)@, view_of(dst), event),
{
    match event {
        HttpEvent::Accepted => read_lines(sniffer, dst),
        HttpEvent::Bytes(b) => {
            match sniffer.fill(b.as_slice()) {
                Ok(_) => read_lines(sniffer, dst),
                Err(_) => settle(http_target(None, dst)),
            }
        },
        HttpEvent::ReadFailed => settle(http_target(None, dst)),
    }
}

/// The road for `target` under the rules of `filter`: through the proxy
/// when the rules match it, else direct.
pub fn route(filter: &Filter, target: &Target) -> (out: Route)
    requires
        filter.wf(),
    ensures
        out == route_of(target_matches(filter@, target@)),
{
    route_for(filter.check_target(target))
}

/// The road for a connection, given whether the rules match its target.
pub fn route_for(matched: bool) -> (out: Route)
    ensures
        out == route_of(matched),
{
    if matched {
        Route::Socks5
    } else {
        Route::Direct
    }
}

/// The mark to set on an outbound socket: none for zero.
pub fn socket_mark(fwmark: u16) -> (out: Option<u32>)
    ensures
        out == if fwmark > 0 {
            Some(fwmark as u32)
        } else {
            None::<u32>
        },
{
    if fwmark > 0 {
        Some(fwmark as u32)
    } else {
        None
    }
}

} // verus!
