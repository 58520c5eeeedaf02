//! Reading the head of an HTTP request line by line, keeping every byte read,
//! until the `Host` header is found.

use crate::text::{
    after_first, before_first, chars_of, copy_range, find_from, lemma_position_bounds,
    lemma_position_extended, lemma_position_is, position,
    text_of, trim, trimmed, utf8_text,
};
use vstd::prelude::*;
use vstd::utf8::{decode_utf8, encode_utf8_decode_utf8, valid_utf8};

verus! {

/// The number of bytes that a `Buffer` holds at most.
pub const CAPACITY: usize = 4096;

/// What a `Buffer` holds: every byte received so far, and how many of them
/// were handed out as lines.
pub struct BufferView {
    pub bytes: Seq<u8>,
    pub pos: nat,
}

/// An accumulating read buffer of fixed capacity. Bytes received are kept in
/// order and never dropped, so that they can be forwarded after the lines
/// were read.
pub struct Buffer {
    data: [u8; 4096],
    pos: usize,
    cap: usize,
}

impl View for Buffer {
    type V = BufferView;

    closed spec fn view(&self) -> BufferView {
        BufferView { bytes: self.data@.take(self.cap as int), pos: self.pos as nat }
    }
}

/// Why a buffer took no bytes.
#[derive(Clone, Copy, Debug, PartialEq, Eq, Structural)]
pub enum FillError {
    /// No bytes were offered: the stream has ended.
    Closed,
    /// The bytes offered do not fit into what is left of the capacity.
    Overflow,
}

impl Buffer {
    /// The positions are in order and inside the capacity.
    pub closed spec fn wf(self) -> bool {
        self.pos <= self.cap <= 4096
    }

    /// A well-formed buffer holds at most its capacity, and has handed out no
    /// more than it holds.
    pub proof fn lemma_bounds(self)
        requires
            self.wf(),
        ensures
            self@.pos <= self@.bytes.len() <= CAPACITY,
    {
    }

    /// An empty buffer.
    pub fn new() -> (out: Buffer)
        ensures
            out.wf(),
            out@.bytes == Seq::<u8>::empty(),
            out@.pos == 0,
    {
        Buffer { data: [0u8; 4096], pos: 0, cap: 0 }
    }

    /// Every byte received so far, in order.
    pub fn bytes(&self) -> (out: &[u8])
        requires
            self.wf(),
        ensures
            out@ == self@.bytes,
    {
        vstd::slice::slice_subrange(self.data.as_slice(), 0, self.cap)
    }

    /// How many more bytes the buffer can take.
    pub fn room(&self) -> (out: usize)
        requires
            self.wf(),
        ensures
            out == CAPACITY - self@.bytes.len(),
            self@.bytes.len() <= CAPACITY,
    {
        4096 - self.cap
    }

    /// Takes the bytes that a read returned. An empty chunk means that the
    /// stream has ended; a chunk that does not fit is refused whole.
    pub fn fill(&mut self, chunk: &[u8]) -> (out: Result<(), FillError>)
        requires
            old(self).wf(),
        ensures
            final(self).wf(),
            final(self)@.pos == old(self)@.pos,
            match out {
                Ok(_) => 0 < chunk@.len() <= CAPACITY - old(self)@.bytes.len() && final(self)@.bytes
                    == old(self)@.bytes + chunk@,
                Err(FillError::Closed) => chunk@.len() == 0 && final(self)@ == old(self)@,
                Err(FillError::Overflow) => chunk@.len() > CAPACITY - old(self)@.bytes.len()
                    && final(self)@ == old(self)@,
            },
    {
        if chunk.len() == 0 {
            return Err(FillError::Closed);
        }
        if chunk.len() > 4096 - self.cap {
            return Err(FillError::Overflow);
        }
        let mut i: usize = 0;
        while i < chunk.len()
            invariant
                i <= chunk@.len(),
                self.pos == old(self).pos,
                self.cap == old(self).cap + i,
                self.cap + (chunk@.len() - i) <= 4096,
                self.pos <= self.cap,
                self.data@.take(self.cap as int) == old(self).data@.take(old(self).cap as int)
                    + chunk@.take(i as int),
            decreases chunk@.len() - i,
        {
            let ghost prev = self.data@;
            let ghost at = self.cap as int;
            self.data[self.cap] = chunk[i];
            assert(self.data@ == prev.update(at, chunk@[i as int]));
            assert(self.data@.take(at + 1) =~= prev.take(at).push(chunk@[i as int]));
            assert(chunk@.take(i + 1) =~= chunk@.take(i as int).push(chunk@[i as int]));
            self.cap += 1;
            i += 1;
        }
        assert(chunk@.take(i as int) == chunk@);
        Ok(())
    }
}

/// What reading a line from a buffer gives.
pub enum ReadLine {
    /// The next line, without its line end.
    Line(String),
    /// The next line is not UTF-8; it was passed over.
    NotUtf8,
    /// The buffer is full and holds no further line end.
    Full,
    /// No further line end has been received yet.
    NeedMore,
}

/// A `ReadLine` as plain values.
pub enum ReadLineView {
    Line(Seq<char>),
    NotUtf8,
    Full,
    NeedMore,
}

impl View for ReadLine {
    type V = ReadLineView;

    open spec fn view(&self) -> ReadLineView {
        match self {
            ReadLine::Line(s) => ReadLineView::Line(s@),
            ReadLine::NotUtf8 => ReadLineView::NotUtf8,
            ReadLine::Full => ReadLineView::Full,
            ReadLine::NeedMore => ReadLineView::NeedMore,
        }
    }
}

/// Where the line that starts at `pos` ends: the index of the next line
/// feed, or the length of `bytes` when there is none.
pub open spec fn line_end(bytes: Seq<u8>, pos: int) -> int {
    pos + position(bytes.skip(pos), 10u8)
}

/// The line that starts at `pos`, without the line feed at `end` and without
/// a carriage return before it.
pub open spec fn line_bytes(bytes: Seq<u8>, pos: int, end: int) -> Seq<u8> {
    if end > pos && bytes[end - 1] == 13u8 {
        bytes.subrange(pos, end - 1)
    } else {
        bytes.subrange(pos, end)
    }
}

/// The buffer and the result after an attempt to read a line.
pub open spec fn read_line_of(v: BufferView) -> (BufferView, ReadLineView) {
    let end = line_end(v.bytes, v.pos as int);
    if v.pos <= end < v.bytes.len() {
        let after = BufferView { bytes: v.bytes, pos: (end + 1) as nat };
        let line = line_bytes(v.bytes, v.pos as int, end);
        if valid_utf8(line) {
            (after, ReadLineView::Line(decode_utf8(line)))
        } else {
            (after, ReadLineView::NotUtf8)
        }
    } else if v.bytes.len() >= CAPACITY {
        (v, ReadLineView::Full)
    } else {
        (v, ReadLineView::NeedMore)
    }
}

impl Buffer {
    /// Hands out the next line, if its line end has been received. Lines end
    /// with a line feed; a carriage return before it is dropped. The bytes
    /// stay in the buffer.
    pub fn read_line(&mut self) -> (out: ReadLine)
        requires
            old(self).wf(),
        ensures
            final(self).wf(),
            (final(self)@, out@) == read_line_of(old(self)@),
    {
        let start: usize = self.pos;
        let mut i: usize = start;
        while i < self.cap && self.data[i] != 10u8
            invariant
                start <= i <= self.cap <= 4096,
                forall|j: int| start <= j < i ==> self.data@[j] != 10u8,
            decreases self.cap - i,
        {
            i += 1;
        }
        let ghost bytes = self.data@.take(self.cap as int);
        proof {
            let rest = bytes.skip(start as int);
            assert forall|j: int| 0 <= j < i - start implies rest[j] != 10u8 by {
                assert(rest[j] == self.data@[start + j]);
            }
            lemma_position_is(rest, 10u8, i - start);
        }
        if i >= self.cap {
            if self.cap >= 4096 {
                return ReadLine::Full;
            }
            return ReadLine::NeedMore;
        }
        let stop: usize = if i > start && self.data[i - 1] == 13u8 {
            i - 1
        } else {
            i
        };
        self.pos = i + 1;
        let line = vstd::slice::slice_subrange(self.data.as_slice(), start, stop);
        assert(line@ == line_bytes(bytes, start as int, i as int));
        match utf8_text(line) {
            Some(s) => {
                proof {
                    encode_utf8_decode_utf8(s@);
                }
                ReadLine::Line(s.to_owned())
            },
            None => ReadLine::NotUtf8,
        }
    }
}

/// The name and the value of a header line: what stands before the first
/// colon, and what stands after it without surrounding whitespace. A line
/// without a colon is all name.
pub open spec fn header_parts(line: Seq<char>) -> (Seq<char>, Seq<char>) {
    match after_first(line, ':') {
        Some(v) => (before_first(line, ':'), trim(v)),
        None => (line, Seq::empty()),
    }
}

fn split_header(chars: &[char]) -> (out: (Vec<char>, Vec<char>))
    ensures
        (out.0@, out.1@) == header_parts(chars@),
{
    let colon = find_from(chars, 0, ':');
    proof {
        assert(chars@.skip(0) == chars@);
    }
    if colon < chars.len() {
        let name = copy_range(chars, 0, colon);
        let tail = copy_range(chars, colon + 1, chars.len());
        let value = trimmed(tail.as_slice());
        (name, value)
    } else {
        let name = copy_range(chars, 0, chars.len());
        assert(name@ == chars@);
        (name, Vec::new())
    }
}

/// Splits a header line into its name and its value.
pub fn sp(line: &str) -> (out: (String, String))
    ensures
        (out.0@, out.1@) == header_parts(line@),
{
    let chars = chars_of(line);
    let (name, value) = split_header(chars.as_slice());
    (text_of(name.as_slice()), text_of(value.as_slice()))
}

/// Why no `Host` header came out of a request head.
#[derive(Clone, Copy, Debug, PartialEq, Eq, Structural)]
pub enum SniffError {
    /// 4096 bytes were received and the header has not been found.
    TooLong,
    /// A line is not UTF-8.
    NotUtf8,
}

/// How far the search for the `Host` header has come.
pub enum Sniff {
    /// The value of the `Host` header, without surrounding whitespace.
    Host(String),
    /// More bytes are needed: read from the stream and `fill`.
    NeedMore,
    /// The search has failed.
    Failed(SniffError),
}

/// A `Sniff` as plain values.
pub enum SniffView {
    Host(Seq<char>),
    NeedMore,
    Failed(SniffError),
}

impl View for Sniff {
    type V = SniffView;

    open spec fn view(&self) -> SniffView {
        match self {
            Sniff::Host(s) => SniffView::Host(s@),
            Sniff::NeedMore => SniffView::NeedMore,
            Sniff::Failed(e) => SniffView::Failed(*e),
        }
    }
}

/// The name of the header that is looked for. Names are compared as they are
/// written, letter case included.
pub open spec fn host_key() -> Seq<char> {
    seq!['H', 'o', 's', 't']
}

/// A sniffer as plain values: its buffer, and whether the request line has
/// been passed.
pub struct SnifferView {
    pub buffer: BufferView,
    pub past_request_line: bool,
}

/// The sniffer and the result after the lines that the buffer holds were
/// read: the first line of a request is passed over; of the following ones
/// the first whose name is `Host` gives its value.
pub open spec fn sniff_of(v: SnifferView) -> (SnifferView, SniffView)
    decreases v.buffer.bytes.len() - v.buffer.pos,
{
    let (after, line) = read_line_of(v.buffer);
    match line {
        ReadLineView::Line(text) => {
            if v.past_request_line && header_parts(text).0 == host_key() {
                (
                    SnifferView { buffer: after, past_request_line: true },
                    SniffView::Host(header_parts(text).1),
                )
            } else {
                sniff_of(SnifferView { buffer: after, past_request_line: true })
            }
        },
        ReadLineView::NotUtf8 => (
            SnifferView { buffer: after, past_request_line: v.past_request_line },
            SniffView::Failed(SniffError::NotUtf8),
        ),
        ReadLineView::Full => (v, SniffView::Failed(SniffError::TooLong)),
        ReadLineView::NeedMore => (v, SniffView::NeedMore),
    }
}

/// Reading lines never changes the bytes held, and never moves backwards.
pub proof fn law_sniffing_keeps_bytes(v: SnifferView)
    requires
        v.buffer.pos <= v.buffer.bytes.len(),
    ensures
        sniff_of(v).0.buffer.bytes == v.buffer.bytes,
        v.buffer.pos <= sniff_of(v).0.buffer.pos <= v.buffer.bytes.len(),
    decreases v.buffer.bytes.len() - v.buffer.pos,
{
    let (after, line) = read_line_of(v.buffer);
    lemma_position_bounds(v.buffer.bytes.skip(v.buffer.pos as int), 10u8);
    match line {
        ReadLineView::Line(text) => {
            if !(v.past_request_line && header_parts(text).0 == host_key()) {
                law_sniffing_keeps_bytes(SnifferView { buffer: after, past_request_line: true });
            }
        },
        _ => {},
    }
}

/// A sniffer that holds `more` after the bytes it held.
pub open spec fn extended(v: SnifferView, more: Seq<u8>) -> SnifferView {
    SnifferView {
        buffer: BufferView { bytes: v.buffer.bytes + more, pos: v.buffer.pos },
        past_request_line: v.past_request_line,
    }
}

/// The chunks of a stream, one after the other.
pub open spec fn joined(chunks: Seq<Seq<u8>>) -> Seq<u8>
    decreases chunks.len(),
{
    if chunks.len() == 0 {
        Seq::empty()
    } else {
        chunks[0] + joined(chunks.drop_first())
    }
}

/// The sniffer and the result after a stream arrived in chunks: the lines
/// at hand are read, and as long as more is needed the next chunk is taken
/// and the lines are read again. A chunk that is empty or does not fit ends
/// the taking.
pub open spec fn sniffed(v: SnifferView, chunks: Seq<Seq<u8>>) -> (SnifferView, SniffView)
    decreases chunks.len(),
{
    let (after, found) = sniff_of(v);
    if chunks.len() > 0 && found is NeedMore && 0 < chunks[0].len() <= CAPACITY
        - after.buffer.bytes.len() {
        sniffed(extended(after, chunks[0]), chunks.drop_first())
    } else {
        (after, found)
    }
}

/// What reading a line gave stays so when more bytes follow: a line that was
/// found is found again, with the same text.
pub proof fn lemma_line_extended(v: BufferView, more: Seq<u8>)
    requires
        v.pos <= v.bytes.len(),
        read_line_of(v).1 is Line || read_line_of(v).1 is NotUtf8,
    ensures
        read_line_of(BufferView { bytes: v.bytes + more, pos: v.pos }) == (
            BufferView { bytes: v.bytes + more, pos: read_line_of(v).0.pos },
            read_line_of(v).1,
        ),
{
    let rest = v.bytes.skip(v.pos as int);
    let whole = v.bytes + more;
    lemma_position_bounds(rest, 10u8);
    let end = line_end(v.bytes, v.pos as int);
    assert(whole.skip(v.pos as int) =~= rest + more);
    lemma_position_extended(rest, more, 10u8);
    assert(line_end(whole, v.pos as int) == end);
    assert(line_bytes(whole, v.pos as int, end) =~= line_bytes(v.bytes, v.pos as int, end));
}

/// What the search gave stays so when more bytes follow: a header that was
/// found and a line that is not UTF-8 are found again at the same place; a
/// search that needs more goes on from where it stood; a search that failed
/// for length had a full buffer.
pub proof fn lemma_sniff_extended(v: SnifferView, more: Seq<u8>)
    requires
        v.buffer.pos <= v.buffer.bytes.len(),
    ensures
        match sniff_of(v).1 {
            SniffView::NeedMore => sniff_of(extended(v, more)) == sniff_of(
                extended(sniff_of(v).0, more),
            ),
            SniffView::Failed(SniffError::TooLong) => v.buffer.bytes.len() >= CAPACITY,
            _ => sniff_of(extended(v, more)) == (extended(sniff_of(v).0, more), sniff_of(v).1),
        },
    decreases v.buffer.bytes.len() - v.buffer.pos,
{
    let (after, line) = read_line_of(v.buffer);
    lemma_position_bounds(v.buffer.bytes.skip(v.buffer.pos as int), 10u8);
    match line {
        ReadLineView::Line(text) => {
            lemma_line_extended(v.buffer, more);
            if !(v.past_request_line && header_parts(text).0 == host_key()) {
                let next = SnifferView { buffer: after, past_request_line: true };
                lemma_sniff_extended(next, more);
                assert(sniff_of(extended(v, more)) == sniff_of(extended(next, more)));
            }
        },
        ReadLineView::NotUtf8 => {
            lemma_line_extended(v.buffer, more);
        },
        _ => {},
    }
}

/// However a stream is cut into chunks, the search ends as it does on the
/// whole stream at once: with the same result, at the same place. What the
/// sniffer then holds is the start of the stream, in order, up to at least
/// the place the search has reached, and never more than the capacity; a
/// search that still needs more has taken every chunk.
pub proof fn law_chunks_do_not_matter(v: SnifferView, chunks: Seq<Seq<u8>>)
    requires
        v.buffer.pos <= v.buffer.bytes.len(),
        forall|i: int| 0 <= i < chunks.len() ==> (#[trigger] chunks[i]).len() > 0,
        v.buffer.bytes.len() + joined(chunks).len() <= CAPACITY,
    ensures
        sniffed(v, chunks).1 == sniff_of(extended(v, joined(chunks))).1,
        sniffed(v, chunks).0.buffer.pos == sniff_of(extended(v, joined(chunks))).0.buffer.pos,
        sniffed(v, chunks).0.past_request_line == sniff_of(
            extended(v, joined(chunks)),
        ).0.past_request_line,
        sniffed(v, chunks).0.buffer.bytes.is_prefix_of(v.buffer.bytes + joined(chunks)),
        sniffed(v, chunks).0.buffer.pos <= sniffed(v, chunks).0.buffer.bytes.len() <= CAPACITY,
        sniffed(v, chunks).1 is NeedMore ==> sniffed(v, chunks).0.buffer.bytes == v.buffer.bytes
            + joined(chunks),
    decreases chunks.len(),
{
    let all = joined(chunks);
    let (after, found) = sniff_of(v);
    law_sniffing_keeps_bytes(v);
    lemma_sniff_extended(v, all);
    if chunks.len() == 0 {
        assert(v.buffer.bytes + all =~= v.buffer.bytes);
        assert(extended(v, all) == v);
    } else {
        let first = chunks[0];
        let rest = chunks.drop_first();
        assert(all == first + joined(rest));
        if found is NeedMore {
            let next = extended(after, first);
            assert forall|i: int| 0 <= i < rest.len() implies (#[trigger] rest[i]).len() > 0 by {
                assert(rest[i] == chunks[i + 1]);
            }
            law_chunks_do_not_matter(next, rest);
            assert(next.buffer.bytes + joined(rest) =~= after.buffer.bytes + all);
            assert(extended(next, joined(rest)) == extended(after, all));
        } else {
            assert(after.buffer.bytes =~= (v.buffer.bytes + all).subrange(
                0,
                after.buffer.bytes.len() as int,
            ));
        }
    }
}

/// The search for the `Host` header in the head of an HTTP request. Every
/// byte taken stays in the buffer.
pub struct HostSniffer {
    buffer: Buffer,
    past_request_line: bool,
}

impl View for HostSniffer {
    type V = SnifferView;

    closed spec fn view(&self) -> SnifferView {
        SnifferView { buffer: self.buffer@, past_request_line: self.past_request_line }
    }
}

impl HostSniffer {
    /// The buffer is well formed.
    pub closed spec fn wf(self) -> bool {
        self.buffer.wf()
    }

    /// A well-formed sniffer holds at most the capacity of its buffer, and
    /// has read no further than it holds.
    pub proof fn lemma_bounds(self)
        requires
            self.wf(),
        ensures
            self@.buffer.pos <= self@.buffer.bytes.len() <= CAPACITY,
    {
        self.buffer.lemma_bounds();
    }

    /// A sniffer that has taken no bytes.
    pub fn new() -> (out: HostSniffer)
        ensures
            out.wf(),
            out@.buffer.bytes == Seq::<u8>::empty(),
            out@.buffer.pos == 0,
            !out@.past_request_line,
    {
        HostSniffer { buffer: Buffer::new(), past_request_line: false }
    }

    /// Every byte taken so far, in order.
    pub fn bytes(&self) -> (out: &[u8])
        requires
            self.wf(),
        ensures
            out@ == self@.buffer.bytes,
    {
        self.buffer.bytes()
    }

    /// How many more bytes the sniffer can take.
    pub fn room(&self) -> (out: usize)
        requires
            self.wf(),
        ensures
            out == CAPACITY - self@.buffer.bytes.len(),
            self@.buffer.bytes.len() <= CAPACITY,
    {
        self.buffer.room()
    }

    /// Takes the bytes that a read returned, as `Buffer::fill` does.
    pub fn fill(&mut self, chunk: &[u8]) -> (out: Result<(), FillError>)
        requires
            old(self).wf(),
        ensures
            final(self).wf(),
            final(self)@.past_request_line == old(self)@.past_request_line,
            final(self)@.buffer.pos == old(self)@.buffer.pos,
            match out {
                Ok(_) => 0 < chunk@.len() <= CAPACITY - old(self)@.buffer.bytes.len()
                    && final(self)@.buffer.bytes == old(self)@.buffer.bytes + chunk@,
                Err(FillError::Closed) => chunk@.len() == 0 && final(self)@ == old(self)@,
                Err(FillError::Overflow) => chunk@.len() > CAPACITY - old(self)@.buffer.bytes.len()
                    && final(self)@ == old(self)@,
            },
    {
        self.buffer.fill(chunk)
    }

    /// Reads the lines received so far, up to the `Host` header.
    pub fn advance(&mut self) -> (out: Sniff)
        requires
            old(self).wf(),
        ensures
            final(self).wf(),
            (final(self)@, out@) == sniff_of(old(self)@),
    {
        loop
            invariant
                self.wf(),
                sniff_of(self@) == sniff_of(old(self)@),
            decreases self@.buffer.bytes.len() - self@.buffer.pos,
        {
            match self.buffer.read_line() {
                ReadLine::Line(line) => {
                    let chars = chars_of(line.as_str());
                    let (name, value) = split_header(chars.as_slice());
                    if self.past_request_line && is_host_key(name.as_slice()) {
                        return Sniff::Host(text_of(value.as_slice()));
                    }
                    self.past_request_line = true;
                },
                ReadLine::NotUtf8 => {
                    return Sniff::Failed(SniffError::NotUtf8);
                },
                ReadLine::Full => {
                    return Sniff::Failed(SniffError::TooLong);
                },
                ReadLine::NeedMore => {
                    return Sniff::NeedMore;
                },
            }
        }
    }
}

fn is_host_key(name: &[char]) -> (out: bool)
    ensures
        out == (name@ == host_key()),
{
    let out = name.len() == 4 && name[0] == 'H' && name[1] == 'o' && name[2] == 's' && name[3]
        == 't';
    proof {
        if out {
            assert(name@ =~= host_key());
        }
    }
    out
}

} // verus!
