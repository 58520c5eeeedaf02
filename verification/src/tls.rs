//! Finding the server name in the first bytes of a TLS connection.

use crate::target::Target;
use crate::text::utf8_text;
use vstd::prelude::*;
use vstd::utf8::{decode_utf8, encode_utf8_decode_utf8, valid_utf8};

verus! {

/// Why no server name came out of a packet.
#[derive(Clone, Copy, Debug, PartialEq, Eq, Structural)]
pub enum SniError {
    /// Fewer than 43 bytes.
    TooShort,
    /// The packet does not start like a TLS handshake record.
    NotTls,
    /// A length field, or what it announces, lies beyond the bytes at hand.
    Truncated,
    /// The extensions hold no server name.
    NotFound,
    /// The first entry of the server name list is no host name.
    UnknownNameType,
    /// The name's length does not fill the extension, or passes the end of
    /// the extensions.
    LengthMismatch,
    /// The name is not UTF-8.
    NotUtf8,
}

/// The 16-bit number at `i`, most significant octet first.
pub open spec fn be16(b: Seq<u8>, i: int) -> int {
    b[i] * 256 + b[i + 1]
}

/// Where the extensions of a ClientHello start and end: after the fixed part
/// of 43 octets, the session id, the cipher suites and the compression
/// methods, each behind its length, and the two octets of the extensions'
/// own length. The end is the announced one and may lie beyond `b`.
pub open spec fn extensions_range(b: Seq<u8>) -> Result<(int, int), SniError> {
    if b.len() < 43 {
        Err(SniError::TooShort)
    } else if b[0] != 0x16 || b[1] != 0x03 {
        Err(SniError::NotTls)
    } else if 43 >= b.len() {
        Err(SniError::Truncated)
    } else {
        let suites = 43 + 1 + b[43];
        if suites + 1 >= b.len() {
            Err(SniError::Truncated)
        } else {
            let compression = suites + 2 + be16(b, suites);
            if compression >= b.len() {
                Err(SniError::Truncated)
            } else {
                let extensions = compression + 1 + b[compression];
                if extensions + 2 >= b.len() {
                    Err(SniError::Truncated)
                } else {
                    Ok((extensions + 2, extensions + 2 + be16(b, extensions)))
                }
            }
        }
    }
}

/// The host name in the first server name extension at or after `i`, walking
/// the extensions up to `end`. An extension is two octets of type, two of
/// length, and its body; type 0 is the server name, whose body holds two
/// octets of list length, one of entry type, two of name length and the name.
pub open spec fn server_name_from(b: Seq<u8>, i: int, end: int) -> Result<Seq<u8>, SniError>
    decreases b.len() + 0x20000 - i,
{
    if i < 0 || i >= end {
        Err(SniError::NotFound)
    } else if i + 4 > b.len() {
        Err(SniError::Truncated)
    } else {
        let next = i + 4 + be16(b, i + 2);
        if b[i] == 0 && b[i + 1] == 0 {
            if i + 9 > b.len() {
                Err(SniError::Truncated)
            } else if b[i + 6] != 0 {
                Err(SniError::UnknownNameType)
            } else {
                let stop = i + 9 + be16(b, i + 7);
                if stop != next || stop > end {
                    Err(SniError::LengthMismatch)
                } else if stop > b.len() {
                    Err(SniError::Truncated)
                } else {
                    Ok(b.subrange(i + 9, stop))
                }
            }
        } else {
            server_name_from(b, next, end)
        }
    }
}

/// The octets of the server name that a ClientHello carries.
pub open spec fn server_name(b: Seq<u8>) -> Result<Seq<u8>, SniError> {
    match extensions_range(b) {
        Ok((start, end)) => server_name_from(b, start, end),
        Err(e) => Err(e),
    }
}

/// The host name that a ClientHello asks for.
pub open spec fn sni_host(b: Seq<u8>) -> Result<Seq<char>, SniError> {
    match server_name(b) {
        Ok(name) => if valid_utf8(name) {
            Ok(decode_utf8(name))
        } else {
            Err(SniError::NotUtf8)
        },
        Err(e) => Err(e),
    }
}

fn read16(buf: &[u8], i: usize) -> (v: u128)
    requires
        i + 1 < buf@.len(),
    ensures
        v == be16(buf@, i as int),
{
    (buf[i] as u128) * 256 + (buf[i + 1] as u128)
}

fn find_extensions(buf: &[u8]) -> (out: Result<(u128, u128), SniError>)
    ensures
        match out {
            Ok((start, end)) => extensions_range(buf@) == Ok::<(int, int), SniError>(
                (start as int, end as int),
            ) && start < buf@.len() && end <= buf@.len() + 0x10000,
            Err(e) => extensions_range(buf@) == Err::<(int, int), SniError>(e),
        },
{
    let len: u128 = buf.len() as u128;
    if len < 43 {
        return Err(SniError::TooShort);
    }
    if buf[0] != 0x16 || buf[1] != 0x03 {
        return Err(SniError::NotTls);
    }
    if 43 >= len {
        return Err(SniError::Truncated);
    }
    let suites: u128 = 44 + buf[43] as u128;
    if suites + 1 >= len {
        return Err(SniError::Truncated);
    }
    let compression: u128 = suites + 2 + read16(buf, suites as usize);
    if compression >= len {
        return Err(SniError::Truncated);
    }
    let extensions: u128 = compression + 1 + buf[compression as usize] as u128;
    if extensions + 2 >= len {
        return Err(SniError::Truncated);
    }
    Ok((extensions + 2, extensions + 2 + read16(buf, extensions as usize)))
}

fn find_server_name(buf: &[u8], start: u128, end: u128) -> (out: Result<(usize, usize), SniError>)
    requires
        start < buf@.len(),
        end <= buf@.len() + 0x20000,
    ensures
        match out {
            Ok((from, to)) => from <= to <= buf@.len() && server_name_from(
                buf@,
                start as int,
                end as int,
            ) == Ok::<Seq<u8>, SniError>(buf@.subrange(from as int, to as int)),
            Err(e) => server_name_from(buf@, start as int, end as int) == Err::<
                Seq<u8>,
                SniError,
            >(e),
        },
{
    let len: u128 = buf.len() as u128;
    let mut i: u128 = start;
    loop
        invariant
            len == buf@.len(),
            len <= usize::MAX,
            i <= len + 0x20000,
            end <= len + 0x20000,
            server_name_from(buf@, start as int, end as int) == server_name_from(
                buf@,
                i as int,
                end as int,
            ),
        decreases len + 0x20000 - i,
    {
        if i >= end {
            return Err(SniError::NotFound);
        }
        if i + 4 > len {
            return Err(SniError::Truncated);
        }
        let at: usize = i as usize;
        let next: u128 = i + 4 + read16(buf, at + 2);
        if buf[at] == 0 && buf[at + 1] == 0 {
            if i + 9 > len {
                return Err(SniError::Truncated);
            }
            if buf[at + 6] != 0 {
                return Err(SniError::UnknownNameType);
            }
            let stop: u128 = i + 9 + read16(buf, at + 7);
            if stop != next || stop > end {
                return Err(SniError::LengthMismatch);
            }
            if stop > len {
                return Err(SniError::Truncated);
            }
            return Ok((at + 9, stop as usize));
        }
        i = next;
    }
}

/// The host that a TLS ClientHello names in its server name extension, as a
/// host name target without a port. Every octet read lies inside `buf`.
pub fn get_https_domain(buf: &[u8]) -> (out: Result<Target, SniError>)
    ensures
        match out {
            Ok(t) => t matches Target::Hostname(h) && sni_host(buf@) == Ok::<
                Seq<char>,
                SniError,
            >(h@),
            Err(e) => sni_host(buf@) == Err::<Seq<char>, SniError>(e),
        },
{
    let (start, end) = match find_extensions(buf) {
        Ok(r) => r,
        Err(e) => {
            return Err(e);
        },
    };
    let (from, to) = match find_server_name(buf, start, end) {
        Ok(r) => r,
        Err(e) => {
            return Err(e);
        },
    };
    let name = vstd::slice::slice_subrange(buf, from, to);
    match utf8_text(name) {
        Some(s) => {
            proof {
                encode_utf8_decode_utf8(s@);
            }
            Ok(Target::Hostname(s.to_owned()))
        },
        None => Err(SniError::NotUtf8),
    }
}

} // verus!
