use harmony_rs::http::{sp, Buffer, FillError, HostSniffer, ReadLine, Sniff, SniffError, CAPACITY};
use harmony_rs::target::Target;
use harmony_rs::tls::{get_https_domain, SniError};

fn client_hello() -> Vec<u8> {
    vec![0x16u8, 0x03, 0x01, 0x00, 0xa5,
        0x01, 0x00, 0x00, 0xa1,
        0x03, 0x03,
        0x00, 0x01, 0x02, 0x03, 0x04, 0x05, 0x06, 0x07, 0x08, 0x09, 0x0a, 0x0b, 0x0c, 0x0d, 0x0e, 0x0f, 0x10, 0x11, 0x12, 0x13, 0x14, 0x15, 0x16, 0x17, 0x18, 0x19, 0x1a, 0x1b, 0x1c, 0x1d, 0x1e, 0x1f,
        0x00,
        0x00, 0x20, 0xcc, 0xa8, 0xcc, 0xa9, 0xc0, 0x2f, 0xc0, 0x30, 0xc0, 0x2b, 0xc0, 0x2c, 0xc0, 0x13, 0xc0, 0x09, 0xc0, 0x14, 0xc0, 0x0a, 0x00, 0x9c, 0x00, 0x9d, 0x00, 0x2f, 0x00, 0x35, 0xc0, 0x12, 0x00, 0x0a,
        0x01, 0x00,
        0x00, 0x58,
        0x00, 0x00, 0x00, 0x18, 0x00, 0x16, 0x00, 0x00, 0x13, 0x65, 0x78, 0x61, 0x6d, 0x70, 0x6c, 0x65, 0x2e, 0x75, 0x6c, 0x66, 0x68, 0x65, 0x69, 0x6d, 0x2e, 0x6e, 0x65, 0x74,
        0x00, 0x05, 0x00, 0x05, 0x01, 0x00, 0x00, 0x00, 0x00,
        0x00, 0x0a, 0x00, 0x0a, 0x00, 0x08, 0x00, 0x1d, 0x00, 0x17, 0x00, 0x18, 0x00, 0x19,
        0x00, 0x0b, 0x00, 0x02, 0x01, 0x00,
        0x00, 0x0d, 0x00, 0x12, 0x00, 0x10, 0x04, 0x01, 0x04, 0x03, 0x05, 0x01, 0x05, 0x03, 0x06, 0x01, 0x06, 0x03, 0x02, 0x01, 0x02, 0x03,
        0xff, 0x01, 0x00, 0x01, 0x00,
        0x00, 0x12, 0x00, 0x00]
}

fn hello_with_extensions(extensions: &[u8]) -> Vec<u8> {
    let mut v = vec![0x16u8, 0x03, 0x01];
    v.resize(43, 0);
    v.push(0); // session id
    v.extend_from_slice(&[0, 2, 0xc0, 0x2f]); // cipher suites
    v.extend_from_slice(&[1, 0]); // compression methods
    v.push((extensions.len() >> 8) as u8);
    v.push(extensions.len() as u8);
    v.extend_from_slice(extensions);
    v
}

fn server_name_extension(name: &[u8]) -> Vec<u8> {
    let n = name.len();
    let mut v = vec![0, 0, ((n + 5) >> 8) as u8, (n + 5) as u8, ((n + 3) >> 8) as u8, (n + 3) as u8, 0];
    v.push((n >> 8) as u8);
    v.push(n as u8);
    v.extend_from_slice(name);
    v
}

fn host_of(r: Result<Target, SniError>) -> Result<String, SniError> {
    match r {
        Ok(Target::Hostname(h)) => Ok(h),
        Ok(_) => panic!("a server name is a host name"),
        Err(e) => Err(e),
    }
}

#[test]
fn start() {
    let data = client_hello();
    match get_https_domain(&data).unwrap() {
        Target::Hostname(hostname) => {
            assert_eq!(hostname, "example.ulfheim.net");
        }
        _ => panic!("a server name is a host name"),
    }
}

#[test]
fn server_name_after_other_extensions() {
    let mut ext = vec![0x00, 0x0b, 0x00, 0x02, 0x01, 0x00];
    ext.extend_from_slice(&server_name_extension(b"www.example.com"));
    let data = hello_with_extensions(&ext);
    assert_eq!(host_of(get_https_domain(&data)), Ok("www.example.com".to_string()));
}

#[test]
fn short_and_foreign_packets_are_refused() {
    assert_eq!(host_of(get_https_domain(&[])), Err(SniError::TooShort));
    assert_eq!(host_of(get_https_domain(&client_hello()[..42])), Err(SniError::TooShort));
    let mut data = client_hello();
    data[0] = 0x17;
    assert_eq!(host_of(get_https_domain(&data)), Err(SniError::NotTls));
    let mut data = client_hello();
    data[1] = 0x02;
    assert_eq!(host_of(get_https_domain(&data)), Err(SniError::NotTls));
    assert_eq!(host_of(get_https_domain(b"GET / HTTP/1.1\r\nHost: example.com\r\nAccept: */*\r\n\r\n")), Err(SniError::NotTls));
}

#[test]
fn truncated_packets_are_refused_without_reading_past_the_end() {
    let data = client_hello();
    // every prefix is handled; none yields a wrong name
    for n in 0..data.len() {
        match host_of(get_https_domain(&data[..n])) {
            Ok(h) => assert_eq!(h, "example.ulfheim.net"),
            Err(e) => assert!(e == SniError::TooShort || e == SniError::Truncated, "{} {:?}", n, e),
        }
    }
    assert_eq!(host_of(get_https_domain(&data[..43])), Err(SniError::Truncated));
    assert_eq!(host_of(get_https_domain(&data[..83])), Err(SniError::Truncated));
    // the name itself is cut
    assert_eq!(host_of(get_https_domain(&data[..100])), Err(SniError::Truncated));
    // the whole server name extension is there
    assert_eq!(host_of(get_https_domain(&data[..110])), Ok("example.ulfheim.net".to_string()));
}

#[test]
fn missing_server_name_is_reported() {
    let data = hello_with_extensions(&[0x00, 0x0b, 0x00, 0x02, 0x01, 0x00, 0xff, 0x01, 0x00, 0x01, 0x00]);
    assert_eq!(host_of(get_https_domain(&data)), Err(SniError::NotFound));
}

#[test]
fn malformed_server_names_are_refused() {
    let mut ext = server_name_extension(b"example.com");
    ext[6] = 1;
    assert_eq!(host_of(get_https_domain(&hello_with_extensions(&ext))), Err(SniError::UnknownNameType));
    let mut ext = server_name_extension(b"example.com");
    ext[8] += 1;
    ext.push(0);
    assert_eq!(host_of(get_https_domain(&hello_with_extensions(&ext))), Err(SniError::LengthMismatch));
    let ext = server_name_extension(&[0xff, 0xfe, 0x2e, 0x63]);
    assert_eq!(host_of(get_https_domain(&hello_with_extensions(&ext))), Err(SniError::NotUtf8));
    // the name passes the announced end of the extensions
    let ext = server_name_extension(b"example.com");
    let mut data = hello_with_extensions(&ext);
    let at = data.len() - ext.len() - 1;
    data[at] -= 1;
    assert_eq!(host_of(get_https_domain(&data)), Err(SniError::LengthMismatch));
}

fn line(r: ReadLine) -> Option<String> {
    match r {
        ReadLine::Line(s) => Some(s),
        _ => None,
    }
}

/// Reads a line as a caller with a stream does: whenever the buffer needs
/// more, it is filled with what the stream has left.
fn read_line_from(buffer: &mut Buffer, reader: &mut &[u8]) -> Result<String, String> {
    loop {
        match buffer.read_line() {
            ReadLine::Line(s) => return Ok(s),
            ReadLine::NotUtf8 => return Err("not utf-8".to_string()),
            ReadLine::Full => return Err("data length exceeded".to_string()),
            ReadLine::NeedMore => {
                let n = reader.len().min(buffer.room());
                let (chunk, rest) = reader.split_at(n);
                *reader = rest;
                if buffer.fill(chunk) == Err(FillError::Closed) {
                    return Err("connection has been closed".to_string());
                }
            }
        }
    }
}

#[test]
fn test_buffer_read_line() {
    let data = "hello\nworld\r\n".as_bytes().to_vec();
    let mut buffer = Buffer::new();
    let mut reader = &data[..];
    let line1 = read_line_from(&mut buffer, &mut reader).unwrap();
    assert_eq!(line1, "hello");
    let line2 = read_line_from(&mut buffer, &mut reader).unwrap();
    assert_eq!(line2, "world");
    let result = read_line_from(&mut buffer, &mut reader);
    assert!(result.is_err());
    assert_eq!(buffer.bytes(), &data[..]);
}

#[test]
fn buffer_keeps_every_byte_in_order() {
    let mut buffer = Buffer::new();
    assert_eq!(buffer.room(), CAPACITY);
    assert_eq!(buffer.fill(b"ab"), Ok(()));
    assert_eq!(buffer.fill(b"c\nd"), Ok(()));
    assert_eq!(buffer.bytes(), b"abc\nd");
    assert_eq!(line(buffer.read_line()), Some("abc".to_string()));
    assert_eq!(buffer.bytes(), b"abc\nd");
    assert_eq!(buffer.room(), CAPACITY - 5);
    assert_eq!(buffer.fill(b"\n\r\n"), Ok(()));
    assert_eq!(line(buffer.read_line()), Some("d".to_string()));
    assert_eq!(line(buffer.read_line()), Some("".to_string()));
    assert!(matches!(buffer.read_line(), ReadLine::NeedMore));
}

#[test]
fn buffer_is_full_at_4096_bytes() {
    let mut buffer = Buffer::new();
    let chunk = vec![b'a'; 4095];
    assert_eq!(buffer.fill(&chunk), Ok(()));
    assert!(matches!(buffer.read_line(), ReadLine::NeedMore));
    assert_eq!(buffer.fill(b"bc"), Err(FillError::Overflow));
    assert_eq!(buffer.bytes().len(), 4095);
    assert_eq!(buffer.fill(b"b"), Ok(()));
    assert!(matches!(buffer.read_line(), ReadLine::Full));
    assert_eq!(buffer.room(), 0);
    assert_eq!(buffer.fill(b"c"), Err(FillError::Overflow));
}

#[test]
fn buffer_reports_lines_that_are_not_utf8() {
    let mut buffer = Buffer::new();
    assert_eq!(buffer.fill(&[0xff, b'\n', b'o', b'k', b'\n']), Ok(()));
    assert!(matches!(buffer.read_line(), ReadLine::NotUtf8));
    assert_eq!(line(buffer.read_line()), Some("ok".to_string()));
}

#[test]
fn test_sp() {
    let line1 = "key:value";
    let (k1, v1) = sp(line1);
    assert_eq!(k1, "key");
    assert_eq!(v1, "value");
    let line2 = "key: value ";
    let (k2, v2) = sp(line2);
    assert_eq!(k2, "key");
    assert_eq!(v2, "value");
    let line3 = "key";
    let (k3, v3) = sp(line3);
    assert_eq!(k3, "key");
    assert_eq!(v3, "");
}

#[test]
fn sp_splits_at_the_first_colon_only() {
    assert_eq!(sp("Host: example.com:8080"), ("Host".to_string(), "example.com:8080".to_string()));
    assert_eq!(sp(":"), ("".to_string(), "".to_string()));
    assert_eq!(sp(" a :\t b\u{a0}"), (" a ".to_string(), "b".to_string()));
    assert_eq!(sp(""), ("".to_string(), "".to_string()));
}

fn host(s: Sniff) -> Option<String> {
    match s {
        Sniff::Host(h) => Some(h),
        _ => None,
    }
}

#[test]
fn host_header_is_found_and_bytes_are_kept() {
    let request = b"GET / HTTP/1.1\r\nHost: example.com\r\n\r\n";
    let mut sniffer = HostSniffer::new();
    assert!(matches!(sniffer.advance(), Sniff::NeedMore));
    assert_eq!(sniffer.fill(request), Ok(()));
    assert_eq!(host(sniffer.advance()), Some("example.com".to_string()));
    assert_eq!(sniffer.bytes(), &request[..]);
}

#[test]
fn host_header_is_found_across_reads() {
    let mut sniffer = HostSniffer::new();
    assert_eq!(sniffer.fill(b"POST /x HTTP/1.1\r\nAccept: */*\r\nHo"), Ok(()));
    assert!(matches!(sniffer.advance(), Sniff::NeedMore));
    assert_eq!(sniffer.fill(b"st:  example.org:8080 \r"), Ok(()));
    assert!(matches!(sniffer.advance(), Sniff::NeedMore));
    assert_eq!(sniffer.fill(b"\nrest"), Ok(()));
    assert_eq!(host(sniffer.advance()), Some("example.org:8080".to_string()));
    assert_eq!(sniffer.bytes(), &b"POST /x HTTP/1.1\r\nAccept: */*\r\nHost:  example.org:8080 \r\nrest"[..]);
}

#[test]
fn request_line_is_never_taken_for_the_header() {
    let mut sniffer = HostSniffer::new();
    assert_eq!(sniffer.fill(b"Host: first.example\r\nhost: lower.example\r\nHost: second.example\r\n"), Ok(()));
    assert_eq!(host(sniffer.advance()), Some("second.example".to_string()));
}

#[test]
fn request_without_host_header_fails() {
    let mut sniffer = HostSniffer::new();
    assert_eq!(sniffer.fill(b"GET / HTTP/1.0\r\n\r\n"), Ok(()));
    assert!(matches!(sniffer.advance(), Sniff::NeedMore));
    assert_eq!(sniffer.fill(&[]), Err(FillError::Closed));
    let mut sniffer = HostSniffer::new();
    let room = sniffer.room();
    assert_eq!(room, 4096);
    assert_eq!(sniffer.fill(&vec![b'x'; room]), Ok(()));
    assert!(matches!(sniffer.advance(), Sniff::Failed(SniffError::TooLong)));
    let mut sniffer = HostSniffer::new();
    assert_eq!(sniffer.fill(b"GET / HTTP/1.1\r\n\xff\xff\r\nHost: a.b\r\n"), Ok(()));
    assert!(matches!(sniffer.advance(), Sniff::Failed(SniffError::NotUtf8)));
}
