use std::collections::VecDeque;

use h1_encode::chunk::frame_chunk;
use h1_encode::digits::{push_dec, push_hex};
use h1_encode::encoder::{Encoder, Next, Pull};
use h1_encode::head::{serialize_head, HeaderEntry, ResponseHead};

const DATE: &[u8] = b"Tue, 15 Nov 1994 08:12:31 GMT";

/// One answer of a scripted body source.
enum Event {
    Data(Vec<u8>),
    Pending,
}

/// A body source that answers from a script; once the script is spent it
/// reports end-of-data.
struct Source {
    script: VecDeque<Event>,
    reads: usize,
}

impl Source {
    fn new(script: Vec<Event>) -> Source {
        Source { script: script.into_iter().collect(), reads: 0 }
    }

    /// `None` when the source is not ready.
    fn read(&mut self, max: usize) -> Option<Vec<u8>> {
        self.reads += 1;
        match self.script.pop_front() {
            None => Some(Vec::new()),
            Some(Event::Pending) => None,
            Some(Event::Data(mut d)) => {
                if d.len() > max {
                    let rest = d.split_off(max);
                    self.script.push_front(Event::Data(rest));
                }
                Some(d)
            }
        }
    }
}

/// One pull into a destination of `cap` bytes.
fn pull(enc: &mut Encoder, src: &mut Source, cap: usize) -> (Pull, Vec<u8>) {
    let mut out: Vec<u8> = Vec::new();
    let mut next = enc.resume(&mut out, cap);
    loop {
        match next {
            Next::Return(n) => return (Pull::Ready(n), out),
            Next::Read(n) => match src.read(n) {
                Some(data) => next = enc.supply(&data, &mut out, cap),
                None => {
                    let r = Encoder::on_source_pending(out.len());
                    return (r, out);
                }
            },
        }
    }
}

/// Pulls until a pull reports zero bytes, retrying suspended pulls.
fn drain(enc: &mut Encoder, src: &mut Source, cap: usize) -> Vec<u8> {
    let mut all = Vec::new();
    for _ in 0..100_000 {
        let (r, out) = pull(enc, src, cap);
        match r {
            Pull::Ready(0) => return all,
            Pull::Ready(n) => {
                assert!(n <= cap);
                assert_eq!(n, out.len());
                all.extend_from_slice(&out);
            }
            Pull::Pending => assert!(out.is_empty()),
        }
    }
    panic!("the encoder never finished");
}

fn head(len: Option<usize>, headers: Vec<HeaderEntry>) -> ResponseHead {
    ResponseHead { status: 200, reason: b"OK".to_vec(), len, headers }
}

fn encode(len: Option<usize>, script: Vec<Event>, cap: usize) -> Vec<u8> {
    let mut enc = Encoder::encode(head(len, Vec::new()), DATE.to_vec());
    let mut src = Source::new(script);
    drain(&mut enc, &mut src, cap)
}

fn data(s: &[u8]) -> Event {
    Event::Data(s.to_vec())
}

fn fixed_head(len: usize) -> Vec<u8> {
    format!("HTTP/1.1 200 OK\r\ncontent-length: {}\r\ndate: {}\r\n\r\n", len, String::from_utf8_lossy(DATE))
        .into_bytes()
}

fn chunked_head() -> Vec<u8> {
    format!("HTTP/1.1 200 OK\r\ntransfer-encoding: chunked\r\ndate: {}\r\n\r\n", String::from_utf8_lossy(DATE))
        .into_bytes()
}

/// A plain chunked decoder: the payloads, the empty last one included.
fn decode_chunked(mut s: &[u8]) -> Vec<Vec<u8>> {
    let mut groups = Vec::new();
    loop {
        let line_end = s.windows(2).position(|w| w == b"\r\n").expect("size line");
        let size = usize::from_str_radix(std::str::from_utf8(&s[..line_end]).unwrap(), 16).unwrap();
        let body = &s[line_end + 2..];
        assert_eq!(&body[size..size + 2], b"\r\n");
        groups.push(body[..size].to_vec());
        s = &body[size + 2..];
        if size == 0 {
            assert!(s.is_empty());
            return groups;
        }
    }
}

#[test]
fn known_length_single_read() {
    let out = encode(Some(5), vec![data(b"hello")], 4096);
    let mut expected = fixed_head(5);
    expected.extend_from_slice(b"hello");
    assert_eq!(out, expected);
    assert_eq!(
        out,
        b"HTTP/1.1 200 OK\r\ncontent-length: 5\r\ndate: Tue, 15 Nov 1994 08:12:31 GMT\r\n\r\nhello".to_vec()
    );
}

#[test]
fn chunked_body_section() {
    let out = encode(None, vec![data(b"foo")], 4096);
    let h = chunked_head();
    assert_eq!(&out[..h.len()], &h[..]);
    assert_eq!(&out[h.len()..], b"3\r\nfoo\r\n0\r\n\r\n");
}

#[test]
fn known_length_small_destination() {
    let out = encode(Some(5), vec![data(b"hello")], 10);
    let mut expected = fixed_head(5);
    expected.extend_from_slice(b"hello");
    assert_eq!(out, expected);
}

#[test]
fn small_destination_needs_several_pulls() {
    let mut enc = Encoder::encode(head(Some(5), Vec::new()), DATE.to_vec());
    let mut src = Source::new(vec![data(b"hello")]);
    let (r, out) = pull(&mut enc, &mut src, 10);
    assert!(matches!(r, Pull::Ready(10)));
    assert_eq!(out, b"HTTP/1.1 2".to_vec());
}

#[test]
fn short_body_finishes() {
    let mut enc = Encoder::encode(head(Some(10), Vec::new()), DATE.to_vec());
    let mut src = Source::new(vec![data(b"abcd")]);
    let out = drain(&mut enc, &mut src, 4096);
    let mut expected = fixed_head(10);
    expected.extend_from_slice(b"abcd");
    assert_eq!(out, expected);
    let (r, out) = pull(&mut enc, &mut src, 4096);
    assert!(matches!(r, Pull::Ready(0)));
    assert!(out.is_empty());
}

#[test]
fn known_length_caps_the_body() {
    let out = encode(Some(3), vec![data(b"abcdef")], 4096);
    let mut expected = fixed_head(3);
    expected.extend_from_slice(b"abc");
    assert_eq!(out, expected);
}

#[test]
fn zero_length_body() {
    let out = encode(Some(0), vec![data(b"ignored")], 4096);
    assert_eq!(out, fixed_head(0));
}

#[test]
fn known_length_never_chunks() {
    let out = encode(Some(6), vec![data(b"ab"), data(b"cd"), data(b"ef")], 4096);
    let text = String::from_utf8(out.clone()).unwrap();
    assert!(text.contains("content-length: 6\r\n"));
    assert!(!text.contains("transfer-encoding"));
    assert!(out.ends_with(b"\r\n\r\nabcdef"));
}

#[test]
fn unknown_length_declares_chunked() {
    let out = encode(None, vec![data(b"ab")], 4096);
    let text = String::from_utf8(out).unwrap();
    assert!(text.contains("transfer-encoding: chunked\r\n"));
    assert!(!text.contains("content-length"));
}

#[test]
fn chunk_round_trip_with_many_groups() {
    let groups: Vec<&[u8]> = vec![b"a", b"hello world", &[7u8; 300], b"xyz"];
    let script = groups.iter().map(|g| data(g)).collect();
    let out = encode(None, script, 65536);
    let h = chunked_head();
    let decoded = decode_chunked(&out[h.len()..]);
    let mut expected: Vec<Vec<u8>> = groups.iter().map(|g| g.to_vec()).collect();
    expected.push(Vec::new());
    assert_eq!(decoded, expected);
}

#[test]
fn chunk_size_is_uppercase_hex() {
    let out = encode(None, vec![Event::Data(vec![b'x'; 255])], 65536);
    let h = chunked_head();
    assert!(out[h.len()..].starts_with(b"FF\r\n"));
}

#[test]
fn buffer_size_independence() {
    for len in [Some(11), None] {
        let mut results = Vec::new();
        for cap in [1usize, 2, 7, 4096, 1 << 20] {
            let script = vec![data(b"hel"), Event::Pending, data(b"lo wo"), data(b"rld")];
            let mut enc = Encoder::encode(head(len, Vec::new()), DATE.to_vec());
            let mut src = Source::new(script);
            results.push((cap, drain(&mut enc, &mut src, cap)));
        }
        let h = if len.is_some() { fixed_head(11) } else { chunked_head() };
        for (cap, out) in &results {
            assert_eq!(&out[..h.len()], &h[..], "head differs at size {}", cap);
            let body = &out[h.len()..];
            if len.is_some() {
                assert_eq!(body, b"hello world", "body differs at size {}", cap);
            } else {
                let joined: Vec<u8> = decode_chunked(body).concat();
                assert_eq!(joined, b"hello world".to_vec(), "body differs at size {}", cap);
            }
        }
        if len.is_some() {
            for w in results.windows(2) {
                assert_eq!(w[0].1, w[1].1);
            }
        }
    }
}

#[test]
fn chunked_output_independent_of_large_sizes() {
    let sizes = [64usize, 4096, 1 << 20];
    let outs: Vec<Vec<u8>> = sizes
        .iter()
        .map(|&cap| encode(None, vec![data(b"abc"), data(b"defg")], cap))
        .collect();
    assert_eq!(outs[0], outs[1]);
    assert_eq!(outs[1], outs[2]);
}

#[test]
fn done_is_idempotent() {
    let mut enc = Encoder::encode(head(None, Vec::new()), DATE.to_vec());
    let mut src = Source::new(vec![data(b"x")]);
    drain(&mut enc, &mut src, 4096);
    let before = src.reads;
    for _ in 0..3 {
        let (r, out) = pull(&mut enc, &mut src, 4096);
        assert!(matches!(r, Pull::Ready(0)));
        assert!(out.is_empty());
    }
    assert_eq!(src.reads, before);
}

#[test]
fn suspend_with_nothing_written() {
    let mut enc = Encoder::encode(head(Some(5), Vec::new()), DATE.to_vec());
    let mut src = Source::new(vec![Event::Pending, data(b"hello")]);
    let h = fixed_head(5);
    let (r, out) = pull(&mut enc, &mut src, h.len());
    assert!(matches!(r, Pull::Ready(n) if n == h.len()));
    assert_eq!(out, h);
    let (r, out) = pull(&mut enc, &mut src, 4096);
    assert!(matches!(r, Pull::Pending));
    assert!(out.is_empty());
    let (r, out) = pull(&mut enc, &mut src, 4096);
    assert!(matches!(r, Pull::Ready(5)));
    assert_eq!(out, b"hello".to_vec());
}

#[test]
fn suspend_after_partial_progress() {
    let mut enc = Encoder::encode(head(Some(10), Vec::new()), DATE.to_vec());
    let mut src = Source::new(vec![data(b"abc"), Event::Pending, data(b"defghij")]);
    let h = fixed_head(10);
    let (r, out) = pull(&mut enc, &mut src, 4096);
    let expected_len = h.len() + 3;
    assert!(matches!(r, Pull::Ready(n) if n == expected_len));
    assert!(out.ends_with(b"abc"));
}

#[test]
fn pending_outcome() {
    assert!(matches!(Encoder::on_source_pending(0), Pull::Pending));
    assert!(matches!(Encoder::on_source_pending(7), Pull::Ready(7)));
}

#[test]
fn staged_chunk_straddles_pulls() {
    let mut enc = Encoder::encode(head(None, Vec::new()), DATE.to_vec());
    let mut src = Source::new(vec![data(b"0123456789")]);
    let h = chunked_head();
    let (_, first) = pull(&mut enc, &mut src, h.len() + 6);
    assert_eq!(&first[..h.len()], &h[..]);
    assert_eq!(&first[h.len()..], b"6\r\n012");
    let rest = drain(&mut enc, &mut src, 6);
    let mut all = first.clone();
    all.extend_from_slice(&rest);
    let groups = decode_chunked(&all[h.len()..]);
    assert_eq!(groups.concat(), b"0123456789".to_vec());
    assert_eq!(groups.last().unwrap(), &Vec::<u8>::new());
}

#[test]
fn headers_in_order_with_repeated_values() {
    let headers = vec![
        HeaderEntry { name: b"x-one".to_vec(), values: vec![b"1".to_vec()] },
        HeaderEntry { name: b"set-cookie".to_vec(), values: vec![b"a=1".to_vec(), b"b=2".to_vec()] },
    ];
    let res = ResponseHead { status: 404, reason: b"Not Found".to_vec(), len: Some(0), headers };
    let bytes = serialize_head(&res, &DATE.to_vec());
    let expected = format!(
        "HTTP/1.1 404 Not Found\r\ncontent-length: 0\r\ndate: {}\r\nx-one: 1\r\nset-cookie: a=1\r\nset-cookie: b=2\r\n\r\n",
        String::from_utf8_lossy(DATE)
    );
    assert_eq!(bytes, expected.into_bytes());
}

#[test]
fn canonical_reason_from_status() {
    let ok = ResponseHead::new(200, Some(1), Vec::new()).unwrap();
    assert_eq!(ok.reason, b"OK".to_vec());
    assert_eq!(ok.status, 200);
    let nf = ResponseHead::new(404, None, Vec::new()).unwrap();
    assert_eq!(nf.reason, b"Not Found".to_vec());
    assert!(ResponseHead::new(999, None, Vec::new()).is_none());
}

#[test]
fn decimal_and_hex_digits() {
    let mut v = Vec::new();
    push_dec(&mut v, 0);
    push_dec(&mut v, 1234567);
    assert_eq!(v, b"01234567".to_vec());
    let mut h = Vec::new();
    push_hex(&mut h, 0);
    h.push(b' ');
    push_hex(&mut h, 0xABCDEF);
    h.push(b' ');
    push_hex(&mut h, usize::MAX);
    assert_eq!(h, format!("0 ABCDEF {:X}", usize::MAX).into_bytes());
}

#[test]
fn single_chunk_frame() {
    assert_eq!(frame_chunk(b"foo"), b"3\r\nfoo\r\n".to_vec());
    assert_eq!(frame_chunk(b""), b"0\r\n\r\n".to_vec());
    assert_eq!(frame_chunk(&[1u8; 26]), [b"1A\r\n".to_vec(), vec![1u8; 26], b"\r\n".to_vec()].concat());
}
