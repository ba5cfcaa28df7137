//! The response head: status line, framing header, date and the caller's
//! headers, serialized once per response.
use vstd::prelude::*;
use crate::bytes::{append, crlf, push_crlf};
use crate::digits::{dec_of, push_dec};

verus! {

/// One header name with its values, in the order they are sent.
pub struct HeaderEntry {
    pub name: Vec<u8>,
    pub values: Vec<Vec<u8>>,
}

/// What the encoder needs to know of a response before its body: the status
/// code with its reason phrase, the body length when it is known up front,
/// and the headers in iteration order.
pub struct ResponseHead {
    pub status: u16,
    pub reason: Vec<u8>,
    pub len: Option<usize>,
    pub headers: Vec<HeaderEntry>,
}

/// The status codes that http-types knows, and so can give a reason for.
pub open spec fn is_known_status(code: u16) -> bool {
    ||| code == 100 || code == 101 || code == 103
    ||| code == 200 || code == 201 || code == 202 || code == 203 || code == 204 || code == 205 ||
        code == 206 || code == 207 || code == 226
    ||| code == 300 || code == 301 || code == 302 || code == 303 || code == 304 || code == 307 ||
        code == 308
    ||| code == 400 || code == 401 || code == 402 || code == 403 || code == 404 || code == 405 ||
        code == 406 || code == 407 || code == 408 || code == 409 || code == 410 || code == 411 ||
        code == 412 || code == 413 || code == 414 || code == 415 || code == 416 || code == 417 ||
        code == 418 || code == 421 || code == 422 || code == 423 || code == 424 || code == 425 ||
        code == 426 || code == 428 || code == 429 || code == 431 || code == 451
    ||| code == 500 || code == 501 || code == 502 || code == 503 || code == 504 || code == 505 ||
        code == 506 || code == 507 || code == 508 || code == 510 || code == 511
}

/// The canonical reason phrase of a status code, as http-types names it.
pub uninterp spec fn reason_of(code: u16) -> Seq<u8>;

/// Relies on http_types::StatusCode: `try_from` accepts exactly the codes the
/// crate knows, and `canonical_reason` returns the fixed phrase of each.
#[verifier::external_body]
fn canonical_reason(code: u16) -> (r: Option<Vec<u8>>)
    ensures
        r is Some <==> is_known_status(code),
        r matches Some(p) ==> p@ == reason_of(code),
{
    match http_types::StatusCode::try_from(code) {
        Ok(s) => Some(s.canonical_reason().as_bytes().to_vec()),
        Err(_) => None,
    }
}

impl ResponseHead {
    /// A head for `status` with its canonical reason phrase; `None` when the
    /// status code is not one that http-types knows.
    pub fn new(status: u16, len: Option<usize>, headers: Vec<HeaderEntry>) -> (r: Option<
        ResponseHead,
    >)
        ensures
            r is Some <==> is_known_status(status),
            r matches Some(h) ==> h.status == status && h.reason@ == reason_of(status) && h.len
                == len && h.headers == headers,
    {
        match canonical_reason(status) {
            Some(reason) => Some(ResponseHead { status, reason, len, headers }),
            None => None,
        }
    }
}

/// `HTTP/1.1 `
pub open spec fn version_prefix() -> Seq<u8> {
    seq![72u8, 84, 84, 80, 47, 49, 46, 49, 32]
}

/// `content-length: `
pub open spec fn content_length_prefix() -> Seq<u8> {
    seq![99u8, 111, 110, 116, 101, 110, 116, 45, 108, 101, 110, 103, 116, 104, 58, 32]
}

/// `transfer-encoding: chunked` and its line end.
pub open spec fn chunked_line() -> Seq<u8> {
    seq![
        116u8, 114, 97, 110, 115, 102, 101, 114, 45, 101, 110, 99, 111, 100, 105, 110, 103, 58, 32,
        99, 104, 117, 110, 107, 101, 100, 13, 10,
    ]
}

/// `date: `
pub open spec fn date_prefix() -> Seq<u8> {
    seq![100u8, 97, 116, 101, 58, 32]
}

/// The separator between a header name and its value.
pub open spec fn colon_space() -> Seq<u8> {
    seq![58u8, 32]
}

/// `HTTP/1.1 <code> <reason>` and its line end.
pub open spec fn status_line(status: u16, reason: Seq<u8>) -> Seq<u8> {
    version_prefix() + dec_of(status as nat) + seq![32u8] + reason + crlf()
}

/// The line that says how the body is framed: its length when known,
/// chunked transfer coding otherwise.
pub open spec fn framing_line(len: Option<usize>) -> Seq<u8> {
    match len {
        Some(n) => content_length_prefix() + dec_of(n as nat) + crlf(),
        None => chunked_line(),
    }
}

/// `date: <date>` and its line end.
pub open spec fn date_line(date: Seq<u8>) -> Seq<u8> {
    date_prefix() + date + crlf()
}

/// One `<name>: <value>` line per value, in order.
pub open spec fn value_lines(name: Seq<u8>, values: Seq<Vec<u8>>) -> Seq<u8>
    decreases values.len(),
{
    if values.len() == 0 {
        Seq::empty()
    } else {
        value_lines(name, values.drop_last()) + name + colon_space() + values.last()@ + crlf()
    }
}

/// The lines of all headers, in order.
pub open spec fn header_lines(headers: Seq<HeaderEntry>) -> Seq<u8>
    decreases headers.len(),
{
    if headers.len() == 0 {
        Seq::empty()
    } else {
        header_lines(headers.drop_last()) + value_lines(
            headers.last().name@,
            headers.last().values@,
        )
    }
}

/// The whole head of a response sent on `date`, blank line included.
#[verifier::opaque]
pub open spec fn head_bytes(res: ResponseHead, date: Seq<u8>) -> Seq<u8> {
    status_line(res.status, res.reason@) + framing_line(res.len) + date_line(date) + header_lines(
        res.headers@,
    ) + crlf()
}

/// A head is never empty: it starts with the status line.
pub proof fn lemma_head_nonempty(res: ResponseHead, date: Seq<u8>)
    ensures
        head_bytes(res, date).len() > 0,
{
    reveal(head_bytes);
}

/// The head's second line is its framing line, right after the status line.
pub proof fn lemma_framing_line_in_head(res: ResponseHead, date: Seq<u8>)
    ensures
        ({
            let at = status_line(res.status, res.reason@).len() as int;
            let f = framing_line(res.len);
            head_bytes(res, date).subrange(at, at + f.len()) == f
        }),
{
    reveal(head_bytes);
    let at = status_line(res.status, res.reason@).len() as int;
    let f = framing_line(res.len);
    let rest = date_line(date) + header_lines(res.headers@) + crlf();
    assert(head_bytes(res, date) =~= status_line(res.status, res.reason@) + f + rest);
    assert(head_bytes(res, date).subrange(at, at + f.len()) =~= f);
}

/// Serializes the head of `res`, with `date` as the value of its date header.
pub fn serialize_head(res: &ResponseHead, date: &Vec<u8>) -> (r: Vec<u8>)
    ensures
        r@ == head_bytes(*res, date@),
{
    let mut out: Vec<u8> = vec![72u8, 84, 84, 80, 47, 49, 46, 49, 32];
    push_dec(&mut out, res.status as usize);
    out.push(32u8);
    append(&mut out, res.reason.as_slice());
    push_crlf(&mut out);
    assert(out@ =~= status_line(res.status, res.reason@));
    let ghost before_framing = out@;
    match res.len {
        Some(n) => {
            let lit: Vec<u8> = vec![
                99u8, 111, 110, 116, 101, 110, 116, 45, 108, 101, 110, 103, 116, 104, 58, 32,
            ];
            append(&mut out, lit.as_slice());
            push_dec(&mut out, n);
            push_crlf(&mut out);
        },
        None => {
            let lit: Vec<u8> = vec![
                116u8, 114, 97, 110, 115, 102, 101, 114, 45, 101, 110, 99, 111, 100, 105, 110, 103,
                58, 32, 99, 104, 117, 110, 107, 101, 100, 13, 10,
            ];
            append(&mut out, lit.as_slice());
        },
    }
    assert(out@ =~= before_framing + framing_line(res.len));
    let ghost before_date = out@;
    let lit: Vec<u8> = vec![100u8, 97, 116, 101, 58, 32];
    append(&mut out, lit.as_slice());
    append(&mut out, date.as_slice());
    push_crlf(&mut out);
    assert(out@ =~= before_date + date_line(date@));
    let ghost before_headers = out@;
    let mut i: usize = 0;
    while i < res.headers.len()
        invariant
            i <= res.headers@.len(),
            out@ == before_headers + header_lines(res.headers@.take(i as int)),
        decreases res.headers@.len() - i,
    {
        let entry = &res.headers[i];
        let ghost before_entry = out@;
        let mut j: usize = 0;
        while j < entry.values.len()
            invariant
                j <= entry.values@.len(),
                out@ == before_entry + value_lines(entry.name@, entry.values@.take(j as int)),
            decreases entry.values@.len() - j,
        {
            let ghost before_value = out@;
            append(&mut out, entry.name.as_slice());
            out.push(58u8);
            out.push(32u8);
            append(&mut out, entry.values[j].as_slice());
            push_crlf(&mut out);
            assert(entry.values@.take(j + 1).drop_last() =~= entry.values@.take(j as int));
            assert(out@ =~= before_value + entry.name@ + colon_space() + entry.values@[j as int]@
                + crlf());
            j = j + 1;
        }
        assert(entry.values@.take(j as int) =~= entry.values@);
        assert(res.headers@.take(i + 1).drop_last() =~= res.headers@.take(i as int));
        i = i + 1;
    }
    assert(res.headers@.take(i as int) =~= res.headers@);
    push_crlf(&mut out);
    reveal(head_bytes);
    assert(out@ =~= head_bytes(*res, date@));
    out
}

} // verus!
