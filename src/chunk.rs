//! Chunked transfer coding: framing one chunk, and what a stream of frames
//! decodes to.
use vstd::prelude::*;
use crate::bytes::{append, crlf, push_crlf};
use crate::digits::{digit_byte, digits, hex_of, push_hex};

verus! {

/// One chunk on the wire: its length in uppercase hex, a line end, the
/// payload and another line end. An empty payload gives the last chunk.
pub open spec fn chunk_frame(payload: Seq<u8>) -> Seq<u8> {
    hex_of(payload.len()) + crlf() + payload + crlf()
}

/// The frames of `groups`, in order.
pub open spec fn chunk_frames(groups: Seq<Seq<u8>>) -> Seq<u8>
    decreases groups.len(),
{
    if groups.len() == 0 {
        Seq::empty()
    } else {
        chunk_frames(groups.drop_last()) + chunk_frame(groups.last())
    }
}

/// Frames `payload` as one chunk.
pub fn frame_chunk(payload: &[u8]) -> (r: Vec<u8>)
    ensures
        r@ == chunk_frame(payload@),
{
    let mut out: Vec<u8> = Vec::new();
    push_hex(&mut out, payload.len());
    push_crlf(&mut out);
    append(&mut out, payload);
    push_crlf(&mut out);
    assert(out@ =~= chunk_frame(payload@));
    out
}

/// Whether `b` is a hexadecimal digit, in either case.
pub open spec fn is_hex_digit(b: u8) -> bool {
    (48 <= b <= 57) || (65 <= b <= 70) || (97 <= b <= 102)
}

/// The value of hexadecimal digit `b`.
pub open spec fn hex_digit_value(b: u8) -> nat {
    if b <= 57 {
        (b - 48) as nat
    } else if b <= 70 {
        (b - 55) as nat
    } else {
        (b - 87) as nat
    }
}

/// How many hexadecimal digits `s` starts with.
pub open spec fn hex_run(s: Seq<u8>) -> nat
    decreases s.len(),
{
    if s.len() > 0 && is_hex_digit(s[0]) {
        1 + hex_run(s.drop_first())
    } else {
        0
    }
}

/// The number that the hexadecimal digits `s` spell, most significant first.
pub open spec fn hex_value(s: Seq<u8>) -> nat
    decreases s.len(),
{
    if s.len() == 0 {
        0
    } else {
        hex_value(s.drop_last()) * 16 + hex_digit_value(s.last())
    }
}

/// Decodes a chunked body: each chunk is a hexadecimal size, a line end,
/// that many bytes and a line end, and the body ends with the first chunk of
/// size zero, after which nothing may follow. Gives the payloads in order,
/// the empty last one included, or `None` for a malformed body.
pub open spec fn decode_chunked(s: Seq<u8>) -> Option<Seq<Seq<u8>>>
    decreases s.len(),
{
    let k = hex_run(s) as int;
    let n = hex_value(s.take(k)) as int;
    if k == 0 || s.len() < k + n + 4 {
        None
    } else if s.subrange(k, k + 2) != crlf() || s.subrange(k + 2 + n, k + n + 4) != crlf() {
        None
    } else if n == 0 {
        if s.len() == k + 4 {
            Some(seq![Seq::empty()])
        } else {
            None
        }
    } else {
        match decode_chunked(s.skip(k + n + 4)) {
            Some(rest) => Some(seq![s.subrange(k + 2, k + 2 + n)] + rest),
            None => None,
        }
    }
}

proof fn lemma_hex_digits(n: nat)
    ensures
        hex_of(n).len() > 0,
        forall|i: int| 0 <= i < hex_of(n).len() ==> is_hex_digit(#[trigger] hex_of(n)[i]),
        hex_value(hex_of(n)) == n,
    decreases n,
{
    if n < 16 {
        assert(hex_of(n) == seq![digit_byte(n)]);
        assert(seq![digit_byte(n)].drop_last() =~= Seq::<u8>::empty());
        assert(hex_digit_value(digit_byte(n)) == n);
        assert(hex_value(hex_of(n)) == hex_value(Seq::<u8>::empty()) * 16 + hex_digit_value(
            digit_byte(n),
        ));
    } else {
        lemma_hex_digits(n / 16);
        let p = hex_of(n / 16);
        assert(hex_of(n) == p.push(digit_byte(n % 16)));
        assert(p.push(digit_byte(n % 16)).drop_last() =~= p);
        assert forall|i: int| 0 <= i < hex_of(n).len() implies is_hex_digit(
            #[trigger] hex_of(n)[i],
        ) by {
            if i < p.len() {
                assert(hex_of(n)[i] == p[i]);
            }
        }
        assert(hex_digit_value(digit_byte(n % 16)) == n % 16);
        assert(hex_value(hex_of(n)) == hex_value(p) * 16 + hex_digit_value(digit_byte(n % 16)));
        assert(n == (n / 16) * 16 + n % 16) by (nonlinear_arith);
    }
}

proof fn lemma_hex_run(p: Seq<u8>, q: Seq<u8>)
    requires
        forall|i: int| 0 <= i < p.len() ==> is_hex_digit(#[trigger] p[i]),
        q.len() > 0,
        !is_hex_digit(q[0]),
    ensures
        hex_run(p + q) == p.len(),
    decreases p.len(),
{
    if p.len() == 0 {
        assert(p + q =~= q);
    } else {
        assert((p + q).drop_first() =~= p.drop_first() + q);
        assert forall|i: int| 0 <= i < p.drop_first().len() implies is_hex_digit(
            #[trigger] p.drop_first()[i],
        ) by {
            assert(p.drop_first()[i] == p[i + 1]);
        }
        lemma_hex_run(p.drop_first(), q);
    }
}

proof fn lemma_frames_cons(a: Seq<u8>, rest: Seq<Seq<u8>>)
    ensures
        chunk_frames(seq![a] + rest) == chunk_frame(a) + chunk_frames(rest),
    decreases rest.len(),
{
    if rest.len() == 0 {
        assert(seq![a] + rest =~= seq![a]);
        assert(seq![a].drop_last() =~= Seq::<Seq<u8>>::empty());
        assert(chunk_frame(a) + chunk_frames(rest) =~= chunk_frame(a));
        assert(chunk_frames(seq![a]) == chunk_frames(Seq::<Seq<u8>>::empty()) + chunk_frame(a));
        assert(chunk_frames(Seq::<Seq<u8>>::empty()) + chunk_frame(a) =~= chunk_frame(a));
    } else {
        assert((seq![a] + rest).drop_last() =~= seq![a] + rest.drop_last());
        lemma_frames_cons(a, rest.drop_last());
        assert((seq![a] + rest).last() == rest.last());
        assert(chunk_frames(rest) == chunk_frames(rest.drop_last()) + chunk_frame(rest.last()));
        assert(chunk_frames(seq![a] + rest) == chunk_frames(seq![a] + rest.drop_last())
            + chunk_frame(rest.last()));
        assert(chunk_frames(seq![a] + rest) =~= chunk_frame(a) + chunk_frames(rest));
    }
}

proof fn lemma_decode_frame(a: Seq<u8>, t: Seq<u8>)
    ensures
        ({
            let s = chunk_frame(a) + t;
            let k = hex_of(a.len()).len() as int;
            let m = a.len() as int;
            &&& hex_run(s) == k
            &&& hex_value(s.take(k)) == m
            &&& s.len() == k + m + 4 + t.len()
            &&& s.subrange(k, k + 2) == crlf()
            &&& s.subrange(k + 2 + m, k + m + 4) == crlf()
            &&& s.subrange(k + 2, k + 2 + m) == a
            &&& s.skip(k + m + 4) == t
        }),
{
    let h = hex_of(a.len());
    let s = chunk_frame(a) + t;
    let k = h.len() as int;
    let m = a.len() as int;
    lemma_hex_digits(a.len());
    assert(s =~= h + (crlf() + a + crlf() + t));
    lemma_hex_run(h, crlf() + a + crlf() + t);
    assert(s.take(k) =~= h);
    assert(s.subrange(k, k + 2) =~= crlf());
    assert(s.subrange(k + 2 + m, k + m + 4) =~= crlf());
    assert(s.subrange(k + 2, k + 2 + m) =~= a);
    assert(s.skip(k + m + 4) =~= t);
}

/// Decoding the frames of a body's payloads gives the payloads back, when
/// only the last of them is empty.
pub proof fn lemma_chunk_round_trip(groups: Seq<Seq<u8>>)
    requires
        groups.len() > 0,
        groups.last().len() == 0,
        forall|i: int| 0 <= i < groups.len() - 1 ==> #[trigger] groups[i].len() > 0,
    ensures
        decode_chunked(chunk_frames(groups)) == Some(groups),
    decreases groups.len(),
{
    let a = groups[0];
    let rest = groups.drop_first();
    assert(groups =~= seq![a] + rest);
    lemma_frames_cons(a, rest);
    lemma_decode_frame(a, chunk_frames(rest));
    if groups.len() == 1 {
        assert(chunk_frames(rest) =~= Seq::<u8>::empty());
        assert(a.len() == 0);
        assert(a =~= Seq::<u8>::empty());
    } else {
        assert(a.len() > 0);
        assert forall|i: int| 0 <= i < rest.len() - 1 implies #[trigger] rest[i].len() > 0 by {
            assert(rest[i] == groups[i + 1]);
        }
        lemma_chunk_round_trip(rest);
        assert(groups =~= seq![a] + rest);
    }
}

} // verus!
