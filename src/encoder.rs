//! The pull-driven encoder state machine.
//!
//! A pull starts with [`Encoder::resume`]. Whenever it answers
//! [`Next::Read`], the driver asks the body source for up to that many bytes
//! and hands them over with [`Encoder::supply`]; if the source has nothing
//! yet, [`Encoder::on_source_pending`] says what the pull reports. A pull ends
//! when either answers [`Next::Return`].
use vstd::prelude::*;
use crate::bytes::{append, append_range, joined};
use crate::chunk::{chunk_frame, chunk_frames, decode_chunked, frame_chunk, lemma_chunk_round_trip};
use crate::head::{
    framing_line, head_bytes, lemma_framing_line_in_head, lemma_head_nonempty, serialize_head,
    status_line, ResponseHead,
};

verus! {

/// What the driver of a pull does next.
pub enum Next {
    /// Read at most this many bytes from the body source and supply them.
    Read(usize),
    /// The pull is over: this many bytes of the destination were filled.
    Return(usize),
}

/// What a pull reports to its caller when the body source is not ready.
pub enum Pull {
    /// The pull completes with this many bytes written.
    Ready(usize),
    /// The pull suspends; the caller tries again once the source is ready.
    Pending,
}

/// The phases of an encoder, as its contracts speak of them.
pub enum Phase {
    Start,
    Head,
    Body,
    ComputingChunk,
    EmittingChunk,
    Done,
}

enum EncoderState {
    Start,
    Head,
    Body,
    ComputingChunk,
    EmittingChunk { chunk: Vec<u8>, cursor: usize, last: bool },
    Done,
}

/// The body as it goes on the wire, given the groups of bytes the source
/// produced: raw when the length is known, chunk-framed otherwise.
pub open spec fn body_bytes(len: Option<usize>, reads: Seq<Seq<u8>>) -> Seq<u8> {
    match len {
        Some(_) => joined(reads),
        None => chunk_frames(reads),
    }
}

/// All the bytes owed for `res` sent on `date`, once the source has produced
/// `reads`.
pub open spec fn stream(res: ResponseHead, date: Seq<u8>, reads: Seq<Seq<u8>>) -> Seq<u8> {
    head_bytes(res, date) + body_bytes(res.len, reads)
}

/// Reads a source can have produced: only the last may be empty, and with a
/// known length they never exceed it.
pub open spec fn reads_ok(len: Option<usize>, reads: Seq<Seq<u8>>) -> bool {
    &&& forall|i: int| 0 <= i < reads.len() - 1 ==> #[trigger] reads[i].len() > 0
    &&& (len matches Some(n) ==> joined(reads).len() <= n)
}

/// The body is complete: the source has ended, or the known length is reached.
pub open spec fn finished(len: Option<usize>, reads: Seq<Seq<u8>>) -> bool {
    ||| (reads.len() > 0 && reads.last().len() == 0)
    ||| (len matches Some(n) && joined(reads).len() == n)
}

/// `new_out` extends `old_out`, and what was added extends the emitted stream.
pub open spec fn extends(
    old_out: Seq<u8>,
    new_out: Seq<u8>,
    old_emitted: Seq<u8>,
    new_emitted: Seq<u8>,
) -> bool {
    &&& old_out.len() <= new_out.len()
    &&& new_out.subrange(0, old_out.len() as int) == old_out
    &&& new_emitted == old_emitted + new_out.subrange(old_out.len() as int, new_out.len() as int)
}

proof fn extends_step(
    out0: Seq<u8>,
    out1: Seq<u8>,
    out2: Seq<u8>,
    e0: Seq<u8>,
    e1: Seq<u8>,
    e2: Seq<u8>,
    d: Seq<u8>,
)
    requires
        extends(out0, out1, e0, e1),
        out2 == out1 + d,
        e2 == e1 + d,
    ensures
        extends(out0, out2, e0, e2),
{
    assert(out2.subrange(0, out0.len() as int) =~= out0);
    assert(out1.subrange(out0.len() as int, out1.len() as int) + d =~= out2.subrange(
        out0.len() as int,
        out2.len() as int,
    ));
    assert(e2 =~= e0 + out2.subrange(out0.len() as int, out2.len() as int));
}

proof fn extends_trans(
    out0: Seq<u8>,
    out1: Seq<u8>,
    out2: Seq<u8>,
    e0: Seq<u8>,
    e1: Seq<u8>,
    e2: Seq<u8>,
)
    requires
        extends(out0, out1, e0, e1),
        extends(out1, out2, e1, e2),
    ensures
        extends(out0, out2, e0, e2),
{
    assert(out2.subrange(0, out0.len() as int) =~= out2.subrange(0, out1.len() as int).subrange(
        0,
        out0.len() as int,
    ));
    assert(out2.subrange(out0.len() as int, out2.len() as int) =~= out1.subrange(
        out0.len() as int,
        out1.len() as int,
    ) + out2.subrange(out1.len() as int, out2.len() as int));
    assert(e2 =~= e0 + out2.subrange(out0.len() as int, out2.len() as int));
}

proof fn extends_refl(out0: Seq<u8>, e0: Seq<u8>)
    ensures
        extends(out0, out0, e0, e0),
{
    assert(out0.subrange(0, out0.len() as int) =~= out0);
    assert(e0 + out0.subrange(out0.len() as int, out0.len() as int) =~= e0);
}

proof fn lemma_push_reads(reads: Seq<Seq<u8>>, d: Seq<u8>)
    ensures
        joined(reads.push(d)) == joined(reads) + d,
        chunk_frames(reads.push(d)) == chunk_frames(reads) + chunk_frame(d),
{
    assert(reads.push(d).drop_last() =~= reads);
}

/// A streaming encoder for one response.
pub struct Encoder {
    res: ResponseHead,
    date: Vec<u8>,
    state: EncoderState,
    head: Vec<u8>,
    head_cursor: usize,
    body_len: usize,
    body_emitted: usize,
    emitted: Ghost<Seq<u8>>,
    reads: Ghost<Seq<Seq<u8>>>,
}

impl Encoder {
    /// The response being encoded.
    pub closed spec fn response(&self) -> ResponseHead {
        self.res
    }

    /// The value of the date header.
    pub closed spec fn date(&self) -> Seq<u8> {
        self.date@
    }

    /// Every byte handed out so far, over all pulls.
    pub closed spec fn emitted(&self) -> Seq<u8> {
        self.emitted@
    }

    /// The groups of bytes the source has produced so far, in order.
    pub closed spec fn reads(&self) -> Seq<Seq<u8>> {
        self.reads@
    }

    /// The current phase.
    pub closed spec fn phase(&self) -> Phase {
        match self.state {
            EncoderState::Start => Phase::Start,
            EncoderState::Head => Phase::Head,
            EncoderState::Body => Phase::Body,
            EncoderState::ComputingChunk => Phase::ComputingChunk,
            EncoderState::EmittingChunk { .. } => Phase::EmittingChunk,
            EncoderState::Done => Phase::Done,
        }
    }

    /// Bytes already owed that have not been handed out: the rest of the head
    /// or of a staged chunk.
    pub closed spec fn pending(&self) -> Seq<u8> {
        match self.state {
            EncoderState::Start => head_bytes(self.res, self.date@),
            EncoderState::Head => self.head@.subrange(self.head_cursor as int, self.head@.len() as int),
            EncoderState::EmittingChunk { chunk, cursor, last } => chunk@.subrange(
                cursor as int,
                chunk@.len() as int,
            ),
            _ => Seq::empty(),
        }
    }

    /// Whether the encoder waits on the body source.
    pub open spec fn reading(&self) -> bool {
        self.phase() is Body || self.phase() is ComputingChunk
    }

    /// How many bytes one source read may bring in a pull that has filled
    /// `out_len` of `cap` bytes.
    pub open spec fn read_limit(&self, out_len: int, cap: int) -> int {
        match self.response().len {
            Some(n) => {
                let left = n - joined(self.reads()).len();
                if cap - out_len < left {
                    cap - out_len
                } else {
                    left
                }
            },
            None => cap - out_len,
        }
    }

    /// The encoder's internal invariant.
    pub closed spec fn wf(&self) -> bool {
        &&& reads_ok(self.res.len, self.reads@)
        &&& self.emitted@ + self.pending() == stream(self.res, self.date@, self.reads@)
        &&& match self.state {
            EncoderState::Start => self.reads@.len() == 0 && self.emitted@.len() == 0,
            EncoderState::Head => {
                &&& self.head@ == head_bytes(self.res, self.date@)
                &&& self.head_cursor < self.head@.len()
                &&& self.reads@.len() == 0
            },
            EncoderState::Body => {
                &&& self.res.len == Some(self.body_len)
                &&& self.body_emitted == joined(self.reads@).len()
                &&& self.body_emitted < self.body_len
                &&& (self.reads@.len() > 0 ==> self.reads@.last().len() > 0)
            },
            EncoderState::ComputingChunk => {
                &&& self.res.len is None
                &&& (self.reads@.len() > 0 ==> self.reads@.last().len() > 0)
            },
            EncoderState::EmittingChunk { chunk, cursor, last } => {
                &&& self.res.len is None
                &&& self.reads@.len() > 0
                &&& chunk@ == chunk_frame(self.reads@.last())
                &&& cursor < chunk@.len()
                &&& last == (self.reads@.last().len() == 0)
            },
            EncoderState::Done => finished(self.res.len, self.reads@),
        }
    }

    /// A new encoder for `res`, whose date header will read `date`. Nothing
    /// is serialized before the first pull.
    pub fn encode(res: ResponseHead, date: Vec<u8>) -> (r: Encoder)
        ensures
            r.wf(),
            r.response() == res,
            r.date() == date@,
            r.phase() == Phase::Start,
            r.emitted().len() == 0,
            r.reads().len() == 0,
    {
        let r = Encoder {
            res,
            date,
            state: EncoderState::Start,
            head: Vec::new(),
            head_cursor: 0,
            body_len: 0,
            body_emitted: 0,
            emitted: Ghost(Seq::empty()),
            reads: Ghost(Seq::empty()),
        };
        assert(r.emitted@ + r.pending() =~= stream(r.res, r.date@, r.reads@));
        r
    }

    /// Continues a pull that has filled `out` so far, out of at most `cap`
    /// bytes, as far as it can go without the body source.
    pub fn resume(&mut self, out: &mut Vec<u8>, cap: usize) -> (r: Next)
        requires
            old(self).wf(),
            old(out)@.len() <= cap,
        ensures
            final(self).wf(),
            final(self).response() == old(self).response(),
            final(self).date() == old(self).date(),
            final(self).reads() == old(self).reads(),
            final(out)@.len() <= cap,
            extends(old(out)@, final(out)@, old(self).emitted(), final(self).emitted()),
            old(self).phase() is Done ==> r == Next::Return(old(out).len()) && final(out)@
                == old(out)@ && final(self).phase() is Done,
            r matches Next::Return(k) ==> k == final(out)@.len() && (k == cap || final(self).phase() is Done),
            r matches Next::Read(n) ==> final(self).reading() && 0 < n && n == final(self).read_limit(final(out)@.len() as int, cap as int),
    {
        let ghost out0 = out@;
        let ghost emitted0 = self.emitted@;
        assert(out0.subrange(0, out0.len() as int) =~= out0);
        assert(emitted0 + out0.subrange(out0.len() as int, out0.len() as int) =~= emitted0);
        loop
            invariant
                self.wf(),
                self.res == old(self).res,
                self.date == old(self).date,
                self.reads@ == old(self).reads@,
                out@.len() <= cap,
                out0 == old(out)@,
                emitted0 == old(self).emitted(),
                extends(out0, out@, emitted0, self.emitted@),
                old(self).phase() is Done ==> out@ == out0 && self.phase() is Done,
            decreases self.rank(),
        {
            let ghost out1 = out@;
            let ghost pending1 = self.pending();
            let ghost emitted1 = self.emitted@;
            let mut st = EncoderState::Done;
            core::mem::swap(&mut self.state, &mut st);
            match st {
                EncoderState::Start => {
                    self.head = serialize_head(&self.res, &self.date);
                    self.head_cursor = 0;
                    self.state = EncoderState::Head;
                    proof {
                        lemma_head_nonempty(self.res, self.date@);
                    }
                    assert(self.head@.subrange(0, self.head@.len() as int) =~= self.head@);
                    assert(self.emitted@ + self.pending() =~= stream(self.res, self.date@, self.reads@));
                },
                EncoderState::Head => {
                    let left = self.head.len() - self.head_cursor;
                    let room = cap - out.len();
                    let n = if left < room { left } else { room };
                    let from = self.head_cursor;
                    append_range(out, self.head.as_slice(), from, from + n);
                    self.head_cursor = from + n;
                    proof {
                        self.emitted@ = self.emitted@ + self.head@.subrange(from as int, (from + n) as int);
                        assert(pending1 =~= self.head@.subrange(from as int, (from + n) as int)
                            + self.head@.subrange((from + n) as int, self.head@.len() as int));
                        extends_step(out0, out1, out@, emitted0, emitted1, self.emitted@,
                            self.head@.subrange(from as int, (from + n) as int));
                    }
                    if self.head_cursor < self.head.len() {
                        self.state = EncoderState::Head;
                        assert(self.emitted@ + self.pending() =~= stream(self.res, self.date@, self.reads@));
                        return Next::Return(out.len());
                    }
                    match self.res.len {
                        Some(len) => {
                            self.body_len = len;
                            self.body_emitted = 0;
                            if len == 0 {
                                self.state = EncoderState::Done;
                            } else {
                                self.state = EncoderState::Body;
                            }
                        },
                        None => {
                            self.state = EncoderState::ComputingChunk;
                        },
                    }
                    assert(self.emitted@ + self.pending() =~= stream(self.res, self.date@, self.reads@));
                },
                EncoderState::Body => {
                    self.state = EncoderState::Body;
                    if out.len() == cap {
                        return Next::Return(out.len());
                    }
                    let room = cap - out.len();
                    let left = self.body_len - self.body_emitted;
                    return Next::Read(if room < left { room } else { left });
                },
                EncoderState::ComputingChunk => {
                    self.state = EncoderState::ComputingChunk;
                    if out.len() == cap {
                        return Next::Return(out.len());
                    }
                    return Next::Read(cap - out.len());
                },
                EncoderState::EmittingChunk { chunk, cursor, last } => {
                    let left = chunk.len() - cursor;
                    let room = cap - out.len();
                    let n = if left < room { left } else { room };
                    append_range(out, chunk.as_slice(), cursor, cursor + n);
                    proof {
                        self.emitted@ = self.emitted@ + chunk@.subrange(cursor as int, (cursor + n) as int);
                        assert(pending1 =~= chunk@.subrange(cursor as int, (cursor + n) as int)
                            + chunk@.subrange((cursor + n) as int, chunk@.len() as int));
                        extends_step(out0, out1, out@, emitted0, emitted1, self.emitted@,
                            chunk@.subrange(cursor as int, (cursor + n) as int));
                    }
                    if cursor + n < chunk.len() {
                        self.state = EncoderState::EmittingChunk { chunk, cursor: cursor + n, last };
                        assert(self.emitted@ + self.pending() =~= stream(self.res, self.date@, self.reads@));
                        return Next::Return(out.len());
                    }
                    if last {
                        self.state = EncoderState::Done;
                    } else {
                        self.state = EncoderState::ComputingChunk;
                    }
                    assert(self.emitted@ + self.pending() =~= stream(self.res, self.date@, self.reads@));
                },
                EncoderState::Done => {
                    self.state = EncoderState::Done;
                    return Next::Return(out.len());
                },
            }
        }
    }

    /// Hands over what the body source produced for the last
    /// [`Next::Read`], and continues the pull. Empty `data` means the source
    /// has ended.
    pub fn supply(&mut self, data: &[u8], out: &mut Vec<u8>, cap: usize) -> (r: Next)
        requires
            old(self).wf(),
            old(self).reading(),
            old(out)@.len() < cap,
            data@.len() <= old(self).read_limit(old(out)@.len() as int, cap as int),
        ensures
            final(self).wf(),
            final(self).response() == old(self).response(),
            final(self).date() == old(self).date(),
            final(self).reads() == old(self).reads().push(data@),
            final(out)@.len() <= cap,
            extends(old(out)@, final(out)@, old(self).emitted(), final(self).emitted()),
            old(self).phase() is ComputingChunk && chunk_frame(data@).len() <= cap - old(out)@.len() ==> r == Next::Return(final(out).len()) && final(out)@ == old(out)@
                + chunk_frame(data@),
            r matches Next::Return(k) ==> k == final(out)@.len() && (k == cap || final(self).phase() is Done
                || (old(self).phase() is ComputingChunk && chunk_frame(data@).len() <= cap - old(out)@.len())),
            r matches Next::Read(n) ==> final(self).reading() && 0 < n && n == final(self).read_limit(final(out)@.len() as int, cap as int),
    {
        let ghost out0 = out@;
        let ghost emitted0 = self.emitted@;
        proof {
            lemma_push_reads(self.reads@, data@);
            self.reads@ = self.reads@.push(data@);
            assert(self.reads@.drop_last() =~= old(self).reads@);
            extends_refl(out0, emitted0);
        }
        match self.res.len {
            Some(_) => {
                append(out, data);
                self.body_emitted = self.body_emitted + data.len();
                proof {
                    self.emitted@ = self.emitted@ + data@;
                    extends_step(out0, out0, out@, emitted0, emitted0, self.emitted@, data@);
                }
                if self.body_emitted == self.body_len || data.len() == 0 {
                    self.state = EncoderState::Done;
                    assert(self.emitted@ + self.pending() =~= stream(self.res, self.date@, self.reads@));
                    return Next::Return(out.len());
                }
                assert(self.emitted@ + self.pending() =~= stream(self.res, self.date@, self.reads@));
                let ghost out1 = out@;
                let ghost emitted1 = self.emitted@;
                let r = self.resume(out, cap);
                proof {
                    extends_trans(out0, out1, out@, emitted0, emitted1, self.emitted@);
                }
                r
            },
            None => {
                let frame = frame_chunk(data);
                if frame.len() <= cap - out.len() {
                    append(out, frame.as_slice());
                    proof {
                        self.emitted@ = self.emitted@ + frame@;
                        extends_step(out0, out0, out@, emitted0, emitted0, self.emitted@, frame@);
                    }
                    if data.len() == 0 {
                        self.state = EncoderState::Done;
                    }
                    assert(self.emitted@ + self.pending() =~= stream(self.res, self.date@, self.reads@));
                    Next::Return(out.len())
                } else {
                    let last = data.len() == 0;
                    self.state = EncoderState::EmittingChunk { chunk: frame, cursor: 0, last };
                    assert(self.emitted@ + self.pending() =~= stream(self.res, self.date@, self.reads@));
                    self.resume(out, cap)
                }
            },
        }
    }

    /// What a pull that has written `written` bytes reports when the body
    /// source is not ready: it suspends only if it has written nothing.
    pub fn on_source_pending(written: usize) -> (r: Pull)
        ensures
            written == 0 ==> r == Pull::Pending,
            written > 0 ==> r == Pull::Ready(written),
    {
        if written == 0 {
            Pull::Pending
        } else {
            Pull::Ready(written)
        }
    }

    /// What every encoder guarantees between pulls: the bytes handed out,
    /// followed by the bytes still owed, are exactly the response's stream
    /// for the reads so far; the reads are ones a source can produce; and the
    /// encoder is done exactly when nothing is owed and the body is complete.
    pub proof fn lemma_accounting(&self)
        requires
            self.wf(),
        ensures
            self.emitted() + self.pending() == stream(self.response(), self.date(), self.reads()),
            reads_ok(self.response().len, self.reads()),
            self.phase() is Done <==> (self.pending().len() == 0 && finished(
                self.response().len,
                self.reads(),
            )),
            self.reading() ==> self.pending().len() == 0 && !finished(self.response().len, self.reads()),
            self.phase() is Body ==> self.response().len is Some,
            self.phase() is ComputingChunk ==> self.response().len is None,
    {
        match self.state {
            EncoderState::Start => {
                lemma_head_nonempty(self.res, self.date@);
            },
            EncoderState::Body => {
                assert(self.reads@.len() > 0 ==> self.reads@.last().len() > 0);
            },
            _ => {},
        }
    }

    spec fn rank(&self) -> nat {
        match self.state {
            EncoderState::Start => 3,
            EncoderState::Head => 2,
            EncoderState::EmittingChunk { .. } => 1,
            _ => 0,
        }
    }
}

} // verus!

verus! {

/// Once done with a known length `L`, the encoder has sent the head and then
/// the source's bytes raw, never more than `L` of them: all `L`, or fewer
/// only because the source ended first.
pub proof fn law_fixed_length_conservation(e: &Encoder, len: usize)
    requires
        e.wf(),
        e.phase() is Done,
        e.response().len == Some(len),
    ensures
        e.emitted() == head_bytes(e.response(), e.date()) + joined(e.reads()),
        joined(e.reads()).len() <= len,
        joined(e.reads()).len() == len || (e.reads().len() > 0 && e.reads().last().len() == 0),
{
    e.lemma_accounting();
    assert(e.emitted() =~= e.emitted() + e.pending());
}

/// Two finished encodings of the same response, date and body data have sent
/// the same bytes, whatever destination sizes their pulls were given. With a
/// known length only the body bytes matter; chunked, so do the groups the
/// source produced them in.
pub proof fn law_buffer_size_independence(a: &Encoder, b: &Encoder)
    requires
        a.wf(),
        b.wf(),
        a.phase() is Done,
        b.phase() is Done,
        a.response() == b.response(),
        a.date() == b.date(),
        a.reads() == b.reads() || (a.response().len is Some && joined(a.reads()) == joined(
            b.reads(),
        )),
    ensures
        a.emitted() == b.emitted(),
{
    a.lemma_accounting();
    b.lemma_accounting();
    assert(a.emitted() =~= a.emitted() + a.pending());
    assert(b.emitted() =~= b.emitted() + b.pending());
}

/// Once done, the head declares the body's framing in its second line: a
/// `content-length` line with the known length, or chunked transfer coding.
/// With a known length the body follows raw; without one it is a run of
/// chunk frames that a chunked decoder turns back into exactly the groups the
/// source produced, the last of them empty.
pub proof fn law_length_mode(e: &Encoder)
    requires
        e.wf(),
        e.phase() is Done,
    ensures
        ({
            let at = status_line(e.response().status, e.response().reason@).len() as int;
            let f = framing_line(e.response().len);
            head_bytes(e.response(), e.date()).subrange(at, at + f.len()) == f
        }),
        e.response().len is Some ==> e.emitted() == head_bytes(e.response(), e.date()) + joined(
            e.reads(),
        ),
        e.response().len is None ==> e.emitted() == head_bytes(e.response(), e.date())
            + chunk_frames(e.reads()) && decode_chunked(chunk_frames(e.reads())) == Some(e.reads()),
{
    e.lemma_accounting();
    lemma_framing_line_in_head(e.response(), e.date());
    assert(e.emitted() =~= e.emitted() + e.pending());
    if e.response().len is None {
        lemma_chunk_round_trip(e.reads());
    }
}

} // verus!
