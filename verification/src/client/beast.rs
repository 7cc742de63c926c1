//! Streaming decoder for the Mode-S Beast binary format.
//!
//! Message: 0x1a, type (0x31 Mode A/C, 0x32 short Mode S, 0x33 long Mode S),
//! 6-byte big-endian timestamp (12 MHz counts), signal byte, frame. Every 0x1a
//! inside the payload is doubled. Mode A/C messages are consumed and dropped.

use vstd::prelude::*;

verus! {

/// One frame as the receiver heard it.
#[derive(Debug)]
pub struct Reception {
    pub counts_12mhz: u64,
    pub frame: Vec<u8>,
}

/// A reception as a mathematical value.
pub struct Heard {
    pub counts: u64,
    pub frame: Seq<u8>,
}

impl View for Reception {
    type V = Heard;

    open spec fn view(&self) -> Heard {
        Heard { counts: self.counts_12mhz, frame: self.frame@ }
    }
}

/// The views of a run of receptions.
pub open spec fn heard(v: Seq<Reception>) -> Seq<Heard> {
    v.map_values(|r: Reception| r@)
}

/// How reading a payload ends: whole, for want of bytes, or at an unescaped
/// marker.
pub enum Payload {
    Whole { bytes: Seq<u8>, next: int },
    Short,
    Broken { at: int },
}

/// Reads `want` payload bytes of `b` from position `i` on, after `got`.
pub open spec fn read_payload(b: Seq<u8>, i: int, got: Seq<u8>, want: int) -> Payload
    decreases b.len() - i,
{
    if got.len() >= want {
        Payload::Whole { bytes: got, next: i }
    } else if i < 0 || i >= b.len() {
        Payload::Short
    } else if b[i] != 0x1a {
        read_payload(b, i + 1, got.push(b[i]), want)
    } else if i + 1 >= b.len() {
        Payload::Short
    } else if b[i + 1] == 0x1a {
        read_payload(b, i + 2, got.push(0x1a), want)
    } else {
        Payload::Broken { at: i }
    }
}

/// What stands at a marker: a stretch to skip, with the reception that it
/// carried, or a message that is not complete yet.
pub enum StepView {
    Consumed(int, Option<Heard>),
    NeedMore,
}

/// Frame bytes of a message type; `None` for a byte that is no type.
pub open spec fn frame_len(kind: u8) -> Option<int> {
    if kind == 0x31 {
        Some(2)
    } else if kind == 0x32 {
        Some(7)
    } else if kind == 0x33 {
        Some(14)
    } else {
        None
    }
}

/// The 48-bit number that six bytes write, most significant first.
pub open spec fn be48(b: Seq<u8>) -> int {
    b[0] * 0x100_0000_0000 + b[1] * 0x1_0000_0000 + b[2] * 0x100_0000 + b[3] * 0x1_0000 + b[4] * 256
        + b[5]
}

/// The message at the start of `b`, which begins with a marker.
pub open spec fn step_at(b: Seq<u8>) -> StepView {
    if b.len() < 2 {
        StepView::NeedMore
    } else {
        match frame_len(b[1]) {
            None => StepView::Consumed(1, None),
            Some(n) => match read_payload(b, 2, seq![], 7 + n) {
                Payload::Short => StepView::NeedMore,
                Payload::Broken { at } => StepView::Consumed(at, None),
                Payload::Whole { bytes, next } => if n == 2 {
                    StepView::Consumed(next, None)
                } else {
                    StepView::Consumed(
                        next,
                        Some(Heard { counts: be48(bytes) as u64, frame: bytes.skip(7) }),
                    )
                },
            },
        }
    }
}

/// The receptions of a byte stream, and the bytes that wait for more.
pub open spec fn decode_stream(b: Seq<u8>) -> (Seq<Heard>, Seq<u8>)
    decreases b.len(),
{
    if b.len() == 0 {
        (seq![], seq![])
    } else if b[0] != 0x1a {
        decode_stream(b.skip(1))
    } else {
        match step_at(b) {
            StepView::NeedMore => (seq![], b),
            StepView::Consumed(n, r) => if 1 <= n <= b.len() {
                let rest = decode_stream(b.skip(n));
                match r {
                    Some(h) => (seq![h] + rest.0, rest.1),
                    None => rest,
                }
            } else {
                (seq![], seq![])
            },
        }
    }
}

proof fn lemma_payload_bounds(b: Seq<u8>, i: int, got: Seq<u8>, want: int)
    requires
        0 <= i <= b.len(),
        got.len() <= want,
    ensures
        match read_payload(b, i, got, want) {
            Payload::Whole { bytes, next } => i <= next <= b.len() && bytes.len() == want,
            Payload::Broken { at } => i <= at < b.len(),
            Payload::Short => true,
        },
    decreases b.len() - i,
{
    if got.len() < want && i < b.len() {
        if b[i] != 0x1a {
            lemma_payload_bounds(b, i + 1, got.push(b[i]), want);
        } else if i + 1 < b.len() && b[i + 1] == 0x1a {
            lemma_payload_bounds(b, i + 2, got.push(0x1a), want);
        }
    }
}

/// A step always moves forward and stays inside the bytes.
proof fn lemma_step_bounds(b: Seq<u8>)
    requires
        b.len() > 0,
    ensures
        match step_at(b) {
            StepView::Consumed(n, _) => 1 <= n <= b.len(),
            StepView::NeedMore => true,
        },
{
    if b.len() >= 2 {
        match frame_len(b[1]) {
            Some(n) => {
                lemma_payload_bounds(b, 2, seq![], 7 + n);
            },
            None => {},
        }
    }
}

/// Streaming decoder state: the bytes of a message that is not complete yet.
#[derive(Debug)]
pub struct BeastDecoder {
    buf: Vec<u8>,
}

/// What `parse_at` found at a marker.
#[derive(Debug)]
enum Step {
    Consumed(usize, Option<Reception>),
    NeedMore,
}

impl View for BeastDecoder {
    type V = Seq<u8>;

    closed spec fn view(&self) -> Seq<u8> {
        self.buf@
    }
}

impl Default for BeastDecoder {
    fn default() -> (r: Self)
        ensures
            r@ == Seq::<u8>::empty(),
    {
        BeastDecoder { buf: Vec::new() }
    }
}

impl BeastDecoder {
    /// Takes more bytes of the stream and returns the receptions they complete.
    pub fn feed(&mut self, bytes: &[u8]) -> (r: Vec<Reception>)
        ensures
            heard(r@) == decode_stream(old(self)@ + bytes@).0,
            final(self)@ == decode_stream(old(self)@ + bytes@).1,
    {
        self.buf.extend_from_slice(bytes);
        let ghost all = self.buf@;
        assert(all =~= old(self)@ + bytes@);
        let mut out: Vec<Reception> = Vec::new();
        let mut pos: usize = 0;
        let mut waiting: bool = false;
        assert(all.skip(0) =~= all);
        assert(heard(out@) =~= seq![]);
        assert(decode_stream(all).0 =~= heard(out@) + decode_stream(all).0);
        while pos < self.buf.len() && !waiting
            invariant
                pos <= all.len(),
                self.buf@ == all,
                waiting ==> decode_stream(all.skip(pos as int)) == (Seq::<Heard>::empty(), all.skip(
                    pos as int,
                )),
                decode_stream(all).0 == heard(out@) + decode_stream(all.skip(pos as int)).0,
                decode_stream(all).1 == decode_stream(all.skip(pos as int)).1,
            decreases all.len() - pos, (if waiting { 0int } else { 1 }),
        {
            let ghost here = all.skip(pos as int);
            if self.buf[pos] != 0x1a {
                assert(here.skip(1) =~= all.skip(pos + 1));
                pos = pos + 1;
            } else {
                let rest = vstd::slice::slice_subrange(self.buf.as_slice(), pos, self.buf.len());
                assert(rest@ =~= here);
                proof {
                    lemma_step_bounds(here);
                }
                match Self::parse_at(rest) {
                    Step::Consumed(n, r) => {
                        assert(here.skip(n as int) =~= all.skip(pos + n));
                        if let Some(h) = r {
                            let ghost before = heard(out@);
                            let ghost more = decode_stream(all.skip(pos + n)).0;
                            out.push(h);
                            assert(heard(out@) =~= before + seq![h@]);
                            assert(before + (seq![h@] + more) =~= heard(out@) + more);
                        }
                        pos = pos + n;
                    },
                    Step::NeedMore => {
                        waiting = true;
                    },
                }
            }
        }
        let keep = vstd::slice::slice_subrange(self.buf.as_slice(), pos, self.buf.len());
        let mut left: Vec<u8> = Vec::new();
        left.extend_from_slice(keep);
        proof {
            assert(left@ =~= all.skip(pos as int));
            assert(decode_stream(all.skip(pos as int)).0.len() == 0);
            assert(decode_stream(all.skip(pos as int)).1 =~= all.skip(pos as int));
            assert(heard(out@) =~= heard(out@) + decode_stream(all.skip(pos as int)).0);
        }
        self.buf = left;
        out
    }

    fn parse_at(b: &[u8]) -> (r: Step)
        requires
            b@.len() > 0,
        ensures
            match r {
                Step::NeedMore => step_at(b@) is NeedMore,
                Step::Consumed(n, h) => step_at(b@) == StepView::Consumed(
                    n as int,
                    (match h {
                        Some(x) => Some(x@),
                        None => None,
                    }),
                ),
            },
    {
        if b.len() < 2 {
            return Step::NeedMore;
        }
        let frame: usize = match b[1] {
            0x31 => 2,
            0x32 => 7,
            0x33 => 14,
            // A doubled marker here is a stray escape outside a message;
            // anything else is noise. Skip one byte and resync.
            _ => {
                return Step::Consumed(1, None);
            },
        };
        let want: usize = 7 + frame;
        let mut payload: Vec<u8> = Vec::new();
        let mut i: usize = 2;
        while payload.len() < want
            invariant
                2 <= i <= b@.len(),
                payload@.len() <= want,
                b@.len() >= 2,
                frame_len(b@[1]) == Some(frame as int),
                want == 7 + frame,
                read_payload(b@, 2, seq![], want as int) == read_payload(
                    b@,
                    i as int,
                    payload@,
                    want as int,
                ),
            decreases b@.len() - i,
        {
            if i >= b.len() {
                return Step::NeedMore;
            }
            let c: u8 = b[i];
            if c == 0x1a {
                if i + 1 >= b.len() {
                    return Step::NeedMore;
                }
                if b[i + 1] == 0x1a {
                    payload.push(0x1a);
                    i = i + 2;
                } else {
                    // Unescaped marker inside a payload: truncated message.
                    // Resync at it.
                    return Step::Consumed(i, None);
                }
            } else {
                payload.push(c);
                i = i + 1;
            }
        }
        if frame == 2 {
            return Step::Consumed(i, None);
        }
        let counts: u64 = payload[0] as u64 * 0x100_0000_0000 + payload[1] as u64 * 0x1_0000_0000
            + payload[2] as u64 * 0x100_0000 + payload[3] as u64 * 0x1_0000 + payload[4] as u64
            * 256 + payload[5] as u64;
        let tail = vstd::slice::slice_subrange(payload.as_slice(), 7, want);
        let mut body: Vec<u8> = Vec::new();
        body.extend_from_slice(tail);
        assert(body@ =~= payload@.skip(7));
        Step::Consumed(i, Some(Reception { counts_12mhz: counts, frame: body }))
    }
}

/// `b` with every marker byte doubled.
pub open spec fn escape_markers(b: Seq<u8>) -> Seq<u8>
    decreases b.len(),
{
    if b.len() == 0 {
        seq![]
    } else if b[0] == 0x1a {
        seq![0x1au8, 0x1au8] + escape_markers(b.skip(1))
    } else {
        seq![b[0]] + escape_markers(b.skip(1))
    }
}

/// Timestamp, signal and frame of a message, before escaping.
pub open spec fn message_payload(counts: u64, signal: u8, frame: Seq<u8>) -> Seq<u8> {
    seq![
        (counts / 0x100_0000_0000 % 256) as u8,
        (counts / 0x1_0000_0000 % 256) as u8,
        (counts / 0x100_0000 % 256) as u8,
        (counts / 0x1_0000 % 256) as u8,
        (counts / 256 % 256) as u8,
        (counts % 256) as u8,
        signal,
    ] + frame
}

/// A whole message on the wire.
pub open spec fn message_bytes(counts: u64, signal: u8, frame: Seq<u8>) -> Seq<u8> {
    seq![
        0x1au8,
        if frame.len() == 7 {
            0x32u8
        } else {
            0x33u8
        },
    ] + escape_markers(message_payload(counts, signal, frame))
}

/// Encode one reception, the exact inverse of the decoder for 7-byte and
/// 14-byte frames.
pub fn encode(counts_12mhz: u64, signal: u8, frame: &[u8]) -> (r: Vec<u8>)
    ensures
        r@ == message_bytes(counts_12mhz, signal, frame@),
{
    let mut buf: Vec<u8> = Vec::new();
    buf.push(0x1a);
    let kind: u8 = if frame.len() == 7 {
        0x32
    } else {
        0x33
    };
    buf.push(kind);
    let mut payload: Vec<u8> = Vec::new();
    payload.push((counts_12mhz / 0x100_0000_0000 % 256) as u8);
    payload.push((counts_12mhz / 0x1_0000_0000 % 256) as u8);
    payload.push((counts_12mhz / 0x100_0000 % 256) as u8);
    payload.push((counts_12mhz / 0x1_0000 % 256) as u8);
    payload.push((counts_12mhz / 256 % 256) as u8);
    payload.push((counts_12mhz % 256) as u8);
    payload.push(signal);
    payload.extend_from_slice(frame);
    let ghost want = message_payload(counts_12mhz, signal, frame@);
    assert(payload@ =~= want);
    let mut i: usize = 0;
    assert(want.skip(0) =~= want);
    assert(buf@ + escape_markers(want) =~= message_bytes(counts_12mhz, signal, frame@));
    while i < payload.len()
        invariant
            i <= payload.len(),
            payload@ == want,
            buf@ + escape_markers(want.skip(i as int)) == message_bytes(
                counts_12mhz,
                signal,
                frame@,
            ),
        decreases payload.len() - i,
    {
        let b: u8 = payload[i];
        let ghost before = buf@;
        let ghost rest = escape_markers(want.skip(i + 1));
        assert(want.skip(i as int).skip(1) =~= want.skip(i + 1));
        buf.push(b);
        if b == 0x1a {
            buf.push(0x1a);
            assert(before + (seq![0x1au8, 0x1au8] + rest) =~= buf@ + rest);
        } else {
            assert(before + (seq![b] + rest) =~= buf@ + rest);
        }
        i = i + 1;
    }
    assert(buf@ + escape_markers(want.skip(i as int)) =~= buf@);
    buf
}

/// Reading an escaped payload gives the payload back and stops behind it.
proof fn lemma_read_escaped(
    head: Seq<u8>,
    got: Seq<u8>,
    p: Seq<u8>,
    rest: Seq<u8>,
    want: int,
)
    requires
        want == got.len() + p.len(),
    ensures
        read_payload(head + escape_markers(p) + rest, head.len() as int, got, want)
            == (Payload::Whole {
            bytes: got + p,
            next: (head.len() + escape_markers(p).len()) as int,
        }),
    decreases p.len(),
{
    let b = head + escape_markers(p) + rest;
    if p.len() == 0 {
        assert(got + p =~= got);
    } else {
        let q = p.skip(1);
        let e = escape_markers(q);
        assert((got.push(p[0])) + q =~= got + p);
        if p[0] == 0x1a {
            let h2 = head + seq![0x1au8, 0x1au8];
            assert(h2 + e + rest =~= b);
            assert(b[head.len() as int] == 0x1a && b[head.len() as int + 1] == 0x1a);
            lemma_read_escaped(h2, got.push(0x1a), q, rest, want);
        } else {
            let h2 = head + seq![p[0]];
            assert(h2 + e + rest =~= b);
            assert(b[head.len() as int] == p[0]);
            lemma_read_escaped(h2, got.push(p[0]), q, rest, want);
        }
    }
}

/// The six timestamp bytes write the low 48 bits of the counter.
proof fn lemma_timestamp(counts: u64, signal: u8, frame: Seq<u8>)
    ensures
        be48(message_payload(counts, signal, frame)) == counts as int % 0x1_0000_0000_0000,
{
    let n = counts as int;
    let c1 = n / 256;
    let c2 = n / 0x1_0000;
    let c3 = n / 0x100_0000;
    let c4 = n / 0x1_0000_0000;
    let c5 = n / 0x100_0000_0000;
    let c6 = n / 0x1_0000_0000_0000;
    assert(c2 == c1 / 256);
    assert(c3 == c2 / 256);
    assert(c4 == c3 / 256);
    assert(c5 == c4 / 256);
    assert(c6 == c5 / 256);
    let p = message_payload(counts, signal, frame);
    assert(n == 256 * c1 + p[5]);
    assert(c1 == 256 * c2 + p[4]);
    assert(c2 == 256 * c3 + p[3]);
    assert(c3 == 256 * c4 + p[2]);
    assert(c4 == 256 * c5 + p[1]);
    assert(c5 == 256 * c6 + p[0]);
    assert(be48(p) == n - 0x1_0000_0000_0000 * c6);
}

/// Decoding an encoded message gives the reception back, whatever follows, and
/// goes on behind it; timestamps keep their low 48 bits.
pub proof fn law_encode_decode(counts: u64, signal: u8, frame: Seq<u8>, rest: Seq<u8>)
    requires
        frame.len() == 7 || frame.len() == 14,
    ensures
        decode_stream(message_bytes(counts, signal, frame) + rest) == (
            seq![Heard { counts: (counts % 0x1_0000_0000_0000) as u64, frame }] + decode_stream(
                rest,
            ).0,
            decode_stream(rest).1,
        ),
{
    let m = message_bytes(counts, signal, frame);
    let b = m + rest;
    let p = message_payload(counts, signal, frame);
    let head = seq![b[0], b[1]];
    assert(b =~= head + escape_markers(p) + rest);
    lemma_read_escaped(head, seq![], p, rest, 7 + frame.len() as int);
    assert(seq![] + p =~= p);
    assert(p.skip(7) =~= frame);
    assert(b.skip(m.len() as int) =~= rest);
    lemma_timestamp(counts, signal, frame);
}

/// What is decided on a prefix stays decided when more bytes follow.
proof fn lemma_payload_extend(b: Seq<u8>, more: Seq<u8>, i: int, got: Seq<u8>, want: int)
    requires
        0 <= i <= b.len(),
        !(read_payload(b, i, got, want) is Short),
    ensures
        read_payload(b + more, i, got, want) == read_payload(b, i, got, want),
    decreases b.len() - i,
{
    if got.len() < want && i < b.len() {
        assert((b + more)[i] == b[i]);
        if b[i] != 0x1a {
            lemma_payload_extend(b, more, i + 1, got.push(b[i]), want);
        } else if i + 1 < b.len() {
            assert((b + more)[i + 1] == b[i + 1]);
            if b[i + 1] == 0x1a {
                lemma_payload_extend(b, more, i + 2, got.push(0x1a), want);
            }
        }
    }
}

proof fn lemma_step_extend(b: Seq<u8>, more: Seq<u8>)
    requires
        !(step_at(b) is NeedMore),
    ensures
        step_at(b + more) == step_at(b),
{
    assert((b + more)[1] == b[1]);
    match frame_len(b[1]) {
        Some(n) => {
            lemma_payload_extend(b, more, 2, seq![], 7 + n);
        },
        None => {},
    }
}

/// The stream can be cut anywhere: feeding `a` and then `b` gives the receptions
/// of feeding them at once, in order, and leaves the same bytes waiting.
pub proof fn law_chunks(a: Seq<u8>, b: Seq<u8>)
    ensures
        decode_stream(a + b).0 == decode_stream(a).0 + decode_stream(decode_stream(a).1 + b).0,
        decode_stream(a + b).1 == decode_stream(decode_stream(a).1 + b).1,
    decreases a.len(),
{
    let whole = decode_stream(a + b);
    if a.len() == 0 {
        assert(a + b =~= b);
        assert(decode_stream(a).1 + b =~= b);
        assert(decode_stream(a).0 + decode_stream(b).0 =~= decode_stream(b).0);
    } else {
        assert((a + b)[0] == a[0]);
        if a[0] != 0x1a {
            law_chunks(a.skip(1), b);
            assert((a + b).skip(1) =~= a.skip(1) + b);
        } else {
            match step_at(a) {
                StepView::NeedMore => {
                    assert(decode_stream(a).0 + decode_stream(a + b).0 =~= decode_stream(a + b).0);
                },
                StepView::Consumed(n, r) => {
                    lemma_step_bounds(a);
                    lemma_step_extend(a, b);
                    assert((a + b).skip(n) =~= a.skip(n) + b);
                    law_chunks(a.skip(n), b);
                    match r {
                        Some(h) => {
                            let x = decode_stream(a.skip(n)).0;
                            let y = decode_stream(decode_stream(a.skip(n)).1 + b).0;
                            assert(seq![h] + (x + y) =~= (seq![h] + x) + y);
                        },
                        None => {},
                    }
                },
            }
        }
    }
}

} // verus!
