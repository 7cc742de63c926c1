//! Client to server framing.
//!
//! - `none`: newline-delimited JSON lines, raw.
//! - `zlib`, `zlib2`: frames of a 2-byte big-endian payload length and the
//!   payload: the output of a persistent zlib compressor fed the lines and
//!   sync-flushed, without the 4-byte sync-flush trailer. The compressor's state
//!   carries across frames: frame N cannot be read without frames 1 to N-1.
//!
//! The compressor and decompressor are modelled by the bytes that went in and the
//! bytes that came out.

use vstd::prelude::*;

verus! {

/// `flate2::Compress`: a compression stream.
#[verifier::external_type_specification]
#[verifier::external_body]
pub struct ExCompress(flate2::Compress);

/// `flate2::Decompress`: a decompression stream.
#[verifier::external_type_specification]
#[verifier::external_body]
pub struct ExDecompress(flate2::Decompress);

/// `flate2::CompressError`: why compression failed.
#[verifier::external_type_specification]
#[verifier::external_body]
pub struct ExCompressError(flate2::CompressError);

/// `flate2::DecompressError`: why decompression failed.
#[verifier::external_type_specification]
#[verifier::external_body]
pub struct ExDecompressError(flate2::DecompressError);

/// All bytes that a compressor has taken in.
pub uninterp spec fn fed(z: flate2::Compress) -> Seq<u8>;

/// All bytes that a compressor has given out.
pub uninterp spec fn emitted(z: flate2::Compress) -> Seq<u8>;

/// A compressor holds no output back and has not failed.
pub uninterp spec fn quiet(z: flate2::Compress) -> bool;

/// The inputs of a compressor, each taken in whole and flushed by a call that left
/// room in its buffer.
pub uninterp spec fn flushed(z: flate2::Compress) -> Seq<Seq<u8>>;

/// The bytes that a compressor has given out once it flushed these inputs, one after
/// the other.
pub uninterp spec fn deflated(inputs: Seq<Seq<u8>>) -> Seq<u8>;

/// All bytes that a decompressor has taken in.
pub uninterp spec fn taken(z: flate2::Decompress) -> Seq<u8>;

/// All bytes that a decompressor has given out.
pub uninterp spec fn restored(z: flate2::Decompress) -> Seq<u8>;

/// The data that the first bytes of a zlib stream carry: what a decompressor has
/// given out once it took them in and holds nothing back.
pub uninterp spec fn inflated(stream: Seq<u8>) -> Seq<u8>;

/// A decompressor fed these first bytes of a stream reports neither an error nor
/// the end of the stream.
pub uninterp spec fn sound(stream: Seq<u8>) -> bool;

/// Sync-flush trailer, stripped on the wire.
pub open spec fn trailer() -> Seq<u8> {
    seq![0x00u8, 0x00u8, 0xFFu8, 0xFFu8]
}

/// `s` ends with the sync-flush trailer.
pub open spec fn at_sync(s: Seq<u8>) -> bool {
    s.len() >= 4 && s.skip(s.len() - 4) == trailer()
}

/// What went into a compressor can be read back from what came out.
pub open spec fn settled(z: flate2::Compress) -> bool {
    inflated(emitted(z)) == fed(z) && sound(emitted(z))
}

/// A compressor holds nothing back, and what it has given out is what its inputs
/// make.
pub open spec fn regular(z: flate2::Compress) -> bool {
    quiet(z) && emitted(z) == deflated(flushed(z))
}

/// A compressor that has taken in and given out nothing.
pub open spec fn fresh(z: flate2::Compress) -> bool {
    &&& fed(z) == Seq::<u8>::empty()
    &&& emitted(z) == Seq::<u8>::empty()
    &&& flushed(z) == Seq::<Seq<u8>>::empty()
    &&& regular(z)
}

/// A byte can be the first of a zlib stream: its low half names the compression
/// method, and only method 8 is defined.
pub open spec fn starts_stream(b: u8) -> bool {
    b % 16 == 8
}

/// `flate2::Compress::new` at the default level with a zlib header: a stream that
/// has taken in and given out nothing.
#[verifier::external_body]
fn new_compress() -> (z: flate2::Compress)
    ensures
        fed(z) == Seq::<u8>::empty(),
        emitted(z) == Seq::<u8>::empty(),
        flushed(z) == Seq::<Seq<u8>>::empty(),
        quiet(z) && emitted(z) == deflated(flushed(z)),
{
    flate2::Compress::new(flate2::Compression::default(), true)
}

/// `flate2::Decompress::new` with a zlib header: a stream that has taken in and
/// given out nothing.
#[verifier::external_body]
fn new_decompress() -> (z: flate2::Decompress)
    ensures
        taken(z) == Seq::<u8>::empty(),
        restored(z) == Seq::<u8>::empty(),
{
    flate2::Decompress::new(true)
}

/// `flate2::Compress::total_in`: the number of bytes taken in.
pub assume_specification[ flate2::Compress::total_in ](z: &flate2::Compress) -> (r: u64)
    ensures
        r as nat == fed(*z).len(),
;

/// `flate2::Compress::total_out`: the number of bytes given out.
pub assume_specification[ flate2::Compress::total_out ](z: &flate2::Compress) -> (r: u64)
    ensures
        r as nat == emitted(*z).len(),
;

/// `flate2::Decompress::total_in`: the number of bytes taken in.
pub assume_specification[ flate2::Decompress::total_in ](z: &flate2::Decompress) -> (r: u64)
    ensures
        r as nat == taken(*z).len(),
;

/// `flate2::Decompress::total_out`: the number of bytes given out.
pub assume_specification[ flate2::Decompress::total_out ](z: &flate2::Decompress) -> (r: u64)
    ensures
        r as nat == restored(*z).len(),
;

/// What one call of a compressor did: it took in the first `n_in` bytes of `input`
/// and appended the first `n_out` bytes of `output`.
pub open spec fn moved(
    in0: Seq<u8>,
    in1: Seq<u8>,
    input: Seq<u8>,
    out0: Seq<u8>,
    out1: Seq<u8>,
    output: Seq<u8>,
) -> bool {
    let n_in = in1.len() - in0.len();
    let n_out = out1.len() - out0.len();
    &&& 0 <= n_in <= input.len()
    &&& in1 == in0 + input.take(n_in)
    &&& 0 <= n_out <= output.len()
    &&& out1 == out0 + output.take(n_out)
}

/// `flate2::Compress::compress` with a sync flush, from `in_off` of the input to
/// `out_off` of the buffer; the result says whether the stream ended. It takes in
/// and gives out a stretch from the start of either. If room is left in the buffer,
/// all input was taken in and no output is held back; if none was held back before
/// either, the flush is complete: the output ends with the trailer, and a
/// decompressor that takes in all output gives out all input. What inputs that were
/// flushed in this way make depends on them alone; the output of all but the first
/// starts with the header of a block, which no stream starts with. A compressor that
/// holds nothing back does not fail; given at most 32 KiB, it adds fewer than 1024
/// bytes to them: the input makes at most two blocks, a block that would not shrink is
/// stored with a few bytes of header, and the stream header and the flush are short.
#[verifier::external_body]
fn compress_step(
    z: &mut flate2::Compress,
    input: &[u8],
    in_off: usize,
    buf: &mut Vec<u8>,
    out_off: usize,
) -> (r: Result<bool, flate2::CompressError>)
    requires
        in_off <= input@.len(),
        out_off <= old(buf)@.len(),
    ensures
        final(buf)@.len() == old(buf)@.len(),
        final(buf)@.take(out_off as int) == old(buf)@.take(out_off as int),
        quiet(*old(z)) ==> (r matches Ok(ended) && !ended),
        moved(
            fed(*old(z)),
            fed(*final(z)),
            input@.skip(in_off as int),
            emitted(*old(z)),
            emitted(*final(z)),
            final(buf)@.skip(out_off as int),
        ),
        (r matches Ok(ended) && !ended) && emitted(*final(z)).len() - emitted(*old(z)).len() < old(
            buf,
        )@.len() - out_off ==> {
            &&& quiet(*final(z))
            &&& fed(*final(z)) == fed(*old(z)) + input@.skip(in_off as int)
            &&& quiet(*old(z)) ==> settled(*final(z)) && emitted(*final(z)).len() >= emitted(
                *old(z),
            ).len() + 4 && at_sync(emitted(*final(z)))
            &&& regular(*old(z)) ==> {
                &&& flushed(*final(z)) == flushed(*old(z)).push(input@.skip(in_off as int))
                &&& emitted(*final(z)) == deflated(flushed(*final(z)))
                &&& flushed(*old(z)).len() > 0 ==> !starts_stream(
                    emitted(*final(z))[emitted(*old(z)).len() as int],
                )
            }
        },
        quiet(*old(z)) && input@.len() - in_off <= 0x8000 && old(buf)@.len() - out_off
            >= input@.len() - in_off + 1024 ==> emitted(*final(z)).len() - emitted(*old(z)).len()
            < input@.len() - in_off + 1024,
{
    z.compress(&input[in_off..], &mut buf[out_off..], flate2::FlushCompress::Sync)
        .map(|s| matches!(s, flate2::Status::StreamEnd))
}

/// `flate2::Decompress::decompress` with a sync flush, from `in_off` of the input
/// to `out_off` of the buffer; the result says whether the stream ended. It takes in
/// and gives out a stretch from the start of either, at least one byte where both
/// have some. If it had no input, had room and gave out nothing, it holds nothing
/// back. A sound stream gives no error and does not end, and what was given out so far
/// is the beginning of what the stream carries. A stream cannot start with a byte that
/// names another compression method: that is an error once the two bytes of the
/// stream's header are there.
#[verifier::external_body]
fn decompress_step(
    z: &mut flate2::Decompress,
    input: &Vec<u8>,
    in_off: usize,
    buf: &mut Vec<u8>,
    out_off: usize,
) -> (r: Result<bool, flate2::DecompressError>)
    requires
        in_off <= input@.len(),
        out_off < old(buf)@.len(),
    ensures
        final(buf)@.len() == old(buf)@.len(),
        final(buf)@.take(out_off as int) == old(buf)@.take(out_off as int),
        sound(taken(*old(z)) + input@.skip(in_off as int)) ==> (r matches Ok(ended) && !ended)
            && restored(*final(z)).is_prefix_of(
            inflated(taken(*old(z)) + input@.skip(in_off as int)),
        ),
        taken(*old(z)).len() == 0 && input@.len() - in_off >= 2 && !starts_stream(
            input@[in_off as int],
        ) ==> r is Err,
        moved(
            taken(*old(z)),
            taken(*final(z)),
            input@.skip(in_off as int),
            restored(*old(z)),
            restored(*final(z)),
            final(buf)@.skip(out_off as int),
        ),
        (r matches Ok(ended) && !ended) && in_off < input@.len() ==> taken(
            *final(z),
        ).len() > taken(*old(z)).len() || restored(*final(z)).len() > restored(*old(z)).len(),
        (r matches Ok(ended) && !ended) && in_off == input@.len() && restored(
            *final(z),
        ) == restored(*old(z)) ==> restored(*final(z)) == inflated(taken(*final(z))),
{
    z.decompress(&input[in_off..], &mut buf[out_off..], flate2::FlushDecompress::Sync)
        .map(|s| matches!(s, flate2::Status::StreamEnd))
}

/// Why a frame could not be made or read.
#[derive(Debug)]
pub enum FramingError {
    /// The compressor failed.
    Deflate(flate2::CompressError),
    /// The flush left no trailer.
    TrailerMissing,
    /// The payload does not fit the length header.
    TooLarge(usize),
    /// The frame has no length header.
    ShortFrame,
    /// The length header does not match the payload.
    LengthHeader { want: usize, got: usize },
    /// The decompressor failed.
    Inflate(flate2::DecompressError),
}

/// A length as two bytes, most significant first.
pub open spec fn be16(n: int) -> Seq<u8> {
    seq![(n / 256) as u8, (n % 256) as u8]
}

/// A payload behind its length.
pub open spec fn framed(payload: Seq<u8>) -> Seq<u8> {
    be16(payload.len() as int) + payload
}

/// What `encode_frame` does to the stream when it gives out a frame.
pub open spec fn frame_encoded(
    z0: flate2::Compress,
    z1: flate2::Compress,
    lines: Seq<u8>,
    frame: Seq<u8>,
) -> bool {
    &&& 2 <= frame.len() <= 2 + 0xFFFF
    &&& frame == framed(frame.skip(2))
    &&& fed(z1) == fed(z0) + lines
    &&& emitted(z1) == emitted(z0) + frame.skip(2) + trailer()
    &&& quiet(z0) && fits_first_buffer(lines, frame) ==> quiet(z1) && settled(z1)
    &&& quiet(z0) && lines.len() <= OWED_LINES ==> fits_first_buffer(lines, frame)
    &&& regular(z0) && fits_first_buffer(lines, frame) ==> {
        &&& regular(z1)
        &&& flushed(z1) == flushed(z0).push(lines)
        &&& flushed(z0).len() > 0 ==> !starts_stream((frame.skip(2) + trailer())[0])
    }
}

/// Lines of at most 32 KiB always make a frame, on a stream that holds nothing back.
pub const OWED_LINES: usize = 0x8000;

/// The payload and its trailer are shorter than the buffer that the frame is first
/// made in. Compression adds far fewer bytes than the buffer has to spare.
pub open spec fn fits_first_buffer(lines: Seq<u8>, frame: Seq<u8>) -> bool {
    frame.len() + 2 < lines.len() + 1024
}

/// The number of bytes that a compressor gave out between two states.
pub open spec fn grown(z0: flate2::Compress, z1: flate2::Compress) -> int {
    emitted(z1).len() - emitted(z0).len()
}

/// What holds where `encode_frame` refuses to make a frame. On a stream that holds
/// nothing back the lines are longer than 32 KiB, and where the output fits the buffer
/// that the frame is first made in, the payload is too long for its header; all lines
/// have gone into the stream then.
pub open spec fn frame_refused(
    z0: flate2::Compress,
    z1: flate2::Compress,
    lines: Seq<u8>,
    e: FramingError,
) -> bool {
    &&& e is Deflate || e is TrailerMissing || e is TooLarge
    &&& e matches FramingError::TooLarge(n) ==> n > 0xFFFF
    &&& quiet(z0) ==> lines.len() > OWED_LINES
    &&& quiet(z0) && !(e is TooLarge) ==> grown(z0, z1) >= lines.len() + 1024
    &&& quiet(z0) && lines.len() <= usize::MAX - 1024 && grown(z0, z1) < lines.len() + 1024 ==> {
        &&& grown(z0, z1) - 4 > 0xFFFF
        &&& fed(z1) == fed(z0) + lines
        &&& e == FramingError::TooLarge((grown(z0, z1) - 4) as usize)
    }
}

/// What `decode_frame` does to the stream when it gives out the lines of a frame
/// that did not end the stream.
pub open spec fn frame_decoded(
    d0: flate2::Decompress,
    d1: flate2::Decompress,
    frame: Seq<u8>,
    lines: Seq<u8>,
) -> bool {
    &&& taken(d1) == taken(d0) + frame.skip(2) + trailer()
    &&& restored(d1) == restored(d0) + lines
    &&& restored(d1) == inflated(taken(d1))
}

/// The length header of a frame matches its payload.
pub open spec fn header_matches(frame: Seq<u8>) -> bool {
    frame.len() >= 2 && frame[0] * 256 + frame[1] == frame.len() - 2
}

/// A frame is one that `decode_frame` owes the lines of: its header matches, the
/// stream goes on soundly, and the lines can be held in memory.
pub open spec fn decodable(d: flate2::Decompress, frame: Seq<u8>) -> bool {
    let stream = taken(d) + frame.skip(2) + trailer();
    &&& header_matches(frame)
    &&& sound(stream)
    &&& inflated(stream).len() - restored(d).len() <= usize::MAX - 0x1_0000
}

/// A frame comes to a decoder that has read none, and does not start a stream.
pub open spec fn headless(d: flate2::Decompress, frame: Seq<u8>) -> bool {
    &&& taken(d).len() == 0
    &&& header_matches(frame)
    &&& !starts_stream((frame.skip(2) + trailer())[0])
}

/// More came out of a decompressor than fits in memory.
pub open spec fn overfull(d0: flate2::Decompress, d1: flate2::Decompress, n: usize) -> bool {
    n > usize::MAX - 0x1_0000 && restored(d1).len() == restored(d0).len() + n
}

fn ends_with_sync(b: &Vec<u8>, n: usize) -> (r: bool)
    requires
        n <= b@.len(),
    ensures
        r == at_sync(b@.take(n as int)),
{
    let ghost s = b@.take(n as int);
    if n < 4 {
        return false;
    }
    let r: bool = b[n - 4] == 0 && b[n - 3] == 0 && b[n - 2] == 0xFF && b[n - 1] == 0xFF;
    proof {
        let t = s.skip(s.len() - 4);
        assert(t[0] == b@[n - 4] && t[1] == b@[n - 3] && t[2] == b@[n - 2] && t[3] == b@[n - 1]);
        if r {
            assert(t =~= trailer());
        }
    }
    r
}

/// Stateful zlib frame encoder. One per connection, created after handshake.
#[derive(Debug)]
pub struct ZlibFrameEncoder {
    z: flate2::Compress,
}

impl Default for ZlibFrameEncoder {
    fn default() -> (r: Self)
        ensures
            fresh(r.stream()),
    {
        Self::new()
    }
}

impl ZlibFrameEncoder {
    pub closed spec fn stream(&self) -> flate2::Compress {
        self.z
    }

    pub fn new() -> (r: Self)
        ensures
            fresh(r.stream()),
    {
        ZlibFrameEncoder { z: new_compress() }
    }

    /// Encode one frame from already newline-terminated JSON lines. Returns the
    /// on-wire bytes: 2-byte length and payload.
    pub fn encode_frame(&mut self, lines: &[u8]) -> (r: Result<Vec<u8>, FramingError>)
        ensures
            r matches Ok(f) ==> frame_encoded(
                old(self).stream(),
                final(self).stream(),
                lines@,
                f@,
            ),
            r matches Err(e) ==> frame_refused(
                old(self).stream(),
                final(self).stream(),
                lines@,
                e,
            ),
            ({
                let g = grown(old(self).stream(), final(self).stream());
                quiet(old(self).stream()) && lines@.len() <= usize::MAX - 1024 && g < lines@.len()
                    + 1024 ==> g >= 4 && fed(final(self).stream()) == fed(old(self).stream())
                    + lines@ && (r is Ok <==> g - 4 <= 0xFFFF)
            }),
            quiet(old(self).stream()) && lines@.len() <= OWED_LINES ==> r is Ok,
    {
        let ghost z0 = self.z;
        if lines.len() > usize::MAX - 1024 {
            return Err(FramingError::TooLarge(lines.len()));
        }
        let mut buf: Vec<u8> = vec![0u8; lines.len() + 1024];
        let before_in: u64 = self.z.total_in();
        let before_out: u64 = self.z.total_out();
        let mut in_off: usize = 0;
        let mut out_off: usize = 0;
        let mut done: bool = false;
        let mut rounds: usize = 0;
        proof {
            assert(fed(z0) + lines@.take(0) =~= fed(z0));
            assert(emitted(z0) + buf@.take(0) =~= emitted(z0));
        }
        while !done
            invariant
                old(self).stream() == z0,
                in_off <= lines@.len(),
                out_off <= buf@.len(),
                lines@.len() + 1024 <= buf@.len(),
                before_in as nat == fed(z0).len(),
                before_out as nat == emitted(z0).len(),
                fed(self.z) == fed(z0) + lines@.take(in_off as int),
                emitted(self.z) == emitted(z0) + buf@.take(out_off as int),
                rounds == 0 ==> self.z == z0 && in_off == 0 && out_off == 0 && !done && buf@.len()
                    == lines@.len() + 1024,
                rounds > 0 && quiet(z0) && out_off < lines@.len() + 1024 ==> done && quiet(self.z)
                    && settled(self.z) && in_off == lines@.len() && at_sync(
                    buf@.take(out_off as int),
                ),
                rounds > 0 && quiet(z0) && lines@.len() <= OWED_LINES ==> out_off < lines@.len()
                    + 1024,
                rounds > 0 && regular(z0) && out_off < lines@.len() + 1024 ==> out_off >= 4
                    && regular(self.z) && flushed(self.z) == flushed(z0).push(lines@) && (
                flushed(z0).len() > 0 ==> !starts_stream(buf@[0])),
            decreases (if done { 0int } else { 1 }), usize::MAX - buf@.len(),
        {
            let ghost z = self.z;
            let room: usize = buf.len();
            let ended: bool = match compress_step(&mut self.z, lines, in_off, &mut buf, out_off) {
                Ok(e) => e,
                Err(e) => {
                    return Err(FramingError::Deflate(e));
                },
            };
            let ghost n_in = fed(self.z).len() - fed(z).len();
            let ghost n_out = emitted(self.z).len() - emitted(z).len();
            proof {
                assert(lines@.take(in_off as int) + lines@.skip(in_off as int).take(n_in)
                    =~= lines@.take(in_off + n_in));
                assert(buf@.take(out_off as int) + buf@.skip(out_off as int).take(n_out)
                    =~= buf@.take(out_off + n_out));
                assert(fed(self.z) =~= fed(z0) + lines@.take(in_off + n_in));
                assert(emitted(self.z) =~= emitted(z0) + buf@.take(out_off + n_out));
                assert(fed(self.z).len() == fed(z0).len() + in_off + n_in);
                assert(emitted(self.z).len() == emitted(z0).len() + out_off + n_out);
                if rounds == 0 && quiet(z0) && n_out < lines@.len() + 1024 {
                    assert(fed(self.z).len() == fed(z).len() + lines@.skip(0).len());
                    let tail = buf@.take(out_off + n_out);
                    let e = emitted(self.z);
                    assert(e.skip(e.len() - 4) =~= tail.skip(tail.len() - 4));
                    assert(lines@.skip(0) =~= lines@);
                    assert(e[emitted(z0).len() as int] == buf@[0]);
                }
            }
            let ghost want_in = in_off + n_in;
            let ghost want_out = out_off + n_out;
            assert(want_in <= lines@.len() <= room && want_out <= room);
            in_off = (self.z.total_in() - before_in) as usize;
            out_off = (self.z.total_out() - before_out) as usize;
            assert(in_off == want_in);
            assert(out_off == want_out);
            if ended || (in_off >= lines.len() && ends_with_sync(&buf, out_off)) {
                done = true;
            } else {
                // Need more output room.
                let len: usize = buf.len();
                if len > usize::MAX - 4096 {
                    return Err(FramingError::TooLarge(len));
                }
                let ghost before = buf@;
                buf.resize(len + 4096, 0);
                assert(buf@.take(out_off as int) =~= before.take(out_off as int));
                assert(before.len() > 0 ==> buf@[0] == before[0]);
            }
            if rounds == 0 {
                rounds = 1;
            }
        }
        if in_off < lines.len() || !ends_with_sync(&buf, out_off) {
            return Err(FramingError::TrailerMissing);
        }
        let n: usize = out_off - 4;
        if n > 0xFFFF {
            assert(lines@.take(in_off as int) =~= lines@);
            return Err(FramingError::TooLarge(n));
        }
        let payload = vstd::slice::slice_subrange(buf.as_slice(), 0, n);
        let mut out: Vec<u8> = Vec::new();
        out.push((n / 256) as u8);
        out.push((n % 256) as u8);
        out.extend_from_slice(payload);
        proof {
            assert(out@.skip(2) =~= buf@.take(n as int));
            assert(out@ =~= framed(out@.skip(2)));
            let whole = buf@.take(out_off as int);
            assert(whole.skip(whole.len() - 4) == trailer());
            assert(whole =~= buf@.take(n as int) + whole.skip(n as int));
            assert(emitted(self.z) =~= emitted(z0) + out@.skip(2) + trailer());
            assert(lines@.take(in_off as int) =~= lines@);
            assert(whole =~= out@.skip(2) + trailer());
            assert(whole[0] == buf@[0]);
        }
        Ok(out)
    }
}

/// Stateful decoder, the mirror image. Feed whole frames, with length header.
#[derive(Debug)]
pub struct ZlibFrameDecoder {
    z: flate2::Decompress,
}

impl Default for ZlibFrameDecoder {
    fn default() -> (r: Self)
        ensures
            taken(r.stream()) == Seq::<u8>::empty(),
            restored(r.stream()) == Seq::<u8>::empty(),
    {
        Self::new()
    }
}

impl ZlibFrameDecoder {
    pub closed spec fn stream(&self) -> flate2::Decompress {
        self.z
    }

    pub fn new() -> (r: Self)
        ensures
            taken(r.stream()) == Seq::<u8>::empty(),
            restored(r.stream()) == Seq::<u8>::empty(),
    {
        ZlibFrameDecoder { z: new_decompress() }
    }

    /// Decode one frame; returns the decompressed JSON lines, all of them: the
    /// decompressor is read until it holds nothing back.
    pub fn decode_frame(&mut self, frame: &[u8]) -> (r: Result<Vec<u8>, FramingError>)
        ensures
            frame@.len() < 2 <==> r matches Err(FramingError::ShortFrame),
            (frame@.len() >= 2 && frame@[0] * 256 + frame@[1] != frame@.len() - 2) <==> (
            r matches Err(FramingError::LengthHeader { .. })),
            r matches Err(FramingError::LengthHeader { want, got }) ==> want == frame@[0] * 256
                + frame@[1] && got == frame@.len() - 2,
            r matches Ok(lines) ==> restored(final(self).stream()) == restored(old(self).stream())
                + lines@,
            decodable(old(self).stream(), frame@) ==> (r matches Ok(lines) && frame_decoded(
                old(self).stream(),
                final(self).stream(),
                frame@,
                lines@,
            )),
            headless(old(self).stream(), frame@) ==> r matches Err(FramingError::Inflate(_)),
            r matches Err(FramingError::TooLarge(n)) ==> overfull(
                old(self).stream(),
                final(self).stream(),
                n,
            ),
            r matches Err(e) ==> e is ShortFrame || e is LengthHeader || e is Inflate
                || e is TooLarge,
            (r matches Err(FramingError::ShortFrame)) || (r matches Err(
                FramingError::LengthHeader { .. },
            )) ==> *final(self) == *old(self),
    {
        let ghost d0 = self.z;
        if frame.len() < 2 {
            return Err(FramingError::ShortFrame);
        }
        let want: usize = frame[0] as usize * 256 + frame[1] as usize;
        let got: usize = frame.len() - 2;
        if got != want {
            return Err(FramingError::LengthHeader { want, got });
        }
        // Put the trailer back that the sender stripped, so that the flush point is
        // seen.
        let mut input: Vec<u8> = Vec::new();
        input.extend_from_slice(vstd::slice::slice_subrange(frame, 2, frame.len()));
        input.push(0x00);
        input.push(0x00);
        input.push(0xFF);
        input.push(0xFF);
        let ghost all = taken(d0) + frame@.skip(2) + trailer();
        assert(input@ =~= frame@.skip(2) + trailer());
        let mut out: Vec<u8> = vec![0u8; 0x1_0000];
        let before_in: u64 = self.z.total_in();
        let before_out: u64 = self.z.total_out();
        let mut in_off: usize = 0;
        let mut out_off: usize = 0;
        let mut done: bool = false;
        proof {
            assert(taken(d0) + input@.take(0) =~= taken(d0));
            assert(restored(d0) + out@.take(0) =~= restored(d0));
        }
        while !done
            invariant
                in_off <= input@.len(),
                out_off < out@.len(),
                input@ == frame@.skip(2) + trailer(),
                all == taken(d0) + frame@.skip(2) + trailer(),
                before_in as nat == taken(d0).len(),
                before_out as nat == restored(d0).len(),
                taken(self.z) == taken(d0) + input@.take(in_off as int),
                restored(self.z) == restored(d0) + out@.take(out_off as int),
                taken(d0).len() == 0 && !starts_stream(input@[0]) ==> in_off == 0 && self.z == d0
                    && !done,
                sound(all) && done ==> in_off == input@.len() && restored(self.z) == inflated(
                    taken(self.z),
                ),
                frame@.len() >= 2,
                frame@[0] * 256 + frame@[1] == frame@.len() - 2,
                old(self).stream() == d0,
            decreases
                    (if done { 0int } else { 1 }),
                    (input@.len() - in_off) + (usize::MAX - out_off),
        {
            let ghost d = self.z;
            let room: usize = out.len();
            let all_in: usize = input.len();
            proof {
                assert(taken(d) + input@.skip(in_off as int) =~= all);
            }
            let ended: bool = match decompress_step(&mut self.z, &input, in_off, &mut out, out_off) {
                Ok(e) => e,
                Err(e) => {
                    return Err(FramingError::Inflate(e));
                },
            };
            let ghost n_in = taken(self.z).len() - taken(d).len();
            let ghost n_out = restored(self.z).len() - restored(d).len();
            proof {
                assert(input@.take(in_off as int) + input@.skip(in_off as int).take(n_in)
                    =~= input@.take(in_off + n_in));
                assert(out@.take(out_off as int) + out@.skip(out_off as int).take(n_out)
                    =~= out@.take(out_off + n_out));
                assert(taken(self.z) =~= taken(d0) + input@.take(in_off + n_in));
                assert(restored(self.z) =~= restored(d0) + out@.take(out_off + n_out));
                assert(taken(self.z).len() == taken(d0).len() + in_off + n_in);
                assert(restored(self.z).len() == restored(d0).len() + out_off + n_out);
            }
            let was_in: usize = in_off;
            let was_out: usize = out_off;
            let ghost want_in = in_off + n_in;
            let ghost want_out = out_off + n_out;
            assert(want_in <= all_in && want_out <= room);
            in_off = (self.z.total_in() - before_in) as usize;
            out_off = (self.z.total_out() - before_out) as usize;
            assert(in_off == want_in);
            assert(out_off == want_out);
            if out_off == out.len() {
                let len: usize = out.len();
                if len > usize::MAX - 0x1_0000 {
                    return Err(FramingError::TooLarge(len));
                }
                let ghost before = out@;
                out.resize(len + 0x1_0000, 0);
                assert(out@.take(out_off as int) =~= before.take(out_off as int));
            }
            if ended {
                done = true;
            } else if in_off == was_in && out_off == was_out {
                proof {
                    assert(taken(self.z).len() == taken(d).len());
                    assert(restored(self.z) =~= restored(d));
                }
                done = true;
            }
        }
        let kept = vstd::slice::slice_subrange(out.as_slice(), 0, out_off);
        let mut lines: Vec<u8> = Vec::new();
        lines.extend_from_slice(kept);
        proof {
            assert(lines@ =~= out@.take(out_off as int));
            assert(input@.take(input@.len() as int) =~= input@);
            assert(taken(d0) + input@ =~= all);
        }
        Ok(lines)
    }
}

/// An encoder and a decoder are in step: everything encoded has been decoded.
pub open spec fn in_step(z: flate2::Compress, d: flate2::Decompress) -> bool {
    &&& quiet(z)
    &&& taken(d) == emitted(z)
    &&& restored(d) == fed(z)
}

/// Decoding a frame gives the lines back that were encoded, on any pair of streams
/// in step, and leaves them in step: the state carries across frames.
pub proof fn law_frames_round_trip(
    z0: flate2::Compress,
    z1: flate2::Compress,
    d0: flate2::Decompress,
    d1: flate2::Decompress,
    lines: Seq<u8>,
    frame: Seq<u8>,
    decoded: Seq<u8>,
)
    requires
        in_step(z0, d0),
        frame_encoded(z0, z1, lines, frame),
        lines.len() <= OWED_LINES || fits_first_buffer(lines, frame),
        frame_decoded(d0, d1, frame, decoded),
    ensures
        decoded == lines,
        in_step(z1, d1),
{
    assert(fed(z0) + decoded == fed(z0) + lines);
    assert(decoded =~= (fed(z0) + decoded).skip(fed(z0).len() as int));
    assert(lines =~= (fed(z0) + lines).skip(fed(z0).len() as int));
}

/// A frame made in step is one that the decoder owes the lines of.
pub proof fn law_frames_are_decodable(
    z0: flate2::Compress,
    z1: flate2::Compress,
    d0: flate2::Decompress,
    lines: Seq<u8>,
    frame: Seq<u8>,
)
    requires
        in_step(z0, d0),
        frame_encoded(z0, z1, lines, frame),
        lines.len() <= OWED_LINES || fits_first_buffer(lines, frame),
        lines.len() <= usize::MAX - 0x1_0000,
    ensures
        decodable(d0, frame),
{
    lemma_header(frame);
}

proof fn lemma_header(frame: Seq<u8>)
    requires
        2 <= frame.len() <= 2 + 0xFFFF,
        frame == framed(frame.skip(2)),
    ensures
        header_matches(frame),
{
    let n = frame.skip(2).len() as int;
    assert(frame[0] == be16(n)[0] && frame[1] == be16(n)[1]);
}

/// Streams that were fed the same lines in the same frames make the same frame of the
/// same lines, and then still have been: the frames depend on the lines alone.
pub proof fn law_equal_lines_make_equal_frames(
    y0: flate2::Compress,
    y1: flate2::Compress,
    z0: flate2::Compress,
    z1: flate2::Compress,
    lines: Seq<u8>,
    f: Seq<u8>,
    g: Seq<u8>,
)
    requires
        regular(y0),
        regular(z0),
        flushed(y0) == flushed(z0),
        frame_encoded(y0, y1, lines, f),
        frame_encoded(z0, z1, lines, g),
        lines.len() <= OWED_LINES || fits_first_buffer(lines, f) && fits_first_buffer(lines, g),
    ensures
        f == g,
        regular(y1),
        regular(z1),
        flushed(y1) == flushed(z1),
{
    let (a, b) = (f.skip(2), g.skip(2));
    let n = emitted(y0).len() as int;
    assert(emitted(y1) =~= emitted(y0) + (a + trailer()));
    assert(emitted(z1) =~= emitted(z0) + (b + trailer()));
    assert(emitted(y1).skip(n) =~= a + trailer());
    assert(emitted(z1).skip(n) =~= b + trailer());
    assert((a + trailer()).take(a.len() as int) =~= a);
    assert((b + trailer()).take(b.len() as int) =~= b);
}

/// A frame behind the first cannot be read without those before it: a decoder that
/// has read none refuses it.
pub proof fn law_later_frames_need_earlier_ones(
    z0: flate2::Compress,
    z1: flate2::Compress,
    d: flate2::Decompress,
    lines: Seq<u8>,
    frame: Seq<u8>,
)
    requires
        regular(z0),
        flushed(z0).len() > 0,
        frame_encoded(z0, z1, lines, frame),
        lines.len() <= OWED_LINES || fits_first_buffer(lines, frame),
        taken(d).len() == 0,
    ensures
        headless(d, frame),
{
    lemma_header(frame);
}

} // verus!
