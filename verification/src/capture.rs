//! The MBC capture container: one record stream per client.
//!
//! A stream is a four-byte magic, one JSON header line, and records of
//! `u64 time | u8 kind | u32 length | payload`, little-endian. On disk a stream is
//! packed with zstd; the record format is a property of the unpacked bytes.

use vstd::prelude::*;
use vstd::string::StringExecFns;

use crate::proto::json::quote;
use crate::proto::messages::hex_encode;
use crate::reading::Reading;
use crate::seed::{push_le64, sha256};
use crate::text::{chars_of, decimal_of, lines_of, same_text, string_of, text_in};

verus! {

/// Client to server bytes.
pub const REC_C2S: u8 = 0x01;

/// Server to client bytes: kept by the recorder, skipped by replay.
pub const REC_S2C: u8 = 0x02;

/// A connection: the payload is the handshake line.
pub const REC_CONNECT: u8 = 0x03;

/// A disconnection, without payload.
pub const REC_DISCONNECT: u8 = 0x04;

/// The level that streams are packed with.
pub const ZSTD_LEVEL: i32 = 3;

/// The capture format that this library writes and reads.
pub const VERSION: u32 = 1;

#[derive(Debug, Clone, Copy, PartialEq, Eq, Structural)]
pub enum CaptureError {
    /// The stream ends inside its start or inside a record.
    Short,
    /// The packed data is damaged, or could not be packed.
    Damaged,
    /// The stream does not start with the magic.
    BadMagic,
    /// The header line, or a file of text lines, is no text.
    NotText,
    /// A payload does not fit the length field of a record.
    TooLong,
}

/// How the unpacked bytes of a file end.
#[derive(Debug, Clone, Copy, PartialEq, Eq, Structural)]
pub enum Ending {
    /// The packed data is complete.
    Whole,
    /// The packed data stops in the middle, as after an interrupted recording.
    Short,
    /// The packed data is damaged behind these bytes.
    Damaged,
}

/// The bytes that `zstd` unpacks from a file, and how they end.
pub uninterp spec fn unpacked(packed: Seq<u8>) -> (Seq<u8>, Ending);

/// `zstd::stream::copy_decode` into memory. What it appends before it returns,
/// and whether it returns `Ok`, the error kind `UnexpectedEof` or another error,
/// depend on the packed bytes alone.
#[verifier::external_body]
fn unpack(packed: &[u8]) -> (r: (Vec<u8>, Ending))
    ensures
        unpacked(packed@) == (r.0@, r.1),
{
    let mut out: Vec<u8> = Vec::new();
    let end = match zstd::stream::copy_decode(packed, &mut out) {
        Ok(()) => Ending::Whole,
        Err(e) if e.kind() == std::io::ErrorKind::UnexpectedEof => Ending::Short,
        Err(_) => Ending::Damaged,
    };
    (out, end)
}

/// The file that `zstd` packs bytes into at a compression level; `None` where it
/// reports an error.
pub uninterp spec fn packed_as(bytes: Seq<u8>, level: i32) -> Option<Seq<u8>>;

/// `zstd::stream::encode_all` of bytes in memory. The file depends on the bytes and
/// the level alone, and it is a complete frame that unpacks to those bytes again.
#[verifier::external_body]
fn pack(bytes: &[u8], level: i32) -> (r: Result<Vec<u8>, std::io::Error>)
    ensures
        match packed_as(bytes@, level) {
            Some(p) => r matches Ok(q) && q@ == p && unpacked(p) == (bytes@, Ending::Whole),
            None => r is Err,
        },
{
    zstd::stream::encode_all(bytes, level)
}

/// `std::io::Error`: why a stream could not be packed.
#[verifier::external_type_specification]
#[verifier::external_body]
pub struct ExIoError(std::io::Error);

/// What a record says.
pub ghost struct RecordView {
    pub t_nanos: u64,
    pub kind: u8,
    pub payload: Seq<u8>,
}

/// One entry of a stream.
#[derive(Debug)]
pub struct Record {
    pub t_nanos: u64,
    pub kind: u8,
    pub payload: Vec<u8>,
}

impl View for Record {
    type V = RecordView;

    open spec fn view(&self) -> RecordView {
        RecordView { t_nanos: self.t_nanos, kind: self.kind, payload: self.payload@ }
    }
}

/// The four bytes of a number, least significant first.
pub open spec fn le32(n: u32) -> Seq<u8> {
    seq![
        (n % 256) as u8,
        (n / 256 % 256) as u8,
        (n / 0x1_0000 % 256) as u8,
        (n / 0x100_0000 % 256) as u8,
    ]
}

/// The number that four bytes write, least significant first.
pub open spec fn from_le32(b: Seq<u8>) -> int {
    b[0] + 256 * (b[1] + 256 * (b[2] + 256 * b[3]))
}

/// Writing a number as four bytes and reading it gives it back.
proof fn lemma_le32(n: u32)
    ensures
        from_le32(le32(n)) == n,
        le32(n).len() == 4,
{
    let m = n as int;
    let c1 = m / 256;
    let c2 = m / 0x1_0000;
    let c3 = m / 0x100_0000;
    assert(c2 == c1 / 256);
    assert(c3 == c2 / 256);
    let b = le32(n);
    assert(m == 256 * c1 + b[0]);
    assert(c1 == 256 * c2 + b[1]);
    assert(c2 == 256 * c3 + b[2]);
    assert(c3 == b[3]);
}

/// The bytes of a record.
#[verifier::opaque]
pub open spec fn record_bytes(r: RecordView) -> Seq<u8> {
    crate::seed::le64(r.t_nanos).push(r.kind) + le32(r.payload.len() as u32) + r.payload
}

/// The bytes of a run of records.
pub open spec fn records_bytes(rs: Seq<RecordView>) -> Seq<u8>
    decreases rs.len(),
{
    if rs.len() == 0 {
        seq![]
    } else {
        record_bytes(rs[0]) + records_bytes(rs.drop_first())
    }
}

/// The first four bytes of every stream: `MBC1`.
pub open spec fn magic() -> Seq<u8> {
    seq![77, 66, 67, 49]
}

/// The header line of a stream, without its line feed.
pub open spec fn header_text(id: Seq<char>) -> Seq<char> {
    "{\"id\":"@ + crate::proto::json::quoted(id) + "}"@
}

/// Magic and header line of a client's stream.
pub open spec fn stream_start(id: Seq<char>) -> Seq<u8> {
    magic() + vstd::utf8::encode_utf8(header_text(id)).push(10)
}

/// A payload whose length a record can hold.
pub open spec fn fits(payload: Seq<u8>) -> bool {
    payload.len() <= u32::MAX
}

/// The bytes of one record. `TooLong` where the payload is too long for the length
/// field.
pub fn encode_record(t_nanos: u64, kind: u8, payload: &[u8]) -> (r: Result<Vec<u8>, CaptureError>)
    ensures
        r is Ok <==> fits(payload@),
        r matches Ok(b) ==> b@ == record_bytes(RecordView { t_nanos, kind, payload: payload@ }),
        r matches Err(e) ==> e == CaptureError::TooLong,
{
    let n: usize = payload.len();
    if n as u64 > 0xFFFF_FFFF {
        return Err(CaptureError::TooLong);
    }
    let len: u32 = n as u32;
    let mut out: Vec<u8> = Vec::new();
    push_le64(&mut out, t_nanos);
    out.push(kind);
    out.push((len % 256) as u8);
    out.push((len / 256 % 256) as u8);
    out.push((len / 0x1_0000 % 256) as u8);
    out.push((len / 0x100_0000 % 256) as u8);
    out.extend_from_slice(payload);
    proof {
        reveal(record_bytes);
        assert(out@ =~= record_bytes(RecordView { t_nanos, kind, payload: payload@ }));
    }
    Ok(out)
}

/// The first bytes of a client's stream: magic and header line.
pub fn encode_start(id: &str) -> (r: Vec<u8>)
    ensures
        r@ == stream_start(id@),
{
    let mut text = "{\"id\":".to_owned();
    let q = quote(id);
    text.append(q.as_str());
    text.append("}");
    let mut out: Vec<u8> = Vec::new();
    out.push(77);
    out.push(66);
    out.push(67);
    out.push(49);
    out.extend_from_slice(text.as_str().as_bytes());
    out.push(10);
    assert(out@ =~= stream_start(id@));
    out
}

/// What comes of packing a stream: the packed file, which unpacks to exactly the
/// stream, or `Damaged` where there is none.
pub open spec fn is_file_of(r: Result<Vec<u8>, CaptureError>, stream: Seq<u8>) -> bool {
    match packed_as(stream, ZSTD_LEVEL) {
        Some(p) => r matches Ok(q) && q@ == p && unpacked(p) == (stream, Ending::Whole),
        None => r == Err::<Vec<u8>, CaptureError>(CaptureError::Damaged),
    }
}

/// A client's stream that is being written in memory.
#[derive(Debug)]
pub struct ClientWriter {
    stream: Vec<u8>,
}

impl ClientWriter {
    /// The bytes written so far.
    pub closed spec fn bytes(&self) -> Seq<u8> {
        self.stream@
    }

    pub fn new(id: &str) -> (r: Self)
        ensures
            r.bytes() == stream_start(id@),
    {
        ClientWriter { stream: encode_start(id) }
    }

    /// Appends one record; leaves the stream as it is where the payload is too long.
    pub fn record(&mut self, t_nanos: u64, kind: u8, payload: &[u8]) -> (r: Result<
        (),
        CaptureError,
    >)
        ensures
            r is Ok <==> fits(payload@),
            r is Ok ==> final(self).bytes() == old(self).bytes() + record_bytes(
                RecordView { t_nanos, kind, payload: payload@ },
            ),
            r matches Err(e) ==> e == CaptureError::TooLong && *final(self) == *old(self),
    {
        match encode_record(t_nanos, kind, payload) {
            Ok(b) => {
                self.stream.extend_from_slice(b.as_slice());
                Ok(())
            },
            Err(e) => Err(e),
        }
    }

    /// The file of the stream: packed, and unpacking to exactly what was written;
    /// `Damaged` where the packer reports an error.
    pub fn finish(self) -> (r: Result<Vec<u8>, CaptureError>)
        ensures
            is_file_of(r, self.bytes()),
    {
        match pack(self.stream.as_slice(), ZSTD_LEVEL) {
            Ok(p) => Ok(p),
            Err(_) => Err(CaptureError::Damaged),
        }
    }
}

/// The end of the line that starts at `i`, behind its line feed; `None` where the
/// line has none.
pub open spec fn line_end(b: Seq<u8>, i: int) -> Option<int>
    decreases b.len() - i,
{
    if i < 0 || i >= b.len() {
        None
    } else if b[i] == 10 {
        Some(i + 1)
    } else {
        line_end(b, i + 1)
    }
}

/// What is missing in a stream: the rest of it, or its integrity.
pub open spec fn missing(end: Ending) -> CaptureError {
    if end == Ending::Damaged {
        CaptureError::Damaged
    } else {
        CaptureError::Short
    }
}

/// Reads a packed file of text lines. An error where the packed data is not complete
/// or the file is no text.
pub fn text_lines(packed: &[u8]) -> (r: Result<Vec<String>, CaptureError>)
    ensures
        ({
            let (b, end) = unpacked(packed@);
            if end != Ending::Whole {
                r == Err::<Vec<String>, CaptureError>(missing(end))
            } else if !vstd::utf8::valid_utf8(b) {
                r == Err::<Vec<String>, CaptureError>(CaptureError::NotText)
            } else {
                r matches Ok(l) && crate::text::texts(l@) == crate::text::lines(
                    vstd::utf8::decode_utf8(b),
                )
            }
        }),
{
    let (bytes, end) = unpack(packed);
    match end {
        Ending::Whole => {},
        Ending::Short => {
            return Err(CaptureError::Short);
        },
        Ending::Damaged => {
            return Err(CaptureError::Damaged);
        },
    }
    let text = match text_in(bytes.as_slice()) {
        Some(t) => t,
        None => {
            return Err(CaptureError::NotText);
        },
    };
    let chars = chars_of(text);
    let rows = lines_of(chars.as_slice());
    let ghost all = crate::text::lines(text@);
    assert(all.len() == rows@.len());
    let mut out: Vec<String> = Vec::new();
    let mut i: usize = 0;
    while i < rows.len()
        invariant
            all == crate::text::char_rows(rows@),
            i <= rows@.len(),
            crate::text::texts(out@) =~= all.take(i as int),
        decreases rows@.len() - i,
    {
        let ghost before = crate::text::texts(out@);
        let s = string_of(rows[i].as_slice());
        assert(all[i as int] == s@);
        out.push(s);
        assert(crate::text::texts(out@) =~= before.push(s@));
        i = i + 1;
    }
    assert(crate::text::texts(out@) =~= all);
    Ok(out)
}

/// Where the header line of a stream ends. A complete stream may lack the line
/// feed.
pub open spec fn header_end(b: Seq<u8>, end: Ending) -> Option<int> {
    match line_end(b, 4) {
        Some(e) => Some(e),
        None => if end == Ending::Whole {
            Some(b.len() as int)
        } else {
            None
        },
    }
}

/// Where the records of a stream start, or why there are none to read.
pub open spec fn records_start(b: Seq<u8>, end: Ending) -> Result<int, CaptureError> {
    if b.len() < 4 {
        Err(missing(end))
    } else if b.take(4) != magic() {
        Err(CaptureError::BadMagic)
    } else {
        match header_end(b, end) {
            None => Err(missing(end)),
            Some(e) => if vstd::utf8::valid_utf8(b.subrange(4, e)) {
                Ok(e)
            } else {
                Err(CaptureError::NotText)
            },
        }
    }
}

/// One step of reading records.
pub ghost enum Step {
    /// No further record.
    End,
    /// The stream breaks off inside a record.
    Broken(CaptureError),
    /// A record, and where the next one starts.
    Got(RecordView, int),
}

/// The record that starts at `i`. Fewer bytes than a time are no record.
pub open spec fn step(b: Seq<u8>, i: int, end: Ending) -> Step {
    let left = b.len() - i;
    if left < 8 {
        if end == Ending::Damaged {
            Step::Broken(CaptureError::Damaged)
        } else {
            Step::End
        }
    } else if left < 13 {
        Step::Broken(missing(end))
    } else {
        let n = from_le32(b.subrange(i + 9, i + 13));
        if left < 13 + n {
            Step::Broken(missing(end))
        } else {
            Step::Got(
                RecordView {
                    t_nanos: crate::seed::from_le64(b.subrange(i, i + 8)) as u64,
                    kind: b[i + 8],
                    payload: b.subrange(i + 13, i + 13 + n),
                },
                i + 13 + n,
            )
        }
    }
}

/// All records from `i` on, and the error that ends them, if one does.
pub open spec fn all_records(b: Seq<u8>, i: int, end: Ending) -> (
    Seq<RecordView>,
    Option<CaptureError>,
)
    decreases b.len() - i,
{
    match step(b, i, end) {
        Step::End => (seq![], None),
        Step::Broken(e) => (seq![], Some(e)),
        Step::Got(r, next) => if i < next <= b.len() {
            let rest = all_records(b, next, end);
            (seq![r] + rest.0, rest.1)
        } else {
            (seq![], None)
        },
    }
}

fn le32_at(b: &[u8], i: usize) -> (r: u32)
    requires
        i + 4 <= b.len(),
    ensures
        r == from_le32(b@.subrange(i as int, i + 4)),
{
    b[i] as u32 + 256 * (b[i + 1] as u32 + 256 * (b[i + 2] as u32 + 256 * b[i + 3] as u32))
}

fn le64_at(b: &[u8], i: usize) -> (r: u64)
    requires
        i + 8 <= b.len(),
    ensures
        r == crate::seed::from_le64(b@.subrange(i as int, i + 8)),
{
    let lo: u64 = b[i] as u64 + 256 * (b[i + 1] as u64 + 256 * (b[i + 2] as u64 + 256 * b[i
        + 3] as u64));
    let hi: u64 = b[i + 4] as u64 + 256 * (b[i + 5] as u64 + 256 * (b[i + 6] as u64 + 256 * b[i
        + 7] as u64));
    lo + 0x1_0000_0000 * hi
}

/// The records of a client's stream, read one after the other.
#[derive(Debug)]
pub struct RecordIter {
    bytes: Vec<u8>,
    pos: usize,
    end: Ending,
}

impl RecordIter {
    pub closed spec fn bytes(&self) -> Seq<u8> {
        self.bytes@
    }

    pub closed spec fn pos(&self) -> int {
        self.pos as int
    }

    pub closed spec fn end(&self) -> Ending {
        self.end
    }

    /// The records that are still to come, and the error that ends them, if one
    /// does.
    pub open spec fn rest(&self) -> (Seq<RecordView>, Option<CaptureError>) {
        all_records(self.bytes(), self.pos(), self.end())
    }

    pub closed spec fn wf(&self) -> bool {
        self.pos <= self.bytes@.len()
    }

    /// Opens the file of a stream and passes over its magic and header line.
    pub fn open(packed: &[u8]) -> (r: Result<Self, CaptureError>)
        ensures
            match records_start(unpacked(packed@).0, unpacked(packed@).1) {
                Ok(i) => r matches Ok(it) && it.wf() && it.bytes() == unpacked(packed@).0
                    && it.pos() == i && it.end() == unpacked(packed@).1,
                Err(e) => r matches Err(f) && e == f,
            },
    {
        let (bytes, end) = unpack(packed);
        RecordIter::over(bytes, end)
    }

    /// The records of an unpacked stream that ends in a given way.
    pub fn over(bytes: Vec<u8>, end: Ending) -> (r: Result<Self, CaptureError>)
        ensures
            match records_start(bytes@, end) {
                Ok(i) => r matches Ok(it) && it.wf() && it.bytes() == bytes@ && it.pos() == i
                    && it.end() == end,
                Err(e) => r matches Err(f) && e == f,
            },
    {
        let broken = if end == Ending::Damaged {
            CaptureError::Damaged
        } else {
            CaptureError::Short
        };
        if bytes.len() < 4 {
            return Err(broken);
        }
        if !(bytes[0] == 77 && bytes[1] == 66 && bytes[2] == 67 && bytes[3] == 49) {
            assert(bytes@.take(4)[0] != magic()[0] || bytes@.take(4)[1] != magic()[1]
                || bytes@.take(4)[2] != magic()[2] || bytes@.take(4)[3] != magic()[3]);
            return Err(CaptureError::BadMagic);
        }
        assert(bytes@.take(4) =~= magic());
        let mut i: usize = 4;
        let mut found: bool = false;
        while i < bytes.len() && !found
            invariant
                4 <= i <= bytes@.len(),
                !found ==> line_end(bytes@, 4) == line_end(bytes@, i as int),
                found ==> line_end(bytes@, 4) == Some(i as int),
            decreases bytes@.len() - i,
        {
            if bytes[i] == 10 {
                found = true;
            }
            i = i + 1;
        }
        if !found && end != Ending::Whole {
            return Err(broken);
        }
        let header = vstd::slice::slice_subrange(bytes.as_slice(), 4, i);
        if text_in(header).is_none() {
            return Err(CaptureError::NotText);
        }
        Ok(RecordIter { bytes, pos: i, end })
    }

    /// The next record; `None` at the end of the stream. A stream that breaks off
    /// gives its error instead, and nothing behind it is read.
    pub fn next(&mut self) -> (r: Option<Result<Record, CaptureError>>)
        requires
            old(self).wf(),
        ensures
            final(self).wf(),
            final(self).bytes() == old(self).bytes(),
            final(self).end() == old(self).end(),
            match step(old(self).bytes(), old(self).pos(), old(self).end()) {
                Step::End => r is None && final(self).pos() == old(self).bytes().len(),
                Step::Broken(e) => r == Some(Err::<Record, CaptureError>(e)) && final(self).pos()
                    == old(self).bytes().len(),
                Step::Got(rec, next) => r matches Some(Ok(got)) && got@ == rec
                    && final(self).pos() == next && old(self).pos() < next,
            },
    {
        let broken = if self.end == Ending::Damaged {
            CaptureError::Damaged
        } else {
            CaptureError::Short
        };
        let n: usize = self.bytes.len();
        let left: usize = n - self.pos;
        if left < 8 {
            self.pos = n;
            return if self.end == Ending::Damaged {
                Some(Err(CaptureError::Damaged))
            } else {
                None
            };
        }
        if left < 13 {
            self.pos = n;
            return Some(Err(broken));
        }
        let p: usize = self.pos;
        let len: u32 = le32_at(self.bytes.as_slice(), p + 9);
        if (left - 13) as u64 >= len as u64 {
            let t_nanos: u64 = le64_at(self.bytes.as_slice(), p);
            let kind: u8 = self.bytes[p + 8];
            let stop: usize = p + 13 + len as usize;
            let mut payload: Vec<u8> = Vec::new();
            payload.extend_from_slice(
                vstd::slice::slice_subrange(self.bytes.as_slice(), p + 13, stop),
            );
            assert(payload@ =~= self.bytes@.subrange(p + 13, stop as int));
            self.pos = stop;
            return Some(Ok(Record { t_nanos, kind, payload }));
        }
        self.pos = n;
        Some(Err(broken))
    }

    /// Every record that is left, in order, and the error that ends them, if one
    /// does.
    pub fn collect_all(self) -> (r: (Vec<Record>, Option<CaptureError>))
        requires
            self.wf(),
        ensures
            r.0@.map_values(|x: Record| x@) == self.rest().0,
            r.1 == self.rest().1,
    {
        let mut it = self;
        let mut out: Vec<Record> = Vec::new();
        let ghost whole = self.rest();
        loop
            invariant
                it.wf(),
                whole == self.rest(),
                whole.0 =~= out@.map_values(|x: Record| x@) + it.rest().0,
                whole.1 == it.rest().1,
            decreases it.bytes().len() - it.pos(),
        {
            let ghost before = it;
            match it.next() {
                None => {
                    assert(before.rest() == (Seq::<RecordView>::empty(), None::<CaptureError>));
                    return (out, None);
                },
                Some(Err(e)) => {
                    return (out, Some(e));
                },
                Some(Ok(rec)) => {
                    let ghost prev = out@;
                    out.push(rec);
                    proof {
                        assert(out@.map_values(|x: Record| x@) =~= prev.map_values(
                            |x: Record| x@,
                        ).push(rec@));
                        assert(before.rest().0 =~= seq![rec@] + it.rest().0);
                    }
                },
            }
        }
    }
}

/// A character other than the line feed is encoded without its byte.
proof fn lemma_scalar_no_line_feed(ch: char)
    requires
        ch != '\n',
    ensures
        !vstd::utf8::encode_scalar(ch as u32).contains(10),
{
    let v = ch as u32;
    vstd::utf8::char_is_scalar(ch);
    assert(v != 10);
    assert(v <= 0x7F && v != 10 ==> (v & 0x7F) as u8 != 10) by (bit_vector);
    assert((0xC0 | ((v >> 6) & 0x1F) as u8) >= 0x80 && (0xE0 | ((v >> 12) & 0x0F) as u8) >= 0x80
        && (0xF0 | ((v >> 18) & 0x7) as u8) >= 0x80 && (0x80 | (v & 0x3F) as u8) >= 0x80 && (0x80
        | ((v >> 6) & 0x3F) as u8) >= 0x80 && (0x80 | ((v >> 12) & 0x3F) as u8) >= 0x80)
        by (bit_vector);
}

/// Text without a line feed is encoded without its byte.
proof fn lemma_no_line_feed(s: Seq<char>)
    requires
        !s.contains('\n'),
    ensures
        !vstd::utf8::encode_utf8(s).contains(10),
    decreases s.len(),
{
    if s.len() > 0 {
        let rest = s.drop_first();
        assert(!rest.contains('\n')) by {
            if rest.contains('\n') {
                let k = choose|k: int| 0 <= k < rest.len() && rest[k] == '\n';
                assert(s[k + 1] == '\n');
            }
        }
        lemma_no_line_feed(rest);
        assert(s[0] != '\n');
        lemma_scalar_no_line_feed(s[0]);
        let a = vstd::utf8::encode_scalar(s[0] as u32);
        let b = vstd::utf8::encode_utf8(rest);
        if (a + b).contains(10) {
            let k = choose|k: int| 0 <= k < (a + b).len() && (a + b)[k] == 10;
            if k < a.len() {
                assert(a[k] == 10);
            } else {
                assert(b[k - a.len()] == 10);
            }
        }
    }
}

proof fn lemma_line_end(b: Seq<u8>, i: int, n: int)
    requires
        0 <= i <= n < b.len(),
        b[n] == 10,
        forall|k: int| i <= k < n ==> b[k] != 10,
    ensures
        line_end(b, i) == Some(n + 1),
    decreases n - i,
{
    if i < n {
        lemma_line_end(b, i + 1, n);
    }
}

/// A header line is one line of text.
proof fn lemma_header(id: Seq<char>)
    ensures
        !header_text(id).contains('\n'),
        !vstd::utf8::encode_utf8(header_text(id)).contains(10),
        vstd::utf8::valid_utf8(vstd::utf8::encode_utf8(header_text(id)).push(10)),
{
    let h = header_text(id);
    reveal_strlit("{\"id\":");
    reveal_strlit("}");
    crate::proto::json::lemma_quoted_one_line(id);
    if h.contains('\n') {
        let k = choose|k: int| 0 <= k < h.len() && h[k] == '\n';
        let q = crate::proto::json::quoted(id);
        if 6 <= k < 6 + q.len() {
            assert(q[k - 6] == '\n');
        }
    }
    lemma_no_line_feed(h);
    let e = vstd::utf8::encode_utf8(h);
    vstd::utf8::encode_utf8_valid_utf8(h);
    let nl = seq!['\n'];
    vstd::utf8::encode_utf8_valid_utf8(nl);
    assert(vstd::utf8::encode_utf8(nl) =~= seq![10u8]) by {
        reveal_with_fuel(vstd::utf8::encode_utf8, 2);
        assert((10u32 & 0x7F) as u8 == 10) by (bit_vector);
    }
    vstd::utf8::valid_utf8_concat(e, seq![10u8]);
    assert(e + seq![10u8] =~= e.push(10));
}

/// A stream reads back as it was written: the same records in the same order, with
/// the same times, kinds and payloads, and nothing else.
pub proof fn law_stream_round_trip(id: Seq<char>, rs: Seq<RecordView>)
    requires
        forall|k: int| 0 <= k < rs.len() ==> fits(#[trigger] rs[k].payload),
    ensures
        ({
            let b = stream_start(id) + records_bytes(rs);
            let i = stream_start(id).len() as int;
            &&& records_start(b, Ending::Whole) == Ok::<int, CaptureError>(i)
            &&& all_records(b, i, Ending::Whole) == (rs, None::<CaptureError>)
        }),
{
    let start = stream_start(id);
    let b = start + records_bytes(rs);
    let h = vstd::utf8::encode_utf8(header_text(id));
    lemma_header(id);
    let n = 4 + h.len() as int;
    assert forall|k: int| 4 <= k < n implies b[k] != 10 by {
        assert(b[k] == h[k - 4]);
    }
    assert(b[n] == 10);
    lemma_line_end(b, 4, n);
    assert(b.take(4) =~= magic());
    assert(b.subrange(4, n + 1) =~= h.push(10));
    assert(b + seq![] =~= b);
    lemma_cut_records(start, rs, seq![], Ending::Whole);
}

/// An interrupted recording loses only its last record: a stream cut anywhere
/// behind its header still gives every record that is complete.
pub proof fn law_cut_stream_keeps_complete_records(
    id: Seq<char>,
    rs: Seq<RecordView>,
    tail: Seq<u8>,
    end: Ending,
)
    requires
        forall|k: int| 0 <= k < rs.len() ==> fits(#[trigger] rs[k].payload),
        step(stream_start(id) + records_bytes(rs) + tail, (stream_start(id) + records_bytes(
            rs,
        )).len() as int, end) !is Got,
    ensures
        all_records(
            stream_start(id) + records_bytes(rs) + tail,
            stream_start(id).len() as int,
            end,
        ).0 == rs,
{
    lemma_cut_records(stream_start(id), rs, tail, end);
}

/// A record is read back where it stands.
proof fn lemma_record_at(pre: Seq<u8>, r: RecordView, after: Seq<u8>, end: Ending)
    requires
        fits(r.payload),
    ensures
        step(pre + record_bytes(r) + after, pre.len() as int, end) == Step::Got(
            r,
            (pre + record_bytes(r)).len() as int,
        ),
        record_bytes(r).len() > 0,
{
    reveal(record_bytes);
    let b = pre + record_bytes(r) + after;
    let i = pre.len() as int;
    crate::seed::lemma_le64(r.t_nanos);
    lemma_le32(r.payload.len() as u32);
    assert(b.subrange(i, i + 8) =~= crate::seed::le64(r.t_nanos));
    assert(b.subrange(i + 9, i + 13) =~= le32(r.payload.len() as u32));
    assert(b[i + 8] == r.kind);
    assert(b.subrange(i + 13, i + 13 + r.payload.len()) =~= r.payload);
}

proof fn lemma_cut_records(pre: Seq<u8>, rs: Seq<RecordView>, tail: Seq<u8>, end: Ending)
    requires
        forall|k: int| 0 <= k < rs.len() ==> fits(#[trigger] rs[k].payload),
        step(pre + records_bytes(rs) + tail, (pre + records_bytes(rs)).len() as int, end) !is Got,
    ensures
        all_records(pre + records_bytes(rs) + tail, pre.len() as int, end) == (
            rs,
            all_records(
                pre + records_bytes(rs) + tail,
                (pre + records_bytes(rs)).len() as int,
                end,
            ).1,
        ),
    decreases rs.len(),
{
    let b = pre + records_bytes(rs) + tail;
    let i = pre.len() as int;
    if rs.len() == 0 {
        assert(rs =~= seq![]);
        assert(pre + records_bytes(rs) =~= pre);
    } else {
        let r = rs[0];
        let one = record_bytes(r);
        let rest = rs.drop_first();
        assert(fits(r.payload));
        assert(b =~= pre + one + (records_bytes(rest) + tail));
        lemma_record_at(pre, r, records_bytes(rest) + tail, end);
        assert(b =~= (pre + one) + records_bytes(rest) + tail);
        assert((pre + records_bytes(rs)) =~= (pre + one) + records_bytes(rest));
        assert forall|k: int| 0 <= k < rest.len() implies fits(#[trigger] rest[k].payload) by {
            assert(rest[k] == rs[k + 1]);
        }
        lemma_cut_records(pre + one, rest, tail, end);
        assert(rs =~= seq![r] + rest);
    }
}

/// A client of a capture.
#[derive(Debug)]
pub struct ClientEntry {
    pub id: String,
    /// The stream's file, relative to the capture.
    pub file: String,
    pub clock_type: String,
    pub compress: String,
    pub lat: Reading,
    pub lon: Reading,
    pub alt_m: Reading,
}

/// The table of contents of a capture.
#[derive(Debug)]
pub struct Manifest {
    pub format: String,
    pub version: u32,
    pub name: String,
    pub seed: u64,
    pub duration_s: u64,
    /// SHA-256 of the scenario text; empty for recordings of real feeders.
    pub scenario_sha256: String,
    pub clients: Vec<ClientEntry>,
}

impl Manifest {
    /// The capture format is the one that this library reads.
    pub open spec fn is_supported(&self) -> bool {
        self.format@ == "mbc"@ && self.version == VERSION
    }

    /// The manifest of a capture that this library writes.
    pub fn new(
        name: String,
        seed: u64,
        duration_s: u64,
        scenario_sha256: String,
        clients: Vec<ClientEntry>,
    ) -> (r: Self)
        ensures
            r.is_supported(),
            r.name == name,
            r.seed == seed,
            r.duration_s == duration_s,
            r.scenario_sha256 == scenario_sha256,
            r.clients == clients,
    {
        Manifest {
            format: "mbc".to_owned(),
            version: VERSION,
            name,
            seed,
            duration_s,
            scenario_sha256,
            clients,
        }
    }

    /// Accepts a manifest of a capture that this library reads, and says otherwise
    /// which format it names.
    pub fn check(&self) -> (r: Result<(), String>)
        ensures
            r is Ok <==> self.is_supported(),
            r matches Err(e) ==> e@ == "unsupported capture format "@ + self.format@ + "v"@
                + crate::text::decimal(self.version as nat),
    {
        if same_text(self.format.as_str(), "mbc") && self.version == VERSION {
            Ok(())
        } else {
            let mut e = "unsupported capture format ".to_owned();
            e.append(self.format.as_str());
            e.append("v");
            let v = decimal_of(self.version as u64);
            e.append(v.as_str());
            Err(e)
        }
    }
}

/// The file of a client's stream, relative to the capture.
pub fn client_file(id: &str) -> (r: String)
    ensures
        r@ == "clients/"@ + id@ + ".mbc.zst"@,
{
    let mut out = "clients/".to_owned();
    out.append(id);
    out.append(".mbc.zst");
    out
}

/// The fingerprint of a scenario: the SHA-256 digest of its text in hexadecimal.
pub fn scenario_digest(toml_text: &str) -> (r: String)
    ensures
        r@ == crate::proto::messages::hex_text(
            crate::seed::sha256_of(vstd::utf8::encode_utf8(toml_text@)),
        ),
{
    let d = sha256(toml_text.as_bytes());
    hex_encode(d.as_slice())
}

} // verus!
