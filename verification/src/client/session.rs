//! A feeder's session with one server: options, handshake, uplink batches,
//! downlink lines and returned positions.

use vstd::prelude::*;
use vstd::string::StringExecFns;

use crate::client::beast::encode;
use crate::icao::Icao;
use crate::modes::frames::df18_airborne_position;
use crate::proto::framing::{FramingError, ZlibFrameDecoder, ZlibFrameEncoder};
use crate::proto::json::{member, member_number, member_text, Number};
use crate::proto::messages::{ClientMsg, ClockType, Compression, Handshake, ServerMsg};
use crate::server::session::split_lines;
use crate::text::{
    check_double, chars_of, hex_of, parse_hex_u32, same_text, signed_decimal_of, split_on,
    string_of, trim, uppercase,
};

verus! {

// ------------------------------------------------------------------- options

/// The clock of an input type; `None` for a type that is not implemented.
pub open spec fn input_clock_named(s: Seq<char>) -> Option<ClockType> {
    if s == "auto"@ || s == "dump1090"@ {
        Some(ClockType::Dump1090)
    } else if s == "beast"@ {
        Some(ClockType::Beast)
    } else if s == "radarcape_12mhz"@ {
        Some(ClockType::Radarcape12Mhz)
    } else {
        None
    }
}

/// The clock of an input type; see `input_clock_named`.
pub fn input_clock(s: &str) -> (r: Option<ClockType>)
    ensures
        r == input_clock_named(s@),
{
    if same_text(s, "auto") || same_text(s, "dump1090") {
        Some(ClockType::Dump1090)
    } else if same_text(s, "beast") {
        Some(ClockType::Beast)
    } else if same_text(s, "radarcape_12mhz") {
        Some(ClockType::Radarcape12Mhz)
    } else {
        None
    }
}

/// An altitude option: its number, and whether it is in feet.
#[derive(Debug)]
pub struct Altitude {
    pub number: String,
    pub feet: bool,
}

/// `s` ends with `suffix`.
pub open spec fn ends_with(s: Seq<char>, suffix: Seq<char>) -> bool {
    s.len() >= suffix.len() && s.skip(s.len() - suffix.len()) == suffix
}

/// The number part of an altitude and whether it is in feet: a bare number or one
/// with `m` is in meters, one with `ft` in feet.
pub open spec fn altitude_parts(s: Seq<char>) -> (Seq<char>, bool) {
    let t = crate::text::trimmed(s);
    if ends_with(t, "ft"@) {
        (crate::text::trimmed(t.take(t.len() - 2)), true)
    } else if ends_with(t, "m"@) {
        (crate::text::trimmed(t.take(t.len() - 1)), false)
    } else {
        (crate::text::trimmed(t), false)
    }
}

/// Reads an altitude option; `None` where it holds no number.
pub fn parse_alt(s: &str) -> (r: Option<Altitude>)
    ensures
        r is Some <==> crate::text::is_double(altitude_parts(s@).0),
        r matches Some(a) ==> (a.number@, a.feet) == altitude_parts(s@),
{
    let chars = chars_of(s);
    let t = trim(chars.as_slice());
    let n: usize = t.len();
    proof {
        reveal_strlit("ft");
        reveal_strlit("m");
    }
    let feet: bool = n >= 2 && t[n - 2] == 'f' && t[n - 1] == 't';
    let meters: bool = !feet && n >= 1 && t[n - 1] == 'm';
    proof {
        if n >= 2 {
            let tail = t@.skip(n - 2);
            assert(tail[0] == t@[n - 2] && tail[1] == t@[n - 1]);
            assert(feet <==> tail =~= "ft"@);
        }
        if n >= 1 {
            let tail = t@.skip(n - 1);
            assert(tail[0] == t@[n - 1]);
            assert(t@[n - 1] == 'm' <==> tail =~= "m"@);
        }
    }
    let end: usize = if feet {
        n - 2
    } else if meters {
        n - 1
    } else {
        n
    };
    let part = vstd::slice::slice_subrange(t.as_slice(), 0, end);
    assert(part@ =~= t@.take(end as int));
    assert(t@.take(n as int) =~= t@);
    let num = trim(part);
    if check_double(num.as_slice()) {
        Some(Altitude { number: string_of(num.as_slice()), feet })
    } else {
        None
    }
}

/// Where returned positions go.
#[derive(Debug)]
pub enum ResultSink {
    /// Nowhere.
    Discard,
    /// BaseStation lines, on a port.
    SbsListen(String),
    /// Beast frames, on a port.
    BeastListen(String),
    /// Beast frames, to an address.
    BeastConnect(String),
}

/// A result sink as a mathematical value.
pub ghost enum SinkView {
    Discard,
    SbsListen(Seq<char>),
    BeastListen(Seq<char>),
    BeastConnect(Seq<char>),
}

impl View for ResultSink {
    type V = SinkView;

    open spec fn view(&self) -> SinkView {
        match self {
            ResultSink::Discard => SinkView::Discard,
            ResultSink::SbsListen(p) => SinkView::SbsListen(p@),
            ResultSink::BeastListen(p) => SinkView::BeastListen(p@),
            ResultSink::BeastConnect(a) => SinkView::BeastConnect(a@),
        }
    }
}

/// The sink that a results option names; `None` for anything else.
pub open spec fn sink_named(spec_text: Seq<char>) -> Option<SinkView> {
    let f = crate::text::pieces(spec_text, ',');
    if f.len() == 1 && f[0] == "none"@ {
        Some(SinkView::Discard)
    } else if f.len() == 3 && f[0] == "basestation"@ && f[1] == "listen"@ {
        Some(SinkView::SbsListen(f[2]))
    } else if f.len() == 3 && f[0] == "beast"@ && f[1] == "listen"@ {
        Some(SinkView::BeastListen(f[2]))
    } else if f.len() == 3 && f[0] == "beast"@ && f[1] == "connect"@ {
        Some(SinkView::BeastConnect(f[2]))
    } else {
        None
    }
}

/// Reads a results option; see `sink_named`.
pub fn parse_sink(spec_text: &str) -> (r: Option<ResultSink>)
    ensures
        match r {
            Some(s) => sink_named(spec_text@) == Some(s@),
            None => sink_named(spec_text@) is None,
        },
{
    let chars = chars_of(spec_text);
    let f = split_on(chars.as_slice(), ',');
    let ghost rows = crate::text::char_rows(f@);
    assert(rows.len() == f@.len());
    assert(forall|i: int| 0 <= i < f@.len() ==> rows[i] == (#[trigger] f@[i])@);
    let a = string_of(f[0].as_slice());
    if f.len() == 1 {
        return if same_text(a.as_str(), "none") {
            Some(ResultSink::Discard)
        } else {
            None
        };
    }
    if f.len() != 3 {
        return None;
    }
    let b = string_of(f[1].as_slice());
    let c = string_of(f[2].as_slice());
    if same_text(a.as_str(), "basestation") && same_text(b.as_str(), "listen") {
        Some(ResultSink::SbsListen(c))
    } else if same_text(a.as_str(), "beast") && same_text(b.as_str(), "listen") {
        Some(ResultSink::BeastListen(c))
    } else if same_text(a.as_str(), "beast") && same_text(b.as_str(), "connect") {
        Some(ResultSink::BeastConnect(c))
    } else {
        None
    }
}

/// A letter or a digit of any script.
pub uninterp spec fn alphanumeric(c: char) -> bool;

/// `char::is_alphanumeric`: whether a character is a letter or a digit by its Unicode
/// properties, which the character alone decides.
#[verifier::external_body]
fn is_alphanumeric(c: char) -> (r: bool)
    ensures
        r == alphanumeric(c),
{
    c.is_alphanumeric()
}

/// A server address made fit for a file name.
pub open spec fn server_tag(addr: Seq<char>) -> Seq<char> {
    addr.map_values(
        |c: char|
            if alphanumeric(c) {
                c
            } else {
                '_'
            },
    )
}

/// The file name of the statistics of one of several servers.
pub fn stats_file_name(stem: &str, server: &str) -> (r: String)
    ensures
        r@ == stem@ + "-"@ + server_tag(server@) + ".json"@,
{
    let chars = chars_of(server);
    let mut tag = String::new();
    let mut i: usize = 0;
    while i < chars.len()
        invariant
            chars@ == server@,
            i <= chars@.len(),
            tag@ =~= server_tag(server@).take(i as int),
        decreases chars@.len() - i,
    {
        let c: char = chars[i];
        tag.push(
            if is_alphanumeric(c) {
                c
            } else {
                '_'
            },
        );
        i = i + 1;
    }
    assert(tag@ =~= server_tag(server@));
    let mut out = stem.to_owned();
    out.append("-");
    out.append(tag.as_str());
    out.append(".json");
    out
}

/// Seconds to wait before the first reconnection.
pub const BACKOFF_START_S: u64 = 5;

/// Seconds to wait at most.
pub const BACKOFF_LIMIT_S: u64 = 60;

/// How long to wait before the reconnection after one that waited `s`: twice as
/// long, up to a limit.
pub fn next_backoff(s: u64) -> (r: u64)
    ensures
        r == (if 2 * s < BACKOFF_LIMIT_S {
            2 * s
        } else {
            BACKOFF_LIMIT_S as int
        }),
{
    if s < 30 {
        2 * s
    } else {
        BACKOFF_LIMIT_S
    }
}

// ----------------------------------------------------------------- handshake

/// The handshake of a feeder: it prefers the bandwidth mode, sends nothing until
/// asked, and asks for statistics only where it keeps them.
pub fn feeder_handshake(
    user: String,
    uuid: Option<String>,
    lat: Option<Number>,
    lon: Option<Number>,
    alt: Option<Number>,
    clock_type: ClockType,
    want_results: bool,
    want_stats: bool,
    client_version: String,
) -> (r: Handshake)
    ensures
        r.version == 3,
        r.user == user,
        r.uuid == uuid,
        r.compress@ == seq![Compression::Zlib2, Compression::Plain],
        r.lat == lat,
        r.lon == lon,
        r.alt == alt,
        r.clock_type == clock_type,
        r.return_results == Some(want_results),
        r.return_result_format is None,
        r.client_version == Some(client_version),
        r.selective_traffic == Some(true),
        r.heartbeat == Some(true),
        r.return_stats == (if want_stats {
            Some(true)
        } else {
            None
        }),
{
    let mut compress: Vec<Compression> = Vec::new();
    compress.push(Compression::Zlib2);
    compress.push(Compression::Plain);
    assert(compress@ =~= seq![Compression::Zlib2, Compression::Plain]);
    Handshake {
        version: 3,
        user,
        uuid,
        compress,
        lat,
        lon,
        alt,
        clock_type,
        return_results: Some(want_results),
        return_result_format: None,
        client_version: Some(client_version),
        selective_traffic: Some(true),
        heartbeat: Some(true),
        return_stats: if want_stats {
            Some(true)
        } else {
            None
        },
    }
}

/// Why a session does not start.
#[derive(Debug)]
pub enum SessionFault {
    /// The server closed before it replied.
    Closed,
    /// The reply is no handshake reply.
    BadReply(crate::proto::messages::ProtoError),
    /// The server refused; its reply.
    Denied(serde_json::Value),
    /// The reply is some other message.
    Unexpected,
}

/// Reads the reply to a handshake: the compression that the server chose, and its
/// message of the day.
pub fn read_reply(line: &[u8]) -> (r: Result<(Compression, Option<String>), SessionFault>)
    ensures
        line@.len() == 0 <==> r matches Err(SessionFault::Closed),
        line@.len() > 0 ==> match crate::proto::json::json_of(line@) {
            None => r matches Err(
                SessionFault::BadReply(crate::proto::messages::ProtoError::Json(_)),
            ),
            Some(v) => match crate::proto::messages::handshake_reply(v) {
                None => r matches Err(
                    SessionFault::BadReply(
                        crate::proto::messages::ProtoError::BadHandshakeReply(t),
                    ),
                ) && t@ == crate::proto::json::json_text(v),
                Some(crate::proto::messages::ServerView::Deny(d)) => r matches Err(
                    SessionFault::Denied(w),
                ) && crate::proto::json::value_view(w) == d,
                Some(
                    crate::proto::messages::ServerView::HandshakeAccept { compress, motd, .. },
                ) => r matches Ok(a) && a.0 == compress
                    && crate::proto::messages::text_view(a.1) == motd,
                Some(_) => r matches Err(SessionFault::Unexpected),
            },
        },
{
    if line.len() == 0 {
        return Err(SessionFault::Closed);
    }
    match ServerMsg::parse_handshake_reply(line) {
        Err(e) => Err(SessionFault::BadReply(e)),
        Ok(m) => match m {
            ServerMsg::HandshakeAccept { compress, motd, .. } => Ok((compress, motd)),
            ServerMsg::Deny(v) => Err(SessionFault::Denied(v)),
            _ => Err(SessionFault::Unexpected),
        },
    }
}

// -------------------------------------------------------------------- uplink

/// Uncompressed bytes that a batch holds at most: the length field of a frame caps
/// them.
pub const UPLINK_LIMIT: usize = 32768;

/// A batch has to go out before a line joins it.
pub open spec fn overflows(batch: Seq<u8>, line: Seq<u8>) -> bool {
    batch.len() > 0 && batch.len() + line.len() > UPLINK_LIMIT
}

/// The sending side of a session: lines as they are, or batches in frames.
#[derive(Debug)]
pub struct Uplink {
    enc: Option<ZlibFrameEncoder>,
    batch: Vec<u8>,
}

/// A frame could not be made of what waits, which still does; see `frame_refused`.
pub open spec fn frame_failed(before: Uplink, after: Uplink, e: FramingError) -> bool {
    &&& after.waiting() == before.waiting()
    &&& crate::proto::framing::frame_refused(
        before.stream(),
        after.stream(),
        before.waiting(),
        e,
    )
}

impl Uplink {
    /// Lines go out in frames.
    pub closed spec fn framed(&self) -> bool {
        self.enc is Some
    }

    pub closed spec fn stream(&self) -> flate2::Compress {
        self.enc->0.stream()
    }

    /// What waits for the next frame.
    pub closed spec fn waiting(&self) -> Seq<u8> {
        self.batch@
    }

    pub fn new(compress: Compression) -> (r: Self)
        ensures
            r.framed() == (compress != Compression::Plain),
            r.waiting() == Seq::<u8>::empty(),
            r.framed() ==> crate::proto::framing::fresh(r.stream()),
    {
        let enc = match compress {
            Compression::Plain => None,
            _ => Some(ZlibFrameEncoder::new()),
        };
        Uplink { enc, batch: Vec::new() }
    }

    /// What waits goes out as one frame, if anything does.
    pub fn flush(&mut self) -> (r: Result<Option<Vec<u8>>, FramingError>)
        ensures
            final(self).framed() == old(self).framed(),
            !old(self).framed() || old(self).waiting().len() == 0 ==> r == Ok::<
                Option<Vec<u8>>,
                FramingError,
            >(None) && *final(self) == *old(self),
            old(self).framed() && old(self).waiting().len() > 0 ==> {
                &&& r matches Ok(f) ==> f is Some && final(self).waiting() == Seq::<u8>::empty()
                    && crate::proto::framing::frame_encoded(
                    old(self).stream(),
                    final(self).stream(),
                    old(self).waiting(),
                    f->0@,
                )
                &&& r matches Err(e) ==> frame_failed(*old(self), *final(self), e)
            },
    {
        if self.batch.len() == 0 {
            return Ok(None);
        }
        let mut enc = match self.enc.take() {
            Some(e) => e,
            None => {
                return Ok(None);
            },
        };
        let r = enc.encode_frame(self.batch.as_slice());
        self.enc = Some(enc);
        match r {
            Ok(f) => {
                self.batch = Vec::new();
                Ok(Some(f))
            },
            Err(e) => Err(e),
        }
    }

    /// A line is to be sent: what goes out at once, if anything does. A batch that
    /// would grow over the limit goes out first.
    pub fn send(&mut self, line: &[u8]) -> (r: Result<Option<Vec<u8>>, FramingError>)
        ensures
            final(self).framed() == old(self).framed(),
            !old(self).framed() ==> (r matches Ok(Some(b)) && b@ == line@) && final(self).waiting()
                == old(self).waiting(),
            old(self).framed() && !overflows(old(self).waiting(), line@) ==> {
                &&& r matches Ok(None)
                &&& final(self).waiting() == old(self).waiting() + line@
                &&& final(self).stream() == old(self).stream()
            },
            old(self).framed() && overflows(old(self).waiting(), line@) ==> {
                &&& r matches Ok(f) ==> f is Some && final(self).waiting() == line@
                    && crate::proto::framing::frame_encoded(
                    old(self).stream(),
                    final(self).stream(),
                    old(self).waiting(),
                    f->0@,
                )
                &&& r matches Err(e) ==> frame_failed(*old(self), *final(self), e)
            },
    {
        if self.enc.is_none() {
            let mut out: Vec<u8> = Vec::new();
            out.extend_from_slice(line);
            assert(out@ =~= line@);
            return Ok(Some(out));
        }
        let mut out: Option<Vec<u8>> = None;
        if line.len() > UPLINK_LIMIT || self.batch.len() > UPLINK_LIMIT - line.len() {
            match self.flush() {
                Ok(f) => {
                    out = f;
                },
                Err(e) => {
                    return Err(e);
                },
            }
        }
        let ghost waiting = self.waiting();
        self.batch.extend_from_slice(line);
        assert(self.batch@ =~= waiting + line@);
        Ok(out)
    }

    /// A heartbeat is due: it goes out at once, or waits with the next batch.
    pub fn heartbeat(&mut self) -> (r: Option<Vec<u8>>)
        ensures
            final(self).framed() == old(self).framed(),
            ({
                let line = crate::proto::messages::line_bytes(
                    crate::proto::messages::msg_text(
                        crate::proto::messages::MsgView::Heartbeat(
                            crate::proto::json::JsonView::Object(Map::empty()),
                        ),
                    ),
                );
                if old(self).framed() {
                    r is None && final(self).waiting() == old(self).waiting() + line
                        && final(self).stream() == old(self).stream()
                } else {
                    (r matches Some(b) && b@ == line) && final(self).waiting() == old(self).waiting()
                }
            }),
    {
        let line = ClientMsg::heartbeat_now().to_line();
        if self.enc.is_none() {
            Some(line)
        } else {
            let ghost waiting = self.waiting();
            self.batch.extend_from_slice(line.as_slice());
            assert(self.batch@ =~= waiting + line@);
            None
        }
    }
}

// ------------------------------------------------------------------ downlink

/// The receiving side of a session with frames: decoded lines wait here.
#[derive(Debug)]
pub struct Downlink {
    dec: ZlibFrameDecoder,
    queue: Vec<Vec<u8>>,
}

/// Whether the server compresses what it sends: only the bandwidth mode does.
pub fn downlink_is_framed(compress: Compression) -> (r: bool)
    ensures
        r == (compress == Compression::Zlib2),
{
    compress == Compression::Zlib2
}

/// The bytes that a decompressor gave out between two states.
pub open spec fn gained(d0: flate2::Decompress, d1: flate2::Decompress) -> Seq<u8> {
    crate::proto::framing::restored(d1).skip(crate::proto::framing::restored(d0).len() as int)
}

impl Downlink {
    pub closed spec fn stream(&self) -> flate2::Decompress {
        self.dec.stream()
    }

    /// Lines that wait, in order.
    pub closed spec fn waiting(&self) -> Seq<Seq<u8>> {
        crate::server::session::byte_strings(self.queue@)
    }

    pub fn new() -> (r: Self)
        ensures
            r.waiting() == Seq::<Seq<u8>>::empty(),
            crate::proto::framing::taken(r.stream()) == Seq::<u8>::empty(),
            crate::proto::framing::restored(r.stream()) == Seq::<u8>::empty(),
    {
        let r = Downlink { dec: ZlibFrameDecoder::new(), queue: Vec::new() };
        assert(r.waiting() =~= Seq::<Seq<u8>>::empty());
        r
    }

    /// The next line that waits.
    pub fn take_line(&mut self) -> (r: Option<Vec<u8>>)
        ensures
            final(self).stream() == old(self).stream(),
            old(self).waiting().len() == 0 ==> r is None && final(self).waiting()
                == old(self).waiting(),
            old(self).waiting().len() > 0 ==> (r matches Some(l) && l@ == old(self).waiting()[0])
                && final(self).waiting() == old(self).waiting().skip(1),
    {
        assert(self.waiting().len() == self.queue@.len());
        if self.queue.len() == 0 {
            return None;
        }
        let l = self.queue.remove(0);
        assert(self.waiting() =~= old(self).waiting().skip(1));
        Some(l)
    }

    /// A frame arrived: its lines wait behind those that do already.
    pub fn accept_frame(&mut self, frame: &[u8]) -> (r: Result<(), FramingError>)
        ensures
            r is Ok ==> {
                let bytes = gained(old(self).stream(), final(self).stream());
                &&& crate::proto::framing::restored(final(self).stream())
                    == crate::proto::framing::restored(old(self).stream()) + bytes
                &&& final(self).waiting() == old(self).waiting()
                    + crate::server::session::lines_from(bytes, 0)
            },
            r is Err ==> final(self).waiting() == old(self).waiting(),
            (r matches Err(FramingError::ShortFrame)) || (r matches Err(
                FramingError::LengthHeader { .. },
            )) ==> final(self).stream() == old(self).stream(),
            frame@.len() < 2 <==> r matches Err(FramingError::ShortFrame),
            (frame@.len() >= 2 && frame@[0] * 256 + frame@[1] != frame@.len() - 2) <==> (
            r matches Err(FramingError::LengthHeader { .. })),
            r matches Err(FramingError::LengthHeader { want, got }) ==> want == frame@[0] * 256
                + frame@[1] && got == frame@.len() - 2,
            crate::proto::framing::decodable(old(self).stream(), frame@) ==> r is Ok
                && crate::proto::framing::frame_decoded(
                old(self).stream(),
                final(self).stream(),
                frame@,
                gained(old(self).stream(), final(self).stream()),
            ),
            crate::proto::framing::headless(old(self).stream(), frame@) ==> (r matches Err(
                FramingError::Inflate(_),
            )),
            r matches Err(FramingError::TooLarge(n)) ==> crate::proto::framing::overfull(
                old(self).stream(),
                final(self).stream(),
                n,
            ),
            r matches Err(e) ==> e is ShortFrame || e is LengthHeader || e is Inflate
                || e is TooLarge,
    {
        match self.dec.decode_frame(frame) {
            Ok(bytes) => {
                let mut lines = split_lines(bytes.as_slice());
                let ghost before = self.waiting();
                let ghost more = crate::server::session::byte_strings(lines@);
                self.queue.append(&mut lines);
                proof {
                    assert(self.waiting() =~= before + more);
                    assert(crate::server::session::lines_from(bytes@, 0) == more);
                    assert(gained(old(self).stream(), self.stream()) =~= bytes@);
                }
                Ok(())
            },
            Err(e) => Err(e),
        }
    }
}

// ----------------------------------------------------------------- positions

/// One returned position. Numbers stand as their tokens.
#[derive(Debug)]
pub struct ResultPos {
    pub addr: u32,
    pub lat: String,
    pub lon: String,
    /// Altitude in feet, where the message has one.
    pub alt: Option<String>,
}

/// What a returned position says.
pub ghost struct PosView {
    pub addr: u32,
    pub lat: Seq<char>,
    pub lon: Seq<char>,
    pub alt: Option<Seq<char>>,
}

impl View for ResultPos {
    type V = PosView;

    open spec fn view(&self) -> PosView {
        PosView {
            addr: self.addr,
            lat: self.lat@,
            lon: self.lon@,
            alt: crate::proto::messages::text_view(self.alt),
        }
    }
}

/// The position in a result message; `None` where the address or a coordinate is
/// missing.
pub open spec fn position_in(v: crate::proto::json::JsonView) -> Option<PosView> {
    match crate::proto::json::text_member(v, "addr"@) {
        None => None,
        Some(a) => match crate::text::parse_hex(a) {
            None => None,
            Some(n) => {
                let lat = crate::proto::json::number_member(v, "lat"@);
                let lon = crate::proto::json::number_member(v, "lon"@);
                if n > u32::MAX || lat is None || lon is None {
                    None
                } else {
                    Some(
                        PosView {
                            addr: n as u32,
                            lat: lat->0,
                            lon: lon->0,
                            alt: crate::proto::json::number_member(v, "alt"@),
                        },
                    )
                }
            },
        },
    }
}

/// `n` in upper-case hexadecimal, filled to six digits.
pub open spec fn address_text(n: int) -> Seq<char> {
    crate::text::uppered(
        crate::text::hex_digits(
            n,
            if n < 0x100_0000 {
                6
            } else if n < 0x1000_0000 {
                7
            } else {
                8
            },
        ),
    )
}

/// The timestamp that marks a computed position.
pub const MLAT_STAMP: u64 = 0xFF00_4D4C_4154;

impl ResultPos {
    /// Reads a result message; see `position_in`.
    pub fn from_json(v: &serde_json::Value) -> (r: Option<ResultPos>)
        ensures
            match r {
                Some(p) => position_in(crate::proto::json::value_view(*v)) == Some(p@),
                None => position_in(crate::proto::json::value_view(*v)) is None,
            },
    {
        let a = match member_text(v, "addr") {
            Some(a) => a,
            None => {
                return None;
            },
        };
        let chars = chars_of(a.as_str());
        let addr: u32 = match parse_hex_u32(chars.as_slice()) {
            Some(n) => n,
            None => {
                return None;
            },
        };
        match (member_number(v, "lat"), member_number(v, "lon")) {
            (Some(lat), Some(lon)) => Some(
                ResultPos { addr, lat, lon, alt: member_number(v, "alt") },
            ),
            _ => None,
        }
    }

    /// The BaseStation line of a position; coordinates as they are shown.
    pub fn sbs_line(addr: u32, alt_ft: i32, lat: &str, lon: &str) -> (r: String)
        ensures
            r@ == "MSG,3,1,1,"@ + address_text(addr as int) + ",1,,,,,,"@
                + crate::text::signed_decimal(alt_ft as int) + ",,,"@ + lat@ + ","@ + lon@
                + ",,,,,,0\r\n"@,
            crate::text::is_field(lat@) && crate::text::is_double(lat@) && crate::text::is_field(lon@)
                && crate::text::is_double(lon@) ==> is_line_of(r@, addr, alt_ft, lat@, lon@),
    {
        proof {
            if crate::text::is_field(lat@) && crate::text::is_double(lat@) && crate::text::is_field(
                lon@,
            ) && crate::text::is_double(lon@) {
                lemma_line_is_read(addr, alt_ft, lat@, lon@);
            }
        }
        let mut out = "MSG,3,1,1,".to_owned();
        let a = six_digits(addr);
        out.append(a.as_str());
        out.append(",1,,,,,,");
        let alt = signed_decimal_of(alt_ft as i64);
        out.append(alt.as_str());
        out.append(",,,");
        out.append(lat);
        out.append(",");
        out.append(lon);
        out.append(",,,,,,0\r\n");
        out
    }

    /// The Beast form of a position: both parities of a DF18 frame with the stamp of
    /// a computed position, signal zero. `None` where the altitude cannot be encoded.
    pub fn beast_bytes(addr: u32, alt_ft: i32, even: (u32, u32), odd: (u32, u32)) -> (r: Option<
        Vec<u8>,
    >)
        requires
            alt_ft + 1000 <= i32::MAX,
            even.0 < 0x2_0000,
            even.1 < 0x2_0000,
            odd.0 < 0x2_0000,
            odd.1 < 0x2_0000,
        ensures
            r is Some <==> crate::modes::alt::encodable(alt_ft as int),
            r matches Some(b) ==> b@ == crate::client::beast::message_bytes(
                MLAT_STAMP,
                0,
                crate::modes::frames::df18_frame(Icao(addr), alt_ft, even, false),
            ) + crate::client::beast::message_bytes(
                MLAT_STAMP,
                0,
                crate::modes::frames::df18_frame(Icao(addr), alt_ft, odd, true),
            ),
    {
        match (
            df18_airborne_position(Icao(addr), alt_ft, even, false),
            df18_airborne_position(Icao(addr), alt_ft, odd, true),
        ) {
            (Some(a), Some(b)) => {
                let mut out = encode(MLAT_STAMP, 0, a.as_slice());
                let mut second = encode(MLAT_STAMP, 0, b.as_slice());
                out.append(&mut second);
                Some(out)
            },
            _ => None,
        }
    }
}

fn six_digits(n: u32) -> (r: String)
    ensures
        r@ == address_text(n as int),
{
    let width: u8 = if n < 0x100_0000 {
        6
    } else if n < 0x1000_0000 {
        7
    } else {
        8
    };
    let d = hex_of(n, width);
    uppercase(d.as_str())
}

/// What a line of the server asks of the feeder.
#[derive(Debug)]
pub enum Order {
    Start(Vec<String>),
    Stop(Vec<String>),
    Position(ResultPos),
    /// The server's statistics of this receiver.
    Stats(serde_json::Value),
    Nothing,
}

/// An order as a mathematical value.
pub ghost enum OrderView {
    Start(Seq<Seq<char>>),
    Stop(Seq<Seq<char>>),
    Position(PosView),
    Stats(crate::proto::json::JsonView),
    Nothing,
}

impl View for Order {
    type V = OrderView;

    open spec fn view(&self) -> OrderView {
        match self {
            Order::Start(l) => OrderView::Start(crate::text::texts(l@)),
            Order::Stop(l) => OrderView::Stop(crate::text::texts(l@)),
            Order::Position(p) => OrderView::Position(p@),
            Order::Stats(v) => OrderView::Stats(crate::proto::json::value_view(*v)),
            Order::Nothing => OrderView::Nothing,
        }
    }
}

/// What a server message asks of the feeder.
pub open spec fn order_of(m: crate::proto::messages::ServerView) -> OrderView {
    match m {
        crate::proto::messages::ServerView::StartSending(l) => OrderView::Start(l),
        crate::proto::messages::ServerView::StopSending(l) => OrderView::Stop(l),
        crate::proto::messages::ServerView::Result(v) => match position_in(v) {
            Some(p) => OrderView::Position(p),
            None => OrderView::Nothing,
        },
        crate::proto::messages::ServerView::Unknown(v) => match v.member("stats"@) {
            Some(s) => OrderView::Stats(s),
            None => OrderView::Nothing,
        },
        _ => OrderView::Nothing,
    }
}

/// Reads a line of the server. A line that is not JSON ends the session; a message
/// that is not known asks for nothing.
pub fn read_order(line: &[u8]) -> (r: Result<Order, crate::proto::messages::ProtoError>)
    ensures
        match crate::proto::json::json_of(line@) {
            None => r is Err,
            Some(v) => r matches Ok(o) && o@ == order_of(
                crate::proto::messages::server_message(v),
            ),
        },
{
    match ServerMsg::parse_line(line) {
        Err(e) => Err(e),
        Ok(m) => Ok(
            match m {
                ServerMsg::StartSending(l) => Order::Start(l),
                ServerMsg::StopSending(l) => Order::Stop(l),
                ServerMsg::Result(v) => match ResultPos::from_json(&v) {
                    Some(p) => Order::Position(p),
                    None => Order::Nothing,
                },
                ServerMsg::Unknown(v) => match member(&v, "stats") {
                    Some(s) => Order::Stats(s.clone()),
                    None => Order::Nothing,
                },
                _ => Order::Nothing,
            },
        ),
    }
}

/// Frames never outgrow their limit: a line that fits on its own never makes a batch longer
/// than that, and a batch goes out early only where it would.
pub proof fn law_batches_fit_a_frame(batch: Seq<u8>, line: Seq<u8>)
    requires
        line.len() <= 32768,
        batch.len() <= 32768,
    ensures
        !overflows(batch, line) ==> (batch + line).len() <= 32768,
        overflows(batch, line) ==> (batch + line).len() > 32768,
{
}

/// A returned position says what the message says under each name.
pub proof fn law_position_says_what_the_message_said(v: crate::proto::json::JsonView)
    ensures
        position_in(v) matches Some(p) ==> {
            &&& crate::proto::json::number_member(v, "lat"@) == Some(p.lat)
            &&& crate::proto::json::number_member(v, "lon"@) == Some(p.lon)
            &&& crate::proto::json::number_member(v, "alt"@) == p.alt
            &&& crate::proto::json::text_member(v, "addr"@) matches Some(a)
                && crate::text::parse_hex(a) == Some(p.addr as int)
        },
{
    if let Some(a) = crate::proto::json::text_member(v, "addr"@) {
        crate::text::lemma_hex_number(a);
        crate::text::lemma_hex_number(a.drop_first());
    }
}

/// Requests to start and to stop are told apart and name the aircraft that the server named.
pub proof fn law_orders_are_told_apart(l: Seq<Seq<char>>)
    ensures
        order_of(crate::proto::messages::ServerView::StartSending(l)) == OrderView::Start(l),
        order_of(crate::proto::messages::ServerView::StopSending(l)) == OrderView::Stop(l),
{
}

/// The line is read as this position: the address in hexadecimal, the altitude and the
/// coordinates.
pub open spec fn is_line_of(
    line: Seq<char>,
    addr: u32,
    alt_ft: i32,
    lat: Seq<char>,
    lon: Seq<char>,
) -> bool {
    crate::proto::sbs::sbs_line(line) matches Some(p) && {
        &&& crate::text::parse_hex(p.icao_hex) == Some(addr as int)
        &&& p.alt_ft == Some(crate::text::signed_decimal(alt_ft as int))
        &&& p.lat == Some(lat)
        &&& p.lon == Some(lon)
    }
}

#[verifier::rlimit(60)]
proof fn lemma_line_layout(hex: Seq<char>, alt: Seq<char>, lat: Seq<char>, lon: Seq<char>)
    ensures
        "MSG,3,1,1,"@ + hex + ",1,,,,,,"@ + alt + ",,,"@ + lat + ","@ + lon + ",,,,,,0\r\n"@
            == crate::text::ten_fields(
            crate::proto::sbs::position_start(hex, seq![], seq![]),
            crate::proto::sbs::position_rest(alt, lat, lon),
        ) + "\r\n"@,
{
    reveal_strlit("MSG,3,1,1,");
    reveal_strlit(",1,,,,,,");
    reveal_strlit(",1,,,,,");
    reveal_strlit(",");
    reveal_strlit(",,,");
    reveal_strlit(",,,,,,0\r\n");
    reveal_strlit("MSG");
    reveal_strlit("3");
    reveal_strlit("1");
    reveal_strlit(",,,,,0");
    reveal_strlit("\r\n");
    let rest = crate::proto::sbs::position_rest(alt, lat, lon);
    let s = "MSG,3,1,1,"@ + hex + ",1,,,,,,"@ + alt + ",,,"@ + lat + ","@ + lon + ",,,,,,0\r\n"@;
    assert(s =~= "MSG,3,1,1,"@ + hex + ",1,,,,,"@ + rest + "\r\n"@);
    assert(s =~= crate::text::ten_fields(
        crate::proto::sbs::position_start(hex, seq![], seq![]),
        rest,
    ) + "\r\n"@);
}

proof fn lemma_line_is_read(addr: u32, alt_ft: i32, lat: Seq<char>, lon: Seq<char>)
    requires
        crate::text::is_field(lat) && crate::text::is_double(lat),
        crate::text::is_field(lon) && crate::text::is_double(lon),
    ensures
        is_line_of(
            "MSG,3,1,1,"@ + address_text(addr as int) + ",1,,,,,,"@ + crate::text::signed_decimal(
                alt_ft as int,
            ) + ",,,"@ + lat + ","@ + lon + ",,,,,,0\r\n"@,
            addr,
            alt_ft,
            lat,
            lon,
        ),
{
    let n = addr as int;
    let width: nat = if n < 0x100_0000 {
        6
    } else if n < 0x1000_0000 {
        7
    } else {
        8
    };
    let small = crate::text::hex_digits(n, width);
    let hex = address_text(n);
    let alt = crate::text::signed_decimal(alt_ft as int);
    crate::text::law_case_of_digits(n, width);
    crate::text::lemma_hex_digits(n, width);
    crate::text::lemma_hex_field(hex);
    crate::text::lemma_signed_field(alt_ft as int);
    lemma_line_layout(hex, alt, lat, lon);
    crate::proto::sbs::law_position_lines_are_read(hex, seq![], seq![], alt, lat, lon);
    assert(n < vstd::arithmetic::power::pow(16, width)) by {
        reveal_with_fuel(vstd::arithmetic::power::pow, 9);
    }
    vstd::arithmetic::div_mod::lemma_small_mod(
        n as nat,
        vstd::arithmetic::power::pow(16, width) as nat,
    );
    assert(crate::text::hex_digit(small[0]) is Some);
}

/// An altitude in feet is told from one in meters by its unit, and the number is what stands
/// before it.
pub proof fn law_altitude_units(number: Seq<char>)
    requires
        crate::text::is_field(number),
        number.len() > 0,
        '0' <= number.last() <= '9',
    ensures
        altitude_parts(number + "ft"@) == (number, true),
        altitude_parts(number + "m"@) == (number, false),
        altitude_parts(number) == (number, false),
{
    reveal_strlit("ft");
    reveal_strlit("m");
    let (f, m) = (number + "ft"@, number + "m"@);
    assert(crate::text::is_field("ft"@));
    assert(crate::text::is_field("m"@));
    crate::text::lemma_field_add(number, "ft"@);
    crate::text::lemma_field_add(number, "m"@);
    crate::text::lemma_field_stays(f);
    crate::text::lemma_field_stays(m);
    crate::text::lemma_field_stays(number);
    assert(f.skip(f.len() - 2) =~= "ft"@);
    assert(f.take(f.len() - 2) =~= number);
    assert(m.skip(m.len() - 1) =~= "m"@);
    assert(m.take(m.len() - 1) =~= number);
    assert(!ends_with(m, "ft"@)) by {
        if ends_with(m, "ft"@) {
            assert(m.skip(m.len() - 2)[1] == 'm');
            assert("ft"@[1] == 't');
        }
    }
    assert(!ends_with(number, "ft"@)) by {
        if ends_with(number, "ft"@) {
            assert(number.skip(number.len() - 2)[1] == number.last());
            assert("ft"@[1] == 't');
        }
    }
    assert(!ends_with(number, "m"@)) by {
        if ends_with(number, "m"@) {
            assert(number.skip(number.len() - 1)[0] == number.last());
            assert("m"@[0] == 'm');
        }
    }
}

} // verus!
