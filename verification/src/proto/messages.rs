//! Client and server messages, one JSON object per line.

use vstd::prelude::*;
use vstd::string::StringExecFns;

use crate::icao::Icao;
use crate::proto::json::{
    empty_object, member, member_text, member_true, number_text, parse_json, quote, value_text, Number,
};

verus! {

/// Clock types the server recognizes. The strings on the wire are those of
/// `wire_name`.
#[derive(Debug, Clone, Copy, PartialEq, Eq, Structural)]
pub enum ClockType {
    RadarcapeGps,
    Beast,
    Radarcape12Mhz,
    Sbs,
    Dump1090,
    Unknown,
}

impl ClockType {
    pub open spec fn name(self) -> Seq<char> {
        match self {
            ClockType::RadarcapeGps => "radarcape_gps"@,
            ClockType::Beast => "beast"@,
            ClockType::Radarcape12Mhz => "radarcape_12mhz"@,
            ClockType::Sbs => "sbs"@,
            ClockType::Dump1090 => "dump1090"@,
            ClockType::Unknown => "unknown"@,
        }
    }

    pub fn wire_name(self) -> (r: &'static str)
        ensures
            r@ == self.name(),
    {
        match self {
            ClockType::RadarcapeGps => "radarcape_gps",
            ClockType::Beast => "beast",
            ClockType::Radarcape12Mhz => "radarcape_12mhz",
            ClockType::Sbs => "sbs",
            ClockType::Dump1090 => "dump1090",
            ClockType::Unknown => "unknown",
        }
    }

    /// Counter frequency in Hz.
    pub open spec fn hertz(self) -> u64 {
        match self {
            ClockType::RadarcapeGps => 1_000_000_000,
            ClockType::Sbs => 20_000_000,
            _ => 12_000_000,
        }
    }

    /// Counter frequency in Hz.
    pub fn freq_hz(self) -> (r: u64)
        ensures
            r == self.hertz(),
    {
        match self {
            ClockType::RadarcapeGps => 1_000_000_000,
            ClockType::Beast | ClockType::Radarcape12Mhz => 12_000_000,
            ClockType::Sbs => 20_000_000,
            ClockType::Dump1090 | ClockType::Unknown => 12_000_000,
        }
    }

    /// The frequency error that the server tolerates, in parts per billion: the
    /// bound that a realistic simulated clock must stay inside.
    pub fn server_assumed_max_freq_error(self) -> (r: u64)
        ensures
            r == (match self {
                ClockType::RadarcapeGps => 1_000u64,
                ClockType::Beast | ClockType::Radarcape12Mhz => 5_000,
                _ => 100_000,
            }),
    {
        match self {
            ClockType::RadarcapeGps => 1_000,
            ClockType::Beast | ClockType::Radarcape12Mhz => 5_000,
            ClockType::Sbs => 100_000,
            ClockType::Dump1090 | ClockType::Unknown => 100_000,
        }
    }

    /// The timestamp jitter that the server tolerates, in nanoseconds.
    pub fn server_assumed_jitter_ns(self) -> (r: u64)
        ensures
            r == (match self {
                ClockType::RadarcapeGps => 15u64,
                ClockType::Beast | ClockType::Radarcape12Mhz => 83,
                _ => 500,
            }),
    {
        match self {
            ClockType::RadarcapeGps => 15,
            ClockType::Beast | ClockType::Radarcape12Mhz => 83,
            ClockType::Sbs => 500,
            ClockType::Dump1090 | ClockType::Unknown => 500,
        }
    }
}

/// Compression methods.
#[derive(Debug, Clone, Copy, PartialEq, Eq, Structural)]
pub enum Compression {
    /// Lines as they are; `none` on the wire.
    Plain,
    Zlib,
    Zlib2,
}

/// The compression method of a wire name.
pub open spec fn compress_named(s: Seq<char>) -> Option<Compression> {
    if s == "none"@ {
        Some(Compression::Plain)
    } else if s == "zlib"@ {
        Some(Compression::Zlib)
    } else if s == "zlib2"@ {
        Some(Compression::Zlib2)
    } else {
        None
    }
}

impl Compression {
    pub open spec fn name(self) -> Seq<char> {
        match self {
            Compression::Plain => "none"@,
            Compression::Zlib => "zlib"@,
            Compression::Zlib2 => "zlib2"@,
        }
    }

    pub fn wire_name(self) -> (r: &'static str)
        ensures
            r@ == self.name(),
    {
        match self {
            Compression::Plain => "none",
            Compression::Zlib => "zlib",
            Compression::Zlib2 => "zlib2",
        }
    }

    pub fn from_wire(s: &str) -> (r: Option<Compression>)
        ensures
            r == compress_named(s@),
    {
        if crate::text::same_text(s, "none") {
            Some(Compression::Plain)
        } else if crate::text::same_text(s, "zlib") {
            Some(Compression::Zlib)
        } else if crate::text::same_text(s, "zlib2") {
            Some(Compression::Zlib2)
        } else {
            None
        }
    }
}

/// Every compression method is recognized under its wire name.
pub proof fn law_compress_names(c: Compression)
    ensures
        compress_named(c.name()) == Some(c),
{
    reveal_strlit("none");
    reveal_strlit("zlib");
    reveal_strlit("zlib2");
    assert("none"@[0] != "zlib"@[0]);
    assert("zlib"@.len() != "zlib2"@.len());
}

/// Two lower-case hexadecimal digits per byte.
pub open spec fn hex_text(b: Seq<u8>) -> Seq<char>
    decreases b.len(),
{
    if b.len() == 0 {
        seq![]
    } else {
        hex_text(b.drop_last()) + seq![
            crate::text::hex_char(b.last() as int / 16),
            crate::text::hex_char(b.last() as int % 16),
        ]
    }
}

/// `hex::encode`: two lower-case hexadecimal digits per byte, in order.
#[verifier::external_body]
pub(crate) fn hex_encode(b: &[u8]) -> (r: String)
    ensures
        r@ == hex_text(b@),
{
    hex::encode(b)
}

/// Pairs of hexadecimal digits, either case.
pub open spec fn is_hex_text(s: Seq<char>) -> bool {
    s.len() % 2 == 0 && crate::text::all_hex(s)
}

/// The byte that two hexadecimal digits write.
pub open spec fn hex_pair(s: Seq<char>, i: int) -> u8 {
    (16 * crate::text::hex_digit(s[2 * i]).unwrap_or(0) + crate::text::hex_digit(
        s[2 * i + 1],
    ).unwrap_or(0)) as u8
}

/// The bytes that a hexadecimal text writes; `None` for any other text.
pub open spec fn hex_bytes(s: Seq<char>) -> Option<Seq<u8>> {
    if is_hex_text(s) {
        Some(Seq::new((s.len() / 2) as nat, |i: int| hex_pair(s, i)))
    } else {
        None
    }
}

/// `hex::decode`: the bytes that pairs of digits of either case write, an error
/// for an odd number of characters or any other character.
#[verifier::external_body]
pub(crate) fn hex_decode(s: &str) -> (r: Option<Vec<u8>>)
    ensures
        r is Some <==> hex_bytes(s@) is Some,
        r matches Some(b) ==> Some(b@) == hex_bytes(s@),
{
    hex::decode(s).ok()
}

proof fn lemma_hex_text(b: Seq<u8>)
    ensures
        hex_text(b).len() == 2 * b.len(),
        forall|i: int|
            0 <= i < b.len() ==> hex_text(b)[2 * i] == crate::text::hex_char(
                (#[trigger] b[i]) as int / 16,
            ) && hex_text(b)[2 * i + 1] == crate::text::hex_char(b[i] as int % 16),
    decreases b.len(),
{
    if b.len() > 0 {
        let r = hex_text(b.drop_last());
        lemma_hex_text(b.drop_last());
        assert forall|i: int| 0 <= i < b.len() implies hex_text(b)[2 * i]
            == crate::text::hex_char((#[trigger] b[i]) as int / 16) && hex_text(b)[2 * i + 1]
            == crate::text::hex_char(b[i] as int % 16) by {
            if i < b.len() - 1 {
                assert(b.drop_last()[i] == b[i]);
                assert(hex_text(b)[2 * i] == r[2 * i]);
                assert(hex_text(b)[2 * i + 1] == r[2 * i + 1]);
            }
        }
    }
}

/// Reading the hexadecimal text of a byte string gives the bytes back.
pub proof fn law_hex_text_round_trip(b: Seq<u8>)
    ensures
        hex_bytes(hex_text(b)) == Some(b),
{
    lemma_hex_text(b);
    let s = hex_text(b);
    assert forall|k: int| 0 <= k < s.len() implies crate::text::hex_digit(
        #[trigger] s[k],
    ) is Some by {
        let i = k / 2;
        lemma_byte_digits(b[i]);
        if k % 2 == 0 {
            assert(s[k] == s[2 * i]);
        } else {
            assert(s[k] == s[2 * i + 1]);
        }
    }
    assert forall|i: int| 0 <= i < b.len() implies hex_pair(s, i) == b[i] by {
        lemma_byte_digits(b[i]);
    }
    assert(hex_bytes(s)->0 =~= b);
}

proof fn lemma_byte_digits(x: u8)
    ensures
        crate::text::hex_digit(crate::text::hex_char(x as int / 16)) == Some(x as int / 16),
        crate::text::hex_digit(crate::text::hex_char(x as int % 16)) == Some(x as int % 16),
{
}

/// Hex-encoded Mode S message body, lowercase, no separators.
#[derive(Debug, PartialEq, Eq)]
pub struct HexMsg(pub String);

impl HexMsg {
    pub fn from_bytes(b: &[u8]) -> (r: Self)
        ensures
            r.0@ == hex_text(b@),
    {
        HexMsg(hex_encode(b))
    }
}

/// What a client message says.
pub enum MsgView {
    Sync { et: Seq<char>, ot: Seq<char>, em: Seq<char>, om: Seq<char> },
    Mlat { t: Seq<char>, m: Seq<char> },
    Seen(Seq<Seq<char>>),
    Lost(Seq<Seq<char>>),
    InputConnected(Seq<char>),
    InputDisconnected(Seq<char>),
    ClockReset(Seq<char>),
    ClockJump(Seq<char>),
    Heartbeat(crate::proto::json::JsonView),
    RateReport(Seq<(Seq<char>, Seq<char>)>),
}

/// Client to server messages. Written as single-key JSON objects, one per line
/// (before framing).
#[derive(Debug)]
pub enum ClientMsg {
    Sync { et: Number, ot: Number, em: HexMsg, om: HexMsg },
    Mlat { t: Number, m: HexMsg },
    Seen(Vec<String>),
    Lost(Vec<String>),
    InputConnected(String),
    InputDisconnected(String),
    ClockReset(String),
    ClockJump(String),
    Heartbeat(serde_json::Value),
    RateReport(Vec<(String, Number)>),
}

/// The views of a rate report's entries.
pub open spec fn rate_texts(v: Seq<(String, Number)>) -> Seq<(Seq<char>, Seq<char>)> {
    v.map_values(|e: (String, Number)| (e.0@, e.1.text()))
}

impl View for ClientMsg {
    type V = MsgView;

    open spec fn view(&self) -> MsgView {
        match self {
            ClientMsg::Sync { et, ot, em, om } => MsgView::Sync {
                et: et.text(),
                ot: ot.text(),
                em: em.0@,
                om: om.0@,
            },
            ClientMsg::Mlat { t, m } => MsgView::Mlat { t: t.text(), m: m.0@ },
            ClientMsg::Seen(l) => MsgView::Seen(crate::text::texts(l@)),
            ClientMsg::Lost(l) => MsgView::Lost(crate::text::texts(l@)),
            ClientMsg::InputConnected(s) => MsgView::InputConnected(s@),
            ClientMsg::InputDisconnected(s) => MsgView::InputDisconnected(s@),
            ClientMsg::ClockReset(s) => MsgView::ClockReset(s@),
            ClientMsg::ClockJump(s) => MsgView::ClockJump(s@),
            ClientMsg::Heartbeat(v) => MsgView::Heartbeat(crate::proto::json::value_view(*v)),
            ClientMsg::RateReport(l) => MsgView::RateReport(rate_texts(l@)),
        }
    }
}

/// JSON strings, separated by commas.
pub open spec fn quoted_list(l: Seq<Seq<char>>) -> Seq<char>
    decreases l.len(),
{
    if l.len() == 0 {
        seq![]
    } else if l.len() == 1 {
        crate::proto::json::quoted(l[0])
    } else {
        quoted_list(l.drop_last()) + ","@ + crate::proto::json::quoted(l.last())
    }
}

/// Members with number values, separated by commas.
pub open spec fn member_list(l: Seq<(Seq<char>, Seq<char>)>) -> Seq<char>
    decreases l.len(),
{
    if l.len() == 0 {
        seq![]
    } else if l.len() == 1 {
        crate::proto::json::quoted(l[0].0) + ":"@ + l[0].1
    } else {
        member_list(l.drop_last()) + ","@ + crate::proto::json::quoted(l.last().0) + ":"@
            + l.last().1
    }
}

/// The JSON object of a client message.
pub open spec fn msg_text(m: MsgView) -> Seq<char> {
    match m {
        MsgView::Sync { et, ot, em, om } => "{\"sync\":{\"et\":"@ + et + ",\"ot\":"@ + ot
            + ",\"em\":"@ + crate::proto::json::quoted(em) + ",\"om\":"@
            + crate::proto::json::quoted(om) + "}}"@,
        MsgView::Mlat { t, m } => "{\"mlat\":{\"t\":"@ + t + ",\"m\":"@
            + crate::proto::json::quoted(m) + "}}"@,
        MsgView::Seen(l) => "{\"seen\":["@ + quoted_list(l) + "]}"@,
        MsgView::Lost(l) => "{\"lost\":["@ + quoted_list(l) + "]}"@,
        MsgView::InputConnected(s) => "{\"input_connected\":"@ + crate::proto::json::quoted(s)
            + "}"@,
        MsgView::InputDisconnected(s) => "{\"input_disconnected\":"@ + crate::proto::json::quoted(s)
            + "}"@,
        MsgView::ClockReset(s) => "{\"clock_reset\":"@ + crate::proto::json::quoted(s) + "}"@,
        MsgView::ClockJump(s) => "{\"clock_jump\":"@ + crate::proto::json::quoted(s) + "}"@,
        MsgView::Heartbeat(v) => "{\"heartbeat\":"@ + crate::proto::json::json_text(v) + "}"@,
        MsgView::RateReport(l) => "{\"rate_report\":{"@ + member_list(l) + "}}"@,
    }
}

/// `s` holds no line feed.
pub open spec fn one_line(s: Seq<char>) -> bool {
    !s.contains('\n')
}

proof fn lemma_one_line_add(a: Seq<char>, b: Seq<char>)
    requires
        one_line(a),
        one_line(b),
    ensures
        one_line(a + b),
{
    if (a + b).contains('\n') {
        let i = choose|i: int| 0 <= i < (a + b).len() && (a + b)[i] == '\n';
        if i < a.len() {
            assert(a[i] == '\n');
        } else {
            assert(b[i - a.len()] == '\n');
        }
    }
}

/// Appends a piece of text that holds no line feed.
fn put(out: &mut String, piece: &str)
    requires
        one_line(old(out)@),
        one_line(piece@),
    ensures
        final(out)@ == old(out)@ + piece@,
        one_line(final(out)@),
{
    proof {
        lemma_one_line_add(out@, piece@);
    }
    out.append(piece);
}

/// Appends a JSON string.
fn put_quoted(out: &mut String, s: &str)
    requires
        one_line(old(out)@),
    ensures
        final(out)@ == old(out)@ + crate::proto::json::quoted(s@),
        one_line(final(out)@),
{
    proof {
        crate::proto::json::lemma_quoted_one_line(s@);
    }
    let q = quote(s);
    put(out, q.as_str());
}

fn put_quoted_list(out: &mut String, l: &Vec<String>)
    requires
        one_line(old(out)@),
    ensures
        final(out)@ == old(out)@ + quoted_list(crate::text::texts(l@)),
        one_line(final(out)@),
{
    let ghost start = out@;
    let ghost all = crate::text::texts(l@);
    let mut i: usize = 0;
    assert(start + quoted_list(all.take(0)) =~= start);
    while i < l.len()
        invariant
            i <= l.len(),
            all == crate::text::texts(l@),
            out@ == start + quoted_list(all.take(i as int)),
            one_line(out@),
        decreases l.len() - i,
    {
        proof {
            reveal_strlit(",");
            assert(all.take(i + 1).drop_last() =~= all.take(i as int));
            assert(all.take(i + 1).last() == l@[i as int]@);
        }
        let ghost before = out@;
        if i > 0 {
            put(out, ",");
        }
        put_quoted(out, l[i].as_str());
        assert(out@ =~= start + quoted_list(all.take(i + 1)));
        i = i + 1;
    }
    assert(all.take(l.len() as int) =~= all);
}

/// JSON strings, separated by commas; see `quoted_list`.
pub(crate) fn quote_list(l: &Vec<String>) -> (r: String)
    ensures
        r@ == quoted_list(crate::text::texts(l@)),
{
    let mut out = String::new();
    put_quoted_list(&mut out, l);
    assert(out@ =~= quoted_list(crate::text::texts(l@)));
    out
}

fn put_member_list(out: &mut String, l: &Vec<(String, Number)>)
    requires
        one_line(old(out)@),
    ensures
        final(out)@ == old(out)@ + member_list(rate_texts(l@)),
        one_line(final(out)@),
{
    let ghost start = out@;
    let ghost all = rate_texts(l@);
    let mut i: usize = 0;
    assert(start + member_list(all.take(0)) =~= start);
    while i < l.len()
        invariant
            i <= l.len(),
            all == rate_texts(l@),
            out@ == start + member_list(all.take(i as int)),
            one_line(out@),
        decreases l.len() - i,
    {
        proof {
            reveal_strlit(",");
            reveal_strlit(":");
            assert(all.take(i + 1).drop_last() =~= all.take(i as int));
            assert(all.take(i + 1).last() == (l@[i as int].0@, l@[i as int].1.text()));
        }
        if i > 0 {
            put(out, ",");
        }
        put_quoted(out, l[i].0.as_str());
        put(out, ":");
        put(out, l[i].1.as_text());
        assert(out@ =~= start + member_list(all.take(i + 1)));
        i = i + 1;
    }
    assert(all.take(l.len() as int) =~= all);
}

/// A one-key object with a string value.
fn tagged_text(head: &str, s: &str) -> (r: String)
    requires
        one_line(head@),
    ensures
        r@ == head@ + crate::proto::json::quoted(s@) + "}"@,
        one_line(r@),
{
    proof {
        reveal_strlit("}");
    }
    let mut out = String::new();
    put(&mut out, head);
    put_quoted(&mut out, s);
    put(&mut out, "}");
    out
}

/// A one-key object with a list of strings.
fn tagged_list(head: &str, l: &Vec<String>) -> (r: String)
    requires
        one_line(head@),
    ensures
        r@ == head@ + quoted_list(crate::text::texts(l@)) + "]}"@,
        one_line(r@),
{
    proof {
        reveal_strlit("]}");
    }
    let mut out = String::new();
    put(&mut out, head);
    put_quoted_list(&mut out, l);
    put(&mut out, "]}");
    out
}

/// The bytes of a line: its text in UTF-8 and a line feed.
pub open spec fn line_bytes(text: Seq<char>) -> Seq<u8> {
    vstd::utf8::encode_utf8(text).push(10)
}

fn finish_line(text: String) -> (r: Vec<u8>)
    ensures
        r@ == line_bytes(text@),
{
    let mut v: Vec<u8> = Vec::new();
    v.extend_from_slice(text.as_str().as_bytes());
    v.push(10);
    v
}

impl ClientMsg {
    /// The message as one JSON object, which holds no line feed.
    pub fn to_text(&self) -> (r: String)
        ensures
            r@ == msg_text(self@),
            one_line(r@),
    {
        match self {
            ClientMsg::Sync { et, ot, em, om } => {
                proof {
                    reveal_strlit("{\"sync\":{\"et\":");
                    reveal_strlit(",\"ot\":");
                    reveal_strlit(",\"em\":");
                    reveal_strlit(",\"om\":");
                    reveal_strlit("}}");
                }
                let mut out = String::new();
                put(&mut out, "{\"sync\":{\"et\":");
                put(&mut out, et.as_text());
                put(&mut out, ",\"ot\":");
                put(&mut out, ot.as_text());
                put(&mut out, ",\"em\":");
                put_quoted(&mut out, em.0.as_str());
                put(&mut out, ",\"om\":");
                put_quoted(&mut out, om.0.as_str());
                put(&mut out, "}}");
                out
            },
            ClientMsg::Mlat { t, m } => {
                proof {
                    reveal_strlit("{\"mlat\":{\"t\":");
                    reveal_strlit(",\"m\":");
                    reveal_strlit("}}");
                }
                let mut out = String::new();
                put(&mut out, "{\"mlat\":{\"t\":");
                put(&mut out, t.as_text());
                put(&mut out, ",\"m\":");
                put_quoted(&mut out, m.0.as_str());
                put(&mut out, "}}");
                out
            },
            ClientMsg::Seen(l) => {
                proof {
                    reveal_strlit("{\"seen\":[");
                }
                tagged_list("{\"seen\":[", l)
            },
            ClientMsg::Lost(l) => {
                proof {
                    reveal_strlit("{\"lost\":[");
                }
                tagged_list("{\"lost\":[", l)
            },
            ClientMsg::InputConnected(s) => {
                proof {
                    reveal_strlit("{\"input_connected\":");
                }
                tagged_text("{\"input_connected\":", s.as_str())
            },
            ClientMsg::InputDisconnected(s) => {
                proof {
                    reveal_strlit("{\"input_disconnected\":");
                }
                tagged_text("{\"input_disconnected\":", s.as_str())
            },
            ClientMsg::ClockReset(s) => {
                proof {
                    reveal_strlit("{\"clock_reset\":");
                }
                tagged_text("{\"clock_reset\":", s.as_str())
            },
            ClientMsg::ClockJump(s) => {
                proof {
                    reveal_strlit("{\"clock_jump\":");
                }
                tagged_text("{\"clock_jump\":", s.as_str())
            },
            ClientMsg::Heartbeat(v) => {
                proof {
                    reveal_strlit("{\"heartbeat\":");
                    reveal_strlit("}");
                }
                let mut out = String::new();
                put(&mut out, "{\"heartbeat\":");
                let t = value_text(v);
                put(&mut out, t.as_str());
                put(&mut out, "}");
                out
            },
            ClientMsg::RateReport(l) => {
                proof {
                    reveal_strlit("{\"rate_report\":{");
                    reveal_strlit("}}");
                }
                let mut out = String::new();
                put(&mut out, "{\"rate_report\":{");
                put_member_list(&mut out, l);
                put(&mut out, "}}");
                out
            },
        }
    }

    /// One JSON line, newline-terminated (pre-framing form). The text before the
    /// final line feed holds none, so a reader that splits at line feeds gets
    /// the message back whole.
    pub fn to_line(&self) -> (r: Vec<u8>)
        ensures
            r@ == line_bytes(msg_text(self@)),
            one_line(msg_text(self@)),
    {
        finish_line(self.to_text())
    }

    pub fn heartbeat_now() -> (r: Self)
        ensures
            r@ == MsgView::Heartbeat(crate::proto::json::JsonView::Object(Map::empty())),
    {
        ClientMsg::Heartbeat(empty_object())
    }

    pub fn seen(icaos: &[Icao]) -> (r: Self)
        ensures
            r@ == MsgView::Seen(hex_addresses(icaos@)),
    {
        ClientMsg::Seen(addresses(icaos))
    }

    pub fn lost(icaos: &[Icao]) -> (r: Self)
        ensures
            r@ == MsgView::Lost(hex_addresses(icaos@)),
    {
        ClientMsg::Lost(addresses(icaos))
    }
}

/// Six hexadecimal digits per address.
pub open spec fn hex_addresses(l: Seq<Icao>) -> Seq<Seq<char>> {
    l.map_values(|a: Icao| crate::text::hex_digits(a.0 as int % 0x100_0000, 6))
}

fn addresses(icaos: &[Icao]) -> (r: Vec<String>)
    ensures
        crate::text::texts(r@) == hex_addresses(icaos@),
{
    let mut out: Vec<String> = Vec::new();
    let mut i: usize = 0;
    while i < icaos.len()
        invariant
            i <= icaos.len(),
            out@.len() == i,
            forall|k: int|
                0 <= k < i ==> (#[trigger] out@[k])@ == crate::text::hex_digits(
                    icaos@[k].0 as int % 0x100_0000,
                    6,
                ),
        decreases icaos.len() - i,
    {
        out.push(icaos[i].to_hex());
        i = i + 1;
    }
    assert(crate::text::texts(out@) =~= hex_addresses(icaos@));
    out
}

/// The handshake line. Optional fields are left out, not null, when unset; a
/// coordinate without a number is null.
#[derive(Debug)]
pub struct Handshake {
    pub version: u8,
    pub user: String,
    pub uuid: Option<String>,
    pub compress: Vec<Compression>,
    pub lat: Option<Number>,
    pub lon: Option<Number>,
    /// Receiver altitude, meters.
    pub alt: Option<Number>,
    pub clock_type: ClockType,
    pub return_results: Option<bool>,
    pub return_result_format: Option<String>,
    pub client_version: Option<String>,
    /// Client opts in to start_sending/stop_sending steering.
    pub selective_traffic: Option<bool>,
    pub heartbeat: Option<bool>,
    /// Client asks for the server's statistics of it.
    pub return_stats: Option<bool>,
}

/// A number, or null.
pub open spec fn number_or_null(n: Option<Number>) -> Seq<char> {
    match n {
        Some(t) => t.text(),
        None => "null"@,
    }
}

/// An optional string member behind another member.
pub open spec fn text_field(name: Seq<char>, v: Option<String>) -> Seq<char> {
    match v {
        Some(t) => name + crate::proto::json::quoted(t@),
        None => seq![],
    }
}

/// An optional boolean member behind another member.
pub open spec fn flag_field(name: Seq<char>, v: Option<bool>) -> Seq<char> {
    match v {
        Some(b) => name + (if b {
            "true"@
        } else {
            "false"@
        }),
        None => seq![],
    }
}

/// The names of compression methods.
pub open spec fn compression_names(v: Seq<Compression>) -> Seq<Seq<char>> {
    v.map_values(|c: Compression| c.name())
}

/// The JSON object of a handshake.
pub open spec fn handshake_text(h: Handshake) -> Seq<char> {
    "{\"version\":"@ + crate::text::decimal(h.version as nat) + ",\"user\":"@
        + crate::proto::json::quoted(h.user@) + text_field(",\"uuid\":"@, h.uuid)
        + ",\"compress\":["@ + quoted_list(compression_names(h.compress@)) + "],\"lat\":"@
        + number_or_null(h.lat) + ",\"lon\":"@ + number_or_null(h.lon) + ",\"alt\":"@
        + number_or_null(h.alt) + ",\"clock_type\":"@ + crate::proto::json::quoted(
        h.clock_type.name(),
    ) + flag_field(",\"return_results\":"@, h.return_results) + text_field(
        ",\"return_result_format\":"@,
        h.return_result_format,
    ) + text_field(",\"client_version\":"@, h.client_version) + flag_field(
        ",\"selective_traffic\":"@,
        h.selective_traffic,
    ) + flag_field(",\"heartbeat\":"@, h.heartbeat) + flag_field(
        ",\"return_stats\":"@,
        h.return_stats,
    ) + "}"@
}

fn put_number_or_null(out: &mut String, n: &Option<Number>)
    requires
        one_line(old(out)@),
    ensures
        final(out)@ == old(out)@ + number_or_null(*n),
        one_line(final(out)@),
{
    match n {
        Some(t) => put(out, t.as_text()),
        None => {
            proof {
                reveal_strlit("null");
            }
            put(out, "null")
        },
    }
}

fn put_text_field(out: &mut String, name: &str, v: &Option<String>)
    requires
        one_line(old(out)@),
        one_line(name@),
    ensures
        final(out)@ == old(out)@ + text_field(name@, *v),
        one_line(final(out)@),
{
    match v {
        Some(t) => {
            put(out, name);
            put_quoted(out, t.as_str());
            assert(out@ =~= old(out)@ + text_field(name@, *v));
        },
        None => {
            assert(out@ =~= old(out)@ + text_field(name@, *v));
        },
    }
}

fn put_flag_field(out: &mut String, name: &str, v: &Option<bool>)
    requires
        one_line(old(out)@),
        one_line(name@),
    ensures
        final(out)@ == old(out)@ + flag_field(name@, *v),
        one_line(final(out)@),
{
    match v {
        Some(b) => {
            proof {
                reveal_strlit("true");
                reveal_strlit("false");
            }
            put(out, name);
            if *b {
                put(out, "true");
            } else {
                put(out, "false");
            }
            assert(out@ =~= old(out)@ + flag_field(name@, *v));
        },
        None => {
            assert(out@ =~= old(out)@ + flag_field(name@, *v));
        },
    }
}

impl Handshake {
    /// The handshake as one JSON line, newline-terminated.
    pub fn to_line(&self) -> (r: Vec<u8>)
        ensures
            r@ == line_bytes(handshake_text(*self)),
            one_line(handshake_text(*self)),
    {
        proof {
            reveal_strlit("{\"version\":");
            reveal_strlit(",\"user\":");
            reveal_strlit(",\"uuid\":");
            reveal_strlit(",\"compress\":[");
            reveal_strlit("],\"lat\":");
            reveal_strlit(",\"lon\":");
            reveal_strlit(",\"alt\":");
            reveal_strlit(",\"clock_type\":");
            reveal_strlit(",\"return_results\":");
            reveal_strlit(",\"return_result_format\":");
            reveal_strlit(",\"client_version\":");
            reveal_strlit(",\"selective_traffic\":");
            reveal_strlit(",\"heartbeat\":");
            reveal_strlit(",\"return_stats\":");
            reveal_strlit("}");
        }
        let mut out = String::new();
        put(&mut out, "{\"version\":");
        let version = Number::from_u64(self.version as u64);
        put(&mut out, version.as_text());
        put(&mut out, ",\"user\":");
        put_quoted(&mut out, self.user.as_str());
        put_text_field(&mut out, ",\"uuid\":", &self.uuid);
        put(&mut out, ",\"compress\":[");
        let mut names: Vec<String> = Vec::new();
        let mut i: usize = 0;
        while i < self.compress.len()
            invariant
                i <= self.compress@.len(),
                names@.len() == i,
                forall|k: int| 0 <= k < i ==> (#[trigger] names@[k])@ == self.compress@[k].name(),
            decreases self.compress@.len() - i,
        {
            names.push(self.compress[i].wire_name().to_owned());
            i = i + 1;
        }
        assert(crate::text::texts(names@) =~= compression_names(self.compress@));
        put_quoted_list(&mut out, &names);
        put(&mut out, "],\"lat\":");
        put_number_or_null(&mut out, &self.lat);
        put(&mut out, ",\"lon\":");
        put_number_or_null(&mut out, &self.lon);
        put(&mut out, ",\"alt\":");
        put_number_or_null(&mut out, &self.alt);
        put(&mut out, ",\"clock_type\":");
        put_quoted(&mut out, self.clock_type.wire_name());
        put_flag_field(&mut out, ",\"return_results\":", &self.return_results);
        put_text_field(&mut out, ",\"return_result_format\":", &self.return_result_format);
        put_text_field(&mut out, ",\"client_version\":", &self.client_version);
        put_flag_field(&mut out, ",\"selective_traffic\":", &self.selective_traffic);
        put_flag_field(&mut out, ",\"heartbeat\":", &self.heartbeat);
        put_flag_field(&mut out, ",\"return_stats\":", &self.return_stats);
        put(&mut out, "}");
        assert(out@ =~= handshake_text(*self));
        finish_line(out)
    }
}

/// Why a server line cannot be used.
#[derive(Debug)]
pub enum ProtoError {
    /// Not valid JSON.
    Json(serde_json::Error),
    /// A handshake reply without a compression method that is known; the reply.
    BadHandshakeReply(String),
    /// A frame could not be made or read.
    Framing(crate::proto::framing::FramingError),
}

/// Server to client messages. `Unknown` is the pressure-release valve: an
/// unrecognized message must never end a session.
#[derive(Debug)]
pub enum ServerMsg {
    HandshakeAccept {
        compress: Compression,
        motd: Option<String>,
        heartbeat: bool,
        return_results: bool,
        raw: serde_json::Value,
    },
    Deny(serde_json::Value),
    Result(serde_json::Value),
    StartSending(Vec<String>),
    StopSending(Vec<String>),
    Heartbeat {
        /// The server's clock, as a number token.
        server_time: Option<String>,
    },
    Unknown(serde_json::Value),
}

/// What a server message says.
pub enum ServerView {
    HandshakeAccept {
        compress: Compression,
        motd: Option<Seq<char>>,
        heartbeat: bool,
        return_results: bool,
        raw: crate::proto::json::JsonView,
    },
    Deny(crate::proto::json::JsonView),
    Result(crate::proto::json::JsonView),
    StartSending(Seq<Seq<char>>),
    StopSending(Seq<Seq<char>>),
    Heartbeat { server_time: Option<Seq<char>> },
    Unknown(crate::proto::json::JsonView),
}

/// An optional string as a mathematical value.
pub open spec fn text_view(v: Option<String>) -> Option<Seq<char>> {
    match v {
        Some(t) => Some(t@),
        None => None,
    }
}

impl View for ServerMsg {
    type V = ServerView;

    open spec fn view(&self) -> ServerView {
        match self {
            ServerMsg::HandshakeAccept { compress, motd, heartbeat, return_results, raw } =>
            ServerView::HandshakeAccept {
                compress: *compress,
                motd: text_view(*motd),
                heartbeat: *heartbeat,
                return_results: *return_results,
                raw: crate::proto::json::value_view(*raw),
            },
            ServerMsg::Deny(v) => ServerView::Deny(crate::proto::json::value_view(*v)),
            ServerMsg::Result(v) => ServerView::Result(crate::proto::json::value_view(*v)),
            ServerMsg::StartSending(l) => ServerView::StartSending(crate::text::texts(l@)),
            ServerMsg::StopSending(l) => ServerView::StopSending(crate::text::texts(l@)),
            ServerMsg::Heartbeat { server_time } => ServerView::Heartbeat {
                server_time: text_view(*server_time),
            },
            ServerMsg::Unknown(v) => ServerView::Unknown(crate::proto::json::value_view(*v)),
        }
    }
}

/// The server message that a JSON value is: the first of result, deny, heartbeat,
/// start_sending and stop_sending that the object has.
pub open spec fn server_message(v: crate::proto::json::JsonView) -> ServerView {
    if v.member("result"@) is Some {
        ServerView::Result(v.member("result"@)->0)
    } else if v.member("deny"@) is Some {
        ServerView::Deny(v.member("deny"@)->0)
    } else if v.member("heartbeat"@) is Some {
        let h = v.member("heartbeat"@)->0;
        ServerView::Heartbeat {
            server_time: match h.member("server_time"@) {
                Some(t) => t.number(),
                None => None,
            },
        }
    } else if v.member("start_sending"@) is Some {
        ServerView::StartSending(crate::proto::json::text_list(v.member("start_sending"@)))
    } else if v.member("stop_sending"@) is Some {
        ServerView::StopSending(crate::proto::json::text_list(v.member("stop_sending"@)))
    } else {
        ServerView::Unknown(v)
    }
}

/// The reply to a handshake that a JSON value is; `None` where it names no known
/// compression method.
pub open spec fn handshake_reply(v: crate::proto::json::JsonView) -> Option<ServerView> {
    if v.member("deny"@) is Some {
        Some(ServerView::Deny(v))
    } else {
        match crate::proto::json::text_member(v, "compress"@) {
            None => None,
            Some(name) => match compress_named(name) {
                None => None,
                Some(compress) => Some(
                    ServerView::HandshakeAccept {
                        compress,
                        motd: crate::proto::json::text_member(v, "motd"@),
                        heartbeat: crate::proto::json::is_true(v, "heartbeat"@),
                        return_results: crate::proto::json::is_true(v, "return_results"@),
                        raw: v,
                    },
                ),
            },
        }
    }
}

fn string_list(v: &serde_json::Value) -> (r: Vec<String>)
    ensures
        crate::text::texts(r@) == crate::proto::json::text_list(
            Some(crate::proto::json::value_view(*v)),
        ),
{
    let mut out: Vec<String> = Vec::new();
    assert(crate::text::texts(out@) =~= seq![]);
    if let Some(items) = v.as_array() {
        let ghost all = items@.map_values(|x: serde_json::Value| crate::proto::json::value_view(x));
        let mut i: usize = 0;
        while i < items.len()
            invariant
                all == items@.map_values(
                    |x: serde_json::Value| crate::proto::json::value_view(x),
                ),
                i <= items@.len(),
                crate::text::texts(out@) == crate::proto::json::text_items(
                    all.take(i as int),
                ),
            decreases items@.len() - i,
        {
            assert(all.take(i + 1).drop_last() =~= all.take(i as int));
            assert(all.take(i + 1).last() == crate::proto::json::value_view(items@[i as int]));
            if let Some(t) = items[i].as_str() {
                let ghost before = crate::text::texts(out@);
                let s = t.to_owned();
                out.push(s);
                assert(crate::text::texts(out@) =~= before.push(s@));
            }
            i = i + 1;
        }
        assert(all.take(all.len() as int) =~= all);
    }
    out
}

impl ServerMsg {
    /// The message of a parsed server line; see `server_message`.
    pub fn from_value(v: serde_json::Value) -> (r: ServerMsg)
        ensures
            r@ == server_message(crate::proto::json::value_view(v)),
    {
        if let Some(x) = member(&v, "result") {
            return ServerMsg::Result(x.clone());
        }
        if let Some(x) = member(&v, "deny") {
            return ServerMsg::Deny(x.clone());
        }
        if let Some(h) = member(&v, "heartbeat") {
            let server_time = match member(h, "server_time") {
                Some(t) => number_text(t),
                None => None,
            };
            return ServerMsg::Heartbeat { server_time };
        }
        if let Some(x) = member(&v, "start_sending") {
            return ServerMsg::StartSending(string_list(x));
        }
        if let Some(x) = member(&v, "stop_sending") {
            return ServerMsg::StopSending(string_list(x));
        }
        ServerMsg::Unknown(v)
    }

    /// Parse one server line. Use `parse_handshake_reply` for the first line: the
    /// acceptance message is not tagged.
    pub fn parse_line(line: &[u8]) -> (r: Result<ServerMsg, ProtoError>)
        ensures
            match crate::proto::json::json_of(line@) {
                Some(v) => r matches Ok(m) && m@ == server_message(v),
                None => r matches Err(ProtoError::Json(_)),
            },
    {
        match parse_json(line) {
            Ok(v) => Ok(Self::from_value(v)),
            Err(e) => Err(ProtoError::Json(e)),
        }
    }

    /// The reply to a handshake that a parsed line is; see `handshake_reply`.
    pub fn reply_from_value(v: serde_json::Value) -> (r: Result<ServerMsg, ProtoError>)
        ensures
            match handshake_reply(crate::proto::json::value_view(v)) {
                Some(m) => r matches Ok(x) && x@ == m,
                None => r matches Err(ProtoError::BadHandshakeReply(t)) && t@
                    == crate::proto::json::json_text(crate::proto::json::value_view(v)),
            },
    {
        if member(&v, "deny").is_some() {
            return Ok(ServerMsg::Deny(v));
        }
        let compress = match member_text(&v, "compress") {
            Some(name) => Compression::from_wire(name.as_str()),
            None => None,
        };
        match compress {
            None => Err(ProtoError::BadHandshakeReply(value_text(&v))),
            Some(compress) => {
                let motd = member_text(&v, "motd");
                let heartbeat: bool = member_true(&v, "heartbeat");
                let return_results: bool = member_true(
                    &v,
                    "return_results",
                );
                Ok(ServerMsg::HandshakeAccept { compress, motd, heartbeat, return_results, raw: v })
            },
        }
    }

    /// The first line the server sends after the client handshake.
    pub fn parse_handshake_reply(line: &[u8]) -> (r: Result<ServerMsg, ProtoError>)
        ensures
            match crate::proto::json::json_of(line@) {
                None => r matches Err(ProtoError::Json(_)),
                Some(v) => match handshake_reply(v) {
                    Some(m) => r matches Ok(x) && x@ == m,
                    None => r matches Err(ProtoError::BadHandshakeReply(t)) && t@
                        == crate::proto::json::json_text(v),
                },
            },
    {
        match parse_json(line) {
            Ok(v) => Self::reply_from_value(v),
            Err(e) => Err(ProtoError::Json(e)),
        }
    }
}

/// A JSON value that is no object is never taken for a message.
pub proof fn law_only_objects_are_messages(v: crate::proto::json::JsonView)
    requires
        !(v is Object),
    ensures
        server_message(v) == ServerView::Unknown(v),
        handshake_reply(v) is None,
{
}

/// A list of addresses names each aircraft by its low 24 bits, in order: reading an entry back
/// gives the aircraft.
pub proof fn law_listed_addresses_read_back(l: Seq<Icao>, i: int)
    requires
        0 <= i < l.len(),
    ensures
        hex_addresses(l).len() == l.len(),
        crate::icao::icao_from_hex(hex_addresses(l)[i]) == Some(
            Icao((l[i].0 % 0x100_0000) as u32),
        ),
{
    crate::icao::law_hex_round_trip(l[i]);
}

/// A reply is read for what it says under each name: a denial wherever there is one, else the
/// compression that it names.
pub proof fn law_reply_says_what_the_server_said(v: crate::proto::json::JsonView)
    ensures
        handshake_reply(v) matches Some(ServerView::Deny(_)) <==> v.member("deny"@) is Some,
        handshake_reply(v) matches Some(
            ServerView::HandshakeAccept { compress, motd, heartbeat, return_results, raw },
        ) ==> {
            &&& crate::proto::json::text_member(v, "compress"@) == Some(compress.name())
            &&& crate::proto::json::text_member(v, "motd"@) == motd
            &&& heartbeat == crate::proto::json::is_true(v, "heartbeat"@)
            &&& return_results == crate::proto::json::is_true(v, "return_results"@)
            &&& raw == v
        },
{
}

} // verus!
