//! A feeder's session, seen from the server: handshake, downlink batches, and
//! what each line asks for.

use vstd::prelude::*;
use vstd::string::StringExecFns;

use crate::proto::json::{
    member, member_number, member_text, member_true, sorted_keys, parse_json,
};
use crate::proto::messages::{quote_list, Compression};
use crate::text::{lowercase, same_text};

verus! {

/// Why a handshake is refused.
#[derive(Debug)]
pub enum Refusal {
    /// The connection closed before a line came.
    Closed,
    /// The line is longer than the limit.
    TooLong,
    /// The line is not JSON.
    NotJson(serde_json::Error),
    /// No supported compression is offered.
    NoCompression,
    /// Latitude, longitude or altitude is missing.
    NoPosition,
}

/// A refusal as a mathematical value.
pub enum RefusalView {
    Closed,
    TooLong,
    NotJson,
    NoCompression,
    NoPosition,
}

impl View for Refusal {
    type V = RefusalView;

    open spec fn view(&self) -> RefusalView {
        match self {
            Refusal::Closed => RefusalView::Closed,
            Refusal::TooLong => RefusalView::TooLong,
            Refusal::NotJson(_) => RefusalView::NotJson,
            Refusal::NoCompression => RefusalView::NoCompression,
            Refusal::NoPosition => RefusalView::NoPosition,
        }
    }
}

/// What an accepted handshake says. Coordinates stand as number tokens.
#[derive(Debug)]
pub struct Admission {
    pub compress: Compression,
    pub lat: String,
    pub lon: String,
    pub alt: String,
    pub clock_type: String,
    pub freq_hz: u64,
    pub gps: bool,
    pub user: String,
    pub wants_results: bool,
}

/// An accepted handshake as a mathematical value.
pub struct AdmissionView {
    pub compress: Compression,
    pub lat: Seq<char>,
    pub lon: Seq<char>,
    pub alt: Seq<char>,
    pub clock_type: Seq<char>,
    pub freq_hz: u64,
    pub gps: bool,
    pub user: Seq<char>,
    pub wants_results: bool,
}

impl View for Admission {
    type V = AdmissionView;

    open spec fn view(&self) -> AdmissionView {
        AdmissionView {
            compress: self.compress,
            lat: self.lat@,
            lon: self.lon@,
            alt: self.alt@,
            clock_type: self.clock_type@,
            freq_hz: self.freq_hz,
            gps: self.gps,
            user: self.user@,
            wants_results: self.wants_results,
        }
    }
}

/// Which of several offered compressions a server takes.
#[derive(Debug, Clone, Copy, PartialEq, Eq, Structural)]
pub enum Preference {
    /// zlib2, then zlib, then none: at fleet scale the uplink is the feeders' home
    /// bandwidth.
    Bandwidth,
    /// none, then zlib2, then zlib: the cheapest for the server.
    Cheap,
}

/// The best of the offered methods.
pub open spec fn preferred(offered: Seq<Seq<char>>, by: Preference) -> Option<Compression> {
    if by == Preference::Cheap && offered.contains("none"@) {
        Some(Compression::Plain)
    } else if offered.contains("zlib2"@) {
        Some(Compression::Zlib2)
    } else if offered.contains("zlib"@) {
        Some(Compression::Zlib)
    } else if offered.contains("none"@) {
        Some(Compression::Plain)
    } else {
        None
    }
}

/// Counter frequency of a clock type name, in Hz.
pub open spec fn clock_hertz(name: Seq<char>) -> u64 {
    if name == "radarcape_gps"@ || name == "radarcape"@ {
        1_000_000_000
    } else if name == "sbs"@ {
        20_000_000
    } else {
        12_000_000
    }
}

/// `s` begins with `p`.
pub open spec fn begins_with(s: Seq<char>, p: Seq<char>) -> bool {
    s.len() >= p.len() && s.take(p.len() as int) == p
}

/// A member that is a string, or a stand-in.
pub open spec fn text_or(
    v: crate::proto::json::JsonView,
    key: Seq<char>,
    other: Seq<char>,
) -> Seq<char> {
    match v.member(key) {
        Some(m) => match m.text() {
            Some(t) => t,
            None => other,
        },
        None => other,
    }
}

/// The handshake that a JSON value makes.
pub open spec fn handshake_of(v: crate::proto::json::JsonView, by: Preference) -> Result<
    AdmissionView,
    RefusalView,
> {
    match preferred(crate::proto::json::text_list(v.member("compress"@)), by) {
        None => Err(RefusalView::NoCompression),
        Some(compress) => match (
            crate::proto::json::number_member(v, "lat"@),
            crate::proto::json::number_member(v, "lon"@),
            crate::proto::json::number_member(v, "alt"@),
        ) {
            (Some(lat), Some(lon), Some(alt)) => {
                let clock_type = text_or(v, "clock_type"@, "unknown"@);
                Ok(
                    AdmissionView {
                        compress,
                        lat,
                        lon,
                        alt,
                        clock_type,
                        freq_hz: clock_hertz(clock_type),
                        gps: begins_with(clock_type, "radarcape_gps"@),
                        user: text_or(v, "user"@, "anon"@),
                        wants_results: crate::proto::json::is_true(v, "return_results"@),
                    },
                )
            },
            _ => Err(RefusalView::NoPosition),
        },
    }
}

/// The outcome of a handshake line: its bytes as read, with the line feed.
pub open spec fn greeting(line: Seq<u8>) -> Result<AdmissionView, RefusalView> {
    if line.len() == 0 {
        Err(RefusalView::Closed)
    } else if line.last() != 10 {
        Err(RefusalView::TooLong)
    } else {
        match crate::proto::json::json_of(line) {
            None => Err(RefusalView::NotJson),
            Some(v) => handshake_of(v, Preference::Bandwidth),
        }
    }
}

fn has_text(items: &Vec<serde_json::Value>, want: &str) -> (r: bool)
    ensures
        r == crate::proto::json::text_items(
            items@.map_values(|x: serde_json::Value| crate::proto::json::value_view(x)),
        ).contains(want@),
{
    let ghost all = items@.map_values(|x: serde_json::Value| crate::proto::json::value_view(x));
    let mut i: usize = 0;
    let mut found: bool = false;
    while i < items.len()
        invariant
            all == items@.map_values(
                |x: serde_json::Value| crate::proto::json::value_view(x),
            ),
            i <= items@.len(),
            found == crate::proto::json::text_items(all.take(i as int)).contains(want@),
        decreases items@.len() - i,
    {
        assert(all.take(i + 1).drop_last() =~= all.take(i as int));
        assert(all.take(i + 1).last() == crate::proto::json::value_view(items@[i as int]));
        let ghost before = crate::proto::json::text_items(all.take(i as int));
        if let Some(t) = items[i].as_str() {
            let ghost after = crate::proto::json::text_items(all.take(i + 1));
            assert(after == before.push(t@));
            if same_text(t, want) {
                assert(after[before.len() as int] == want@);
                found = true;
            } else {
                proof {
                    if after.contains(want@) {
                        let k = choose|k: int| 0 <= k < after.len() && after[k] == want@;
                        assert(before[k] == want@);
                    }
                    if before.contains(want@) {
                        let k = choose|k: int| 0 <= k < before.len() && before[k] == want@;
                        assert(after[k] == want@);
                    }
                }
            }
        }
        i = i + 1;
    }
    assert(all.take(all.len() as int) =~= all);
    found
}

fn negotiate(v: &serde_json::Value, by: Preference) -> (r: Option<Compression>)
    ensures
        r == preferred(
            crate::proto::json::text_list(crate::proto::json::value_view(*v).member("compress"@)),
            by,
        ),
{
    let offered = match member(v, "compress") {
        Some(m) => m.as_array(),
        None => None,
    };
    match offered {
        Some(items) => {
            if by == Preference::Cheap && has_text(items, "none") {
                Some(Compression::Plain)
            } else if has_text(items, "zlib2") {
                Some(Compression::Zlib2)
            } else if has_text(items, "zlib") {
                Some(Compression::Zlib)
            } else if has_text(items, "none") {
                Some(Compression::Plain)
            } else {
                None
            }
        },
        None => None,
    }
}

fn hertz_of(name: &str) -> (r: u64)
    ensures
        r == clock_hertz(name@),
{
    if same_text(name, "radarcape_gps") || same_text(name, "radarcape") {
        1_000_000_000
    } else if same_text(name, "sbs") {
        20_000_000
    } else {
        12_000_000
    }
}

/// Decides on a parsed handshake; see `handshake_of`.
pub fn accept_handshake(v: &serde_json::Value, by: Preference) -> (r: Result<Admission, Refusal>)
    ensures
        match r {
            Ok(a) => handshake_of(crate::proto::json::value_view(*v), by) == Ok::<
                AdmissionView,
                RefusalView,
            >(a@),
            Err(e) => handshake_of(crate::proto::json::value_view(*v), by) == Err::<
                AdmissionView,
                RefusalView,
            >(e@),
        },
{
    let compress = match negotiate(v, by) {
        Some(c) => c,
        None => {
            return Err(Refusal::NoCompression);
        },
    };
    let lat = member_number(v, "lat");
    let lon = member_number(v, "lon");
    let alt = member_number(v, "alt");
    match (lat, lon, alt) {
        (Some(lat), Some(lon), Some(alt)) => {
            let clock_type = match member_text(v, "clock_type") {
                Some(t) => t,
                None => "unknown".to_owned(),
            };
            let user = match member_text(v, "user") {
                Some(t) => t,
                None => "anon".to_owned(),
            };
            let freq_hz: u64 = hertz_of(clock_type.as_str());
            let gps: bool = crate::text::starts_with(clock_type.as_str(), "radarcape_gps");
            Ok(
                Admission {
                    compress,
                    lat,
                    lon,
                    alt,
                    clock_type,
                    freq_hz,
                    gps,
                    user,
                    wants_results: member_true(v, "return_results"),
                },
            )
        },
        _ => Err(Refusal::NoPosition),
    }
}

/// Reads a handshake line as it came from the socket, line feed included; see
/// `greeting`.
pub fn read_handshake(line: &[u8]) -> (r: Result<Admission, Refusal>)
    ensures
        match r {
            Ok(a) => greeting(line@) == Ok::<AdmissionView, RefusalView>(a@),
            Err(e) => greeting(line@) == Err::<AdmissionView, RefusalView>(e@),
        },
{
    if line.len() == 0 {
        return Err(Refusal::Closed);
    }
    if line[line.len() - 1] != 10 {
        return Err(Refusal::TooLong);
    }
    match parse_json(line) {
        Err(e) => Err(Refusal::NotJson(e)),
        Ok(v) => accept_handshake(&v, Preference::Bandwidth),
    }
}

impl Refusal {
    /// What the feeder is told, where it is told anything.
    pub fn deny_line(&self) -> (r: Option<&'static str>)
        ensures
            match r {
                Some(t) => (self@ is NoCompression && t@
                    == "{\"deny\":[\"no supported compression offered\"],\"reconnect_in\":300}\n"@)
                    || (self@ is NoPosition && t@
                    == "{\"deny\":[\"missing position\"],\"reconnect_in\":300}\n"@),
                None => !(self@ is NoCompression) && !(self@ is NoPosition),
            },
    {
        match self {
            Refusal::NoCompression => Some(
                "{\"deny\":[\"no supported compression offered\"],\"reconnect_in\":300}\n",
            ),
            Refusal::NoPosition => Some("{\"deny\":[\"missing position\"],\"reconnect_in\":300}\n"),
            _ => None,
        }
    }
}

/// The acceptance line of a server that calls itself `server`.
pub open spec fn welcome(compress: Compression, wants_results: bool, server: Seq<char>) -> Seq<char> {
    "{\"compress\":\""@ + compress.name()
        + "\",\"reconnect_in\":300,\"selective_traffic\":true,\"heartbeat\":true,\"return_results\":"@
        + (if wants_results {
        "true"@
    } else {
        "false"@
    }) + ",\"rate_reports\":true,\"motd\":\"mlat-bench candidate "@ + server + "\"}\n"@
}

/// The acceptance line; see `welcome`. Selective traffic and rate reports are
/// always on: a feeder sends no traffic until asked.
pub fn welcome_line(compress: Compression, wants_results: bool, server: &str) -> (r: String)
    ensures
        r@ == welcome(compress, wants_results, server@),
{
    let mut out = String::new();
    out.append("{\"compress\":\"");
    out.append(compress.wire_name());
    out.append(
        "\",\"reconnect_in\":300,\"selective_traffic\":true,\"heartbeat\":true,\"return_results\":",
    );
    if wants_results {
        out.append("true");
    } else {
        out.append("false");
    }
    out.append(",\"rate_reports\":true,\"motd\":\"mlat-bench candidate ");
    out.append(server);
    out.append("\"}\n");
    assert(out@ =~= welcome(compress, wants_results, server@));
    out
}

/// The server's heartbeat; the time stands as its token.
pub fn heartbeat_line(server_time: &str) -> (r: String)
    ensures
        r@ == "{\"heartbeat\":{\"server_time\":"@ + server_time@ + "}}\n"@,
{
    let mut out = "{\"heartbeat\":{\"server_time\":".to_owned();
    out.append(server_time);
    out.append("}}\n");
    out
}

/// Lines wait in a batch until it reaches this many bytes, or until the flush
/// clock ticks.
pub const BATCH_LIMIT: usize = 32 * 1024;

/// Bytes of lines that wait to be framed.
#[derive(Debug)]
pub struct Batch {
    bytes: Vec<u8>,
}

impl View for Batch {
    type V = Seq<u8>;

    closed spec fn view(&self) -> Seq<u8> {
        self.bytes@
    }
}

impl Batch {
    pub fn new() -> (r: Self)
        ensures
            r@ == Seq::<u8>::empty(),
    {
        Batch { bytes: Vec::new() }
    }

    /// Adds a line. A batch that has reached the limit is handed out at once.
    pub fn push(&mut self, line: &[u8]) -> (r: Option<Vec<u8>>)
        ensures
            ({
                let all = old(self)@ + line@;
                if all.len() < BATCH_LIMIT {
                    r is None && final(self)@ == all
                } else {
                    (r matches Some(b) && b@ == all) && final(self)@ == Seq::<u8>::empty()
                }
            }),
            (match r {
                Some(b) => b@,
                None => Seq::<u8>::empty(),
            }) + final(self)@ == old(self)@ + line@,
            final(self)@.len() < 32768,
    {
        self.bytes.extend_from_slice(line);
        assert(self.bytes@ =~= old(self)@ + line@);
        if self.bytes.len() < BATCH_LIMIT {
            return None;
        }
        let mut out: Vec<u8> = Vec::new();
        out.append(&mut self.bytes);
        assert(out@ =~= old(self)@ + line@);
        Some(out)
    }

    /// The flush clock ticked: what waits is handed out, if anything does.
    pub fn flush(&mut self) -> (r: Option<Vec<u8>>)
        ensures
            old(self)@.len() == 0 ==> r is None,
            old(self)@.len() > 0 ==> (r matches Some(b) && b@ == old(self)@),
            final(self)@ == Seq::<u8>::empty(),
    {
        if self.bytes.len() == 0 {
            assert(self.bytes@ =~= Seq::<u8>::empty());
            return None;
        }
        let mut out: Vec<u8> = Vec::new();
        out.append(&mut self.bytes);
        assert(out@ =~= old(self)@);
        Some(out)
    }
}

/// The end of the line that starts at `i`: the next line feed, or the end.
pub open spec fn line_end(b: Seq<u8>, i: int) -> int
    decreases b.len() - i,
{
    if 0 <= i < b.len() && b[i] != 10 {
        line_end(b, i + 1)
    } else {
        i
    }
}

/// The lines of a decoded frame from position `i` on; empty ones are left out.
pub open spec fn lines_from(b: Seq<u8>, i: int) -> Seq<Seq<u8>>
    decreases b.len() + 1 - i,
{
    if i < 0 || i >= b.len() {
        seq![]
    } else {
        proof {
            lemma_line_end(b, i);
        }
        let e = line_end(b, i);
        if e > i {
            seq![b.subrange(i, e)] + lines_from(b, e + 1)
        } else {
            lines_from(b, e + 1)
        }
    }
}

/// A line ends behind its start and inside the bytes.
pub proof fn lemma_line_end(b: Seq<u8>, i: int)
    requires
        0 <= i <= b.len(),
    ensures
        i <= line_end(b, i) <= b.len(),
    decreases b.len() - i,
{
    if i < b.len() && b[i] != 10 {
        lemma_line_end(b, i + 1);
    }
}

/// The views of byte strings.
pub open spec fn byte_strings(v: Seq<Vec<u8>>) -> Seq<Seq<u8>> {
    v.map_values(|l: Vec<u8>| l@)
}

/// Cuts a decoded frame into its lines; see `lines_from`.
pub fn split_lines(b: &[u8]) -> (r: Vec<Vec<u8>>)
    ensures
        byte_strings(r@) == lines_from(b@, 0),
{
    let mut out: Vec<Vec<u8>> = Vec::new();
    let mut i: usize = 0;
    assert(byte_strings(out@) + lines_from(b@, 0) =~= lines_from(b@, 0));
    while i < b.len()
        invariant
            i <= b@.len() + 1,
            byte_strings(out@) + lines_from(b@, i as int) == lines_from(b@, 0),
        decreases b@.len() + 1 - i,
    {
        let mut e: usize = i;
        while e < b.len() && b[e] != 10
            invariant
                i <= e <= b@.len(),
                line_end(b@, i as int) == line_end(b@, e as int),
            decreases b@.len() - e,
        {
            e = e + 1;
        }
        let ghost so_far = byte_strings(out@);
        let ghost rest = lines_from(b@, e + 1);
        if e > i {
            let part = vstd::slice::slice_subrange(b, i, e);
            let mut line: Vec<u8> = Vec::new();
            line.extend_from_slice(part);
            assert(line@ =~= b@.subrange(i as int, e as int));
            let ghost l = line@;
            out.push(line);
            assert(byte_strings(out@) =~= so_far.push(l));
            assert(so_far + (seq![l] + rest) =~= byte_strings(out@) + rest);
        }
        if e == b.len() {
            assert(lines_from(b@, e + 1) =~= seq![]);
            assert(byte_strings(out@) + seq![] =~= byte_strings(out@));
            return out;
        }
        i = e + 1;
    }
    assert(byte_strings(out@) + lines_from(b@, i as int) =~= byte_strings(out@));
    out
}

/// What a feeder's line asks for. Timestamps stand as number tokens.
#[derive(Debug)]
pub enum Request {
    Sync { et: String, ot: String, em: String, om: String },
    Mlat { t: String, m: String },
    ClockReset,
    Nothing,
}

/// A request as a mathematical value.
pub enum RequestView {
    Sync { et: Seq<char>, ot: Seq<char>, em: Seq<char>, om: Seq<char> },
    Mlat { t: Seq<char>, m: Seq<char> },
    ClockReset,
    Nothing,
}

impl View for Request {
    type V = RequestView;

    open spec fn view(&self) -> RequestView {
        match self {
            Request::Sync { et, ot, em, om } => RequestView::Sync {
                et: et@,
                ot: ot@,
                em: em@,
                om: om@,
            },
            Request::Mlat { t, m } => RequestView::Mlat { t: t@, m: m@ },
            Request::ClockReset => RequestView::ClockReset,
            Request::Nothing => RequestView::Nothing,
        }
    }
}

/// The request of a JSON value: a sync or mlat message with all its fields, or a
/// clock that restarted or jumped.
pub open spec fn request_of(v: crate::proto::json::JsonView) -> RequestView {
    match v.member("sync"@) {
        Some(s) => match (
            crate::proto::json::number_member(s, "et"@),
            crate::proto::json::number_member(s, "ot"@),
            crate::proto::json::text_member(s, "em"@),
            crate::proto::json::text_member(s, "om"@),
        ) {
            (Some(et), Some(ot), Some(em), Some(om)) => RequestView::Sync { et, ot, em, om },
            _ => RequestView::Nothing,
        },
        None => match v.member("mlat"@) {
            Some(m) => match (
                crate::proto::json::number_member(m, "t"@),
                crate::proto::json::text_member(m, "m"@),
            ) {
                (Some(t), Some(h)) => RequestView::Mlat { t, m: h },
                _ => RequestView::Nothing,
            },
            None => if v.member("clock_reset"@) is Some || v.member("clock_jump"@) is Some {
                RequestView::ClockReset
            } else {
                RequestView::Nothing
            },
        },
    }
}

/// The aircraft that a line offers: those of its seen list, then those of its rate
/// report.
pub open spec fn offered_by(v: crate::proto::json::JsonView) -> Seq<Seq<char>> {
    let report = match v.member("rate_report"@) {
        Some(r) => if r is Object {
            crate::proto::json::keys_of(r)
        } else {
            seq![]
        },
        None => seq![],
    };
    crate::proto::json::text_list(v.member("seen"@)) + report
}

/// The aircraft to ask for and all that were asked for, after a run of offers:
/// each is asked for once, in lower case.
pub open spec fn asked_after(asked: Seq<Seq<char>>, offers: Seq<Seq<char>>) -> (
    Seq<Seq<char>>,
    Seq<Seq<char>>,
)
    decreases offers.len(),
{
    if offers.len() == 0 {
        (seq![], asked)
    } else {
        let r = asked_after(asked, offers.drop_last());
        let h = crate::text::in_lower_case(offers.last());
        if r.1.contains(h) {
            r
        } else {
            (r.0.push(h), r.1.push(h))
        }
    }
}

/// The aircraft asked for on a connection.
#[derive(Debug)]
pub struct Asked {
    addresses: Vec<String>,
}

impl View for Asked {
    type V = Seq<Seq<char>>;

    closed spec fn view(&self) -> Seq<Seq<char>> {
        crate::text::texts(self.addresses@)
    }
}

impl Asked {
    pub fn new() -> (r: Self)
        ensures
            r@ == Seq::<Seq<char>>::empty(),
    {
        let a = Asked { addresses: Vec::new() };
        assert(a@ =~= seq![]);
        a
    }

    fn known(&self, h: &str) -> (r: bool)
        ensures
            r == self@.contains(h@),
    {
        let mut i: usize = 0;
        while i < self.addresses.len()
            invariant
                i <= self.addresses@.len(),
                forall|k: int| 0 <= k < i ==> self@[k] != h@,
            decreases self.addresses@.len() - i,
        {
            assert(self@[i as int] == self.addresses@[i as int]@);
            if same_text(self.addresses[i].as_str(), h) {
                return true;
            }
            i = i + 1;
        }
        false
    }

    /// One offer: asks for the aircraft unless it was asked for before.
    fn offer(&mut self, h: &str, fresh: &mut Vec<String>)
        ensures
            ({
                let l = crate::text::in_lower_case(h@);
                if old(self)@.contains(l) {
                    final(self)@ == old(self)@ && final(fresh)@ == old(fresh)@
                } else {
                    final(self)@ == old(self)@.push(l) && crate::text::texts(final(fresh)@)
                        == crate::text::texts(old(fresh)@).push(l)
                }
            }),
    {
        let l = lowercase(h);
        if !self.known(l.as_str()) {
            fresh.push(l.clone());
            self.addresses.push(l);
            assert(crate::text::texts(fresh@) =~= crate::text::texts(old(fresh)@).push(l@));
            assert(self@ =~= old(self)@.push(l@));
        }
    }

    /// Goes through a value's offers and returns the aircraft to ask for.
    pub fn take_offers(&mut self, v: &serde_json::Value) -> (fresh: Vec<String>)
        ensures
            (crate::text::texts(fresh@), final(self)@) == asked_after(
                old(self)@,
                offered_by(crate::proto::json::value_view(*v)),
            ),
    {
        let ghost view = crate::proto::json::value_view(*v);
        let ghost seen = crate::proto::json::text_list(view.member("seen"@));
        let ghost asked = self@;
        let mut fresh: Vec<String> = Vec::new();
        assert(crate::text::texts(fresh@) =~= seq![]);
        let list = match member(v, "seen") {
            Some(m) => m.as_array(),
            None => None,
        };
        if let Some(items) = list {
            let ghost all = items@.map_values(
                |x: serde_json::Value| crate::proto::json::value_view(x),
            );
            let mut i: usize = 0;
            while i < items.len()
                invariant
                    all == items@.map_values(
                        |x: serde_json::Value| crate::proto::json::value_view(x),
                    ),
                    i <= items@.len(),
                    (crate::text::texts(fresh@), self@) == asked_after(
                        asked,
                        crate::proto::json::text_items(all.take(i as int)),
                    ),
                decreases items@.len() - i,
            {
                assert(all.take(i + 1).drop_last() =~= all.take(i as int));
                assert(all.take(i + 1).last() == crate::proto::json::value_view(
                    items@[i as int],
                ));
                if let Some(t) = items[i].as_str() {
                    let ghost before = crate::proto::json::text_items(all.take(i as int));
                    let ghost after = crate::proto::json::text_items(all.take(i + 1));
                    assert(after.drop_last() =~= before);
                    self.offer(t, &mut fresh);
                }
                i = i + 1;
            }
            assert(all.take(all.len() as int) =~= all);
        }
        assert((crate::text::texts(fresh@), self@) == asked_after(asked, seen));
        let keys = match member(v, "rate_report") {
            Some(m) => sorted_keys(m),
            None => None,
        };
        match keys {
            Some(k) => {
                let ghost all = crate::text::texts(k@);
                let mut i: usize = 0;
                assert(seen + all.take(0) =~= seen);
                while i < k.len()
                    invariant
                        all == crate::text::texts(k@),
                        i <= k@.len(),
                        (crate::text::texts(fresh@), self@) == asked_after(
                            asked,
                            seen + all.take(i as int),
                        ),
                    decreases k@.len() - i,
                {
                    let ghost after = seen + all.take(i + 1);
                    assert(after.drop_last() =~= seen + all.take(i as int));
                    assert(after.last() == k@[i as int]@);
                    self.offer(k[i].as_str(), &mut fresh);
                    i = i + 1;
                }
                assert(all.take(all.len() as int) =~= all);
                assert(offered_by(view) =~= seen + all);
            },
            None => {
                assert(offered_by(view) =~= seen);
            },
        }
        fresh
    }
}

/// Reads what a parsed line asks for; see `request_of`.
pub fn read_request(v: &serde_json::Value) -> (r: Request)
    ensures
        r@ == request_of(crate::proto::json::value_view(*v)),
{
    if let Some(s) = member(v, "sync") {
        let et = member_number(s, "et");
        let ot = member_number(s, "ot");
        let em = member_text(s, "em");
        let om = member_text(s, "om");
        return match (et, ot, em, om) {
            (Some(et), Some(ot), Some(em), Some(om)) => Request::Sync { et, ot, em, om },
            _ => Request::Nothing,
        };
    }
    if let Some(m) = member(v, "mlat") {
        let t = member_number(m, "t");
        let h = member_text(m, "m");
        return match (t, h) {
            (Some(t), Some(h)) => Request::Mlat { t, m: h },
            _ => Request::Nothing,
        };
    }
    if member(v, "clock_reset").is_some() || member(v, "clock_jump").is_some() {
        Request::ClockReset
    } else {
        Request::Nothing
    }
}

/// What follows from a line: a message that asks for aircraft, and a request.
#[derive(Debug)]
pub struct Outcome {
    pub start_sending: Option<String>,
    pub request: Request,
}

/// The message that asks for aircraft.
pub open spec fn start_sending_text(fresh: Seq<Seq<char>>) -> Seq<char> {
    "{\"start_sending\":["@ + crate::proto::messages::quoted_list(fresh) + "]}\n"@
}

/// Handles one line of a feeder. Aircraft that the feeder offers (seen list, rate
/// report) are asked for unless they were before: a feeder sends nothing until
/// asked. A line that is not JSON is ignored.
pub fn process_line(line: &[u8], asked: &mut Asked) -> (r: Outcome)
    ensures
        match crate::proto::json::json_of(line@) {
            None => r.start_sending is None && r.request@ is Nothing && final(asked)@ == old(
                asked,
            )@,
            Some(v) => {
                let a = asked_after(old(asked)@, offered_by(v));
                &&& r.request@ == request_of(v)
                &&& final(asked)@ == a.1
                &&& a.0.len() == 0 ==> r.start_sending is None
                &&& a.0.len() > 0 ==> (r.start_sending matches Some(m) && m@
                    == start_sending_text(a.0))
            },
        },
{
    let v = match parse_json(line) {
        Ok(v) => v,
        Err(_) => {
            return Outcome { start_sending: None, request: Request::Nothing };
        },
    };
    let fresh = asked.take_offers(&v);
    let start_sending = if fresh.len() > 0 {
        let mut m = String::new();
        m.append("{\"start_sending\":[");
        m.append(quote_list(&fresh).as_str());
        m.append("]}\n");
        assert(m@ =~= start_sending_text(crate::text::texts(fresh@)));
        Some(m)
    } else {
        None
    };
    Outcome { start_sending, request: read_request(&v) }
}

/// No aircraft is asked for twice on a connection, and whatever was asked for
/// stays asked for.
pub proof fn law_each_aircraft_is_asked_for_once(asked: Seq<Seq<char>>, offers: Seq<Seq<char>>)
    requires
        asked.no_duplicates(),
    ensures
        ({
            let r = asked_after(asked, offers);
            &&& r.1 == asked + r.0
            &&& r.1.no_duplicates()
            &&& forall|k: int|
                0 <= k < offers.len() ==> r.1.contains(
                    crate::text::in_lower_case(#[trigger] offers[k]),
                )
        }),
    decreases offers.len(),
{
    if offers.len() == 0 {
        assert(asked + Seq::<Seq<char>>::empty() =~= asked);
    } else {
        law_each_aircraft_is_asked_for_once(asked, offers.drop_last());
        let p = asked_after(asked, offers.drop_last());
        let r = asked_after(asked, offers);
        let h = crate::text::in_lower_case(offers.last());
        if p.1.contains(h) {
        } else {
            assert(asked + p.0.push(h) =~= (asked + p.0).push(h));
            assert(r.1[p.1.len() as int] == h);
        }
        assert forall|k: int| 0 <= k < offers.len() implies r.1.contains(
            crate::text::in_lower_case(#[trigger] offers[k]),
        ) by {
            if k < offers.len() - 1 {
                assert(offers.drop_last()[k] == offers[k]);
                let l = crate::text::in_lower_case(offers[k]);
                assert(p.1.contains(l));
                let i = choose|i: int| 0 <= i < p.1.len() && p.1[i] == l;
                assert(r.1[i] == l);
            }
        }
    }
}

// -------------------------------------------------------- what a session keeps

/// The compression that is taken was offered, and one is taken wherever a known one was. For
/// bandwidth that is the bandwidth mode if it was offered, and no compression only where
/// neither of the others was; for cheapness it is no compression wherever that was offered.
pub proof fn law_compression_was_offered(offered: Seq<Seq<char>>, by: Preference)
    ensures
        preferred(offered, by) matches Some(c) ==> offered.contains(c.name()),
        preferred(offered, by) is None <==> !offered.contains("none"@) && !offered.contains(
            "zlib"@,
        ) && !offered.contains("zlib2"@),
        by == Preference::Bandwidth && offered.contains("zlib2"@) ==> preferred(offered, by)
            == Some(Compression::Zlib2),
        by == Preference::Bandwidth && preferred(offered, by) == Some(Compression::Plain)
            ==> !offered.contains("zlib2"@) && !offered.contains("zlib"@),
        by == Preference::Cheap && offered.contains("none"@) ==> preferred(offered, by) == Some(
            Compression::Plain,
        ),
{
}

/// What a feeder says of its clock is understood: the frequency that its clock type counts at
/// is the one that is taken, and a GPS clock is known for one.
pub proof fn law_clock_types_are_understood(c: crate::proto::messages::ClockType)
    ensures
        clock_hertz(c.name()) == c.hertz(),
        begins_with(c.name(), "radarcape_gps"@)
            <==> c == crate::proto::messages::ClockType::RadarcapeGps,
{
    reveal_strlit("radarcape_gps");
    reveal_strlit("radarcape");
    reveal_strlit("radarcape_12mhz");
    reveal_strlit("beast");
    reveal_strlit("sbs");
    reveal_strlit("dump1090");
    reveal_strlit("unknown");
    assert("radarcape_gps"@.len() == 13);
    assert("radarcape_12mhz"@.len() == 15);
    assert("radarcape"@.len() == 9);
    assert("beast"@.len() == 5 && "sbs"@.len() == 3 && "dump1090"@.len() == 8 && "unknown"@.len()
        == 7);
    assert("radarcape_gps"@.take(13) =~= "radarcape_gps"@);
    let t = "radarcape_12mhz"@.take(13);
    assert(t[10] == '1' && "radarcape_gps"@[10] == 'g');
}

/// An admission says what the handshake says under each name; without a compression that both
/// know, or without a position, there is none.
pub proof fn law_admission_says_what_the_feeder_said(
    v: crate::proto::json::JsonView,
    by: Preference,
)
    ensures
        handshake_of(v, by) matches Ok(a) ==> {
            &&& crate::proto::json::number_member(v, "lat"@) == Some(a.lat)
            &&& crate::proto::json::number_member(v, "lon"@) == Some(a.lon)
            &&& crate::proto::json::number_member(v, "alt"@) == Some(a.alt)
            &&& crate::proto::json::text_list(v.member("compress"@)).contains(a.compress.name())
            &&& crate::proto::json::text_member(v, "user"@) matches Some(u) ==> a.user == u
            &&& crate::proto::json::text_member(v, "clock_type"@) matches Some(c) ==> a.clock_type
                == c
            &&& a.freq_hz == clock_hertz(a.clock_type)
            &&& a.wants_results <==> crate::proto::json::is_true(v, "return_results"@)
        },
        handshake_of(v, by) is Ok <==> preferred(
            crate::proto::json::text_list(v.member("compress"@)),
            by,
        ) is Some && crate::proto::json::number_member(v, "lat"@) is Some
            && crate::proto::json::number_member(v, "lon"@) is Some
            && crate::proto::json::number_member(v, "alt"@) is Some,
{
    law_compression_was_offered(crate::proto::json::text_list(v.member("compress"@)), by);
}

/// A request says what the message says under each name: the counters of a sync message stay
/// with their own frames.
pub proof fn law_request_says_what_the_message_said(v: crate::proto::json::JsonView)
    ensures
        request_of(v) matches RequestView::Sync { et, ot, em, om } ==> {
            let s = v.member("sync"@);
            &&& s is Some
            &&& crate::proto::json::number_member(s->0, "et"@) == Some(et)
            &&& crate::proto::json::number_member(s->0, "ot"@) == Some(ot)
            &&& crate::proto::json::text_member(s->0, "em"@) == Some(em)
            &&& crate::proto::json::text_member(s->0, "om"@) == Some(om)
        },
        request_of(v) matches RequestView::Mlat { t, m } ==> {
            let s = v.member("mlat"@);
            &&& s is Some
            &&& crate::proto::json::number_member(s->0, "t"@) == Some(t)
            &&& crate::proto::json::text_member(s->0, "m"@) == Some(m)
        },
        request_of(v) is ClockReset ==> v.member("clock_reset"@) is Some || v.member(
            "clock_jump"@,
        ) is Some,
{
}

/// Every aircraft of a line's seen list and of its rate report is offered, and no other.
pub proof fn law_offers_are_what_was_seen(v: crate::proto::json::JsonView, x: Seq<char>)
    ensures
        offered_by(v).contains(x) <==> crate::proto::json::text_list(v.member("seen"@)).contains(x)
            || (v.member("rate_report"@) matches Some(r) && r is Object
            && crate::proto::json::keys_of(r).contains(x)),
{
    let a = crate::proto::json::text_list(v.member("seen"@));
    let all = offered_by(v);
    let b = all.skip(a.len() as int);
    assert(all =~= a + b);
    if let Some(r) = v.member("rate_report"@) {
        if r is Object {
            assert(b =~= crate::proto::json::keys_of(r));
        } else {
            assert(b =~= seq![]);
        }
    } else {
        assert(b =~= seq![]);
    }
    if a.contains(x) {
        let i = choose|i: int| 0 <= i < a.len() && a[i] == x;
        assert(all[i] == x);
    }
    if b.contains(x) {
        let i = choose|i: int| 0 <= i < b.len() && b[i] == x;
        assert(all[a.len() + i] == x);
    }
    if all.contains(x) {
        let i = choose|i: int| 0 <= i < all.len() && all[i] == x;
        if i < a.len() {
            assert(a[i] == x);
        } else {
            assert(b[i - a.len()] == x);
        }
    }
}

/// Nothing is asked for that was not offered or that was asked for before.
pub proof fn law_only_new_offers_are_asked_for(
    asked: Seq<Seq<char>>,
    offers: Seq<Seq<char>>,
    k: int,
) -> (j: int)
    requires
        0 <= k < asked_after(asked, offers).0.len(),
    ensures
        0 <= j < offers.len(),
        asked_after(asked, offers).0[k] == crate::text::in_lower_case(offers[j]),
        !asked.contains(asked_after(asked, offers).0[k]),
    decreases offers.len(),
{
    let r = offers.drop_last();
    let (a, b) = (asked_after(asked, offers), asked_after(asked, r));
    if k < b.0.len() {
        let j = law_only_new_offers_are_asked_for(asked, r, k);
        assert(a.0[k] == b.0[k]);
        assert(r[j] == offers[j]);
        j
    } else {
        lemma_asked_stay(asked, r, a.0[k]);
        offers.len() - 1
    }
}

proof fn lemma_asked_stay(asked: Seq<Seq<char>>, offers: Seq<Seq<char>>, x: Seq<char>)
    ensures
        asked.contains(x) ==> asked_after(asked, offers).1.contains(x),
    decreases offers.len(),
{
    if offers.len() > 0 {
        lemma_asked_stay(asked, offers.drop_last(), x);
        let b = asked_after(asked, offers.drop_last()).1;
        let a = asked_after(asked, offers).1;
        if b.contains(x) {
            let i = choose|i: int| 0 <= i < b.len() && b[i] == x;
            assert(a[i] == x);
        }
    }
}

/// A run of lines, each ended by a line feed.
pub open spec fn fed(lines: Seq<Seq<u8>>) -> Seq<u8>
    decreases lines.len(),
{
    if lines.len() == 0 {
        seq![]
    } else {
        lines[0].push(10) + fed(lines.skip(1))
    }
}

proof fn lemma_line_end_is(b: Seq<u8>, i: int, e: int)
    requires
        0 <= i <= e <= b.len(),
        forall|k: int| i <= k < e ==> #[trigger] b[k] != 10,
        e < b.len() ==> b[e] == 10,
    ensures
        line_end(b, i) == e,
    decreases e - i,
{
    if i < e {
        lemma_line_end_is(b, i + 1, e);
    }
}

proof fn lemma_line_end_within(b: Seq<u8>, i: int)
    requires
        0 <= i <= b.len(),
    ensures
        i <= line_end(b, i) <= b.len(),
        forall|k: int| i <= k < line_end(b, i) ==> #[trigger] b[k] != 10,
        line_end(b, i) < b.len() ==> b[line_end(b, i)] == 10,
    decreases b.len() - i,
{
    if i < b.len() && b[i] != 10 {
        lemma_line_end_within(b, i + 1);
    }
}

/// The lines behind a stretch of bytes are those of what follows it.
proof fn lemma_lines_shift(a: Seq<u8>, b: Seq<u8>, i: int)
    requires
        0 <= i,
    ensures
        lines_from(a + b, a.len() + i) == lines_from(b, i),
    decreases b.len() + 1 - i,
{
    let s = a + b;
    if i < b.len() {
        lemma_line_end_within(b, i);
        let e = line_end(b, i);
        assert forall|k: int| a.len() + i <= k < a.len() + e implies #[trigger] s[k] != 10 by {
            assert(s[k] == b[k - a.len()]);
        }
        if e < b.len() {
            assert(s[a.len() + e] == b[e]);
        }
        lemma_line_end_is(s, a.len() + i, a.len() + e);
        lemma_lines_shift(a, b, e + 1);
        assert(s.subrange(a.len() + i, a.len() + e) =~= b.subrange(i, e));
    }
}

/// Whatever lines a feeder sends come back as they are: all of them, in order, without their
/// line feeds.
pub proof fn law_lines_come_back(lines: Seq<Seq<u8>>)
    requires
        forall|k: int| 0 <= k < lines.len() ==> (#[trigger] lines[k]).len() > 0,
        forall|k: int, j: int|
            0 <= k < lines.len() && 0 <= j < lines[k].len() ==> #[trigger] lines[k][j] != 10,
    ensures
        lines_from(fed(lines), 0) == lines,
    decreases lines.len(),
{
    if lines.len() > 0 {
        let (l, r) = (lines[0], lines.skip(1));
        let s = fed(lines);
        assert forall|k: int| 0 <= k < r.len() implies (#[trigger] r[k]).len() > 0 by {
            assert(r[k] == lines[k + 1]);
        }
        assert forall|k: int, j: int| 0 <= k < r.len() && 0 <= j < r[k].len() implies #[trigger] r[k][j]
            != 10 by {
            assert(r[k] == lines[k + 1]);
            assert(lines[k + 1][j] != 10);
        }
        law_lines_come_back(r);
        assert forall|k: int| 0 <= k < l.len() implies #[trigger] s[k] != 10 by {
            assert(s[k] == lines[0][k]);
        }
        assert(s[l.len() as int] == 10);
        lemma_line_end_is(s, 0, l.len() as int);
        lemma_lines_shift(l.push(10), fed(r), 0);
        assert(s.subrange(0, l.len() as int) =~= l);
        assert(seq![l] + r =~= lines);
    } else {
        assert(lines_from(fed(lines), 0) =~= lines);
    }
}

/// No line that is cut out is empty or holds a line feed.
pub proof fn law_lines_are_clean(b: Seq<u8>, i: int, k: int)
    requires
        0 <= i,
        0 <= k < lines_from(b, i).len(),
    ensures
        lines_from(b, i)[k].len() > 0,
        !lines_from(b, i)[k].contains(10u8),
    decreases b.len() + 1 - i,
{
    if i < b.len() {
        lemma_line_end_within(b, i);
        let e = line_end(b, i);
        let l = b.subrange(i, e);
        if e > i && k == 0 {
            if l.contains(10u8) {
                let j = choose|j: int| 0 <= j < l.len() && l[j] == 10u8;
                assert(b[i + j] == 10);
            }
        } else if e > i {
            law_lines_are_clean(b, e + 1, k - 1);
        } else {
            law_lines_are_clean(b, e + 1, k);
        }
    }
}

} // verus!
