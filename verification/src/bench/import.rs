//! Importing a published data set of real receivers.
//!
//! Geometry and timestamps are real; the frames are encoded again from the published
//! positions. A held-out fraction of the aircraft sends altitude replies only, so a
//! server has to multilaterate it while truth knows where it was.

use std::collections::{HashMap, HashSet};
use vstd::prelude::*;
use vstd::string::StringExecFns;

use crate::icao::Icao;
use crate::proto::json::{number_text, parse_json, Number};
use crate::proto::messages::{ClientMsg, HexMsg};
use crate::reading::Reading;
use crate::sim::gen::{sort_lines, BroadcastKind, Line};
use crate::text::{chars_of, check_double, decimal_of, parse_u64, uppercase};

verus! {

// ---------------------------------------------------------------------- rows

/// A sensor as the data set lists it. A field that holds no number is `None`.
#[derive(Debug)]
pub struct SensorRow {
    pub serial: Option<u64>,
    pub lat: Option<String>,
    pub lon: Option<String>,
    pub height: Option<String>,
}

/// A number field, as it stands.
pub open spec fn number_in(s: Seq<char>) -> Option<Seq<char>> {
    if crate::text::is_double(s) {
        Some(s)
    } else {
        None
    }
}

/// A counting number field.
pub open spec fn integer_in(s: Seq<char>, limit: u64) -> Option<u64> {
    match crate::text::parse_decimal(s) {
        Some(n) => if n <= limit {
            Some(n as u64)
        } else {
            None
        },
        None => None,
    }
}

fn find_number(s: &str) -> (r: Option<String>)
    ensures
        crate::proto::messages::text_view(r) == number_in(s@),
{
    let c = chars_of(s);
    if check_double(c.as_slice()) {
        Some(s.to_owned())
    } else {
        None
    }
}

fn find_integer(s: &str, limit: u64) -> (r: Option<u64>)
    ensures
        r == integer_in(s@, limit),
{
    let c = chars_of(s);
    match parse_u64(c.as_slice()) {
        Some(n) => if n <= limit {
            Some(n)
        } else {
            None
        },
        None => None,
    }
}

/// Reads a sensor: serial, latitude, longitude, height.
pub fn read_sensor(f: &Vec<String>) -> (r: SensorRow)
    requires
        f@.len() >= 4,
    ensures
        r.serial == integer_in(f@[0]@, u64::MAX),
        crate::proto::messages::text_view(r.lat) == number_in(f@[1]@),
        crate::proto::messages::text_view(r.lon) == number_in(f@[2]@),
        crate::proto::messages::text_view(r.height) == number_in(f@[3]@),
{
    SensorRow {
        serial: find_integer(f[0].as_str(), u64::MAX),
        lat: find_number(f[1].as_str()),
        lon: find_number(f[2].as_str()),
        height: find_number(f[3].as_str()),
    }
}

/// A transmission as the data set lists it. A field that holds no number is `None`.
#[derive(Debug)]
pub struct SetRow {
    pub t_server: Option<String>,
    pub aircraft: Option<u32>,
    pub lat: Option<String>,
    pub lon: Option<String>,
    pub baro_m: Option<String>,
    pub marks: Vec<Measurement>,
}

/// One sensor's timestamp of a transmission, in nanoseconds, as its token.
#[derive(Debug)]
pub struct Measurement {
    pub serial: u64,
    pub ns: String,
}

/// The measurement in an item of the list: an array whose first two items are a
/// serial and a timestamp.
pub open spec fn measurement_in(v: crate::proto::json::JsonView) -> Option<(u64, Seq<char>)> {
    match v {
        crate::proto::json::JsonView::Array(items) => if items.len() >= 2 {
            match (items[0].number(), items[1].number()) {
                (Some(s), Some(ns)) => match integer_in(s, u64::MAX) {
                    Some(serial) => Some((serial, ns)),
                    None => None,
                },
                _ => None,
            }
        } else {
            None
        },
        _ => None,
    }
}

/// The measurements in a run of items; others are left out.
pub open spec fn measurements_in(v: Seq<crate::proto::json::JsonView>) -> Seq<(u64, Seq<char>)>
    decreases v.len(),
{
    if v.len() == 0 {
        seq![]
    } else {
        let rest = measurements_in(v.drop_last());
        match measurement_in(v.last()) {
            Some(m) => rest.push(m),
            None => rest,
        }
    }
}

/// The measurements that a field lists; none where it is no list.
pub open spec fn measurement_list(text: Seq<char>) -> Seq<(u64, Seq<char>)> {
    match crate::proto::json::json_of(vstd::utf8::encode_utf8(text)) {
        Some(crate::proto::json::JsonView::Array(items)) => measurements_in(items),
        _ => seq![],
    }
}

/// The views of a run of measurements.
pub open spec fn measurement_views(v: Seq<Measurement>) -> Seq<(u64, Seq<char>)> {
    v.map_values(|m: Measurement| (m.serial, m.ns@))
}

fn read_measurement(v: &serde_json::Value) -> (r: Option<Measurement>)
    ensures
        match r {
            Some(m) => measurement_in(crate::proto::json::value_view(*v)) == Some(
                (m.serial, m.ns@),
            ),
            None => measurement_in(crate::proto::json::value_view(*v)) is None,
        },
{
    let items = match v.as_array() {
        Some(items) => items,
        None => {
            return None;
        },
    };
    if items.len() < 2 {
        return None;
    }
    match (number_text(&items[0]), number_text(&items[1])) {
        (Some(s), Some(ns)) => match find_integer(s.as_str(), u64::MAX) {
            Some(serial) => Some(Measurement { serial, ns }),
            None => None,
        },
        _ => None,
    }
}

fn read_measurements(text: &str) -> (r: Vec<Measurement>)
    ensures
        measurement_views(r@) == measurement_list(text@),
{
    let mut out: Vec<Measurement> = Vec::new();
    assert(measurement_views(out@) =~= seq![]);
    let v = match parse_json(text.as_bytes()) {
        Ok(v) => v,
        Err(_) => {
            return out;
        },
    };
    if let Some(items) = v.as_array() {
        let ghost all = items@.map_values(|x: serde_json::Value| crate::proto::json::value_view(x));
        let mut i: usize = 0;
        while i < items.len()
            invariant
                all == items@.map_values(|x: serde_json::Value| crate::proto::json::value_view(x)),
                i <= items@.len(),
                measurement_views(out@) =~= measurements_in(all.take(i as int)),
            decreases items@.len() - i,
        {
            proof {
                assert(all.take(i + 1).drop_last() =~= all.take(i as int));
                assert(all.take(i + 1).last() == crate::proto::json::value_view(items@[i as int]));
            }
            if let Some(m) = read_measurement(&items[i]) {
                let ghost prev = out@;
                let ghost added = (m.serial, m.ns@);
                out.push(m);
                assert(measurement_views(out@) =~= measurement_views(prev).push(added));
            }
            i = i + 1;
        }
        assert(all.take(all.len() as int) =~= all);
    }
    out
}

/// Reads a transmission. Columns: id, time at the server, aircraft, latitude,
/// longitude, barometric altitude, geometric altitude, count, measurements.
pub fn read_row(f: &Vec<String>) -> (r: SetRow)
    requires
        f@.len() >= 9,
    ensures
        crate::proto::messages::text_view(r.t_server) == number_in(f@[1]@),
        r.aircraft == (match integer_in(f@[2]@, u32::MAX as u64) {
            Some(n) => Some(n as u32),
            None => None,
        }),
        crate::proto::messages::text_view(r.lat) == number_in(f@[3]@),
        crate::proto::messages::text_view(r.lon) == number_in(f@[4]@),
        crate::proto::messages::text_view(r.baro_m) == number_in(f@[5]@),
        measurement_views(r.marks@) == measurement_list(f@[8]@),
{
    SetRow {
        t_server: find_number(f[1].as_str()),
        aircraft: match find_integer(f[2].as_str(), 0xFFFF_FFFF) {
            Some(n) => Some(n as u32),
            None => None,
        },
        lat: find_number(f[3].as_str()),
        lon: find_number(f[4].as_str()),
        baro_m: find_number(f[5].as_str()),
        marks: read_measurements(f[8].as_str()),
    }
}

/// Sensors that must have marked a transmission for it to be of use.
pub const MIN_MARKS: usize = 2;

/// The largest aircraft number that has an address.
pub const MAX_AIRCRAFT: u32 = 0xFFEF_FFFF;

/// What an import does with a row.
#[derive(Debug, Clone, Copy, PartialEq, Eq, Structural)]
pub enum RowUse {
    /// The time is no number: the data set is refused.
    NoTime,
    /// Behind the end of the import. Rows are in order of time, so it ends here.
    Past,
    /// The aircraft is no number: the data set is refused.
    NoAircraft,
    /// The position is withheld: the row is passed over.
    NoTruth,
    /// Too few sensors marked it: the row is passed over.
    TooFewMarks,
    /// The aircraft's number is too large for an address: the data set is refused.
    NoAddress,
    Used,
}

/// What becomes of a row; `t` is the number that its time field writes.
pub open spec fn use_of(row: SetRow, t: Reading, end: Reading) -> RowUse {
    if row.t_server is None {
        RowUse::NoTime
    } else if end.below(t) {
        RowUse::Past
    } else {
        match row.aircraft {
            None => RowUse::NoAircraft,
            Some(a) => if row.lat is None || row.lon is None || row.baro_m is None {
                RowUse::NoTruth
            } else if row.marks@.len() < MIN_MARKS {
                RowUse::TooFewMarks
            } else if a > MAX_AIRCRAFT {
                RowUse::NoAddress
            } else {
                RowUse::Used
            },
        }
    }
}

/// Decides what becomes of a row; see `use_of`.
pub fn judge_row(row: &SetRow, t: Reading, end: Reading) -> (r: RowUse)
    ensures
        r == use_of(*row, t, end),
{
    if row.t_server.is_none() {
        return RowUse::NoTime;
    }
    if t.gt(end) {
        return RowUse::Past;
    }
    match row.aircraft {
        None => RowUse::NoAircraft,
        Some(a) => if row.lat.is_none() || row.lon.is_none() || row.baro_m.is_none() {
            RowUse::NoTruth
        } else if row.marks.len() < MIN_MARKS {
            RowUse::TooFewMarks
        } else if a > MAX_AIRCRAFT {
            RowUse::NoAddress
        } else {
            RowUse::Used
        },
    }
}

// ------------------------------------------------------------------- clients

/// A broadcast of one sensor that awaits its partner of the other parity.
pub ghost struct ImportHalf {
    pub odd: bool,
    pub t: Reading,
    pub counts: u64,
    pub hex: Seq<char>,
}

/// What a sensor's client has said and what it remembers.
pub ghost struct SensorView {
    pub lines: Seq<crate::sim::gen::LineView>,
    pub seen: Set<u32>,
    pub pending: Map<u32, ImportHalf>,
}

/// A transmission that a client hears.
#[derive(Debug, Clone, Copy, PartialEq, Eq, Structural)]
pub struct Sent {
    pub icao: Icao,
    pub t: Reading,
    /// The aircraft is one of those that a server must find.
    pub held_out: bool,
    pub odd: bool,
}

/// A sensor's mark of a transmission: its counter, and the time since the broadcast
/// that awaits its partner there.
#[derive(Debug, Clone, Copy, PartialEq, Eq, Structural)]
pub struct Mark {
    pub serial: u64,
    pub counts: u64,
    pub gap: Reading,
}

/// The JSON text of a pair.
pub open spec fn pair_text(even: ImportHalf, odd: ImportHalf) -> Seq<char> {
    "{\"sync\":{\"et\":"@ + crate::text::decimal(even.counts as nat) + ",\"em\":\""@ + even.hex
        + "\",\"ot\":"@ + crate::text::decimal(odd.counts as nat) + ",\"om\":\""@ + odd.hex
        + "\"}}"@
}

/// A client before it has said anything.
pub open spec fn silent() -> SensorView {
    SensorView { lines: seq![], seen: Set::empty(), pending: Map::empty() }
}

/// What the mark is to the client, as a half of a pair.
pub open spec fn half_of(s: Sent, m: Mark, hex: Seq<char>) -> ImportHalf {
    ImportHalf { odd: s.odd, t: s.t, counts: m.counts, hex }
}

/// The client after it heard a transmission: the aircraft if it is new, then the
/// measurement. A broadcast waits for its partner.
pub open spec fn after_mark(c: SensorView, s: Sent, frame: Seq<u8>, m: Mark) -> SensorView {
    let addr = s.icao.0;
    let hex = crate::proto::messages::hex_text(frame);
    let l1 = if c.seen.contains(addr) {
        c.lines
    } else {
        c.lines.push(
            crate::sim::gen::message_line(
                s.t,
                crate::proto::messages::MsgView::Seen(
                    crate::proto::messages::hex_addresses(seq![s.icao]),
                ),
            ),
        )
    };
    let seen = c.seen.insert(addr);
    if s.held_out {
        SensorView {
            lines: l1.push(
                crate::sim::gen::message_line(
                    s.t,
                    crate::proto::messages::MsgView::Mlat {
                        t: crate::text::decimal(m.counts as nat),
                        m: hex,
                    },
                ),
            ),
            seen,
            pending: c.pending,
        }
    } else if c.pending.dom().contains(addr) && c.pending[addr].odd != s.odd && m.gap.below(
        Reading(crate::sim::gen::PAIR_WINDOW),
    ) {
        let p = c.pending[addr];
        let text = if s.odd {
            pair_text(p, half_of(s, m, hex))
        } else {
            pair_text(half_of(s, m, hex), p)
        };
        SensorView {
            lines: l1.push(
                crate::sim::gen::LineView {
                    t: s.t,
                    bytes: crate::proto::messages::line_bytes(text),
                },
            ),
            seen,
            pending: c.pending.remove(addr),
        }
    } else {
        SensorView { lines: l1, seen, pending: c.pending.insert(addr, half_of(s, m, hex)) }
    }
}

#[derive(Debug)]
struct Half {
    odd: bool,
    t: Reading,
    counts: u64,
    hex: String,
}

#[derive(Debug)]
struct SensorClient {
    lines: Vec<Line>,
    seen: HashSet<u32>,
    pending: HashMap<u32, Half>,
}

impl Half {
    spec fn half(self) -> ImportHalf {
        ImportHalf { odd: self.odd, t: self.t, counts: self.counts, hex: self.hex@ }
    }
}

impl SensorClient {
    spec fn shown(self) -> SensorView {
        SensorView {
            lines: crate::sim::gen::line_views(self.lines@),
            seen: self.seen@,
            pending: self.pending@.map_values(|h: Half| h.half()),
        }
    }

    fn new() -> (r: Self)
        ensures
            r.shown() == silent(),
    {
        broadcast use vstd::std_specs::hash::group_hash_axioms;

        let r = SensorClient { lines: Vec::new(), seen: HashSet::new(), pending: HashMap::new() };
        assert(r.shown().lines =~= silent().lines);
        assert(r.shown().seen =~= silent().seen);
        assert(r.shown().pending =~= silent().pending);
        r
    }

    fn mark(&mut self, s: &Sent, frame: &Vec<u8>, m: &Mark)
        ensures
            final(self).shown() == after_mark(old(self).shown(), *s, frame@, *m),
    {
        broadcast use vstd::std_specs::hash::group_hash_axioms;

        let ghost c = self.shown();
        let addr: u32 = s.icao.0;
        let hex = HexMsg::from_bytes(frame.as_slice()).0;
        if !self.seen.contains(&addr) {
            let one: [Icao; 1] = [s.icao];
            assert(one@ =~= seq![s.icao]);
            self.lines.push(Line { t: s.t, bytes: ClientMsg::seen(one.as_slice()).to_line() });
        }
        self.seen.insert(addr);
        let ghost l1 = crate::sim::gen::line_views(self.lines@);
        proof {
            assert(self.seen@ =~= c.seen.insert(addr));
            if c.seen.contains(addr) {
                assert(l1 =~= c.lines);
            } else {
                assert(l1 =~= c.lines.push(
                    crate::sim::gen::message_line(
                        s.t,
                        crate::proto::messages::MsgView::Seen(
                            crate::proto::messages::hex_addresses(seq![s.icao]),
                        ),
                    ),
                ));
            }
        }
        if s.held_out {
            let msg = ClientMsg::Mlat { t: Number::from_u64(m.counts), m: HexMsg(hex) };
            self.lines.push(Line { t: s.t, bytes: msg.to_line() });
            assert(crate::sim::gen::line_views(self.lines@) =~= l1.push(
                crate::sim::gen::message_line(s.t, msg@),
            ));
            return;
        }
        let paired: bool = match self.pending.get(&addr) {
            Some(p) => p.odd != s.odd && m.gap.lt(Reading(crate::sim::gen::PAIR_WINDOW)),
            None => false,
        };
        if paired {
            if let Some(p) = self.pending.remove(&addr) {
                let ghost ph = p.half();
                assert(self.pending@.map_values(|h: Half| h.half()) =~= c.pending.remove(addr));
                let me = Half { odd: s.odd, t: s.t, counts: m.counts, hex };
                let ghost mh = me.half();
                let bytes = if s.odd {
                    pair_line(&p, &me)
                } else {
                    pair_line(&me, &p)
                };
                self.lines.push(Line { t: s.t, bytes });
                assert(crate::sim::gen::line_views(self.lines@) =~= l1.push(
                    crate::sim::gen::LineView {
                        t: s.t,
                        bytes: crate::proto::messages::line_bytes(
                            if s.odd {
                                pair_text(ph, mh)
                            } else {
                                pair_text(mh, ph)
                            },
                        ),
                    },
                ));
            }
        } else {
            self.pending.insert(addr, Half { odd: s.odd, t: s.t, counts: m.counts, hex });
            assert(self.pending@.map_values(|h: Half| h.half()) =~= c.pending.insert(
                addr,
                half_of(*s, *m, crate::proto::messages::hex_text(frame@)),
            ));
        }
    }
}

fn pair_line(even: &Half, odd: &Half) -> (r: Vec<u8>)
    ensures
        r@ == crate::proto::messages::line_bytes(pair_text(even.half(), odd.half())),
{
    let mut text = "{\"sync\":{\"et\":".to_owned();
    let et = decimal_of(even.counts);
    text.append(et.as_str());
    text.append(",\"em\":\"");
    text.append(even.hex.as_str());
    text.append("\",\"ot\":");
    let ot = decimal_of(odd.counts);
    text.append(ot.as_str());
    text.append(",\"om\":\"");
    text.append(odd.hex.as_str());
    text.append("\"}}");
    let mut out: Vec<u8> = Vec::new();
    out.extend_from_slice(text.as_str().as_bytes());
    out.push(10);
    assert(out@ =~= crate::proto::messages::line_bytes(pair_text(even.half(), odd.half())));
    out
}

/// The line of a pair reads back as the pair: `et` is the counter of the broadcast whose
/// frame stands in `em`, and `ot` that of the one in `om`.
pub proof fn law_pair_text_reads_back(even: ImportHalf, odd: ImportHalf)
    requires
        crate::text::all_hex(even.hex),
        crate::text::all_hex(odd.hex),
    ensures
        crate::proto::fields::number_in(pair_text(even, odd), "et"@) == Some(even.counts as int),
        crate::proto::fields::string_in(pair_text(even, odd), "em"@) == Some(even.hex),
        crate::proto::fields::number_in(pair_text(even, odd), "ot"@) == Some(odd.counts as int),
        crate::proto::fields::string_in(pair_text(even, odd), "om"@) == Some(odd.hex),
{
    let s = pair_text(even, odd);
    let (et, ot) = (even.counts as nat, odd.counts as nat);
    reveal_strlit("{\"sync\":{\"et\":");
    reveal_strlit(",\"em\":\"");
    reveal_strlit("\",\"ot\":");
    reveal_strlit(",\"om\":\"");
    reveal_strlit("\"}}");
    assert(crate::proto::fields::is_pair_layout(s, et, even.hex, ot, odd.hex));
    crate::proto::fields::lemma_pair_even(s, et, even.hex, ot, odd.hex);
    crate::proto::fields::lemma_pair_odd(s, et, even.hex, ot, odd.hex);
}

/// A transmission, and how one sensor marked it.
pub ghost struct Marked {
    pub sent: Sent,
    pub frame: Seq<u8>,
    pub mark: Mark,
}

/// A sensor's client after a run of transmissions that the sensor marked.
pub open spec fn client_after(run: Seq<Marked>) -> SensorView
    decreases run.len(),
{
    if run.len() == 0 {
        silent()
    } else {
        let x = run.last();
        after_mark(client_after(run.drop_last()), x.sent, x.frame, x.mark)
    }
}

/// The two transmissions are an even and an odd broadcast of one aircraft.
pub open spec fn are_partners(even: Marked, odd: Marked) -> bool {
    &&& even.sent.icao.0 == odd.sent.icao.0
    &&& !even.sent.odd && odd.sent.odd
    &&& !even.sent.held_out && !odd.sent.held_out
}

/// The line tells of the pair of two marked transmissions.
pub open spec fn joins(l: crate::sim::gen::LineView, even: Marked, odd: Marked, t: Reading) -> bool {
    are_partners(even, odd) && crate::sim::gen::is_pair_line(
        l,
        t,
        even.mark.counts,
        even.frame,
        odd.mark.counts,
        odd.frame,
    )
}

spec fn is_waiting(x: Marked, addr: u32, p: ImportHalf) -> bool {
    &&& x.sent.icao.0 == addr
    &&& x.sent.odd == p.odd
    &&& !x.sent.held_out
    &&& x.mark.counts == p.counts
    &&& p.hex == crate::proto::messages::hex_text(x.frame)
}

proof fn lemma_waiting_was_marked(run: Seq<Marked>, addr: u32) -> (j: int)
    requires
        client_after(run).pending.dom().contains(addr),
    ensures
        0 <= j < run.len(),
        is_waiting(run[j], addr, client_after(run).pending[addr]),
    decreases run.len(),
{
    let rest = run.drop_last();
    if client_after(rest).pending.dom().contains(addr) && client_after(run).pending[addr]
        == client_after(rest).pending[addr] {
        let j = lemma_waiting_was_marked(rest, addr);
        assert(rest[j] == run[j]);
        j
    } else {
        run.len() - 1
    }
}

/// What a broadcast of an aircraft that is not held out comes to: it waits for its
/// partner, or it joins the broadcast of the other parity that waited there. Then the
/// last line is said at once, each of the two frames stands in it with the counter with
/// which the sensor marked that very transmission, and nothing waits any more.
pub proof fn law_broadcasts_join(run: Seq<Marked>) -> (j: int)
    requires
        run.len() > 0,
        !run.last().sent.held_out,
    ensures
        ({
            let x = run.last();
            let before = client_after(run.drop_last());
            let after = client_after(run);
            let addr = x.sent.icao.0;
            if before.pending.dom().contains(addr) && before.pending[addr].odd != x.sent.odd
                && x.mark.gap.below(Reading(crate::sim::gen::PAIR_WINDOW)) {
                &&& 0 <= j < run.len() - 1
                &&& run[j].sent.odd != x.sent.odd
                &&& joins(after.lines.last(), run[j], x, x.sent.t) || joins(
                    after.lines.last(),
                    x,
                    run[j],
                    x.sent.t,
                )
                &&& !after.pending.dom().contains(addr)
            } else {
                &&& j == run.len() - 1
                &&& after.pending.dom().contains(addr)
                &&& after.pending[addr].counts == x.mark.counts
                &&& after.pending[addr].odd == x.sent.odd
                &&& after.pending[addr].t == x.sent.t
                &&& crate::proto::messages::hex_bytes(after.pending[addr].hex) == Some(x.frame)
            }
        }),
{
    let x = run.last();
    let before = client_after(run.drop_last());
    let addr = x.sent.icao.0;
    crate::proto::messages::law_hex_text_round_trip(x.frame);
    if before.pending.dom().contains(addr) && before.pending[addr].odd != x.sent.odd
        && x.mark.gap.below(Reading(crate::sim::gen::PAIR_WINDOW)) {
        let j = lemma_waiting_was_marked(run.drop_last(), addr);
        assert(run.drop_last()[j] == run[j]);
        let p = before.pending[addr];
        let me = half_of(x.sent, x.mark, crate::proto::messages::hex_text(x.frame));
        crate::proto::messages::law_hex_text_round_trip(run[j].frame);
        law_pair_text_reads_back(p, me);
        law_pair_text_reads_back(me, p);
        if x.sent.odd {
            assert(crate::proto::fields::tells_pair(
                pair_text(p, me),
                run[j].mark.counts,
                run[j].frame,
                x.mark.counts,
                x.frame,
            ));
        } else {
            assert(crate::proto::fields::tells_pair(
                pair_text(me, p),
                x.mark.counts,
                x.frame,
                run[j].mark.counts,
                run[j].frame,
            ));
        }
        j
    } else {
        run.len() - 1
    }
}

/// A reply of an aircraft that is held out is told at once, with the counter of its mark,
/// and nothing of it waits.
pub proof fn law_held_out_replies_are_told(c: SensorView, s: Sent, frame: Seq<u8>, m: Mark)
    requires
        s.held_out,
    ensures
        after_mark(c, s, frame, m).lines.len() > c.lines.len(),
        crate::sim::gen::is_frame_line(
            after_mark(c, s, frame, m).lines.last(),
            s.t,
            m.counts,
            frame,
        ),
        after_mark(c, s, frame, m).pending == c.pending,
{
    crate::proto::fields::law_mlat_tells_frame(m.counts, frame);
}

/// A transmission adds lines to a client and changes none: what was said stays, and an
/// aircraft is announced when it is first heard and never again.
pub proof fn law_marks_add_lines(c: SensorView, s: Sent, frame: Seq<u8>, m: Mark)
    ensures
        ({
            let d = after_mark(c, s, frame, m);
            let news = d.lines.len() - c.lines.len();
            &&& 0 <= news <= 2
            &&& d.lines.take(c.lines.len() as int) == c.lines
            &&& !c.seen.contains(s.icao.0) ==> news >= 1 && d.lines[c.lines.len() as int]
                == crate::sim::gen::message_line(
                s.t,
                crate::proto::messages::MsgView::Seen(
                    seq![crate::text::hex_digits(s.icao.0 as int % 0x100_0000, 6)],
                ),
            )
            &&& c.seen.contains(s.icao.0) ==> news <= 1
            &&& d.seen == c.seen.insert(s.icao.0)
            &&& forall|a: u32|
                a != s.icao.0 ==> (#[trigger] d.pending.dom().contains(a)
                    == c.pending.dom().contains(a)) && (c.pending.dom().contains(a)
                    ==> d.pending[a] == c.pending[a])
        }),
{
    let d = after_mark(c, s, frame, m);
    assert(d.lines.take(c.lines.len() as int) =~= c.lines);
    assert(crate::proto::messages::hex_addresses(seq![s.icao]) =~= seq![
        crate::text::hex_digits(s.icao.0 as int % 0x100_0000, 6),
    ]);
}

// ------------------------------------------------------------------ importer

/// What an importer has gathered.
pub ghost struct ImportView {
    /// The sensors whose position is known.
    pub sensors: Set<u64>,
    /// The clients of the sensors that heard something.
    pub clients: Map<u64, SensorView>,
    /// Their serials, in the order in which they first heard something.
    pub order: Seq<u64>,
    /// Whether an aircraft is held out.
    pub holdout: Map<u32, bool>,
    /// Aircraft in the order in which they were decided on.
    pub decided: Seq<u32>,
    /// The parity of an aircraft's last broadcast.
    pub parity: Map<u32, bool>,
}

/// The importer after a sensor marked a transmission. Sensors without a known
/// position are passed over.
pub open spec fn imported_mark(v: ImportView, s: Sent, frame: Seq<u8>, m: Mark) -> ImportView {
    if !v.sensors.contains(m.serial) {
        v
    } else if v.clients.dom().contains(m.serial) {
        ImportView {
            clients: v.clients.insert(
                m.serial,
                after_mark(v.clients[m.serial], s, frame, m),
            ),
            ..v
        }
    } else {
        ImportView {
            clients: v.clients.insert(m.serial, after_mark(silent(), s, frame, m)),
            order: v.order.push(m.serial),
            ..v
        }
    }
}

/// The importer after a transmission.
pub open spec fn imported(v: ImportView, s: Sent, frame: Seq<u8>, marks: Seq<Mark>) -> ImportView
    decreases marks.len(),
{
    if marks.len() == 0 {
        v
    } else {
        imported_mark(imported(v, s, frame, marks.drop_last()), s, frame, marks.last())
    }
}

/// Gathers the client streams of an imported data set.
#[derive(Debug)]
pub struct Importer {
    sensors: HashSet<u64>,
    clients: HashMap<u64, SensorClient>,
    order: Vec<u64>,
    holdout: HashMap<u32, bool>,
    decided: Vec<u32>,
    parity: HashMap<u32, bool>,
}

impl View for Importer {
    type V = ImportView;

    closed spec fn view(&self) -> ImportView {
        ImportView {
            sensors: self.sensors@,
            clients: self.clients@.map_values(|c: SensorClient| c.shown()),
            order: self.order@,
            holdout: self.holdout@,
            decided: self.decided@,
            parity: self.parity@,
        }
    }
}

/// The serials are listed once each, and so are the aircraft.
pub open spec fn lists_match(v: ImportView) -> bool {
    &&& v.order.no_duplicates()
    &&& forall|k: u64| v.order.contains(k) <==> #[trigger] v.clients.dom().contains(k)
    &&& v.decided.no_duplicates()
    &&& forall|k: u32| v.decided.contains(k) <==> #[trigger] v.holdout.dom().contains(k)
}

proof fn lemma_push_fresh<A>(s: Seq<A>, x: A)
    requires
        s.no_duplicates(),
        !s.contains(x),
    ensures
        s.push(x).no_duplicates(),
        forall|y: A| s.push(x).contains(y) <==> s.contains(y) || y == x,
{
    let t = s.push(x);
    assert forall|y: A| t.contains(y) <==> s.contains(y) || y == x by {
        if t.contains(y) {
            let i = choose|i: int| 0 <= i < t.len() && t[i] == y;
            if i < s.len() {
                assert(s[i] == y);
            }
        }
        if s.contains(y) {
            let i = choose|i: int| 0 <= i < s.len() && s[i] == y;
            assert(t[i] == y);
        }
        assert(t[s.len() as int] == x);
    }
    assert forall|i: int, j: int| 0 <= i < t.len() && 0 <= j < t.len() && i != j implies t[i]
        != t[j] by {
        if i < s.len() && j < s.len() {
            assert(s[i] != s[j]);
        } else if i < s.len() {
            assert(s.contains(s[i]));
        } else {
            assert(s.contains(s[j]));
        }
    }
}

/// The address of an imported aircraft.
pub fn import_address(aircraft: u32) -> (r: Icao)
    requires
        aircraft <= MAX_AIRCRAFT,
    ensures
        r == Icao((0x10_0000 + aircraft) as u32),
{
    Icao(0x10_0000 + aircraft)
}

impl Importer {
    pub fn new(sensors: HashSet<u64>) -> (r: Self)
        ensures
            lists_match(r@),
            r@ == (ImportView {
                sensors: sensors@,
                clients: Map::empty(),
                order: seq![],
                holdout: Map::empty(),
                decided: seq![],
                parity: Map::empty(),
            }),
    {
        broadcast use vstd::std_specs::hash::group_hash_axioms;

        let r = Importer {
            sensors,
            clients: HashMap::new(),
            order: Vec::new(),
            holdout: HashMap::new(),
            decided: Vec::new(),
            parity: HashMap::new(),
        };
        assert(r@.clients =~= Map::empty());
        assert(r@.holdout =~= Map::empty());
        assert(r@.parity =~= Map::empty());
        r
    }

    /// Whether an aircraft is held out, where that is decided.
    pub fn is_held_out(&self, aircraft: u32) -> (r: Option<bool>)
        ensures
            r == (if self@.holdout.dom().contains(aircraft) {
                Some(self@.holdout[aircraft])
            } else {
                None
            }),
    {
        broadcast use vstd::std_specs::hash::group_hash_axioms;

        match self.holdout.get(&aircraft) {
            Some(h) => Some(*h),
            None => None,
        }
    }

    /// Decides on a new aircraft by a draw from the unit interval.
    pub fn decide(&mut self, aircraft: u32, draw: Reading, fraction: Reading) -> (r: bool)
        requires
            lists_match(old(self)@),
            !old(self)@.holdout.dom().contains(aircraft),
        ensures
            r == draw.below(fraction),
            lists_match(final(self)@),
            final(self)@ == (ImportView {
                holdout: old(self)@.holdout.insert(aircraft, r),
                decided: old(self)@.decided.push(aircraft),
                ..old(self)@
            }),
    {
        broadcast use vstd::std_specs::hash::group_hash_axioms;

        let held: bool = draw.lt(fraction);
        self.holdout.insert(aircraft, held);
        self.decided.push(aircraft);
        proof {
            lemma_push_fresh(old(self)@.decided, aircraft);
            assert forall|k: u32|
                self@.decided.contains(k) <==> #[trigger] self@.holdout.dom().contains(k) by {
                assert(old(self)@.decided.contains(k) <==> old(self)@.holdout.dom().contains(k));
            }
        }
        held
    }

    /// The parity of an aircraft's next broadcast: the first is odd, and they
    /// alternate.
    fn next_parity(&mut self, aircraft: u32) -> (r: bool)
        requires
            lists_match(old(self)@),
        ensures
            r == !(old(self)@.parity.dom().contains(aircraft) && old(self)@.parity[aircraft]),
            final(self)@ == (ImportView {
                parity: old(self)@.parity.insert(aircraft, r),
                ..old(self)@
            }),
            lists_match(final(self)@),
    {
        broadcast use vstd::std_specs::hash::group_hash_axioms;

        let odd: bool = match self.parity.get(&aircraft) {
            Some(p) => !*p,
            None => true,
        };
        self.parity.insert(aircraft, odd);
        odd
    }

    /// The frame that an aircraft's next transmission is encoded as: one held out
    /// replies with its altitude, another broadcasts its position.
    pub fn next_kind(&mut self, aircraft: u32, held_out: bool) -> (r: BroadcastKind)
        requires
            lists_match(old(self)@),
        ensures
            lists_match(final(self)@),
            held_out ==> r == BroadcastKind::Df4 && final(self)@ == old(self)@,
            !held_out ==> {
                let odd = !(old(self)@.parity.dom().contains(aircraft)
                    && old(self)@.parity[aircraft]);
                &&& r == BroadcastKind::Df17 { odd }
                &&& final(self)@ == (ImportView {
                    parity: old(self)@.parity.insert(aircraft, odd),
                    ..old(self)@
                })
            },
    {
        if held_out {
            BroadcastKind::Df4
        } else {
            BroadcastKind::Df17 { odd: self.next_parity(aircraft) }
        }
    }

    /// When the broadcast arrived that awaits its partner at a sensor.
    pub fn pending_since(&self, serial: u64, icao: Icao) -> (r: Option<Reading>)
        ensures
            r == (if self@.clients.dom().contains(serial)
                && self@.clients[serial].pending.dom().contains(icao.0) {
                Some(self@.clients[serial].pending[icao.0].t)
            } else {
                None
            }),
    {
        broadcast use vstd::std_specs::hash::group_hash_axioms;

        match self.clients.get(&serial) {
            Some(c) => match c.pending.get(&icao.0) {
                Some(p) => Some(p.t),
                None => None,
            },
            None => None,
        }
    }

    fn mark(&mut self, s: &Sent, frame: &Vec<u8>, m: &Mark)
        requires
            lists_match(old(self)@),
        ensures
            lists_match(final(self)@),
            final(self)@ == imported_mark(old(self)@, *s, frame@, *m),
    {
        broadcast use vstd::std_specs::hash::group_hash_axioms;

        if !self.sensors.contains(&m.serial) {
            return;
        }
        let ghost v = self@;
        match self.clients.remove(&m.serial) {
            Some(c) => {
                let mut c = c;
                c.mark(s, frame, m);
                self.clients.insert(m.serial, c);
                assert(self@.clients =~= imported_mark(v, *s, frame@, *m).clients);
            },
            None => {
                let mut c = SensorClient::new();
                c.mark(s, frame, m);
                self.clients.insert(m.serial, c);
                self.order.push(m.serial);
                assert(self@.clients =~= imported_mark(v, *s, frame@, *m).clients);
                proof {
                    assert(!v.clients.dom().contains(m.serial));
                    lemma_push_fresh(v.order, m.serial);
                }
            },
        }
        proof {
            assert forall|k: u64|
                self@.order.contains(k) <==> #[trigger] self@.clients.dom().contains(k) by {
                assert(v.order.contains(k) <==> v.clients.dom().contains(k));
            }
        }
    }

    /// A transmission was heard: every sensor that marked it takes it in. The same
    /// bytes are heard by all of them.
    pub fn transmit(&mut self, s: &Sent, frame: &Vec<u8>, marks: &Vec<Mark>)
        requires
            lists_match(old(self)@),
        ensures
            lists_match(final(self)@),
            final(self)@ == imported(old(self)@, *s, frame@, marks@),
    {
        let mut i: usize = 0;
        while i < marks.len()
            invariant
                i <= marks@.len(),
                lists_match(self@),
                self@ == imported(old(self)@, *s, frame@, marks@.take(i as int)),
            decreases marks@.len() - i,
        {
            proof {
                assert(marks@.take(i + 1).drop_last() =~= marks@.take(i as int));
                assert(marks@.take(i + 1).last() == marks@[i as int]);
            }
            self.mark(s, frame, &marks[i]);
            i = i + 1;
        }
        assert(marks@.take(marks@.len() as int) =~= marks@);
    }

    /// The aircraft that were decided on, in order, and whether each is held out.
    pub fn aircraft(&self) -> (r: Vec<(u32, bool)>)
        requires
            lists_match(self@),
        ensures
            r@ == self@.decided.map_values(|a: u32| (a, self@.holdout[a])),
    {
        broadcast use vstd::std_specs::hash::group_hash_axioms;

        let mut out: Vec<(u32, bool)> = Vec::new();
        let mut i: usize = 0;
        while i < self.decided.len()
            invariant
                lists_match(self@),
                i <= self.decided@.len(),
                out@ =~= self@.decided.take(i as int).map_values(
                    |a: u32| (a, self@.holdout[a]),
                ),
            decreases self.decided@.len() - i,
        {
            broadcast use vstd::std_specs::hash::group_hash_axioms;

            let a: u32 = self.decided[i];
            assert(self@.decided.contains(a));
            assert(self@.holdout.dom().contains(a));
            let held: bool = match self.holdout.get(&a) {
                Some(h) => *h,
                None => false,
            };
            out.push((a, held));
            i = i + 1;
        }
        assert(self@.decided.take(self.decided@.len() as int) =~= self@.decided);
        out
    }

    /// The serials of the sensors that heard something, in order.
    pub fn serials(&self) -> (r: Vec<u64>)
        ensures
            r@ == self@.order,
    {
        let mut out: Vec<u64> = Vec::new();
        out.extend_from_slice(self.order.as_slice());
        assert(out@ =~= self.order@);
        out
    }

    /// Takes the lines of a sensor's client out, in order of time.
    pub fn take_lines(&mut self, serial: u64) -> (r: Option<Vec<Line>>)
        ensures
            r is Some <==> old(self)@.clients.dom().contains(serial),
            r matches Some(l) ==> crate::sim::gen::in_time_order(
                old(self)@.clients[serial].lines,
                crate::sim::gen::line_views(l@),
            ),
            final(self)@ == (ImportView {
                clients: old(self)@.clients.remove(serial),
                ..old(self)@
            }),
    {
        broadcast use vstd::std_specs::hash::group_hash_axioms;

        let r = match self.clients.remove(&serial) {
            Some(c) => Some(sort_lines(&c.lines)),
            None => None,
        };
        assert(self@.clients =~= old(self)@.clients.remove(serial));
        r
    }
}

// --------------------------------------------------------------------- files

/// The entry of an aircraft in the scenario that names the targets.
pub open spec fn target_text(a: (u32, bool)) -> Seq<char> {
    "[[aircraft]]\nicao = \""@ + crate::text::uppered(
        crate::text::hex_digits((0x10_0000 + a.0) % 0x100_0000, 6),
    ) + "\"\nkind = \""@ + (if a.1 {
        "modes_only"@
    } else {
        "adsb"@
    })
        + "\"\ntraj = { type = \"great_circle\", from = [0,0,10000], to = [0,1,10000], gs_kts = 400 }\n"@
}

/// The entries of a run of aircraft.
pub open spec fn targets_text(v: Seq<(u32, bool)>) -> Seq<char>
    decreases v.len(),
{
    if v.len() == 0 {
        seq![]
    } else {
        targets_text(v.drop_last()) + target_text(v.last())
    }
}

fn target_entry(aircraft: u32, held_out: bool) -> (r: String)
    requires
        aircraft <= MAX_AIRCRAFT,
    ensures
        r@ == target_text((aircraft, held_out)),
{
    let mut out = "[[aircraft]]\nicao = \"".to_owned();
    let hex = import_address(aircraft).to_hex();
    let upper = uppercase(hex.as_str());
    out.append(upper.as_str());
    out.append("\"\nkind = \"");
    out.append(
        if held_out {
            "modes_only"
        } else {
            "adsb"
        },
    );
    out.append(
        "\"\ntraj = { type = \"great_circle\", from = [0,0,10000], to = [0,1,10000], gs_kts = 400 }\n",
    );
    out
}

/// The minimal scenario of an import: it tells scoring which aircraft are targets.
pub fn import_scenario(seed: u64, duration_s: u64, aircraft: &Vec<(u32, bool)>) -> (r: String)
    requires
        forall|i: int|
            0 <= i < aircraft@.len() ==> (#[trigger] aircraft@[i]).0 <= MAX_AIRCRAFT,
    ensures
        r@ == "# synthesized by import-locards — targets only, no physics\n[meta]\nname = \"locards\"\nseed = "@
            + crate::text::decimal(seed as nat) + "\nduration_s = "@ + crate::text::decimal(
            duration_s as nat,
        ) + "\n"@ + targets_text(aircraft@),
{
    let mut out = "# synthesized by import-locards — targets only, no physics\n[meta]\nname = \"locards\"\nseed = ".to_owned();
    let s = decimal_of(seed);
    out.append(s.as_str());
    out.append("\nduration_s = ");
    let d = decimal_of(duration_s);
    out.append(d.as_str());
    out.append("\n");
    let ghost head = out@;
    let mut i: usize = 0;
    assert(out@ =~= head + targets_text(aircraft@.take(0)));
    while i < aircraft.len()
        invariant
            i <= aircraft@.len(),
            forall|k: int|
                0 <= k < aircraft@.len() ==> (#[trigger] aircraft@[k]).0 <= MAX_AIRCRAFT,
            out@ =~= head + targets_text(aircraft@.take(i as int)),
        decreases aircraft@.len() - i,
    {
        proof {
            assert(aircraft@.take(i + 1).drop_last() =~= aircraft@.take(i as int));
        }
        let e = target_entry(aircraft[i].0, aircraft[i].1);
        out.append(e.as_str());
        i = i + 1;
    }
    assert(aircraft@.take(aircraft@.len() as int) =~= aircraft@);
    out
}

/// The name of a sensor's client.
pub fn sensor_user(serial: u64) -> (r: String)
    ensures
        r@ == "os-"@ + crate::text::decimal(serial as nat),
{
    let mut out = "os-".to_owned();
    let n = decimal_of(serial);
    out.append(n.as_str());
    out
}

/// The handshake line of a sensor's client; coordinates as they are shown.
pub fn sensor_handshake(user: &str, lat: &str, lon: &str, alt: &str) -> (r: String)
    ensures
        r@ == "{\"version\":3,\"user\":\""@ + user@
            + "\",\"compress\":[\"none\"],\"lat\":"@ + lat@ + ",\"lon\":"@ + lon@
            + ",\"alt\":"@ + alt@
            + ",\"clock_type\":\"dump1090\",\"return_results\":false}\n"@,
{
    let mut out = "{\"version\":3,\"user\":\"".to_owned();
    out.append(user);
    out.append("\",\"compress\":[\"none\"],\"lat\":");
    out.append(lat);
    out.append(",\"lon\":");
    out.append(lon);
    out.append(",\"alt\":");
    out.append(alt);
    out.append(",\"clock_type\":\"dump1090\",\"return_results\":false}\n");
    out
}

// ------------------------------------------------------------ what an import keeps

/// A row is used where all that is needed of it is there: a time before the end, an aircraft
/// with an address, a position, and two sensors that marked it.
pub proof fn law_usable_rows(row: SetRow, t: Reading, end: Reading)
    ensures
        use_of(row, t, end) == RowUse::Used <==> row.t_server is Some && !end.below(t)
            && row.aircraft is Some && row.aircraft->0 <= 0xFFEF_FFFF && row.lat is Some
            && row.lon is Some && row.baro_m is Some && row.marks@.len() >= 2,
        use_of(row, t, end) == RowUse::Past <==> row.t_server is Some && end.below(t),
{
}

/// Every item that is a measurement is taken, with its own serial and time, and no other.
pub proof fn law_measurements_are_taken(v: Seq<crate::proto::json::JsonView>, x: (u64, Seq<char>))
    ensures
        measurements_in(v).contains(x) <==> exists|i: int|
            0 <= i < v.len() && #[trigger] measurement_in(v[i]) == Some(x),
        measurements_in(v).len() <= v.len(),
        (forall|i: int| 0 <= i < v.len() ==> (#[trigger] measurement_in(v[i])) is Some)
            ==> measurements_in(v).len() == v.len(),
    decreases v.len(),
{
    if v.len() > 0 {
        let r = v.drop_last();
        law_measurements_are_taken(r, x);
        let (l1, l0) = (measurements_in(v), measurements_in(r));
        if l0.contains(x) {
            let k = choose|k: int| 0 <= k < l0.len() && l0[k] == x;
            assert(l1[k] == x);
            let i = choose|i: int| 0 <= i < r.len() && #[trigger] measurement_in(r[i]) == Some(x);
            assert(measurement_in(v[i]) == Some(x));
        }
        if l1.contains(x) {
            let k = choose|k: int| 0 <= k < l1.len() && l1[k] == x;
            if k < l0.len() {
                assert(l0[k] == x);
            } else {
                assert(measurement_in(v[v.len() - 1]) == Some(x));
            }
        }
        if exists|i: int| 0 <= i < v.len() && #[trigger] measurement_in(v[i]) == Some(x) {
            let i = choose|i: int| 0 <= i < v.len() && #[trigger] measurement_in(v[i]) == Some(x);
            if i < r.len() {
                assert(measurement_in(r[i]) == Some(x));
            } else {
                assert(l1[l0.len() as int] == x);
            }
        }
        if forall|i: int| 0 <= i < v.len() ==> (#[trigger] measurement_in(v[i])) is Some {
            assert forall|i: int| 0 <= i < r.len() implies (#[trigger] measurement_in(
                r[i],
            )) is Some by {
                assert(measurement_in(v[i]) is Some);
            }
            assert(measurement_in(v[v.len() - 1]) is Some);
        }
    }
}

/// A client after the marks of one sensor among those of a transmission.
pub open spec fn marked_by(
    c: SensorView,
    s: Sent,
    frame: Seq<u8>,
    marks: Seq<Mark>,
    serial: u64,
) -> SensorView
    decreases marks.len(),
{
    if marks.len() == 0 {
        c
    } else if marks.last().serial == serial {
        after_mark(marked_by(c, s, frame, marks.drop_last(), serial), s, frame, marks.last())
    } else {
        marked_by(c, s, frame, marks.drop_last(), serial)
    }
}

/// Each sensor's client hears what that sensor marked and nothing else. A sensor whose position
/// is not known gets no client, and a new client starts silent.
pub proof fn law_marks_go_to_their_sensor(
    v: ImportView,
    s: Sent,
    frame: Seq<u8>,
    marks: Seq<Mark>,
    serial: u64,
)
    ensures
        ({
            let w = imported(v, s, frame, marks);
            let marked = exists|i: int| 0 <= i < marks.len() && (#[trigger] marks[i]).serial == serial;
            &&& w.sensors == v.sensors && w.holdout == v.holdout && w.decided == v.decided
                && w.parity == v.parity
            &&& w.clients.dom().contains(serial) <==> v.clients.dom().contains(serial) || (
            v.sensors.contains(serial) && marked)
            &&& v.sensors.contains(serial) && w.clients.dom().contains(serial)
                ==> w.clients[serial] == marked_by(
                if v.clients.dom().contains(serial) {
                    v.clients[serial]
                } else {
                    silent()
                },
                s,
                frame,
                marks,
                serial,
            )
            &&& !v.sensors.contains(serial) && v.clients.dom().contains(serial)
                ==> w.clients[serial] == v.clients[serial]
        }),
    decreases marks.len(),
{
    if marks.len() > 0 {
        let r = marks.drop_last();
        law_marks_go_to_their_sensor(v, s, frame, r, serial);
        law_marks_go_to_their_sensor(v, s, frame, r, marks.last().serial);
        if exists|i: int| 0 <= i < r.len() && (#[trigger] r[i]).serial == serial {
            let i = choose|i: int| 0 <= i < r.len() && (#[trigger] r[i]).serial == serial;
            assert(marks[i].serial == serial);
        }
        if marks.last().serial == serial {
            assert(marks[marks.len() - 1].serial == serial);
        }
        if exists|i: int| 0 <= i < marks.len() && (#[trigger] marks[i]).serial == serial {
            let i = choose|i: int| 0 <= i < marks.len() && (#[trigger] marks[i]).serial == serial;
            if i < r.len() {
                assert(r[i].serial == serial);
            }
        }
        lemma_unmarked(silent(), s, frame, r, serial);
    }
}

proof fn lemma_unmarked(c: SensorView, s: Sent, frame: Seq<u8>, marks: Seq<Mark>, serial: u64)
    ensures
        (forall|i: int| 0 <= i < marks.len() ==> (#[trigger] marks[i]).serial != serial)
            ==> marked_by(c, s, frame, marks, serial) == c,
    decreases marks.len(),
{
    if marks.len() > 0 {
        let r = marks.drop_last();
        lemma_unmarked(c, s, frame, r, serial);
        if forall|i: int| 0 <= i < marks.len() ==> (#[trigger] marks[i]).serial != serial {
            assert forall|i: int| 0 <= i < r.len() implies (#[trigger] r[i]).serial != serial by {
                assert(marks[i].serial != serial);
            }
            assert(marks[marks.len() - 1].serial != serial);
        }
    }
}

} // verus!
