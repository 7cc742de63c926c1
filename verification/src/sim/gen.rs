//! From receptions to the byte stream of a client.
//!
//! Emission times, propagation and clock phase are calculated outside. What is here
//! decides what a client says about what it hears, and how its lines are framed.

use std::collections::{HashMap, HashSet};
use vstd::prelude::*;

use crate::icao::{Icao, SimNanos};
use crate::modes::frames::{df11, df17_airborne_position, df4};
use crate::order::order_by_key;
use crate::proto::framing::{FramingError, ZlibFrameEncoder};
use crate::proto::json::Number;
use crate::proto::messages::{ClientMsg, ClockType, Compression, Handshake, HexMsg};
use crate::reading::Reading;

verus! {

/// One kind of aircraft transmission.
#[derive(Debug, Clone, Copy, PartialEq, Eq, Structural)]
pub enum BroadcastKind {
    Df17 { odd: bool },
    Df11,
    Df4,
}

/// The frame of a transmission: capability 5, type code 11, flight status 0. `None`
/// where the altitude cannot be encoded; an acquisition squitter carries none.
pub fn broadcast_frame(kind: BroadcastKind, icao: Icao, alt_ft: i32, cpr: (u32, u32)) -> (r: Option<
    Vec<u8>,
>)
    requires
        alt_ft + 1000 <= i32::MAX,
        cpr.0 < 0x2_0000,
        cpr.1 < 0x2_0000,
    ensures
        r is Some <==> kind == BroadcastKind::Df11 || crate::modes::alt::encodable(alt_ft as int),
        r matches Some(f) ==> match kind {
            BroadcastKind::Df17 { odd } => f@ == crate::modes::frames::with_parity(
                crate::modes::frames::df17_head(
                    icao,
                    5,
                    crate::modes::frames::airborne_me(
                        11,
                        crate::modes::alt::ac12_field(crate::modes::alt::alt_steps(alt_ft as int)),
                        odd,
                        cpr.0 as int,
                        cpr.1 as int,
                    ),
                ),
            ),
            BroadcastKind::Df11 => f@ == crate::modes::frames::with_parity(
                crate::modes::frames::df11_head(icao, 5),
            ),
            BroadcastKind::Df4 => f@ == crate::modes::frames::df4_frame(
                icao,
                0,
                crate::modes::alt::ac13_field(crate::modes::alt::alt_steps(alt_ft as int)),
            ),
        },
{
    let mut out: Vec<u8> = Vec::new();
    match kind {
        BroadcastKind::Df17 { odd } => match df17_airborne_position(icao, 5, 11, alt_ft, cpr, odd) {
            Some(f) => {
                out.extend_from_slice(f.as_slice());
                assert(out@ =~= f@);
                Some(out)
            },
            None => None,
        },
        BroadcastKind::Df11 => {
            let f = df11(icao, 5);
            out.extend_from_slice(f.as_slice());
            assert(out@ =~= f@);
            Some(out)
        },
        BroadcastKind::Df4 => match df4(icao, 0, alt_ft) {
            Some(f) => {
                out.extend_from_slice(f.as_slice());
                assert(out@ =~= f@);
                Some(out)
            },
            None => None,
        },
    }
}

/// Whether a transmission lies within the scenario.
pub fn is_on_air(t_s: Reading, duration_s: Reading) -> (r: bool)
    ensures
        r == (Reading(0).at_most(t_s) && t_s.below(duration_s)),
{
    Reading(0).le(t_s) && t_s.lt(duration_s)
}

/// A receiver hears what is within its radio horizon and within its range cap.
pub open spec fn audible(surface_km: Reading, horizon_km: Reading, cap_km: Option<Reading>) -> bool {
    &&& !horizon_km.below(surface_km)
    &&& cap_km matches Some(cap) ==> !cap.below(surface_km)
}

pub fn is_audible(surface_km: Reading, horizon_km: Reading, cap_km: Option<Reading>) -> (r: bool)
    ensures
        r == audible(surface_km, horizon_km, cap_km),
{
    if horizon_km.lt(surface_km) {
        return false;
    }
    match cap_km {
        Some(cap) => !cap.lt(surface_km),
        None => true,
    }
}

/// Whether a draw from the unit interval falls below a probability.
pub fn happens(draw: Reading, probability: Reading) -> (r: bool)
    ensures
        r == draw.below(probability),
{
    draw.lt(probability)
}

/// Which receivers can hear an aircraft during a second.
#[derive(Debug)]
pub struct AudibilityRow {
    pub t_s: u64,
    pub icao: Icao,
    pub receivers: Vec<String>,
}

/// The ids of the receivers that hear, in order.
pub open spec fn hearing(ids: Seq<String>, heard: Seq<bool>) -> Seq<Seq<char>>
    decreases ids.len(),
{
    if ids.len() == 0 {
        seq![]
    } else {
        let rest = hearing(ids.drop_last(), heard.drop_last());
        if heard.last() {
            rest.push(ids.last()@)
        } else {
            rest
        }
    }
}

/// The row of an aircraft and a second; `None` where nobody hears.
pub fn audibility_row(t_s: u64, icao: Icao, ids: &Vec<String>, heard: &Vec<bool>) -> (r: Option<
    AudibilityRow,
>)
    requires
        ids@.len() == heard@.len(),
    ensures
        r is Some <==> hearing(ids@, heard@).len() > 0,
        r matches Some(row) ==> row.t_s == t_s && row.icao == icao && crate::text::texts(
            row.receivers@,
        ) == hearing(ids@, heard@),
{
    let mut receivers: Vec<String> = Vec::new();
    let mut i: usize = 0;
    while i < ids.len()
        invariant
            ids@.len() == heard@.len(),
            i <= ids@.len(),
            crate::text::texts(receivers@) =~= hearing(ids@.take(i as int), heard@.take(i as int)),
        decreases ids@.len() - i,
    {
        proof {
            assert(ids@.take(i + 1).drop_last() =~= ids@.take(i as int));
            assert(heard@.take(i + 1).drop_last() =~= heard@.take(i as int));
        }
        if heard[i] {
            let ghost prev = receivers@;
            receivers.push(ids[i].as_str().to_owned());
            assert(crate::text::texts(receivers@) =~= crate::text::texts(prev).push(
                ids@[i as int]@,
            ));
        }
        i = i + 1;
    }
    proof {
        assert(ids@.take(ids@.len() as int) =~= ids@);
        assert(heard@.take(heard@.len() as int) =~= heard@);
        assert(crate::text::texts(receivers@).len() == receivers@.len());
    }
    if receivers.len() == 0 {
        None
    } else {
        Some(AudibilityRow { t_s, icao, receivers })
    }
}

// ------------------------------------------------------------- client lines

/// A line of a client and when it is ready to send.
#[derive(Debug)]
pub struct Line {
    pub t: Reading,
    pub bytes: Vec<u8>,
}

/// A line, as a mathematical value.
pub ghost struct LineView {
    pub t: Reading,
    pub bytes: Seq<u8>,
}

impl View for Line {
    type V = LineView;

    open spec fn view(&self) -> LineView {
        LineView { t: self.t, bytes: self.bytes@ }
    }
}

/// The views of a run of lines.
pub open spec fn line_views(v: Seq<Line>) -> Seq<LineView> {
    v.map_values(|l: Line| l@)
}

/// A position broadcast that awaits its partner of the other parity.
#[derive(Debug)]
struct PendingHalf {
    odd: bool,
    t: Reading,
    count: u64,
    bytes: Vec<u8>,
}

/// What is kept of such a broadcast.
pub ghost struct HalfView {
    pub odd: bool,
    pub t: Reading,
    pub count: u64,
    pub bytes: Seq<u8>,
}

/// What a client hears: a transmission, its arrival, and the counter that it is
/// stamped with. `jumped` says that the counter jumped before it.
#[derive(Debug)]
pub struct Heard {
    pub t: Reading,
    pub icao: Icao,
    pub kind: BroadcastKind,
    pub bytes: Vec<u8>,
    pub count: u64,
    pub jumped: bool,
}

/// What a client has said and what it remembers.
pub ghost struct ClientView {
    pub lines: Seq<LineView>,
    pub seen: Set<u32>,
    pub pending: Map<u32, HalfView>,
    /// When the next heartbeat is due, seconds.
    pub next_beat: int,
    pub syncs: nat,
    pub mlats: nat,
}

/// Seconds between heartbeats.
pub const HEARTBEAT_S: u64 = 30;

/// 2: partners further apart in time make no pair.
pub const PAIR_WINDOW: u64 = 0x4000_0000_0000_0000;

/// 0.1: when a client announces its input.
pub const CONNECTED_AT: u64 = 0x3FB9_9999_9999_999A;

/// The line of a message.
pub open spec fn message_line(t: Reading, m: crate::proto::messages::MsgView) -> LineView {
    LineView {
        t,
        bytes: crate::proto::messages::line_bytes(crate::proto::messages::msg_text(m)),
    }
}

/// A heartbeat.
pub open spec fn heartbeat() -> crate::proto::messages::MsgView {
    crate::proto::messages::MsgView::Heartbeat(crate::proto::json::JsonView::Object(Map::empty()))
}

/// The heartbeats that are due before `t`, from `next` on.
pub open spec fn beats(next: int, t: Reading) -> Seq<LineView>
    decreases t.whole_part() + 31 - next,
{
    if 0 <= next && t.exceeds(next as u64) && next <= t.whole_part() {
        seq![message_line(Reading::of_whole(next), heartbeat())] + beats(next + 30, t)
    } else {
        seq![]
    }
}

/// When the next heartbeat is due behind those before `t`.
pub open spec fn beat_after(next: int, t: Reading) -> int
    decreases t.whole_part() + 31 - next,
{
    if 0 <= next && t.exceeds(next as u64) && next <= t.whole_part() {
        beat_after(next + 30, t)
    } else {
        next
    }
}

/// The client at the start: it announces its input.
pub open spec fn client_start() -> ClientView {
    ClientView {
        lines: seq![
            message_line(
                Reading(CONNECTED_AT),
                crate::proto::messages::MsgView::InputConnected("connected"@),
            ),
        ],
        seen: Set::empty(),
        pending: Map::empty(),
        next_beat: 30,
        syncs: 0,
        mlats: 0,
    }
}

/// The message of a pair: the even frame and its counter, the odd frame and its
/// counter.
pub open spec fn pair_message(even: HalfView, odd: HalfView) -> crate::proto::messages::MsgView {
    crate::proto::messages::MsgView::Sync {
        et: crate::text::decimal(even.count as nat),
        ot: crate::text::decimal(odd.count as nat),
        em: crate::proto::messages::hex_text(even.bytes),
        om: crate::proto::messages::hex_text(odd.bytes),
    }
}

/// A broadcast completes a pair: its partner has the other parity and came within
/// the window. `gap` is the time since the partner.
pub open spec fn completes_pair(c: ClientView, addr: u32, odd: bool, gap: Reading) -> bool {
    c.pending.dom().contains(addr) && c.pending[addr].odd != odd && gap.below(Reading(PAIR_WINDOW))
}

/// What the heard transmission is to the client, as a half of a pair.
pub open spec fn as_half(h: Heard, odd: bool) -> HalfView {
    HalfView { odd, t: h.t, count: h.count, bytes: h.bytes@ }
}

/// The client after it heard a transmission: due heartbeats first, then a jump of
/// its counter, the aircraft if it is new, and the measurement.
pub open spec fn after_hearing(c: ClientView, h: Heard, gap: Reading) -> ClientView {
    let addr = h.icao.0;
    let l1 = c.lines + beats(c.next_beat, h.t);
    let l2 = if h.jumped {
        l1.push(message_line(h.t, crate::proto::messages::MsgView::ClockJump("jump"@)))
    } else {
        l1
    };
    let l3 = if c.seen.contains(addr) {
        l2
    } else {
        l2.push(
            message_line(
                h.t,
                crate::proto::messages::MsgView::Seen(
                    crate::proto::messages::hex_addresses(seq![h.icao]),
                ),
            ),
        )
    };
    let base = ClientView {
        lines: l3,
        seen: c.seen.insert(addr),
        next_beat: beat_after(c.next_beat, h.t),
        ..c
    };
    match h.kind {
        BroadcastKind::Df17 { odd } => if completes_pair(c, addr, odd, gap) {
            let p = c.pending[addr];
            let m = if odd {
                pair_message(p, as_half(h, odd))
            } else {
                pair_message(as_half(h, odd), p)
            };
            ClientView {
                lines: l3.push(message_line(h.t, m)),
                pending: c.pending.remove(addr),
                syncs: c.syncs + 1,
                ..base
            }
        } else {
            ClientView { pending: c.pending.insert(addr, as_half(h, odd)), ..base }
        },
        _ => ClientView {
            lines: l3.push(
                message_line(
                    h.t,
                    crate::proto::messages::MsgView::Mlat {
                        t: crate::text::decimal(h.count as nat),
                        m: crate::proto::messages::hex_text(h.bytes@),
                    },
                ),
            ),
            mlats: c.mlats + 1,
            ..base
        },
    }
}

/// The lines that a client writes while it listens.
#[derive(Debug)]
pub struct ClientBuilder {
    lines: Vec<Line>,
    seen: HashSet<u32>,
    pending: HashMap<u32, PendingHalf>,
    next_beat: u64,
    syncs: u64,
    mlats: u64,
}

impl PendingHalf {
    spec fn half(self) -> HalfView {
        HalfView { odd: self.odd, t: self.t, count: self.count, bytes: self.bytes@ }
    }
}

impl View for ClientBuilder {
    type V = ClientView;

    closed spec fn view(&self) -> ClientView {
        ClientView {
            lines: line_views(self.lines@),
            seen: self.seen@,
            pending: self.pending@.map_values(|p: PendingHalf| p.half()),
            next_beat: self.next_beat as int,
            syncs: self.syncs as nat,
            mlats: self.mlats as nat,
        }
    }
}

impl ClientBuilder {
    /// Counters are small enough to go on.
    pub closed spec fn wf(&self) -> bool {
        &&& self.syncs + self.mlats < self.lines@.len()
        &&& self.next_beat < 0x10_0000_0000_0000 + 30
        &&& forall|i: int| 0 <= i < self.lines@.len() ==> (#[trigger] self.lines@[i]).t.is_time()
    }

    pub fn new() -> (r: Self)
        ensures
            r.wf(),
            r@ == client_start(),
    {
        broadcast use vstd::std_specs::hash::group_hash_axioms;

        let m = ClientMsg::InputConnected("connected".to_owned());
        let mut lines: Vec<Line> = Vec::new();
        lines.push(Line { t: Reading(CONNECTED_AT), bytes: m.to_line() });
        let r = ClientBuilder {
            lines,
            seen: HashSet::new(),
            pending: HashMap::new(),
            next_beat: HEARTBEAT_S,
            syncs: 0,
            mlats: 0,
        };
        assert(r@.lines =~= client_start().lines);
        assert(r@.seen =~= client_start().seen);
        assert(r@.pending =~= client_start().pending);
        r
    }

    /// When the broadcast that awaits its partner arrived, for the caller to
    /// measure the gap.
    pub fn pending_since(&self, icao: Icao) -> (r: Option<Reading>)
        ensures
            r == (if self@.pending.dom().contains(icao.0) {
                Some(self@.pending[icao.0].t)
            } else {
                None
            }),
    {
        broadcast use vstd::std_specs::hash::group_hash_axioms;

        match self.pending.get(&icao.0) {
            Some(p) => Some(p.t),
            None => None,
        }
    }

    fn say(&mut self, t: Reading, m: ClientMsg)
        requires
            old(self).wf(),
            t.is_time(),
        ensures
            final(self).wf(),
            final(self)@ == (ClientView {
                lines: old(self)@.lines.push(message_line(t, m@)),
                ..old(self)@
            }),
            final(self).lines@.len() == old(self).lines@.len() + 1,
    {
        let ghost before = self.lines@;
        self.lines.push(Line { t, bytes: m.to_line() });
        assert(line_views(self.lines@) =~= line_views(before).push(message_line(t, m@)));
    }

    fn beat(&mut self, t: Reading)
        requires
            old(self).wf(),
            t.is_time(),
        ensures
            final(self).wf(),
            final(self)@ == (ClientView {
                lines: old(self)@.lines + beats(old(self)@.next_beat, t),
                next_beat: beat_after(old(self)@.next_beat, t),
                ..old(self)@
            }),
    {
        let ghost l0 = self@.lines;
        let ghost n0 = self@.next_beat;
        let w: u64 = t.trunc();
        while t.above(self.next_beat)
            invariant
                self.wf(),
                t.is_time(),
                w == t.whole_part(),
                w < 0x10_0000_0000_0000,
                self.lines@.len() >= 1,
                self@.seen == old(self)@.seen,
                self@.pending == old(self)@.pending,
                self@.syncs == old(self)@.syncs,
                self@.mlats == old(self)@.mlats,
                l0 + beats(n0, t) =~= self@.lines + beats(self.next_beat as int, t),
                beat_after(n0, t) == beat_after(self.next_beat as int, t),
            decreases w + 31 - self.next_beat,
        {
            let n: u64 = self.next_beat;
            let ghost before = self@;
            self.say(Reading::whole(n), ClientMsg::heartbeat_now());
            self.next_beat = n + HEARTBEAT_S;
            proof {
                assert(beats(n as int, t) =~= seq![
                    message_line(Reading::of_whole(n as int), heartbeat()),
                ] + beats(n + 30, t));
                assert(self@.lines =~= before.lines.push(
                    message_line(Reading::of_whole(n as int), heartbeat()),
                ));
            }
        }
        assert(beats(self.next_beat as int, t) =~= seq![]);
    }

    /// The client hears a transmission. `gap` is the time since the broadcast that
    /// awaits its partner, where there is one.
    pub fn hear(&mut self, h: &Heard, gap: Reading)
        requires
            old(self).wf(),
            h.t.is_time(),
        ensures
            final(self).wf(),
            final(self)@ == after_hearing(old(self)@, *h, gap),
    {
        broadcast use vstd::std_specs::hash::group_hash_axioms;

        let ghost c = self@;
        let addr: u32 = h.icao.0;
        self.beat(h.t);
        if h.jumped {
            self.say(h.t, ClientMsg::ClockJump("jump".to_owned()));
        }
        let ghost l2 = self@.lines;
        if !self.seen.contains(&addr) {
            let one: [Icao; 1] = [h.icao];
            assert(one@ =~= seq![h.icao]);
            self.say(h.t, ClientMsg::seen(one.as_slice()));
        }
        self.seen.insert(addr);
        assert(self@.seen =~= c.seen.insert(addr));
        let ghost base = self@;
        match h.kind {
            BroadcastKind::Df17 { odd } => {
                let make: bool = match self.pending.get(&addr) {
                    Some(p) => p.odd != odd && gap.lt(Reading(PAIR_WINDOW)),
                    None => false,
                };
                assert(make == completes_pair(c, addr, odd, gap));
                if make {
                    if let Some(p) = self.pending.remove(&addr) {
                        assert(p.half() == c.pending[addr]);
                        assert(self@.pending =~= c.pending.remove(addr));
                        let m = if odd {
                            ClientMsg::Sync {
                                et: Number::from_u64(p.count),
                                ot: Number::from_u64(h.count),
                                em: HexMsg::from_bytes(p.bytes.as_slice()),
                                om: HexMsg::from_bytes(h.bytes.as_slice()),
                            }
                        } else {
                            ClientMsg::Sync {
                                et: Number::from_u64(h.count),
                                ot: Number::from_u64(p.count),
                                em: HexMsg::from_bytes(h.bytes.as_slice()),
                                om: HexMsg::from_bytes(p.bytes.as_slice()),
                            }
                        };
                        self.say(h.t, m);
                        let said: usize = self.lines.len();
                        assert(self.syncs + 1 < said);
                        self.syncs = self.syncs + 1;
                    }
                } else {
                    let mut bytes: Vec<u8> = Vec::new();
                    bytes.extend_from_slice(h.bytes.as_slice());
                    assert(bytes@ =~= h.bytes@);
                    self.pending.insert(addr, PendingHalf { odd, t: h.t, count: h.count, bytes });
                    assert(self@.pending =~= c.pending.insert(addr, as_half(*h, odd)));
                }
            },
            _ => {
                self.say(
                    h.t,
                    ClientMsg::Mlat {
                        t: Number::from_u64(h.count),
                        m: HexMsg::from_bytes(h.bytes.as_slice()),
                    },
                );
                let said: usize = self.lines.len();
                assert(self.mlats + 1 < said);
                self.mlats = self.mlats + 1;
            },
        }
    }
}

/// What a client remembers of one aircraft: whether it has announced it, and the
/// broadcast of it that awaits its partner.
pub ghost struct Memory {
    pub seen: bool,
    pub half: Option<HalfView>,
}

/// What the client remembers of an aircraft.
pub open spec fn memory_of(c: ClientView, addr: u32) -> Memory {
    Memory {
        seen: c.seen.contains(addr),
        half: if c.pending.dom().contains(addr) {
            Some(c.pending[addr])
        } else {
            None
        },
    }
}

/// The transmission completes a pair with the broadcast that is remembered.
pub open spec fn has_partner(m: Memory, odd: bool, gap: Reading) -> bool {
    m.half matches Some(p) && p.odd != odd && gap.below(Reading(PAIR_WINDOW))
}

/// What the client remembers of an aircraft once it heard a transmission of it.
pub open spec fn memory_after(m: Memory, h: Heard, gap: Reading) -> Memory {
    Memory {
        seen: true,
        half: match h.kind {
            BroadcastKind::Df17 { odd } => if has_partner(m, odd, gap) {
                None
            } else {
                Some(as_half(h, odd))
            },
            _ => m.half,
        },
    }
}

/// What the client says of the aircraft of a transmission: that it is new, and the
/// measurement.
pub open spec fn told(m: Memory, h: Heard, gap: Reading) -> Seq<LineView> {
    let first = if m.seen {
        seq![]
    } else {
        seq![
            message_line(
                h.t,
                crate::proto::messages::MsgView::Seen(
                    crate::proto::messages::hex_addresses(seq![h.icao]),
                ),
            ),
        ]
    };
    match h.kind {
        BroadcastKind::Df17 { odd } => if has_partner(m, odd, gap) {
            first.push(
                message_line(
                    h.t,
                    if odd {
                        pair_message(m.half->0, as_half(h, odd))
                    } else {
                        pair_message(as_half(h, odd), m.half->0)
                    },
                ),
            )
        } else {
            first
        },
        _ => first.push(
            message_line(
                h.t,
                crate::proto::messages::MsgView::Mlat {
                    t: crate::text::decimal(h.count as nat),
                    m: crate::proto::messages::hex_text(h.bytes@),
                },
            ),
        ),
    }
}

/// What the client says on its own behalf before a transmission: due heartbeats, and
/// that its counter jumped.
pub open spec fn housekeeping(c: ClientView, h: Heard) -> Seq<LineView> {
    let b = beats(c.next_beat, h.t);
    if h.jumped {
        b.push(message_line(h.t, crate::proto::messages::MsgView::ClockJump("jump"@)))
    } else {
        b
    }
}

/// A transmission concerns its own aircraft alone: what the client says of it follows
/// from what it remembers of that aircraft, and of every other aircraft it remembers
/// what it did.
pub proof fn law_hearing_is_local(c: ClientView, h: Heard, gap: Reading)
    ensures
        after_hearing(c, h, gap).lines == c.lines + housekeeping(c, h) + told(
            memory_of(c, h.icao.0),
            h,
            gap,
        ),
        memory_of(after_hearing(c, h, gap), h.icao.0) == memory_after(
            memory_of(c, h.icao.0),
            h,
            gap,
        ),
        forall|a: u32|
            a != h.icao.0 ==> #[trigger] memory_of(after_hearing(c, h, gap), a) == memory_of(c, a),
{
    let lines = c.lines + housekeeping(c, h) + told(memory_of(c, h.icao.0), h, gap);
    assert(after_hearing(c, h, gap).lines =~= lines);
}

/// The client after it heard a run of transmissions, each with the time since its
/// partner.
pub open spec fn after_all(c: ClientView, hs: Seq<(Heard, Reading)>) -> ClientView
    decreases hs.len(),
{
    if hs.len() == 0 {
        c
    } else {
        after_hearing(after_all(c, hs.drop_last()), hs.last().0, hs.last().1)
    }
}

/// The transmissions of one aircraft among a run of them.
pub open spec fn only(hs: Seq<(Heard, Reading)>, addr: u32) -> Seq<(Heard, Reading)>
    decreases hs.len(),
{
    if hs.len() == 0 {
        seq![]
    } else {
        let rest = only(hs.drop_last(), addr);
        if hs.last().0.icao.0 == addr {
            rest.push(hs.last())
        } else {
            rest
        }
    }
}

/// All that a client says of one aircraft while it hears a run of transmissions.
pub open spec fn told_of(c: ClientView, hs: Seq<(Heard, Reading)>, addr: u32) -> Seq<LineView>
    decreases hs.len(),
{
    if hs.len() == 0 {
        seq![]
    } else {
        let before = after_all(c, hs.drop_last());
        let rest = told_of(c, hs.drop_last(), addr);
        let (h, gap) = hs.last();
        if h.icao.0 == addr {
            rest + told(memory_of(before, addr), h, gap)
        } else {
            rest
        }
    }
}

/// Aircraft do not interfere: what a client says of one aircraft, and what it remembers
/// of it, is what it would be if the others did not fly. So an aircraft added to a
/// scenario leaves the lines of the others as they are.
pub proof fn law_aircraft_do_not_interfere(c: ClientView, hs: Seq<(Heard, Reading)>, addr: u32)
    ensures
        told_of(c, hs, addr) == told_of(c, only(hs, addr), addr),
        memory_of(after_all(c, hs), addr) == memory_of(after_all(c, only(hs, addr)), addr),
    decreases hs.len(),
{
    if hs.len() > 0 {
        let rest = hs.drop_last();
        let (h, gap) = hs.last();
        law_aircraft_do_not_interfere(c, rest, addr);
        law_hearing_is_local(after_all(c, rest), h, gap);
        if h.icao.0 == addr {
            let mine = only(hs, addr);
            assert(mine.drop_last() =~= only(rest, addr));
            assert(mine.last() == hs.last());
            law_hearing_is_local(after_all(c, only(rest, addr)), h, gap);
        }
    }
}

/// The line is said at `t` and tells of a pair.
pub open spec fn is_pair_line(
    l: LineView,
    t: Reading,
    even_count: u64,
    even: Seq<u8>,
    odd_count: u64,
    odd: Seq<u8>,
) -> bool {
    l.t == t && exists|s: Seq<char>|
        l.bytes == #[trigger] crate::proto::messages::line_bytes(s)
            && crate::proto::fields::tells_pair(s, even_count, even, odd_count, odd)
}

/// The line is said at `t` and tells of one frame.
pub open spec fn is_frame_line(l: LineView, t: Reading, count: u64, frame: Seq<u8>) -> bool {
    l.t == t && exists|s: Seq<char>|
        l.bytes == #[trigger] crate::proto::messages::line_bytes(s)
            && crate::proto::fields::tells_frame(s, count, frame)
}

/// The two transmissions are an even and an odd position of one aircraft.
pub open spec fn are_halves(even: Heard, odd: Heard) -> bool {
    &&& even.kind == BroadcastKind::Df17 { odd: false }
    &&& odd.kind == BroadcastKind::Df17 { odd: true }
    &&& even.icao.0 == odd.icao.0
}

/// What awaits its partner is a transmission that was heard.
spec fn is_remembered(hs: Seq<(Heard, Reading)>, addr: u32, p: HalfView, j: int) -> bool {
    &&& 0 <= j < hs.len()
    &&& hs[j].0.icao.0 == addr
    &&& hs[j].0.kind == BroadcastKind::Df17 { odd: p.odd }
    &&& hs[j].0.count == p.count
    &&& hs[j].0.bytes@ == p.bytes
    &&& hs[j].0.t == p.t
}

proof fn lemma_memory_is_heard(hs: Seq<(Heard, Reading)>, addr: u32) -> (j: int)
    requires
        after_all(client_start(), hs).pending.dom().contains(addr),
    ensures
        is_remembered(hs, addr, after_all(client_start(), hs).pending[addr], j),
    decreases hs.len(),
{
    let rest = hs.drop_last();
    let (h, gap) = hs.last();
    if after_all(client_start(), rest).pending.dom().contains(addr) && after_all(
        client_start(),
        hs,
    ).pending[addr] == after_all(client_start(), rest).pending[addr] {
        let j = lemma_memory_is_heard(rest, addr);
        assert(rest[j] == hs[j]);
        j
    } else {
        hs.len() - 1
    }
}

/// Every sync line joins two transmissions that were heard, an even and an odd position
/// of one aircraft, the later of which is the present one. Each frame stands with the
/// counter of the very transmission that carried it.
pub proof fn law_sync_lines_join_transmissions(hs: Seq<(Heard, Reading)>) -> (j: int)
    requires
        hs.len() > 0,
        after_all(client_start(), hs).syncs != after_all(client_start(), hs.drop_last()).syncs,
    ensures
        0 <= j < hs.len() - 1,
        ({
            let l = after_all(client_start(), hs).lines.last();
            let (a, b) = (hs[j].0, hs.last().0);
            ||| are_halves(a, b) && is_pair_line(l, b.t, a.count, a.bytes@, b.count, b.bytes@)
            ||| are_halves(b, a) && is_pair_line(l, b.t, b.count, b.bytes@, a.count, a.bytes@)
        }),
{
    let c = after_all(client_start(), hs.drop_last());
    let (h, gap) = hs.last();
    let j = lemma_memory_is_heard(hs.drop_last(), h.icao.0);
    let p = c.pending[h.icao.0];
    assert(hs.drop_last()[j] == hs[j]);
    crate::proto::fields::law_sync_tells_pair(p.count, p.bytes, h.count, h.bytes@);
    crate::proto::fields::law_sync_tells_pair(h.count, h.bytes@, p.count, p.bytes);
    j
}

/// The frame of a position broadcast says what the broadcast is.
pub open spec fn is_genuine(h: Heard) -> bool {
    h.kind matches BroadcastKind::Df17 { odd } ==> (crate::modes::decode::df17_content(
        h.bytes@,
    ) matches Some(d) && d.icao == h.icao && d.odd == odd)
}

/// A line that joins two genuine transmissions is read as a pair of their aircraft, the
/// even position and the odd one each in its place.
pub proof fn law_pair_line_is_read_as_pair(even: Heard, odd: Heard, s: Seq<char>)
    requires
        are_halves(even, odd),
        is_genuine(even),
        is_genuine(odd),
        crate::proto::fields::tells_pair(s, even.count, even.bytes@, odd.count, odd.bytes@),
    ensures
        ({
            let em = crate::proto::fields::string_in(s, "em"@);
            let om = crate::proto::fields::string_in(s, "om"@);
            &&& em is Some && om is Some
            &&& crate::server::grouping::pair_of(em->0, om->0) matches Some(p) && p.icao
                == even.icao
        }),
{
}

/// A reply that is no position is told at once, with its own counter, and nothing else
/// is kept of it.
pub proof fn law_replies_are_told(c: ClientView, h: Heard, gap: Reading)
    requires
        !(h.kind is Df17),
    ensures
        after_hearing(c, h, gap).lines.len() > c.lines.len(),
        is_frame_line(after_hearing(c, h, gap).lines.last(), h.t, h.count, h.bytes@),
        after_hearing(c, h, gap).mlats == c.mlats + 1,
        after_hearing(c, h, gap).syncs == c.syncs,
        after_hearing(c, h, gap).pending == c.pending,
{
    crate::proto::fields::law_mlat_tells_frame(h.count, h.bytes@);
}

/// A position is never lost to both ends: it completes a pair, which is told and
/// forgotten, or it waits in place of what waited there.
pub proof fn law_positions_are_told_or_kept(c: ClientView, h: Heard, gap: Reading, odd: bool)
    requires
        h.kind == (BroadcastKind::Df17 { odd }),
    ensures
        ({
            let d = after_hearing(c, h, gap);
            let a = h.icao.0;
            &&& d.mlats == c.mlats
            &&& c.pending.dom().contains(a) && c.pending[a].odd != odd && gap.below(
                Reading(PAIR_WINDOW),
            ) ==> d.syncs == c.syncs + 1 && !d.pending.dom().contains(a)
            &&& !(c.pending.dom().contains(a) && c.pending[a].odd != odd && gap.below(
                Reading(PAIR_WINDOW),
            )) ==> d.syncs == c.syncs && d.pending.dom().contains(a) && d.pending[a].count
                == h.count && d.pending[a].bytes == h.bytes@ && d.pending[a].odd == odd
                && d.pending[a].t == h.t
        }),
{
}

// ------------------------------------------------------------------ framing

/// The sort keys of a run of lines.
pub open spec fn line_keys(v: Seq<LineView>) -> Seq<i64> {
    v.map_values(|l: LineView| l.t.total_rank() as i64)
}

/// `sorted` are the lines in order of time, lines of one time in the order in which
/// they were said.
pub open spec fn in_time_order(lines: Seq<LineView>, sorted: Seq<LineView>) -> bool {
    exists|o: Seq<usize>|
        {
            &&& #[trigger] crate::order::is_order(line_keys(lines), o, 0, lines.len() as int)
            &&& sorted == o.map_values(|k: usize| lines[k as int])
        }
}

fn copied(b: &Vec<u8>) -> (r: Vec<u8>)
    ensures
        r@ == b@,
{
    let mut out: Vec<u8> = Vec::new();
    out.extend_from_slice(b.as_slice());
    assert(out@ =~= b@);
    out
}

/// Orders lines by time; see `in_time_order`.
pub(crate) fn sort_lines(lines: &Vec<Line>) -> (r: Vec<Line>)
    ensures
        in_time_order(line_views(lines@), line_views(r@)),
        (forall|i: int| 0 <= i < lines@.len() ==> (#[trigger] lines@[i]).t.is_time()) ==> (forall|
            i: int,
        |
            0 <= i < r@.len() ==> (#[trigger] r@[i]).t.is_time()),
{
    let ghost views = line_views(lines@);
    let mut keys: Vec<i64> = Vec::new();
    let mut i: usize = 0;
    while i < lines.len()
        invariant
            i <= lines@.len(),
            views == line_views(lines@),
            keys@ =~= line_keys(views).take(i as int),
        decreases lines@.len() - i,
    {
        assert(views[i as int].t == lines@[i as int].t);
        keys.push(lines[i].t.total_key());
        i = i + 1;
    }
    assert(keys@ =~= line_keys(views));
    let order = order_by_key(keys.as_slice());
    let mut out: Vec<Line> = Vec::new();
    let mut k: usize = 0;
    while k < order.len()
        invariant
            views == line_views(lines@),
            order@.len() == lines@.len(),
            crate::order::is_order(line_keys(views), order@, 0, lines@.len() as int),
            k <= order@.len(),
            line_views(out@) =~= order@.take(k as int).map_values(|x: usize| views[x as int]),
            forall|j: int|
                0 <= j < out@.len() ==> exists|q: int|
                    0 <= q < lines@.len() && (#[trigger] out@[j]).t == (#[trigger] lines@[q]).t,
        decreases order@.len() - k,
    {
        let x: usize = order[k];
        let ghost prev = out@;
        out.push(Line { t: lines[x].t, bytes: copied(&lines[x].bytes) });
        proof {
            assert(line_views(out@) =~= line_views(prev).push(views[x as int]));
            assert(order@.take(k + 1) =~= order@.take(k as int).push(x));
            assert(order@.take(k + 1).map_values(|y: usize| views[y as int]) =~= order@.take(
                k as int,
            ).map_values(|y: usize| views[y as int]).push(views[x as int]));
            assert forall|j: int| 0 <= j < out@.len() implies exists|q: int|
                0 <= q < lines@.len() && (#[trigger] out@[j]).t == (#[trigger] lines@[q]).t by {
                if j < prev.len() {
                    assert(out@[j] == prev[j]);
                    let q = choose|q: int|
                        0 <= q < lines@.len() && prev[j].t == (#[trigger] lines@[q]).t;
                    assert(out@[j].t == lines@[q].t);
                } else {
                    assert(out@[j].t == lines@[x as int].t);
                }
            }
        }
        k = k + 1;
    }
    assert(order@.take(order@.len() as int) =~= order@);
    out
}

/// A run of bytes and the second at which it goes out.
pub ghost struct Batches {
    pub done: Seq<LineView>,
    pub open: Seq<u8>,
    /// The end of the open window, seconds.
    pub end: int,
}

/// Closes the open window: what it holds goes out at its end.
pub open spec fn closed_window(b: Batches) -> Seq<LineView> {
    if b.open.len() > 0 {
        b.done.push(LineView { t: Reading::of_whole(b.end), bytes: b.open })
    } else {
        b.done
    }
}

/// Lines gathered in windows of one second.
pub open spec fn gathered(lines: Seq<LineView>) -> Batches
    decreases lines.len(),
{
    if lines.len() == 0 {
        Batches { done: seq![], open: seq![], end: 0 }
    } else {
        let b = gathered(lines.drop_last());
        let l = lines.last();
        if lines.len() == 1 || l.t.whole_part() >= b.end {
            Batches { done: closed_window(b), open: l.bytes, end: l.t.whole_part() + 1 }
        } else {
            Batches { open: b.open + l.bytes, ..b }
        }
    }
}

/// What goes out as one unit: each line by itself, or with the bandwidth mode the
/// lines of each second together.
pub open spec fn units(lines: Seq<LineView>, compress: Compression) -> Seq<LineView> {
    match compress {
        Compression::Zlib2 => closed_window(gathered(lines)),
        _ => lines,
    }
}

/// `frames` are the units of a stream, each encoded by the state that the one before
/// it left; `states` are those states.
pub open spec fn encoded_by(
    units: Seq<LineView>,
    frames: Seq<LineView>,
    states: Seq<flate2::Compress>,
) -> bool {
    &&& frames.len() == units.len()
    &&& states.len() == units.len() + 1
    &&& crate::proto::framing::fresh(states[0])
    &&& forall|i: int|
        0 <= i < units.len() ==> (#[trigger] frames[i]).t == units[i].t
            && crate::proto::framing::frame_encoded(
            states[i],
            states[i + 1],
            units[i].bytes,
            frames[i].bytes,
        )
}

/// `frames` are the frames of one stream over these units.
pub open spec fn encodes(units: Seq<LineView>, frames: Seq<LineView>) -> bool {
    exists|states: Seq<flate2::Compress>| #[trigger] encoded_by(units, frames, states)
}

/// Behind the frames of the first `i` units the stream, in the last of `states`, refuses
/// the next unit with `e`; `after` is its state then.
pub open spec fn refused_at(
    units: Seq<LineView>,
    i: int,
    frames: Seq<LineView>,
    states: Seq<flate2::Compress>,
    after: flate2::Compress,
    e: FramingError,
) -> bool {
    &&& 0 <= i < units.len()
    &&& encoded_by(units.take(i), frames, states)
    &&& crate::proto::framing::frame_refused(states[i], after, units[i].bytes, e)
}

/// The stream over these units ends with `e` at one of them.
pub open spec fn refuses(units: Seq<LineView>, e: FramingError) -> bool {
    exists|
        i: int,
        frames: Seq<LineView>,
        states: Seq<flate2::Compress>,
        after: flate2::Compress,
    | #[trigger]
        refused_at(units, i, frames, states, after, e)
}

/// Every unit is at most 32 KiB long, so that each of them makes a frame.
pub open spec fn all_short(units: Seq<LineView>) -> bool {
    forall|i: int|
        0 <= i < units.len() ==> (#[trigger] units[i]).bytes.len()
            <= crate::proto::framing::OWED_LINES
}

fn encode_units(units: &Vec<Line>) -> (r: Result<Vec<Line>, FramingError>)
    ensures
        r matches Ok(f) ==> encodes(line_views(units@), line_views(f@)),
        r matches Err(e) ==> refuses(line_views(units@), e),
        all_short(line_views(units@)) ==> r is Ok,
{
    let mut enc = ZlibFrameEncoder::new();
    let mut out: Vec<Line> = Vec::new();
    let ghost mut states: Seq<flate2::Compress> = seq![enc.stream()];
    let ghost views = line_views(units@);
    let mut i: usize = 0;
    while i < units.len()
        invariant
            i <= units@.len(),
            views == line_views(units@),
            out@.len() == i,
            states.len() == i + 1,
            states.last() == enc.stream(),
            encoded_by(views.take(i as int), line_views(out@), states),
            all_short(views) ==> crate::proto::framing::quiet(enc.stream()),
        decreases units@.len() - i,
    {
        assert(views[i as int] == units@[i as int]@);
        match enc.encode_frame(units[i].bytes.as_slice()) {
            Ok(bytes) => {
                let ghost prev = out@;
                let ghost before = states;
                out.push(Line { t: units[i].t, bytes });
                proof {
                    states = states.push(enc.stream());
                    let u = views.take(i + 1);
                    let f = line_views(out@);
                    assert(u.take(i as int) =~= views.take(i as int));
                    assert forall|k: int| 0 <= k < u.len() implies (#[trigger] f[k]).t == u[k].t
                        && crate::proto::framing::frame_encoded(
                        states[k],
                        states[k + 1],
                        u[k].bytes,
                        f[k].bytes,
                    ) by {
                        if k < i {
                            assert(line_views(prev)[k] == f[k]);
                            assert(views.take(i as int)[k] == u[k]);
                            assert(states[k] == before[k] && states[k + 1] == before[k + 1]);
                        } else {
                            assert(views[k] == units@[k]@);
                        }
                    }
                }
            },
            Err(e) => {
                assert(refused_at(views, i as int, line_views(out@), states, enc.stream(), e));
                return Err(e);
            },
        }
        i = i + 1;
    }
    proof {
        assert(views.take(units@.len() as int) =~= views);
        assert(encoded_by(views, line_views(out@), states));
    }
    Ok(out)
}

/// Gathers lines in windows of one second; see `gathered`.
fn gather(lines: &Vec<Line>) -> (r: Vec<Line>)
    requires
        forall|i: int| 0 <= i < lines@.len() ==> (#[trigger] lines@[i]).t.is_time(),
    ensures
        line_views(r@) == closed_window(gathered(line_views(lines@))),
{
    let mut done: Vec<Line> = Vec::new();
    let mut open: Vec<u8> = Vec::new();
    let mut end: u64 = 0;
    let ghost views = line_views(lines@);
    let mut i: usize = 0;
    while i < lines.len()
        invariant
            i <= lines@.len(),
            views == line_views(lines@),
            forall|k: int| 0 <= k < lines@.len() ==> (#[trigger] lines@[k]).t.is_time(),
            gathered(views.take(i as int)).done =~= line_views(done@),
            gathered(views.take(i as int)).open == open@,
            gathered(views.take(i as int)).end == end,
            i == 0 ==> open@.len() == 0,
            end <= 0x10_0000_0000_0000,
        decreases lines@.len() - i,
    {
        proof {
            assert(views.take(i + 1).drop_last() =~= views.take(i as int));
            assert(views.take(i + 1).last() == lines@[i as int]@);
        }
        let s: u64 = lines[i].t.trunc();
        if i == 0 || s >= end {
            let ghost b = gathered(views.take(i as int));
            if open.len() > 0 {
                let ghost prev = done@;
                let mut out: Vec<u8> = Vec::new();
                std::mem::swap(&mut out, &mut open);
                done.push(Line { t: Reading::whole(end), bytes: out });
                assert(line_views(done@) =~= closed_window(b));
            }
            open = copied(&lines[i].bytes);
            end = s + 1;
        } else {
            open.extend_from_slice(lines[i].bytes.as_slice());
        }
        i = i + 1;
    }
    proof {
        assert(views.take(lines@.len() as int) =~= views);
    }
    let ghost b = gathered(views);
    if open.len() > 0 {
        done.push(Line { t: Reading::whole(end), bytes: open });
    }
    assert(line_views(done@) =~= closed_window(b));
    done
}

/// Applies wire framing to ordered lines. Plain: each line as it is. `zlib`: one
/// frame per line, the low-latency mode. `zlib2`: one frame for the lines of each
/// second, sent at its end, the bandwidth mode. A unit of at most 32 KiB always makes a
/// frame; the first unit that the stream refuses ends the framing.
pub fn frame_lines(lines: &Vec<Line>, compress: Compression) -> (r: Result<
    Vec<Line>,
    FramingError,
>)
    requires
        forall|i: int| 0 <= i < lines@.len() ==> (#[trigger] lines@[i]).t.is_time(),
    ensures
        compress == Compression::Plain ==> r is Ok && line_views(r->Ok_0@) == line_views(lines@),
        lines@.len() == 0 ==> r is Ok && r->Ok_0@.len() == 0,
        r matches Ok(f) ==> compress == Compression::Plain || encodes(
            units(line_views(lines@), compress),
            line_views(f@),
        ),
        r matches Err(e) ==> refuses(units(line_views(lines@), compress), e),
        all_short(units(line_views(lines@), compress)) ==> r is Ok,
{
    match compress {
        Compression::Plain => {
            let mut out: Vec<Line> = Vec::new();
            let mut i: usize = 0;
            while i < lines.len()
                invariant
                    i <= lines@.len(),
                    line_views(out@) =~= line_views(lines@).take(i as int),
                decreases lines@.len() - i,
            {
                let ghost prev = out@;
                out.push(Line { t: lines[i].t, bytes: copied(&lines[i].bytes) });
                assert(line_views(out@) =~= line_views(prev).push(line_views(lines@)[i as int]));
                i = i + 1;
            }
            assert(line_views(out@) =~= line_views(lines@));
            assert(line_views(out@).len() == out@.len());
            Ok(out)
        },
        Compression::Zlib => {
            let r = encode_units(lines);
            proof {
                if r is Ok {
                    lemma_frame_count(line_views(lines@), line_views(r->Ok_0@));
                    assert(line_views(r->Ok_0@).len() == r->Ok_0@.len());
                }
            }
            r
        },
        Compression::Zlib2 => {
            let batches = gather(lines);
            let r = encode_units(&batches);
            proof {
                assert(line_views(batches@).len() == batches@.len());
                if r is Ok {
                    lemma_frame_count(line_views(batches@), line_views(r->Ok_0@));
                    assert(line_views(r->Ok_0@).len() == r->Ok_0@.len());
                }
            }
            r
        },
    }
}

proof fn lemma_frame_count(u: Seq<LineView>, f: Seq<LineView>)
    requires
        encodes(u, f),
    ensures
        f.len() == u.len(),
{
    let states = choose|states: Seq<flate2::Compress>| #[trigger] encoded_by(u, f, states);
    assert(encoded_by(u, f, states));
}

/// The bytes of a run of lines, one after the other.
pub open spec fn all_bytes(lines: Seq<LineView>) -> Seq<u8>
    decreases lines.len(),
{
    if lines.len() == 0 {
        seq![]
    } else {
        all_bytes(lines.drop_last()) + lines.last().bytes
    }
}

proof fn lemma_closed_bytes(b: Batches)
    ensures
        all_bytes(closed_window(b)) == all_bytes(b.done) + b.open,
{
    if b.open.len() > 0 {
        assert(closed_window(b).drop_last() =~= b.done);
    } else {
        assert(all_bytes(b.done) + b.open =~= all_bytes(b.done));
    }
}

proof fn lemma_gathered_bytes(lines: Seq<LineView>)
    ensures
        all_bytes(gathered(lines).done) + gathered(lines).open == all_bytes(lines),
    decreases lines.len(),
{
    if lines.len() > 0 {
        let b = gathered(lines.drop_last());
        let l = lines.last();
        lemma_gathered_bytes(lines.drop_last());
        if lines.len() == 1 || l.t.whole_part() >= b.end {
            lemma_closed_bytes(b);
        } else {
            assert((all_bytes(b.done) + b.open) + l.bytes =~= all_bytes(b.done) + (b.open
                + l.bytes));
        }
    } else {
        assert(all_bytes(gathered(lines).done) + gathered(lines).open =~= all_bytes(lines));
    }
}

/// Framing neither loses, repeats nor reorders a byte of the lines, whatever the
/// compression.
pub proof fn law_units_keep_the_lines(lines: Seq<LineView>, compress: Compression)
    ensures
        all_bytes(units(lines, compress)) == all_bytes(lines),
{
    if compress == Compression::Zlib2 {
        lemma_gathered_bytes(lines);
        lemma_closed_bytes(gathered(lines));
    }
}

proof fn lemma_gathered_order(lines: Seq<LineView>)
    requires
        forall|i: int| 0 <= i < lines.len() ==> (#[trigger] lines[i]).t.is_time(),
    ensures
        ({
            let b = gathered(lines);
            &&& 0 <= b.end <= 0x10_0000_0000_0000
            &&& forall|i: int|
                0 <= i < b.done.len() ==> (#[trigger] b.done[i]).t.is_whole()
                    && b.done[i].t.whole_part() < b.end
            &&& forall|i: int, j: int|
                0 <= i < j < b.done.len() ==> (#[trigger] b.done[i]).t.whole_part() < (
                #[trigger] b.done[j]).t.whole_part()
        }),
    decreases lines.len(),
{
    if lines.len() > 0 {
        let front = lines.drop_last();
        assert forall|i: int| 0 <= i < front.len() implies (#[trigger] front[i]).t.is_time() by {
            assert(front[i] == lines[i]);
        }
        lemma_gathered_order(front);
        let b = gathered(front);
        let l = lines.last();
        assert(lines[lines.len() - 1].t.is_time());
        crate::reading::lemma_time(l.t);
        crate::reading::law_whole_reading(b.end);
        if lines.len() == 1 {
            assert(front =~= seq![]);
        }
    }
}

/// In the bandwidth mode units go out at whole seconds, in order, and no two at the
/// same second.
pub proof fn law_windows_close_in_order(lines: Seq<LineView>)
    requires
        forall|i: int| 0 <= i < lines.len() ==> (#[trigger] lines[i]).t.is_time(),
    ensures
        forall|i: int|
            0 <= i < units(lines, Compression::Zlib2).len() ==> (#[trigger] units(
                lines,
                Compression::Zlib2,
            )[i]).t.is_whole(),
        forall|i: int, j: int|
            0 <= i < j < units(lines, Compression::Zlib2).len() ==> (#[trigger] units(
                lines,
                Compression::Zlib2,
            )[i]).t.whole_part() < (#[trigger] units(lines, Compression::Zlib2)[j]).t.whole_part(),
{
    lemma_gathered_order(lines);
    crate::reading::law_whole_reading(gathered(lines).end);
}

/// A decoder that starts fresh gets the units of a stream back from its frames, one
/// by one: `decoders` are its states over the first `n` frames and `decoded` what it
/// gave out, and the frame behind those is one that it owes the lines of. The units are
/// at most 32 KiB long, or their frames fit the buffer that they are first made in.
pub proof fn law_framed_stream_decodes(
    units: Seq<LineView>,
    frames: Seq<LineView>,
    states: Seq<flate2::Compress>,
    decoders: Seq<flate2::Decompress>,
    decoded: Seq<Seq<u8>>,
    n: int,
)
    requires
        encoded_by(units, frames, states),
        forall|i: int|
            0 <= i < units.len() ==> units[i].bytes.len() <= crate::proto::framing::OWED_LINES
                || crate::proto::framing::fits_first_buffer(
                units[i].bytes,
                (#[trigger] frames[i]).bytes,
            ),
        forall|i: int|
            0 <= i < units.len() ==> (#[trigger] units[i]).bytes.len() <= usize::MAX - 0x1_0000,
        decoders.len() == n + 1,
        decoded.len() == n,
        crate::proto::framing::in_step(states[0], decoders[0]),
        forall|i: int|
            0 <= i < n ==> crate::proto::framing::frame_decoded(
                decoders[i],
                decoders[i + 1],
                (#[trigger] frames[i]).bytes,
                decoded[i],
            ),
        0 <= n <= units.len(),
    ensures
        forall|i: int| 0 <= i < n ==> #[trigger] decoded[i] == units[i].bytes,
        crate::proto::framing::in_step(states[n], decoders[n]),
        n < units.len() ==> crate::proto::framing::decodable(decoders[n], frames[n].bytes),
    decreases n,
{
    if n > 0 {
        let (d, e) = (decoders.drop_last(), decoded.drop_last());
        assert forall|i: int| 0 <= i < n - 1 implies crate::proto::framing::frame_decoded(
            d[i],
            d[i + 1],
            (#[trigger] frames[i]).bytes,
            e[i],
        ) by {
            assert(d[i] == decoders[i] && d[i + 1] == decoders[i + 1] && e[i] == decoded[i]);
        }
        law_framed_stream_decodes(units, frames, states, d, e, n - 1);
        assert forall|i: int| 0 <= i < n - 1 implies #[trigger] decoded[i] == units[i].bytes by {
            assert(e[i] == decoded[i]);
        }
        let i = n - 1;
        assert(frames[i].t == units[i].t);
        crate::proto::framing::law_frames_round_trip(
            states[i],
            states[n],
            decoders[i],
            decoders[n],
            units[i].bytes,
            frames[i].bytes,
            decoded[i],
        );
    }
    if n < units.len() {
        assert(frames[n].t == units[n].t);
        crate::proto::framing::law_frames_are_decodable(
            states[n],
            states[n + 1],
            decoders[n],
            units[n].bytes,
            frames[n].bytes,
        );
    }
}

/// The frames of a stream depend on its units alone: two streams over the same units
/// hold the same frames. The units are at most 32 KiB long.
pub proof fn law_equal_units_make_equal_frames(
    units: Seq<LineView>,
    frames: Seq<LineView>,
    others: Seq<LineView>,
)
    requires
        encodes(units, frames),
        encodes(units, others),
        all_short(units),
    ensures
        frames == others,
{
    let y = choose|states: Seq<flate2::Compress>| #[trigger] encoded_by(units, frames, states);
    let z = choose|states: Seq<flate2::Compress>| #[trigger] encoded_by(units, others, states);
    assert forall|i: int| 0 <= i < units.len() implies frames[i] == others[i] by {
        lemma_equal_frames(units, frames, others, y, z, i);
    }
    assert(frames =~= others);
}

proof fn lemma_equal_frames(
    units: Seq<LineView>,
    frames: Seq<LineView>,
    others: Seq<LineView>,
    y: Seq<flate2::Compress>,
    z: Seq<flate2::Compress>,
    i: int,
)
    requires
        encoded_by(units, frames, y),
        encoded_by(units, others, z),
        all_short(units),
        0 <= i < units.len(),
    ensures
        frames[i] == others[i],
        crate::proto::framing::regular(y[i + 1]),
        crate::proto::framing::regular(z[i + 1]),
        crate::proto::framing::flushed(y[i + 1]) == crate::proto::framing::flushed(z[i + 1]),
    decreases i,
{
    if i > 0 {
        lemma_equal_frames(units, frames, others, y, z, i - 1);
    }
    assert(frames[i].t == units[i].t && others[i].t == units[i].t);
    crate::proto::framing::law_equal_lines_make_equal_frames(
        y[i],
        y[i + 1],
        z[i],
        z[i + 1],
        units[i].bytes,
        frames[i].bytes,
        others[i].bytes,
    );
}

/// One timestamped chunk of bytes from a client to the server.
#[derive(Debug)]
pub struct SendRecord {
    pub t: SimNanos,
    pub bytes: Vec<u8>,
}

/// What a chunk is, as a pair.
pub open spec fn send_views(v: Seq<SendRecord>) -> Seq<(u64, Seq<u8>)> {
    v.map_values(|r: SendRecord| (r.t.0, r.bytes@))
}

/// The frames of a stream with the times at which they reach the network.
pub fn stamp(records: Vec<Line>, nanos: &Vec<u64>) -> (r: Vec<SendRecord>)
    requires
        records@.len() == nanos@.len(),
    ensures
        send_views(r@) == Seq::new(
            records@.len(),
            |i: int| (nanos@[i], records@[i].bytes@),
        ),
{
    let mut out: Vec<SendRecord> = Vec::new();
    let mut i: usize = 0;
    while i < records.len()
        invariant
            records@.len() == nanos@.len(),
            i <= records@.len(),
            out@.len() == i,
            forall|k: int|
                0 <= k < i ==> (#[trigger] out@[k]).t.0 == nanos@[k] && out@[k].bytes@
                    == records@[k].bytes@,
        decreases records@.len() - i,
    {
        out.push(SendRecord { t: SimNanos(nanos[i]), bytes: copied(&records[i].bytes) });
        i = i + 1;
    }
    assert(send_views(out@) =~= Seq::new(
        records@.len(),
        |k: int| (nanos@[k], records@[k].bytes@),
    ));
    out
}

/// The byte stream of a client, ready to be sent. Times do not hold the latency of
/// the network yet.
#[derive(Debug)]
pub struct ClientStream {
    pub records: Vec<Line>,
    /// Messages before framing.
    pub message_count: u64,
    pub sync_count: u64,
    pub mlat_count: u64,
}

/// `records` are lines in order of time, framed.
pub open spec fn is_stream_of(
    lines: Seq<LineView>,
    compress: Compression,
    records: Seq<LineView>,
) -> bool {
    exists|sorted: Seq<LineView>|
        {
            &&& #[trigger] in_time_order(lines, sorted)
            &&& if compress == Compression::Plain {
                records == sorted
            } else {
                encodes(units(sorted, compress), records)
            }
        }
}

/// A client's stream depends on its lines alone: generated twice, it is the same byte
/// for byte. With compression the units are at most 32 KiB long.
pub proof fn law_stream_depends_on_lines(
    lines: Seq<LineView>,
    compress: Compression,
    records: Seq<LineView>,
    others: Seq<LineView>,
)
    requires
        lines.len() <= usize::MAX,
        is_stream_of(lines, compress, records),
        is_stream_of(lines, compress, others),
        compress == Compression::Plain || (forall|sorted: Seq<LineView>| #[trigger]
            in_time_order(lines, sorted) ==> all_short(units(sorted, compress))),
    ensures
        records == others,
{
    let plain = compress == Compression::Plain;
    let a = choose|sorted: Seq<LineView>|
        {
            &&& #[trigger] in_time_order(lines, sorted)
            &&& if compress == Compression::Plain {
                records == sorted
            } else {
                encodes(units(sorted, compress), records)
            }
        };
    let b = choose|sorted: Seq<LineView>|
        {
            &&& #[trigger] in_time_order(lines, sorted)
            &&& if compress == Compression::Plain {
                others == sorted
            } else {
                encodes(units(sorted, compress), others)
            }
        };
    let keys = line_keys(lines);
    let n = lines.len() as int;
    let o = choose|o: Seq<usize>|
        {
            &&& #[trigger] crate::order::is_order(keys, o, 0, n)
            &&& a == o.map_values(|k: usize| lines[k as int])
        };
    let p = choose|p: Seq<usize>|
        {
            &&& #[trigger] crate::order::is_order(keys, p, 0, n)
            &&& b == p.map_values(|k: usize| lines[k as int])
        };
    crate::order::law_order_is_unique(keys, o, p);
    if !plain {
        law_equal_units_make_equal_frames(units(a, compress), records, others);
    }
}

impl ClientBuilder {
    /// Orders what was said by time and frames it. The messages are counted before
    /// framing.
    pub fn finish(self, compress: Compression) -> (r: Result<ClientStream, FramingError>)
        requires
            self.wf(),
        ensures
            r matches Ok(s) ==> {
                &&& s.message_count == self@.lines.len()
                &&& s.sync_count == self@.syncs
                &&& s.mlat_count == self@.mlats
                &&& is_stream_of(self@.lines, compress, line_views(s.records@))
            },
            compress == Compression::Plain ==> r is Ok,
            r matches Err(e) ==> exists|sorted: Seq<LineView>|
                {
                    &&& #[trigger] in_time_order(self@.lines, sorted)
                    &&& refuses(units(sorted, compress), e)
                },
            (forall|sorted: Seq<LineView>| #[trigger]
                in_time_order(self@.lines, sorted) ==> all_short(units(sorted, compress))) ==> r is Ok,
    {
        let sorted = sort_lines(&self.lines);
        assert(in_time_order(self@.lines, line_views(sorted@)));
        match frame_lines(&sorted, compress) {
            Ok(records) => {
                Ok(
                    ClientStream {
                        records,
                        message_count: self.lines.len() as u64,
                        sync_count: self.syncs,
                        mlat_count: self.mlats,
                    },
                )
            },
            Err(e) => Err(e),
        }
    }
}

/// The handshake of a generated client. Results are off: echoing every fix to every
/// client would only load the replay.
pub fn client_handshake(
    user: String,
    compress: Compression,
    lat: Option<Number>,
    lon: Option<Number>,
    alt: Option<Number>,
    clock_type: ClockType,
    client_version: String,
) -> (r: Handshake)
    ensures
        r.version == 3,
        r.user == user,
        r.uuid is None,
        r.compress@ == seq![compress],
        r.lat == lat,
        r.lon == lon,
        r.alt == alt,
        r.clock_type == clock_type,
        r.return_results == Some(false),
        r.return_result_format is None,
        r.client_version == Some(client_version),
        r.selective_traffic is None,
        r.heartbeat is None,
        r.return_stats is None,
{
    let mut offers: Vec<Compression> = Vec::new();
    offers.push(compress);
    assert(offers@ =~= seq![compress]);
    Handshake {
        version: 3,
        user,
        uuid: None,
        compress: offers,
        lat,
        lon,
        alt,
        clock_type,
        return_results: Some(false),
        return_result_format: None,
        client_version: Some(client_version),
        selective_traffic: None,
        heartbeat: None,
        return_stats: None,
    }
}

// ---------------------------------------------------------- what a client keeps to

/// What is said during a second.
pub open spec fn said_in(lines: Seq<LineView>, s: int) -> Seq<u8>
    decreases lines.len(),
{
    if lines.len() == 0 {
        seq![]
    } else if lines.last().t.whole_part() == s {
        said_in(lines.drop_last(), s) + lines.last().bytes
    } else {
        said_in(lines.drop_last(), s)
    }
}

proof fn lemma_window(lines: Seq<LineView>, s: int)
    requires
        forall|i: int| 0 <= i < lines.len() ==> (#[trigger] lines[i]).t.is_time(),
        forall|i: int, j: int|
            0 <= i < j < lines.len() ==> (#[trigger] lines[i]).t.whole_part() <= (
            #[trigger] lines[j]).t.whole_part(),
    ensures
        lines.len() > 0 ==> gathered(lines).end == lines.last().t.whole_part() + 1,
        s + 1 == gathered(lines).end ==> gathered(lines).open == said_in(lines, s) && said_in(
            gathered(lines).done,
            s + 1,
        ) == Seq::<u8>::empty(),
        s + 1 != gathered(lines).end ==> said_in(gathered(lines).done, s + 1) == said_in(lines, s),
    decreases lines.len(),
{
    lemma_gathered_order(lines);
    if lines.len() > 0 {
        let r = lines.drop_last();
        assert forall|i: int| 0 <= i < r.len() implies (#[trigger] r[i]).t.is_time() by {
            assert(r[i] == lines[i]);
        }
        assert forall|i: int, j: int| 0 <= i < j < r.len() implies (#[trigger] r[i]).t.whole_part()
            <= (#[trigger] r[j]).t.whole_part() by {
            assert(lines[i].t.whole_part() <= lines[j].t.whole_part());
        }
        lemma_window(r, s);
        lemma_gathered_order(r);
        let (b, b0) = (gathered(lines), gathered(r));
        let l = lines.last();
        assert(lines[lines.len() - 1].t.is_time());
        crate::reading::lemma_time(l.t);
        if r.len() > 0 {
            assert(lines[r.len() - 1].t.whole_part() <= lines[lines.len() - 1].t.whole_part());
            assert(r.last() == lines[r.len() - 1]);
        } else {
            assert(r =~= seq![]);
        }
        if lines.len() == 1 || l.t.whole_part() >= b0.end {
            crate::reading::law_whole_reading(b0.end);
            if b0.open.len() > 0 {
                assert(b.done.drop_last() =~= b0.done);
                assert(b.done.last().t.whole_part() == b0.end);
            }
            lemma_later_windows(b0.done, b0.end, l.t.whole_part() + 1);
            if s == l.t.whole_part() {
                lemma_said_before(r, s);
                assert(said_in(r, s) =~= seq![]);
                assert(said_in(lines, s) =~= l.bytes);
            }
            if s + 1 == b0.end {
                assert(said_in(b0.done, s + 1) + b0.open =~= b0.open);
            }
            assert(said_in(b.done, s + 1) =~= if s + 1 == b.end {
                Seq::<u8>::empty()
            } else {
                said_in(lines, s)
            });
        }
    } else {
        assert(said_in(lines, s) =~= seq![]);
    }
}

proof fn lemma_later_windows(done: Seq<LineView>, end: int, s: int)
    requires
        s > end,
        forall|i: int| 0 <= i < done.len() ==> (#[trigger] done[i]).t.whole_part() < end,
    ensures
        said_in(done, s) == Seq::<u8>::empty(),
    decreases done.len(),
{
    if done.len() > 0 {
        let r = done.drop_last();
        assert forall|i: int| 0 <= i < r.len() implies (#[trigger] r[i]).t.whole_part() < end by {
            assert(done[i].t.whole_part() < end);
        }
        lemma_later_windows(r, end, s);
        assert(done[done.len() - 1].t.whole_part() < end);
    }
}

proof fn lemma_said_before(lines: Seq<LineView>, s: int)
    requires
        lines.len() == 0 || lines.last().t.whole_part() < s,
        forall|i: int, j: int|
            0 <= i < j < lines.len() ==> (#[trigger] lines[i]).t.whole_part() <= (
            #[trigger] lines[j]).t.whole_part(),
    ensures
        said_in(lines, s) == Seq::<u8>::empty(),
    decreases lines.len(),
{
    if lines.len() > 0 {
        let r = lines.drop_last();
        assert forall|i: int, j: int| 0 <= i < j < r.len() implies (#[trigger] r[i]).t.whole_part()
            <= (#[trigger] r[j]).t.whole_part() by {
            assert(lines[i].t.whole_part() <= lines[j].t.whole_part());
        }
        if r.len() > 0 {
            assert(lines[r.len() - 1].t.whole_part() <= lines[lines.len() - 1].t.whole_part());
        }
        lemma_said_before(r, s);
    }
}

/// In the bandwidth mode what is said during a second goes out at its end, all of it and
/// nothing else.
pub proof fn law_a_second_goes_out_at_its_end(lines: Seq<LineView>, s: int)
    requires
        forall|i: int| 0 <= i < lines.len() ==> (#[trigger] lines[i]).t.is_time(),
        forall|i: int, j: int|
            0 <= i < j < lines.len() ==> (#[trigger] lines[i]).t.whole_part() <= (
            #[trigger] lines[j]).t.whole_part(),
    ensures
        said_in(units(lines, Compression::Zlib2), s + 1) == said_in(lines, s),
{
    lemma_window(lines, s);
    lemma_gathered_order(lines);
    let b = gathered(lines);
    crate::reading::law_whole_reading(b.end);
    let u = closed_window(b);
    if b.open.len() > 0 {
        assert(u.drop_last() =~= b.done);
        if s + 1 == b.end {
            assert(Seq::<u8>::empty() + b.open =~= b.open);
        }
    }
}

/// Without the bandwidth mode every line goes out by itself, at its own time.
pub proof fn law_other_modes_do_not_gather(lines: Seq<LineView>, compress: Compression)
    requires
        compress != Compression::Zlib2,
    ensures
        units(lines, compress) == lines,
{
}

/// Heartbeats are thirty seconds apart: all that are due before a time are said, each at its
/// own second, and the next one is not due before it.
pub proof fn law_heartbeats_are_thirty_seconds_apart(next: int, t: Reading, k: int)
    requires
        0 <= next,
        t.is_time(),
    ensures
        beat_after(next, t) == next + 30 * beats(next, t).len(),
        0 <= k < beats(next, t).len() ==> beats(next, t)[k].t == Reading::of_whole(next + 30 * k)
            && next + 30 * k <= t.whole_part() && t.exceeds((next + 30 * k) as u64),
        !(t.exceeds(beat_after(next, t) as u64) && beat_after(next, t) <= t.whole_part()),
    decreases t.whole_part() + 31 - next,
{
    if t.exceeds(next as u64) && next <= t.whole_part() {
        law_heartbeats_are_thirty_seconds_apart(next + 30, t, k - 1);
        let rest = beats(next + 30, t);
        assert(beats(next, t).len() == rest.len() + 1);
        if 0 < k < beats(next, t).len() {
            assert(beats(next, t)[k] == rest[k - 1]);
        }
    }
}

/// What a client said stays said, in order: hearing only adds lines. It counts one pair, one
/// reply or neither, and it announces an aircraft before it says anything else of it.
pub proof fn law_hearing_adds_lines(c: ClientView, h: Heard, gap: Reading)
    ensures
        ({
            let d = after_hearing(c, h, gap);
            &&& c.lines.len() <= d.lines.len()
            &&& d.lines.take(c.lines.len() as int) == c.lines
            &&& d.syncs + d.mlats <= c.syncs + c.mlats + 1
            &&& d.seen == c.seen.insert(h.icao.0)
            &&& d.next_beat == beat_after(c.next_beat, h.t)
        }),
{
    assert(after_hearing(c, h, gap).lines.take(c.lines.len() as int) =~= c.lines);
}

/// The receivers that hear an aircraft are listed, each under its own id and in order, and no
/// other is.
pub proof fn law_hearing_receivers_are_listed(ids: Seq<String>, heard: Seq<bool>, x: Seq<char>)
    requires
        ids.len() == heard.len(),
    ensures
        hearing(ids, heard).contains(x) <==> exists|i: int|
            0 <= i < ids.len() && (#[trigger] ids[i])@ == x && heard[i],
        hearing(ids, heard).len() <= ids.len(),
        (forall|i: int| 0 <= i < heard.len() ==> #[trigger] heard[i]) ==> hearing(ids, heard).len()
            == ids.len(),
    decreases ids.len(),
{
    if ids.len() > 0 {
        let (r, b) = (ids.drop_last(), heard.drop_last());
        law_hearing_receivers_are_listed(r, b, x);
        let (l1, l0) = (hearing(ids, heard), hearing(r, b));
        if l0.contains(x) {
            let k = choose|k: int| 0 <= k < l0.len() && l0[k] == x;
            assert(l1[k] == x);
            let i = choose|i: int| 0 <= i < r.len() && (#[trigger] r[i])@ == x && b[i];
            assert(ids[i]@ == x && heard[i]);
        }
        if l1.contains(x) {
            let k = choose|k: int| 0 <= k < l1.len() && l1[k] == x;
            if k < l0.len() {
                assert(l0[k] == x);
            } else {
                assert(ids[ids.len() - 1]@ == x);
            }
        }
        if exists|i: int| 0 <= i < ids.len() && (#[trigger] ids[i])@ == x && heard[i] {
            let i = choose|i: int| 0 <= i < ids.len() && (#[trigger] ids[i])@ == x && heard[i];
            if i < r.len() {
                assert(r[i]@ == x && b[i]);
            } else {
                assert(l1[l0.len() as int] == x);
            }
        }
        if forall|i: int| 0 <= i < heard.len() ==> #[trigger] heard[i] {
            assert forall|i: int| 0 <= i < b.len() implies #[trigger] b[i] by {
                assert(heard[i]);
            }
            assert(heard[heard.len() - 1]);
        }
    }
}

/// What is near is heard wherever what is farther away is, and nothing is heard beyond the
/// horizon or the cap.
pub proof fn law_nearer_is_heard_too(
    near: Reading,
    far: Reading,
    horizon_km: Reading,
    cap_km: Option<Reading>,
)
    requires
        near.at_most(far),
    ensures
        audible(far, horizon_km, cap_km) ==> audible(near, horizon_km, cap_km),
        horizon_km.below(far) ==> !audible(far, horizon_km, cap_km),
        cap_km matches Some(c) ==> (c.below(far) ==> !audible(far, horizon_km, cap_km)),
        cap_km is None && far.at_most(horizon_km) ==> audible(far, horizon_km, cap_km),
{
}

} // verus!
