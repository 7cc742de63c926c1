//! The traffic engine: receptions in, per-server protocol messages out.
//!
//! One engine serves N servers from one decode and one aircraft table. Aircraft
//! state is shared; what is per-server is the selective-traffic set and the
//! announcement state, because each server requests independently.
//!
//! - An aircraft becomes known only through a CRC-validated DF11 or DF17; frames
//!   whose address is recovered from AP parity (DF0/4/5/16/20/21) count only for
//!   aircraft already known.
//! - Nothing is sent to a server for an aircraft until that server requests it.
//! - DF17 airborne position pairs (even and odd, close in time) become sync
//!   messages; other frames of requested aircraft become mlat messages.
//!
//! Times are readings of a monotonic clock, in nanoseconds.

use vstd::prelude::*;

use crate::client::beast::Reception;
use crate::icao::Icao;
use crate::modes::crc::crc24;
use crate::modes::decode::{df_of, parse_df17_airborne};
use crate::proto::json::Number;
use crate::proto::messages::{hex_encode, ClientMsg, HexMsg};
use crate::text::{chars_of, parse_hex_u32};

verus! {

/// Two halves of a sync pair lie at most this many 12 MHz counts apart (4 s).
pub const MAX_PAIR_COUNTS: u64 = 48_000_000;

/// An aircraft is lost after more than this long without a message (60 s).
pub const LOST_AFTER_NS: u64 = 60_000_000_000;

/// Rates are reported when at least this long has passed (30 s).
pub const RATE_REPORT_NS: u64 = 30_000_000_000;

/// A counter that moves backward by more than this (1 s) is a clock reset.
pub const RESET_BACKWARD_COUNTS: u64 = 12_000_000;

/// A counter that moves backward by this or more has wrapped at 48 bits.
pub const WRAP_MARGIN: u64 = 0x4000_0000_0000;

/// One server's view of one aircraft.
#[derive(Debug, Clone, Copy, PartialEq, Eq, Structural)]
pub struct PerServer {
    pub requested: bool,
    pub announced: bool,
    pub last_sync: Option<u64>,
}

/// The state of an aircraft that a server has not been told of.
pub open spec fn fresh_server() -> PerServer {
    PerServer { requested: false, announced: false, last_sync: None }
}

/// An aircraft as a mathematical value. `even` and `odd` are the latest position
/// frames of either format: their timestamp and their hexadecimal text.
pub struct Craft {
    pub addr: u32,
    pub last_seen: u64,
    pub msgs: u32,
    pub even: Option<(u64, Seq<char>)>,
    pub odd: Option<(u64, Seq<char>)>,
    pub servers: Seq<PerServer>,
}

/// The engine as a mathematical value.
pub struct Traffic {
    pub aircraft: Seq<Craft>,
    pub n_servers: nat,
    pub last_counter: Option<u64>,
    pub last_rate_report: u64,
    pub user: Seq<char>,
}

/// Time from `then` to `now`; zero where `then` is later.
pub open spec fn elapsed(now: u64, then: u64) -> int {
    if now >= then {
        now - then
    } else {
        0
    }
}

/// The place of an address in the table.
pub open spec fn find(t: Seq<Craft>, addr: u32) -> Option<int>
    decreases t.len(),
{
    if t.len() == 0 {
        None
    } else if t.last().addr == addr {
        Some(t.len() - 1)
    } else {
        find(t.drop_last(), addr)
    }
}

/// Every address stands once, fits 24 bits, and has one entry per server.
pub open spec fn well_formed(e: Traffic) -> bool {
    &&& forall|i: int, j: int|
        0 <= i < j < e.aircraft.len() ==> (#[trigger] e.aircraft[i]).addr != (
        #[trigger] e.aircraft[j]).addr
    &&& forall|i: int|
        0 <= i < e.aircraft.len() ==> (#[trigger] e.aircraft[i]).servers.len() == e.n_servers
            && e.aircraft[i].addr <= 0xFF_FFFF
}

/// The counter went backward by more than a second and did not wrap.
pub open spec fn clock_reset(last: Option<u64>, counts: u64) -> bool {
    match last {
        Some(l) => l - counts > RESET_BACKWARD_COUNTS && l - counts < WRAP_MARGIN,
        None => false,
    }
}

/// The table without the halves of pending sync pairs.
pub open spec fn without_pairs(t: Seq<Craft>) -> Seq<Craft> {
    t.map_values(|a: Craft| Craft { even: None, odd: None, ..a })
}

/// What the input's restart leaves of the state.
pub open spec fn after_input_reset(e: Traffic) -> Traffic {
    Traffic { aircraft: without_pairs(e.aircraft), last_counter: None, ..e }
}

/// The aircraft with what one server knows of it replaced.
pub open spec fn with_server(a: Craft, server: int, p: PerServer) -> Craft {
    if 0 <= server < a.servers.len() {
        Craft { servers: a.servers.update(server, p), ..a }
    } else {
        a
    }
}

/// What a server's reconnection leaves of the state: it knows no aircraft and
/// has requested none.
pub open spec fn after_server_reset(e: Traffic, server: int) -> Traffic {
    Traffic {
        aircraft: e.aircraft.map_values(|a: Craft| with_server(a, server, fresh_server())),
        ..e
    }
}

/// The address that a selective-traffic entry names, where it is a hexadecimal
/// number that fits 32 bits.
pub open spec fn named_address(h: Seq<char>) -> Option<u32> {
    match crate::text::parse_hex(h) {
        Some(v) => if v <= u32::MAX {
            Some(v as u32)
        } else {
            None
        },
        None => None,
    }
}

/// The table after one entry of a request.
pub open spec fn requested_one(t: Seq<Craft>, server: int, h: Seq<char>, v: bool) -> Seq<Craft> {
    match named_address(h) {
        Some(addr) => match find(t, addr) {
            Some(i) => if 0 <= server < t[i].servers.len() {
                t.update(
                    i,
                    with_server(
                        t[i],
                        server,
                        PerServer { requested: v, ..t[i].servers[server] },
                    ),
                )
            } else {
                t
            },
            None => t,
        },
        None => t,
    }
}

/// The table after all entries of a request.
pub open spec fn requested_all(
    t: Seq<Craft>,
    server: int,
    hexes: Seq<Seq<char>>,
    v: bool,
) -> Seq<Craft>
    decreases hexes.len(),
{
    if hexes.len() == 0 {
        t
    } else {
        requested_one(requested_all(t, server, hexes.drop_last(), v), server, hexes.last(), v)
    }
}

/// What kind of traffic a frame is.
pub enum Kind {
    /// Not usable: wrong length, wrong format or wrong parity.
    Ignored,
    /// A valid extended squitter, with its airborne position if it is one.
    Squitter { addr: u32, position: Option<crate::modes::decode::Df17Airborne> },
    /// An all-call reply under one of the 80 assigned interrogator codes.
    AllCall { addr: u32 },
    /// A reply whose address is recovered from its parity.
    Recovered { addr: u32 },
}

/// Formats whose parity field is the CRC XOR the address.
pub open spec fn address_parity(df: u8) -> bool {
    df == 0 || df == 4 || df == 5 || df == 16 || df == 20 || df == 21
}

pub open spec fn kind_of(f: Seq<u8>) -> Kind {
    match crate::modes::decode::df_spec(f) {
        None => Kind::Ignored,
        Some(df) => if df == 17 {
            if crate::modes::crc::crc24_of(f) != 0 {
                Kind::Ignored
            } else {
                Kind::Squitter {
                    addr: crate::modes::decode::be_number(f, 1, 4) as u32,
                    position: crate::modes::decode::df17_content(f),
                }
            }
        } else if df == 11 {
            if crate::modes::crc::crc24_of(f) >= 80 {
                Kind::Ignored
            } else {
                Kind::AllCall { addr: crate::modes::decode::be_number(f, 1, 4) as u32 }
            }
        } else if address_parity(df) {
            Kind::Recovered {
                addr: (crate::modes::crc::crc24_of(f.take(f.len() - 3)) ^ (
                crate::modes::decode::be_number(f, f.len() - 3, f.len() as int) as u32))
                    & 0xFF_FFFF,
            }
        } else {
            Kind::Ignored
        },
    }
}

/// The table after a frame of `addr`: a known aircraft is refreshed, an unknown
/// one is entered if the frame was validated. The message count saturates.
pub open spec fn touched(t: Seq<Craft>, addr: u32, now: u64, validated: bool, n: nat) -> Seq<
    Craft,
> {
    match find(t, addr) {
        Some(i) => t.update(
            i,
            Craft {
                last_seen: now,
                msgs: if t[i].msgs < u32::MAX {
                    (t[i].msgs + 1) as u32
                } else {
                    u32::MAX
                },
                ..t[i]
            },
        ),
        None => if validated {
            t.push(
                Craft {
                    addr,
                    last_seen: now,
                    msgs: 1,
                    even: None,
                    odd: None,
                    servers: Seq::new(n, |s: int| fresh_server()),
                },
            )
        } else {
            t
        },
    }
}

/// A message for every server that requested the aircraft, in server order.
pub open spec fn to_requesters(
    servers: Seq<PerServer>,
    m: crate::proto::messages::MsgView,
) -> Seq<(int, crate::proto::messages::MsgView)>
    decreases servers.len(),
{
    if servers.len() == 0 {
        seq![]
    } else {
        let rest = to_requesters(servers.drop_last(), m);
        if servers.last().requested {
            rest.push((servers.len() - 1, m))
        } else {
            rest
        }
    }
}

/// The aircraft with a position frame entered.
pub open spec fn with_half(a: Craft, odd: bool, half: (u64, Seq<char>)) -> Craft {
    if odd {
        Craft { odd: Some(half), ..a }
    } else {
        Craft { even: Some(half), ..a }
    }
}

/// The sync message that an aircraft's two halves make, if both are there and
/// close enough in time.
pub open spec fn sync_message(a: Craft) -> Option<crate::proto::messages::MsgView> {
    match (a.even, a.odd) {
        (Some(e), Some(o)) => if e.0 - o.0 <= MAX_PAIR_COUNTS && o.0 - e.0 <= MAX_PAIR_COUNTS {
            Some(
                crate::proto::messages::MsgView::Sync {
                    et: crate::text::decimal(e.0 as nat),
                    ot: crate::text::decimal(o.0 as nat),
                    em: e.1,
                    om: o.1,
                },
            )
        } else {
            None
        },
        _ => None,
    }
}

/// The aircraft after a sync was sent to its requesters.
pub open spec fn synced(a: Craft, now: u64) -> Craft {
    Craft {
        servers: a.servers.map_values(
            |p: PerServer|
                if p.requested {
                    PerServer { last_sync: Some(now), ..p }
                } else {
                    p
                },
        ),
        ..a
    }
}

/// The table and the messages after a position frame of a known aircraft.
pub open spec fn paired(
    t: Seq<Craft>,
    addr: u32,
    odd: bool,
    counts: u64,
    frame: Seq<u8>,
    now: u64,
) -> (Seq<Craft>, Seq<(int, crate::proto::messages::MsgView)>) {
    match find(t, addr) {
        None => (t, seq![]),
        Some(i) => {
            let a = with_half(t[i], odd, (counts, crate::proto::messages::hex_text(frame)));
            match sync_message(a) {
                None => (t.update(i, a), seq![]),
                Some(m) => (t.update(i, synced(a, now)), to_requesters(a.servers, m)),
            }
        },
    }
}

/// The messages for a frame that is no position: one mlat message for each
/// requester of the aircraft.
pub open spec fn mlat_messages(t: Seq<Craft>, addr: u32, counts: u64, frame: Seq<u8>) -> Seq<
    (int, crate::proto::messages::MsgView),
> {
    match find(t, addr) {
        None => seq![],
        Some(i) => to_requesters(
            t[i].servers,
            crate::proto::messages::MsgView::Mlat {
                t: crate::text::decimal(counts as nat),
                m: crate::proto::messages::hex_text(frame),
            },
        ),
    }
}

/// One clock reset message for every server.
pub open spec fn reset_messages(e: Traffic) -> Seq<(int, crate::proto::messages::MsgView)> {
    Seq::new(e.n_servers, |s: int| (s, crate::proto::messages::MsgView::ClockReset(e.user)))
}

/// The state after the counter check of a reception.
pub open spec fn after_counter(e: Traffic, counts: u64) -> Traffic {
    Traffic {
        aircraft: if clock_reset(e.last_counter, counts) {
            without_pairs(e.aircraft)
        } else {
            e.aircraft
        },
        last_counter: Some(counts),
        ..e
    }
}

/// The state and the messages after one reception.
pub open spec fn received(e: Traffic, counts: u64, frame: Seq<u8>, now: u64) -> (
    Traffic,
    Seq<(int, crate::proto::messages::MsgView)>,
) {
    let start = if clock_reset(e.last_counter, counts) {
        reset_messages(e)
    } else {
        seq![]
    };
    let e1 = after_counter(e, counts);
    match kind_of(frame) {
        Kind::Ignored => (e1, start),
        Kind::Squitter { addr, position } => {
            let t = touched(e1.aircraft, addr, now, true, e.n_servers);
            match position {
                None => (Traffic { aircraft: t, ..e1 }, start),
                Some(d) => {
                    let p = paired(t, d.icao.0, d.odd, counts, frame, now);
                    (Traffic { aircraft: p.0, ..e1 }, start + p.1)
                },
            }
        },
        Kind::AllCall { addr } => {
            let t = touched(e1.aircraft, addr, now, true, e.n_servers);
            (Traffic { aircraft: t, ..e1 }, start + mlat_messages(t, addr, counts, frame))
        },
        Kind::Recovered { addr } => {
            let t = touched(e1.aircraft, addr, now, false, e.n_servers);
            (Traffic { aircraft: t, ..e1 }, start + mlat_messages(t, addr, counts, frame))
        },
    }
}

/// The aircraft has been silent for too long.
pub open spec fn expired(a: Craft, now: u64) -> bool {
    elapsed(now, a.last_seen) > LOST_AFTER_NS
}

/// The aircraft with every server told of it.
pub open spec fn announced(a: Craft) -> Craft {
    Craft { servers: a.servers.map_values(|p: PerServer| PerServer { announced: true, ..p }), ..a }
}

/// The aircraft that stay, announced to every server.
pub open spec fn kept(t: Seq<Craft>, now: u64) -> Seq<Craft>
    decreases t.len(),
{
    if t.len() == 0 {
        seq![]
    } else {
        let rest = kept(t.drop_last(), now);
        if expired(t.last(), now) {
            rest
        } else {
            rest.push(announced(t.last()))
        }
    }
}

/// The addresses that a server is told of: `gone` selects those that expired
/// after they had been announced to it, else those that are new to it.
pub open spec fn notice_list(t: Seq<Craft>, s: int, now: u64, gone: bool) -> Seq<Seq<char>>
    decreases t.len(),
{
    if t.len() == 0 {
        seq![]
    } else {
        let rest = notice_list(t.drop_last(), s, now, gone);
        let a = t.last();
        if expired(a, now) == gone && a.servers[s].announced == gone {
            rest.push(crate::text::hex_digits(a.addr as int, 6))
        } else {
            rest
        }
    }
}

/// The announcements of a tick: for each server the new aircraft, then the lost
/// ones; an empty list is not sent.
pub open spec fn notices(t: Seq<Craft>, n: nat, now: u64) -> Seq<
    (int, crate::proto::messages::MsgView),
>
    decreases n,
{
    if n == 0 {
        seq![]
    } else {
        let rest = notices(t, (n - 1) as nat, now);
        let seen = notice_list(t, n - 1, now, false);
        let lost = notice_list(t, n - 1, now, true);
        let a = if seen.len() > 0 {
            rest.push((n - 1, crate::proto::messages::MsgView::Seen(seen)))
        } else {
            rest
        };
        if lost.len() > 0 {
            a.push((n - 1, crate::proto::messages::MsgView::Lost(lost)))
        } else {
            a
        }
    }
}

/// A rate report is due.
pub open spec fn report_due(e: Traffic, now: u64) -> bool {
    elapsed(now, e.last_rate_report) >= RATE_REPORT_NS
}

/// The table with the message counts of the report window cleared.
pub open spec fn counts_cleared(t: Seq<Craft>) -> Seq<Craft> {
    t.map_values(|a: Craft| Craft { msgs: 0, ..a })
}

/// The state after a tick.
pub open spec fn ticked(e: Traffic, now: u64) -> Traffic {
    let t = kept(e.aircraft, now);
    if report_due(e, now) {
        Traffic { aircraft: counts_cleared(t), last_rate_report: now, ..e }
    } else {
        Traffic { aircraft: t, ..e }
    }
}

/// The message counts of the aircraft in the report window.
pub open spec fn window_counts(t: Seq<Craft>) -> Seq<(u32, u32)> {
    t.map_values(|a: Craft| (a.addr, a.msgs))
}

/// The report of a tick, where one is due and there is an aircraft to report.
pub open spec fn report(e: Traffic, now: u64) -> Option<(int, Seq<(u32, u32)>)> {
    let t = kept(e.aircraft, now);
    if report_due(e, now) && t.len() > 0 {
        Some((elapsed(now, e.last_rate_report), window_counts(t)))
    } else {
        None
    }
}

/// Message counts per address since the last report. Every server gets them, as
/// rates per second.
#[derive(Debug)]
pub struct RateWindow {
    pub elapsed_ns: u64,
    pub counts: Vec<(u32, u32)>,
}

/// What a tick sends.
#[derive(Debug)]
pub struct TickOutput {
    pub messages: Vec<Outbound>,
    pub rates: Option<RateWindow>,
}

#[derive(Debug)]
struct Aircraft {
    addr: u32,
    last_seen: u64,
    msgs_in_window: u32,
    even: Option<(u64, String)>,
    odd: Option<(u64, String)>,
    servers: Vec<PerServer>,
}

spec fn half_view(h: Option<(u64, String)>) -> Option<(u64, Seq<char>)> {
    match h {
        Some(p) => Some((p.0, p.1@)),
        None => None,
    }
}

impl View for Aircraft {
    type V = Craft;

    closed spec fn view(&self) -> Craft {
        Craft {
            addr: self.addr,
            last_seen: self.last_seen,
            msgs: self.msgs_in_window,
            even: half_view(self.even),
            odd: half_view(self.odd),
            servers: self.servers@,
        }
    }
}

impl Aircraft {
    fn new(addr: u32, now: u64, n_servers: usize) -> (r: Self)
        ensures
            r@ == (Craft {
                addr,
                last_seen: now,
                msgs: 0,
                even: None,
                odd: None,
                servers: Seq::new(n_servers as nat, |s: int| fresh_server()),
            }),
    {
        let mut servers: Vec<PerServer> = Vec::new();
        let mut i: usize = 0;
        while i < n_servers
            invariant
                i <= n_servers,
                servers@ =~= Seq::new(i as nat, |s: int| fresh_server()),
            decreases n_servers - i,
        {
            servers.push(PerServer { requested: false, announced: false, last_sync: None });
            i = i + 1;
        }
        Aircraft { addr, last_seen: now, msgs_in_window: 0, even: None, odd: None, servers }
    }
}

spec fn table(v: Seq<Aircraft>) -> Seq<Craft> {
    v.map_values(|a: Aircraft| a@)
}

/// A message bound for one server.
pub type Outbound = (usize, ClientMsg);

/// The views of outbound messages.
pub open spec fn outbound(v: Seq<(usize, ClientMsg)>) -> Seq<
    (int, crate::proto::messages::MsgView),
> {
    v.map_values(|o: (usize, ClientMsg)| (o.0 as int, o.1@))
}

/// The engine: the aircraft table, the input counter and the report clock.
#[derive(Debug)]
pub struct Engine {
    aircraft: Vec<Aircraft>,
    n_servers: usize,
    last_counter: Option<u64>,
    last_rate_report: u64,
    user: String,
}

impl View for Engine {
    type V = Traffic;

    closed spec fn view(&self) -> Traffic {
        Traffic {
            aircraft: table(self.aircraft@),
            n_servers: self.n_servers as nat,
            last_counter: self.last_counter,
            last_rate_report: self.last_rate_report,
            user: self.user@,
        }
    }
}

proof fn lemma_find(t: Seq<Craft>, addr: u32)
    ensures
        match find(t, addr) {
            Some(i) => 0 <= i < t.len() && t[i].addr == addr,
            None => forall|i: int| 0 <= i < t.len() ==> (#[trigger] t[i]).addr != addr,
        },
    decreases t.len(),
{
    if t.len() > 0 && t.last().addr != addr {
        lemma_find(t.drop_last(), addr);
        match find(t.drop_last(), addr) {
            Some(i) => {},
            None => {
                assert forall|i: int| 0 <= i < t.len() implies (#[trigger] t[i]).addr != addr by {
                    if i < t.len() - 1 {
                        assert(t.drop_last()[i].addr != addr);
                    }
                }
            },
        }
    }
}

impl Engine {
    /// What holds of every engine; see `well_formed`.
    pub open spec fn wf(&self) -> bool {
        well_formed(self@)
    }

    pub fn new(user: &str, now: u64, n_servers: usize) -> (r: Self)
        ensures
            r.wf(),
            r@ == (Traffic {
                aircraft: seq![],
                n_servers: n_servers as nat,
                last_counter: None,
                last_rate_report: now,
                user: user@,
            }),
    {
        let e = Engine {
            aircraft: Vec::new(),
            n_servers,
            last_counter: None,
            last_rate_report: now,
            user: user.to_owned(),
        };
        assert(e@.aircraft =~= seq![]);
        e
    }

    fn position(&self, addr: u32) -> (r: Option<usize>)
        ensures
            match r {
                Some(i) => find(self@.aircraft, addr) == Some(i as int) && i
                    < self.aircraft@.len(),
                None => find(self@.aircraft, addr) is None,
            },
    {
        let ghost t = self@.aircraft;
        let mut i: usize = self.aircraft.len();
        assert(t.take(t.len() as int) =~= t);
        while i > 0
            invariant
                i <= self.aircraft@.len(),
                t == table(self.aircraft@),
                find(t, addr) == find(t.take(i as int), addr),
            decreases i,
        {
            assert(t.take(i as int).drop_last() =~= t.take(i - 1));
            assert(t[i - 1] == self.aircraft@[i - 1]@);
            if self.aircraft[i - 1].addr == addr {
                return Some(i - 1);
            }
            i = i - 1;
        }
        None
    }

    /// A server asks for the traffic of these aircraft.
    pub fn start_sending(&mut self, server: usize, hexes: &[String])
        requires
            old(self).wf(),
        ensures
            final(self).wf(),
            final(self)@ == (Traffic {
                aircraft: requested_all(
                    old(self)@.aircraft,
                    server as int,
                    crate::text::texts(hexes@),
                    true,
                ),
                ..old(self)@
            }),
    {
        self.set_requested(server, hexes, true);
    }

    /// A server no longer wants the traffic of these aircraft.
    pub fn stop_sending(&mut self, server: usize, hexes: &[String])
        requires
            old(self).wf(),
        ensures
            final(self).wf(),
            final(self)@ == (Traffic {
                aircraft: requested_all(
                    old(self)@.aircraft,
                    server as int,
                    crate::text::texts(hexes@),
                    false,
                ),
                ..old(self)@
            }),
    {
        self.set_requested(server, hexes, false);
    }

    fn set_requested(&mut self, server: usize, hexes: &[String], v: bool)
        requires
            old(self).wf(),
        ensures
            final(self).wf(),
            final(self)@ == (Traffic {
                aircraft: requested_all(
                    old(self)@.aircraft,
                    server as int,
                    crate::text::texts(hexes@),
                    v,
                ),
                ..old(self)@
            }),
    {
        let ghost all = crate::text::texts(hexes@);
        let mut k: usize = 0;
        assert(all.take(0) =~= seq![]);
        while k < hexes.len()
            invariant
                k <= hexes@.len(),
                all == crate::text::texts(hexes@),
                self.wf(),
                self@ == (Traffic {
                    aircraft: requested_all(
                        old(self)@.aircraft,
                        server as int,
                        all.take(k as int),
                        v,
                    ),
                    ..old(self)@
                }),
            decreases hexes@.len() - k,
        {
            assert(all.take(k + 1).drop_last() =~= all.take(k as int));
            assert(all.take(k + 1).last() == hexes@[k as int]@);
            let chars = chars_of(hexes[k].as_str());
            if let Some(addr) = parse_hex_u32(chars.as_slice()) {
                if let Some(i) = self.position(addr) {
                    let ghost t = self@.aircraft;
                    proof {
                        lemma_find(t, addr);
                        assert(t[i as int] == self.aircraft@[i as int]@);
                    }
                    if server < self.aircraft[i].servers.len() {
                        self.aircraft[i].servers[server].requested = v;
                        assert(self@.aircraft =~= requested_one(
                            t,
                            server as int,
                            hexes@[k as int]@,
                            v,
                        ));
                    }
                }
            }
            k = k + 1;
        }
        assert(all.take(hexes@.len() as int) =~= all);
    }

    /// One server's connection restarted: it no longer knows this client's
    /// aircraft. Everything is announced to it again; it has requested nothing.
    pub fn server_reset(&mut self, server: usize)
        requires
            old(self).wf(),
        ensures
            final(self).wf(),
            final(self)@ == after_server_reset(old(self)@, server as int),
    {
        let ghost t0 = self@.aircraft;
        let mut i: usize = 0;
        while i < self.aircraft.len()
            invariant
                i <= self.aircraft@.len(),
                t0 == old(self)@.aircraft,
                self@.aircraft.len() == t0.len(),
                self@ == (Traffic { aircraft: self@.aircraft, ..old(self)@ }),
                forall|k: int|
                    0 <= k < i ==> #[trigger] self@.aircraft[k] == with_server(
                        t0[k],
                        server as int,
                        fresh_server(),
                    ),
                forall|k: int| i <= k < t0.len() ==> #[trigger] self@.aircraft[k] == t0[k],
            decreases self.aircraft@.len() - i,
        {
            let ghost before = self@.aircraft;
            assert(before[i as int] == self.aircraft@[i as int]@);
            if server < self.aircraft[i].servers.len() {
                self.aircraft[i].servers[server] =
                PerServer { requested: false, announced: false, last_sync: None };
            }
            assert(self@.aircraft =~= before.update(
                i as int,
                with_server(before[i as int], server as int, fresh_server()),
            ));
            i = i + 1;
        }
        assert(self@.aircraft =~= after_server_reset(old(self)@, server as int).aircraft);
    }

    /// The input reconnected or its clock restarted: drop pairing and counter
    /// state.
    pub fn input_reset(&mut self)
        requires
            old(self).wf(),
        ensures
            final(self).wf(),
            final(self)@ == after_input_reset(old(self)@),
    {
        let ghost t0 = self@.aircraft;
        self.last_counter = None;
        let mut i: usize = 0;
        while i < self.aircraft.len()
            invariant
                i <= self.aircraft@.len(),
                t0 == old(self)@.aircraft,
                self@.aircraft.len() == t0.len(),
                self@ == (Traffic {
                    aircraft: self@.aircraft,
                    last_counter: None,
                    ..old(self)@
                }),
                forall|k: int|
                    0 <= k < i ==> #[trigger] self@.aircraft[k] == (Craft {
                        even: None,
                        odd: None,
                        ..t0[k]
                    }),
                forall|k: int| i <= k < t0.len() ==> #[trigger] self@.aircraft[k] == t0[k],
            decreases self.aircraft@.len() - i,
        {
            let ghost before = self@.aircraft;
            assert(before[i as int] == self.aircraft@[i as int]@);
            self.aircraft[i].even = None;
            self.aircraft[i].odd = None;
            assert(self@.aircraft =~= before.update(
                i as int,
                Craft { even: None, odd: None, ..before[i as int] },
            ));
            i = i + 1;
        }
        assert(self@.aircraft =~= without_pairs(t0));
    }

    /// A frame of `addr` was heard. Returns the aircraft's place in the table.
    fn touch(&mut self, addr: u32, now: u64, validated: bool) -> (r: Option<usize>)
        requires
            old(self).wf(),
            addr <= 0xFF_FFFF,
        ensures
            final(self).wf(),
            final(self)@ == (Traffic {
                aircraft: touched(
                    old(self)@.aircraft,
                    addr,
                    now,
                    validated,
                    old(self)@.n_servers,
                ),
                ..old(self)@
            }),
            match r {
                Some(i) => find(final(self)@.aircraft, addr) == Some(i as int) && i
                    < final(self).aircraft@.len(),
                None => find(final(self)@.aircraft, addr) is None,
            },
    {
        let ghost t = self@.aircraft;
        proof {
            lemma_find(t, addr);
        }
        match self.position(addr) {
            Some(i) => {
                assert(t[i as int] == self.aircraft@[i as int]@);
                self.aircraft[i].last_seen = now;
                let n: u32 = self.aircraft[i].msgs_in_window;
                self.aircraft[i].msgs_in_window = n.saturating_add(1);
                assert(self@.aircraft =~= touched(t, addr, now, validated, self@.n_servers));
                proof {
                    lemma_find(self@.aircraft, addr);
                    assert(self@.aircraft[i as int].addr == addr);
                }
                Some(i)
            },
            None => {
                if validated {
                    let mut a = Aircraft::new(addr, now, self.n_servers);
                    a.msgs_in_window = 1;
                    self.aircraft.push(a);
                    assert(self@.aircraft =~= touched(t, addr, now, validated, self@.n_servers));
                    Some(self.aircraft.len() - 1)
                } else {
                    None
                }
            },
        }
    }

    /// Enters a position frame and, where it completes a pair, appends a sync
    /// message for every requester.
    fn pair_sync(
        &mut self,
        addr: u32,
        odd: bool,
        r: &Reception,
        now: u64,
        out: &mut Vec<Outbound>,
    )
        requires
            old(self).wf(),
        ensures
            final(self).wf(),
            ({
                let p = paired(
                    old(self)@.aircraft,
                    addr,
                    odd,
                    r.counts_12mhz,
                    r.frame@,
                    now,
                );
                &&& final(self)@ == (Traffic { aircraft: p.0, ..old(self)@ })
                &&& outbound(final(out)@) == outbound(old(out)@) + p.1
            }),
    {
        let ghost t = self@.aircraft;
        let ghost out0 = outbound(out@);
        let i: usize = match self.position(addr) {
            Some(i) => i,
            None => {
                assert(outbound(out@) =~= out0 + seq![]);
                return ;
            },
        };
        proof {
            lemma_find(t, addr);
        }
        assert(t[i as int] == self.aircraft@[i as int]@);
        let this: (u64, String) = (r.counts_12mhz, hex_encode(r.frame.as_slice()));
        if odd {
            self.aircraft[i].odd = Some(this);
        } else {
            self.aircraft[i].even = Some(this);
        }
        let ghost a = with_half(
            t[i as int],
            odd,
            (r.counts_12mhz, crate::proto::messages::hex_text(r.frame@)),
        );
        assert(self@.aircraft =~= t.update(i as int, a));
        assert(self.aircraft@[i as int]@ == a);
        let close: bool = match (&self.aircraft[i].even, &self.aircraft[i].odd) {
            (Some(e), Some(o)) => {
                let span: u64 = if e.0 >= o.0 {
                    e.0 - o.0
                } else {
                    o.0 - e.0
                };
                span <= MAX_PAIR_COUNTS
            },
            _ => false,
        };
        assert(close <==> sync_message(a) is Some);
        if !close {
            assert(outbound(out@) =~= out0 + seq![]);
            return ;
        }
        let ghost m = sync_message(a)->0;
        let ghost servers0 = a.servers;
        let mut s: usize = 0;
        assert(outbound(out@) =~= out0 + to_requesters(servers0.take(0), m));
        while s < self.aircraft[i].servers.len()
            invariant
                i < self.aircraft@.len(),
                i < t.len(),
                find(t, addr) == Some(i as int),
                servers0 == a.servers,
                s <= servers0.len(),
                sync_message(a) == Some(m),
                self.aircraft@[i as int]@.servers.len() == servers0.len(),
                self.aircraft@[i as int]@ == (Craft {
                    servers: self.aircraft@[i as int]@.servers,
                    ..a
                }),
                self@ == (Traffic {
                    aircraft: t.update(
                        i as int,
                        Craft { servers: self.aircraft@[i as int]@.servers, ..a },
                    ),
                    ..old(self)@
                }),
                forall|k: int|
                    0 <= k < s ==> #[trigger] self.aircraft@[i as int]@.servers[k] == (
                    if servers0[k].requested {
                        PerServer { last_sync: Some(now), ..servers0[k] }
                    } else {
                        servers0[k]
                    }),
                forall|k: int|
                    s <= k < servers0.len() ==> #[trigger] self.aircraft@[i as int]@.servers[k]
                        == servers0[k],
                outbound(out@) == out0 + to_requesters(servers0.take(s as int), m),
            decreases servers0.len() - s,
        {
            assert(servers0.take(s + 1).drop_last() =~= servers0.take(s as int));
            assert(servers0.take(s + 1).last() == servers0[s as int]);
            assert(self.aircraft@[i as int]@.servers[s as int] == servers0[s as int]);
            if self.aircraft[i].servers[s].requested {
                let ghost before = self@.aircraft;
                let ghost sv = self.aircraft@[i as int]@.servers;
                self.aircraft[i].servers[s].last_sync = Some(now);
                assert(self.aircraft@[i as int]@.servers =~= sv.update(
                    s as int,
                    PerServer { last_sync: Some(now), ..servers0[s as int] },
                ));
                assert(self@.aircraft =~= before.update(i as int, self.aircraft@[i as int]@));
                assert(self@.aircraft =~= t.update(
                    i as int,
                    Craft { servers: self.aircraft@[i as int]@.servers, ..a },
                ));
                if let (Some(e), Some(o)) = (&self.aircraft[i].even, &self.aircraft[i].odd) {
                    let ghost so_far = outbound(out@);
                    let msg = ClientMsg::Sync {
                        et: Number::from_u64(e.0),
                        ot: Number::from_u64(o.0),
                        em: HexMsg(e.1.clone()),
                        om: HexMsg(o.1.clone()),
                    };
                    assert(msg@ == m);
                    out.push((s, msg));
                    assert(outbound(out@) =~= so_far.push((s as int, m)));
                    assert(outbound(out@) =~= out0 + to_requesters(servers0.take(s + 1), m));
                }
            }
            s = s + 1;
        }
        assert(servers0.take(servers0.len() as int) =~= servers0);
        assert(self.aircraft@[i as int]@.servers =~= synced(a, now).servers);
    }

    /// Appends an mlat message for every requester of the aircraft at `i`.
    fn send_mlat(&self, i: usize, r: &Reception, out: &mut Vec<Outbound>)
        requires
            i < self.aircraft@.len(),
        ensures
            outbound(final(out)@) == outbound(old(out)@) + to_requesters(
                self@.aircraft[i as int].servers,
                crate::proto::messages::MsgView::Mlat {
                    t: crate::text::decimal(r.counts_12mhz as nat),
                    m: crate::proto::messages::hex_text(r.frame@),
                },
            ),
    {
        let ghost out0 = outbound(out@);
        let ghost m = crate::proto::messages::MsgView::Mlat {
            t: crate::text::decimal(r.counts_12mhz as nat),
            m: crate::proto::messages::hex_text(r.frame@),
        };
        let ghost sv = self@.aircraft[i as int].servers;
        assert(sv == self.aircraft@[i as int].servers@);
        let mut s: usize = 0;
        assert(outbound(out@) =~= out0 + to_requesters(sv.take(0), m));
        while s < self.aircraft[i].servers.len()
            invariant
                i < self.aircraft@.len(),
                sv == self.aircraft@[i as int].servers@,
                s <= sv.len(),
                m == (crate::proto::messages::MsgView::Mlat {
                    t: crate::text::decimal(r.counts_12mhz as nat),
                    m: crate::proto::messages::hex_text(r.frame@),
                }),
                outbound(out@) == out0 + to_requesters(sv.take(s as int), m),
            decreases sv.len() - s,
        {
            assert(sv.take(s + 1).drop_last() =~= sv.take(s as int));
            assert(sv.take(s + 1).last() == sv[s as int]);
            if self.aircraft[i].servers[s].requested {
                let ghost so_far = outbound(out@);
                let msg = ClientMsg::Mlat {
                    t: Number::from_u64(r.counts_12mhz),
                    m: HexMsg::from_bytes(r.frame.as_slice()),
                };
                out.push((s, msg));
                assert(outbound(out@) =~= so_far.push((s as int, m)));
                assert(outbound(out@) =~= out0 + to_requesters(sv.take(s + 1), m));
            }
            s = s + 1;
        }
        assert(sv.take(sv.len() as int) =~= sv);
    }

    /// Takes one reception and returns the messages that it causes.
    pub fn on_reception(&mut self, r: &Reception, now: u64) -> (out: Vec<Outbound>)
        requires
            old(self).wf(),
        ensures
            final(self).wf(),
            (final(self)@, outbound(out@)) == received(
                old(self)@,
                r.counts_12mhz,
                r.frame@,
                now,
            ),
    {
        let mut out: Vec<Outbound> = Vec::new();
        let ghost e0 = self@;
        let reset: bool = match self.last_counter {
            Some(last) => {
                let backward: u64 = last.saturating_sub(r.counts_12mhz);
                backward > RESET_BACKWARD_COUNTS && backward < WRAP_MARGIN
            },
            None => false,
        };
        assert(reset == clock_reset(e0.last_counter, r.counts_12mhz));
        assert(outbound(out@) =~= seq![]);
        if reset {
            let mut s: usize = 0;
            while s < self.n_servers
                invariant
                    s <= self.n_servers,
                    self@ == e0,
                    outbound(out@) =~= reset_messages(e0).take(s as int),
                decreases self.n_servers - s,
            {
                let ghost so_far = outbound(out@);
                out.push((s, ClientMsg::ClockReset(self.user.clone())));
                assert(outbound(out@) =~= so_far.push(
                    (s as int, crate::proto::messages::MsgView::ClockReset(e0.user)),
                ));
                s = s + 1;
            }
            assert(outbound(out@) =~= reset_messages(e0));
            self.input_reset();
        }
        self.last_counter = Some(r.counts_12mhz);
        let ghost e1 = after_counter(e0, r.counts_12mhz);
        let ghost start = outbound(out@);
        assert(self@ == e1);
        assert(well_formed(e1)) by {
            assert forall|i: int, j: int| 0 <= i < j < e1.aircraft.len() implies (
            #[trigger] e1.aircraft[i]).addr != (#[trigger] e1.aircraft[j]).addr by {
                assert(e0.aircraft[i].addr != e0.aircraft[j].addr);
            }
            assert forall|i: int| 0 <= i < e1.aircraft.len() implies (
            #[trigger] e1.aircraft[i]).servers.len() == e1.n_servers && e1.aircraft[i].addr
                <= 0xFF_FFFF by {
                assert(e0.aircraft[i].addr <= 0xFF_FFFF);
            }
        }
        let f = r.frame.as_slice();
        let df: u8 = match df_of(f) {
            Some(d) => d,
            None => {
                return out;
            },
        };
        if df == 17 {
            if crc24(f) != 0 {
                return out;
            }
            let addr: u32 = be24(f, 1);
            let known = self.touch(addr, now, true);
            if let Some(d) = parse_df17_airborne(f) {
                self.pair_sync(d.icao.0, d.odd, r, now, &mut out);
            }
            return out;
        }
        if df == 11 {
            // PI = CRC XOR interrogator code; accept the 80 assigned codes.
            if crc24(f) >= 80 {
                return out;
            }
            let addr: u32 = be24(f, 1);
            let known = self.touch(addr, now, true);
            proof {
                lemma_find(self@.aircraft, addr);
            }
            if let Some(i) = known {
                self.send_mlat(i, r, &mut out);
            } else {
                assert(start + seq![] =~= start);
            }
            return out;
        }
        if df == 0 || df == 4 || df == 5 || df == 16 || df == 20 || df == 21 {
            let n: usize = f.len();
            let head = vstd::slice::slice_subrange(f, 0, n - 3);
            assert(head@ =~= f@.take(n - 3));
            let parity: u32 = crc24(head) ^ be24(f, n - 3);
            let addr: u32 = parity & 0xFF_FFFF;
            assert(parity & 0xFF_FFFF <= 0xFF_FFFF) by (bit_vector);
            // An address recovered from parity never enters the table.
            let known = self.touch(addr, now, false);
            if let Some(i) = known {
                self.send_mlat(i, r, &mut out);
            } else {
                assert(start + seq![] =~= start);
            }
            return out;
        }
        out
    }

    /// The addresses of one notice list; see `notice_list`.
    fn notice(&self, s: usize, now: u64, gone: bool) -> (r: Vec<String>)
        requires
            self.wf(),
            s < self@.n_servers,
        ensures
            crate::text::texts(r@) == notice_list(self@.aircraft, s as int, now, gone),
    {
        let mut out: Vec<String> = Vec::new();
        let ghost t = self@.aircraft;
        let mut i: usize = 0;
        assert(crate::text::texts(out@) =~= notice_list(t.take(0), s as int, now, gone));
        while i < self.aircraft.len()
            invariant
                self.wf(),
                s < self@.n_servers,
                t == self@.aircraft,
                t.len() == self.aircraft@.len(),
                i <= t.len(),
                crate::text::texts(out@) == notice_list(t.take(i as int), s as int, now, gone),
            decreases t.len() - i,
        {
            assert(t.take(i + 1).drop_last() =~= t.take(i as int));
            assert(t.take(i + 1).last() == t[i as int]);
            assert(t[i as int] == self.aircraft@[i as int]@);
            let a = &self.aircraft[i];
            let silent: bool = now.saturating_sub(a.last_seen) > LOST_AFTER_NS;
            if silent == gone && a.servers[s].announced == gone {
                let ghost so_far = crate::text::texts(out@);
                let h = Icao(a.addr).to_hex();
                assert(h@ == crate::text::hex_digits(a.addr as int, 6));
                out.push(h);
                assert(crate::text::texts(out@) =~= so_far.push(h@));
            }
            i = i + 1;
        }
        assert(t.take(t.len() as int) =~= t);
        out
    }

    /// Drops the silent aircraft and marks the others as announced everywhere.
    fn sweep(&mut self, now: u64)
        requires
            old(self).wf(),
        ensures
            final(self)@ == (Traffic { aircraft: kept(old(self)@.aircraft, now), ..old(self)@ }),
    {
        let ghost t = self@.aircraft;
        let ghost mut done: int = 0;
        let mut i: usize = 0;
        assert(t.skip(0) =~= t);
        assert(kept(t.take(0), now) + t.skip(0) =~= t);
        while i < self.aircraft.len()
            invariant
                t == old(self)@.aircraft,
                0 <= done <= t.len(),
                i == kept(t.take(done), now).len(),
                i <= self.aircraft@.len(),
                self@ == (Traffic {
                    aircraft: kept(t.take(done), now) + t.skip(done),
                    ..old(self)@
                }),
            decreases t.len() - done,
        {
            let ghost head = kept(t.take(done), now);
            let ghost raw = self.aircraft@;
            assert(table(raw) == head + t.skip(done));
            assert(table(raw).len() == raw.len());
            assert(done < t.len());
            assert((head + t.skip(done))[i as int] == t[done]);
            assert(table(raw)[i as int] == raw[i as int]@);
            assert(raw[i as int]@ == t[done]);
            assert(t.take(done + 1).drop_last() =~= t.take(done));
            assert(t.take(done + 1).last() == t[done]);
            if now.saturating_sub(self.aircraft[i].last_seen) > LOST_AFTER_NS {
                self.aircraft.remove(i);
                assert(table(self.aircraft@) =~= table(raw).remove(i as int));
                assert(table(raw).remove(i as int) =~= head + t.skip(done + 1));
            } else {
                let mut s: usize = 0;
                while s < self.aircraft[i].servers.len()
                    invariant
                        i < self.aircraft@.len(),
                        raw.len() == self.aircraft@.len(),
                        self@ == (Traffic { aircraft: table(self.aircraft@), ..old(self)@ }),
                        forall|k: int|
                            0 <= k < raw.len() && k != i ==> #[trigger] self.aircraft@[k] == raw[k],
                        s <= raw[i as int]@.servers.len(),
                        self.aircraft@[i as int]@ == (Craft {
                            servers: self.aircraft@[i as int]@.servers,
                            ..raw[i as int]@
                        }),
                        self.aircraft@[i as int]@.servers.len() == raw[i as int]@.servers.len(),
                        forall|k: int|
                            0 <= k < s ==> #[trigger] self.aircraft@[i as int]@.servers[k] == (
                            PerServer { announced: true, ..raw[i as int]@.servers[k] }),
                        forall|k: int|
                            s <= k < raw[i as int]@.servers.len()
                                ==> #[trigger] self.aircraft@[i as int]@.servers[k]
                                == raw[i as int]@.servers[k],
                    decreases raw[i as int]@.servers.len() - s,
                {
                    let ghost sv = self.aircraft@[i as int]@.servers;
                    self.aircraft[i].servers[s].announced = true;
                    assert(self.aircraft@[i as int]@.servers =~= sv.update(
                        s as int,
                        PerServer { announced: true, ..sv[s as int] },
                    ));
                    s = s + 1;
                }
                assert(self.aircraft@[i as int]@.servers =~= announced(raw[i as int]@).servers);
                assert(table(self.aircraft@) =~= table(raw).update(i as int, announced(t[done])));
                assert(table(raw).update(i as int, announced(t[done])) =~= kept(
                    t.take(done + 1),
                    now,
                ) + t.skip(done + 1));
                i = i + 1;
            }
            proof {
                done = done + 1;
            }
        }
        proof {
            let head = kept(t.take(done), now);
            assert(self@.aircraft.len() == self.aircraft@.len());
            assert(t.skip(done).len() == 0);
            assert(t.take(done) =~= t);
            assert(head + t.skip(done) =~= head);
        }
    }

    /// Takes the message counts of the report window and clears them.
    fn take_counts(&mut self) -> (r: Vec<(u32, u32)>)
        ensures
            r@ == window_counts(old(self)@.aircraft),
            final(self)@ == (Traffic {
                aircraft: counts_cleared(old(self)@.aircraft),
                ..old(self)@
            }),
    {
        let ghost t = self@.aircraft;
        let mut counts: Vec<(u32, u32)> = Vec::new();
        let mut i: usize = 0;
        while i < self.aircraft.len()
            invariant
                t == old(self)@.aircraft,
                t.len() == self.aircraft@.len(),
                i <= t.len(),
                self@ == (Traffic { aircraft: self@.aircraft, ..old(self)@ }),
                self@.aircraft.len() == t.len(),
                counts@.len() == i,
                forall|k: int| 0 <= k < i ==> #[trigger] counts@[k] == (t[k].addr, t[k].msgs),
                forall|k: int|
                    0 <= k < i ==> #[trigger] self@.aircraft[k] == (Craft { msgs: 0, ..t[k] }),
                forall|k: int| i <= k < t.len() ==> #[trigger] self@.aircraft[k] == t[k],
            decreases t.len() - i,
        {
            let ghost before = self@.aircraft;
            assert(before[i as int] == self.aircraft@[i as int]@);
            let n: u32 = self.aircraft[i].msgs_in_window;
            counts.push((self.aircraft[i].addr, n));
            self.aircraft[i].msgs_in_window = 0;
            assert(self@.aircraft =~= before.update(
                i as int,
                Craft { msgs: 0, ..before[i as int] },
            ));
            i = i + 1;
        }
        assert(counts@ =~= window_counts(t));
        assert(self@.aircraft =~= counts_cleared(t));
        counts
    }

    /// Periodic bookkeeping: announce new aircraft, expire silent ones, report
    /// rates; per server, since each announces independently.
    pub fn tick(&mut self, now: u64) -> (r: TickOutput)
        requires
            old(self).wf(),
        ensures
            final(self).wf(),
            final(self)@ == ticked(old(self)@, now),
            outbound(r.messages@) == notices(old(self)@.aircraft, old(self)@.n_servers, now),
            match r.rates {
                Some(w) => report(old(self)@, now) == Some((w.elapsed_ns as int, w.counts@)),
                None => report(old(self)@, now) is None,
            },
    {
        let mut out: Vec<Outbound> = Vec::new();
        let ghost t = self@.aircraft;
        let mut s: usize = 0;
        assert(outbound(out@) =~= seq![]);
        while s < self.n_servers
            invariant
                self.wf(),
                *self == *old(self),
                t == self@.aircraft,
                s <= self.n_servers,
                self@.n_servers == self.n_servers,
                outbound(out@) == notices(t, s as nat, now),
            decreases self.n_servers - s,
        {
            let seen = self.notice(s, now, false);
            let lost = self.notice(s, now, true);
            let ghost so_far = outbound(out@);
            if seen.len() > 0 {
                let msg = ClientMsg::Seen(seen);
                out.push((s, msg));
                assert(outbound(out@) =~= so_far.push((s as int, msg@)));
            }
            let ghost mid = outbound(out@);
            if lost.len() > 0 {
                let msg = ClientMsg::Lost(lost);
                out.push((s, msg));
                assert(outbound(out@) =~= mid.push((s as int, msg@)));
            }
            s = s + 1;
        }
        self.sweep(now);
        proof {
            lemma_kept_well_formed(old(self)@, now);
        }
        let since: u64 = now.saturating_sub(self.last_rate_report);
        let mut rates: Option<RateWindow> = None;
        if since >= RATE_REPORT_NS {
            self.last_rate_report = now;
            let counts = self.take_counts();
            if counts.len() > 0 {
                rates = Some(RateWindow { elapsed_ns: since, counts });
            }
        }
        assert(well_formed(self@)) by {
            let k = kept(t, now);
            assert forall|i: int, j: int| 0 <= i < j < self@.aircraft.len() implies (
            #[trigger] self@.aircraft[i]).addr != (#[trigger] self@.aircraft[j]).addr by {
                assert(k[i].addr != k[j].addr);
            }
            assert forall|i: int| 0 <= i < self@.aircraft.len() implies (
            #[trigger] self@.aircraft[i]).servers.len() == self@.n_servers
                && self@.aircraft[i].addr <= 0xFF_FFFF by {
                assert(k[i].addr <= 0xFF_FFFF);
            }
        }
        TickOutput { messages: out, rates }
    }
}

/// What stays of a well-formed table is well formed, and every aircraft in it
/// was there before.
proof fn lemma_kept_well_formed(e: Traffic, now: u64)
    requires
        well_formed(e),
    ensures
        well_formed(Traffic { aircraft: kept(e.aircraft, now), ..e }),
        forall|i: int|
            0 <= i < kept(e.aircraft, now).len() ==> exists|j: int|
                0 <= j < e.aircraft.len() && (#[trigger] e.aircraft[j]).addr == (
                #[trigger] kept(e.aircraft, now)[i]).addr,
    decreases e.aircraft.len(),
{
    let t = e.aircraft;
    if t.len() > 0 {
        let sub = Traffic { aircraft: t.drop_last(), ..e };
        assert forall|i: int, j: int| 0 <= i < j < sub.aircraft.len() implies (
        #[trigger] sub.aircraft[i]).addr != (#[trigger] sub.aircraft[j]).addr by {
            assert(t[i].addr != t[j].addr);
        }
        assert forall|i: int| 0 <= i < sub.aircraft.len() implies (
        #[trigger] sub.aircraft[i]).servers.len() == sub.n_servers && sub.aircraft[i].addr
            <= 0xFF_FFFF by {
            assert(t[i].addr <= 0xFF_FFFF);
        }
        lemma_kept_well_formed(sub, now);
        let k0 = kept(t.drop_last(), now);
        let k = kept(t, now);
        assert forall|i: int| 0 <= i < k.len() implies exists|j: int|
            0 <= j < t.len() && (#[trigger] t[j]).addr == (#[trigger] k[i]).addr by {
            if i < k0.len() {
                assert(k[i] == k0[i]);
                let j = choose|j: int|
                    0 <= j < t.drop_last().len() && (#[trigger] t.drop_last()[j]).addr
                        == k0[i].addr;
                assert(t[j].addr == k[i].addr);
            } else {
                assert(t[t.len() - 1].addr == k[i].addr);
            }
        }
        assert forall|i: int, j: int| 0 <= i < j < k.len() implies (#[trigger] k[i]).addr != (
        #[trigger] k[j]).addr by {
            assert(k[i] == k0[i]);
            if j < k0.len() {
                assert(k[j] == k0[j]);
            } else {
                let m = choose|m: int|
                    0 <= m < t.drop_last().len() && (#[trigger] t.drop_last()[m]).addr
                        == k0[i].addr;
                assert(t[m].addr != t[t.len() - 1].addr);
            }
        }
    }
}

/// The 24-bit number at `i`, most significant byte first.
fn be24(b: &[u8], i: usize) -> (r: u32)
    requires
        i + 3 <= b@.len(),
    ensures
        r as int == crate::modes::decode::be_number(b@, i as int, i + 3),
        r <= 0xFF_FFFF,
{
    proof {
        reveal_with_fuel(crate::modes::decode::be_number, 4);
    }
    b[i] as u32 * 0x1_0000 + b[i + 1] as u32 * 256 + b[i + 2] as u32
}

/// The aircraft that a frame speaks of.
pub open spec fn frame_address(f: Seq<u8>) -> Option<u32> {
    match kind_of(f) {
        Kind::Ignored => None,
        Kind::Squitter { addr, .. } => Some(addr),
        Kind::AllCall { addr } => Some(addr),
        Kind::Recovered { addr } => Some(addr),
    }
}

/// A server has requested the traffic of an aircraft.
pub open spec fn wants(t: Seq<Craft>, addr: u32, server: int) -> bool {
    match find(t, addr) {
        Some(i) => 0 <= server < t[i].servers.len() && t[i].servers[server].requested,
        None => false,
    }
}

proof fn lemma_requesters(servers: Seq<PerServer>, m: crate::proto::messages::MsgView)
    ensures
        forall|k: int|
            0 <= k < to_requesters(servers, m).len() ==> {
                let o = #[trigger] to_requesters(servers, m)[k];
                0 <= o.0 < servers.len() && servers[o.0].requested && o.1 == m
            },
    decreases servers.len(),
{
    if servers.len() > 0 {
        lemma_requesters(servers.drop_last(), m);
        let rest = to_requesters(servers.drop_last(), m);
        assert forall|k: int| 0 <= k < to_requesters(servers, m).len() implies ({
            let o = #[trigger] to_requesters(servers, m)[k];
            0 <= o.0 < servers.len() && servers[o.0].requested && o.1 == m
        }) by {
            if k < rest.len() {
                assert(to_requesters(servers, m)[k] == rest[k]);
            }
        }
    }
}

/// Looking an address up depends on the addresses of the table alone.
proof fn lemma_find_same(t: Seq<Craft>, u: Seq<Craft>, addr: u32)
    requires
        t.len() == u.len(),
        forall|i: int| 0 <= i < t.len() ==> (#[trigger] t[i]).addr == (#[trigger] u[i]).addr,
    ensures
        find(t, addr) == find(u, addr),
    decreases t.len(),
{
    if t.len() > 0 {
        assert(t[t.len() - 1].addr == u[t.len() - 1].addr);
        assert forall|i: int| 0 <= i < t.len() - 1 implies (#[trigger] t.drop_last()[i]).addr == (
        #[trigger] u.drop_last()[i]).addr by {
            assert(t[i].addr == u[i].addr);
        }
        lemma_find_same(t.drop_last(), u.drop_last(), addr);
    }
}

/// Hearing a frame changes nobody's requests: a refreshed aircraft keeps them and
/// a new one has none.
proof fn lemma_touched_wants(t: Seq<Craft>, addr: u32, now: u64, validated: bool, n: nat, s: int)
    ensures
        wants(touched(t, addr, now, validated, n), addr, s) == wants(t, addr, s),
{
    lemma_find(t, addr);
    let u = touched(t, addr, now, validated, n);
    match find(t, addr) {
        Some(i) => {
            lemma_find_same(t, u, addr);
        },
        None => {},
    }
}

/// Nothing goes to a server for an aircraft that the server has not requested:
/// every message that a reception causes is a clock reset, or speaks of the
/// frame's aircraft and goes to a server that wants it.
pub proof fn law_silent_until_requested(e: Traffic, counts: u64, frame: Seq<u8>, now: u64, k: int)
    requires
        well_formed(e),
        0 <= k < received(e, counts, frame, now).1.len(),
        !(received(e, counts, frame, now).1[k].1 is ClockReset),
    ensures
        frame_address(frame) is Some,
        wants(e.aircraft, frame_address(frame)->0, received(e, counts, frame, now).1[k].0),
{
    let e1 = after_counter(e, counts);
    let start = if clock_reset(e.last_counter, counts) {
        reset_messages(e)
    } else {
        seq![]
    };
    let o = received(e, counts, frame, now).1[k];
    assert(k < start.len() ==> received(e, counts, frame, now).1[k] == start[k]);
    assert(k >= start.len());
    match kind_of(frame) {
        Kind::Ignored => {},
        Kind::Squitter { addr, position } => {
            let t = touched(e1.aircraft, addr, now, true, e.n_servers);
            let d = position->0;
            reveal_with_fuel(crate::modes::decode::be_number, 4);
            assert(d.icao.0 == addr);
            let p = paired(t, addr, d.odd, counts, frame, now);
            lemma_find(t, addr);
            let i = find(t, addr)->0;
            let a = with_half(t[i], d.odd, (counts, crate::proto::messages::hex_text(frame)));
            lemma_requesters(a.servers, sync_message(a)->0);
            assert(o == p.1[k - start.len()]);
            assert(wants(t, addr, o.0));
            lemma_touched_wants(e1.aircraft, addr, now, true, e.n_servers, o.0);
            lemma_find_same(e1.aircraft, e.aircraft, addr);
            lemma_find(e.aircraft, addr);
        },
        Kind::AllCall { addr } => {
            let t = touched(e1.aircraft, addr, now, true, e.n_servers);
            lemma_mlat_wants(t, addr, counts, frame, k - start.len());
            lemma_touched_wants(e1.aircraft, addr, now, true, e.n_servers, o.0);
            lemma_find_same(e1.aircraft, e.aircraft, addr);
            lemma_find(e.aircraft, addr);
        },
        Kind::Recovered { addr } => {
            let t = touched(e1.aircraft, addr, now, false, e.n_servers);
            lemma_mlat_wants(t, addr, counts, frame, k - start.len());
            lemma_touched_wants(e1.aircraft, addr, now, false, e.n_servers, o.0);
            lemma_find_same(e1.aircraft, e.aircraft, addr);
            lemma_find(e.aircraft, addr);
        },
    }
}

proof fn lemma_mlat_wants(t: Seq<Craft>, addr: u32, counts: u64, frame: Seq<u8>, k: int)
    requires
        0 <= k < mlat_messages(t, addr, counts, frame).len(),
    ensures
        wants(t, addr, mlat_messages(t, addr, counts, frame)[k].0),
{
    let i = find(t, addr)->0;
    lemma_requesters(
        t[i].servers,
        crate::proto::messages::MsgView::Mlat {
            t: crate::text::decimal(counts as nat),
            m: crate::proto::messages::hex_text(frame),
        },
    );
}

/// The junk filter: a reception enters an aircraft into the table only if its
/// frame passed the CRC itself; an address recovered from parity never does.
pub proof fn law_only_validated_frames_enter(
    e: Traffic,
    counts: u64,
    frame: Seq<u8>,
    now: u64,
    addr: u32,
)
    requires
        find(e.aircraft, addr) is None,
        find(received(e, counts, frame, now).0.aircraft, addr) is Some,
    ensures
        kind_of(frame) matches Kind::Squitter { addr: a, .. } ==> a == addr,
        kind_of(frame) matches Kind::AllCall { addr: a } ==> a == addr,
        kind_of(frame) is Squitter || kind_of(frame) is AllCall,
{
    let e1 = after_counter(e, counts);
    lemma_find_same(e1.aircraft, e.aircraft, addr);
    match kind_of(frame) {
        Kind::Ignored => {},
        Kind::Squitter { addr: a, position } => {
            let t = touched(e1.aircraft, a, now, true, e.n_servers);
            lemma_touched_known(e1.aircraft, a, now, true, e.n_servers, addr);
            match position {
                Some(d) => {
                    let p = paired(t, d.icao.0, d.odd, counts, frame, now);
                    lemma_find(t, d.icao.0);
                    lemma_find_same(t, p.0, addr);
                },
                None => {},
            }
        },
        Kind::AllCall { addr: a } => {
            lemma_touched_known(e1.aircraft, a, now, true, e.n_servers, addr);
        },
        Kind::Recovered { addr: a } => {
            lemma_touched_known(e1.aircraft, a, now, false, e.n_servers, addr);
        },
    }
}

proof fn lemma_touched_known(t: Seq<Craft>, a: u32, now: u64, validated: bool, n: nat, addr: u32)
    requires
        find(t, addr) is None,
    ensures
        find(touched(t, a, now, validated, n), addr) is Some <==> (a == addr && validated),
{
    lemma_find(t, a);
    let u = touched(t, a, now, validated, n);
    match find(t, a) {
        Some(i) => {
            lemma_find(t, addr);
            lemma_find_same(t, u, addr);
        },
        None => {
            if validated {
                assert(u.drop_last() =~= t);
            }
        },
    }
}

/// A server's reconnection changes what that server knows and nothing else.
pub proof fn law_server_reset_is_local(e: Traffic, server: int, i: int, other: int)
    requires
        0 <= i < e.aircraft.len(),
        0 <= other < e.aircraft[i].servers.len(),
    ensures
        ({
            let a = e.aircraft[i];
            let b = after_server_reset(e, server).aircraft[i];
            &&& after_server_reset(e, server).aircraft.len() == e.aircraft.len()
            &&& b.addr == a.addr && b.last_seen == a.last_seen && b.msgs == a.msgs && b.even
                == a.even && b.odd == a.odd
            &&& other != server ==> b.servers[other] == a.servers[other]
            &&& other == server ==> b.servers[other] == fresh_server()
        }),
{
}

/// A 48-bit counter that wraps is no clock reset: going from the top quarter of
/// the range to below its first quarter sends nothing.
pub proof fn law_wrap_is_no_reset(last: u64, counts: u64)
    requires
        last >= 0xC000_0000_0000,
        counts < 0x4000_0000_0000,
    ensures
        !clock_reset(Some(last), counts),
{
}

/// A squitter with any one byte damaged, behind the format byte, is ignored.
pub proof fn law_damaged_squitter_ignored(frame: Seq<u8>, i: int, b: u8)
    requires
        kind_of(frame) is Squitter,
        1 <= i < frame.len(),
        b != frame[i],
    ensures
        kind_of(frame.update(i, b)) is Ignored,
{
    crate::modes::crc::law_byte_error_detected(frame, i, b);
}

/// An aircraft is announced to a server once: after a tick, no aircraft of the
/// table is new to any server.
pub proof fn law_announced_once(t: Seq<Craft>, now: u64, later: u64, s: int, n: nat)
    requires
        forall|i: int| 0 <= i < t.len() ==> (#[trigger] t[i]).servers.len() == n,
        0 <= s < n,
    ensures
        notice_list(kept(t, now), s, later, false).len() == 0,
{
    lemma_kept_announced(t, now, n);
    lemma_no_news(kept(t, now), s, later, n);
}

proof fn lemma_kept_announced(t: Seq<Craft>, now: u64, n: nat)
    requires
        forall|i: int| 0 <= i < t.len() ==> (#[trigger] t[i]).servers.len() == n,
    ensures
        forall|i: int, s: int|
            0 <= i < kept(t, now).len() && 0 <= s < n ==> (
            #[trigger] kept(t, now)[i].servers[s]).announced,
    decreases t.len(),
{
    if t.len() > 0 {
        assert forall|i: int| 0 <= i < t.drop_last().len() implies (
        #[trigger] t.drop_last()[i]).servers.len() == n by {
            assert(t[i].servers.len() == n);
        }
        lemma_kept_announced(t.drop_last(), now, n);
        let k0 = kept(t.drop_last(), now);
        let k = kept(t, now);
        assert forall|i: int, s: int| 0 <= i < k.len() && 0 <= s < n implies (
        #[trigger] k[i].servers[s]).announced by {
            if i < k0.len() {
                assert(k[i] == k0[i]);
                assert(k0[i].servers[s].announced);
            } else {
                assert(t[t.len() - 1].servers.len() == n);
            }
        }
    }
}

proof fn lemma_no_news(t: Seq<Craft>, s: int, now: u64, n: nat)
    requires
        0 <= s < n,
        forall|i: int, k: int|
            0 <= i < t.len() && 0 <= k < n ==> (#[trigger] t[i].servers[k]).announced,
    ensures
        notice_list(t, s, now, false).len() == 0,
    decreases t.len(),
{
    if t.len() > 0 {
        assert(t[t.len() - 1].servers[s].announced);
        assert forall|i: int, k: int| 0 <= i < t.drop_last().len() && 0 <= k < n implies (
        #[trigger] t.drop_last()[i].servers[k]).announced by {
            assert(t[i].servers[k].announced);
        }
        lemma_no_news(t.drop_last(), s, now, n);
    }
}

// --------------------------------------------------------------- sync pairs

/// The half of a pair is the reception `j`: its counter and its frame, which decodes
/// to a position of that aircraft and of that parity.
pub open spec fn is_reception(
    run: Seq<(u64, Seq<u8>)>,
    j: int,
    addr: u32,
    odd: bool,
    half: (u64, Seq<char>),
) -> bool {
    &&& 0 <= j < run.len()
    &&& run[j].0 == half.0
    &&& crate::proto::messages::hex_bytes(half.1) == Some(run[j].1)
    &&& crate::modes::decode::df17_content(run[j].1) matches Some(d) && d.icao.0 == addr && d.odd
        == odd
}

/// What is kept of an aircraft's positions was received.
pub open spec fn halves_received(a: Craft, run: Seq<(u64, Seq<u8>)>) -> bool {
    &&& a.even matches Some(h) ==> exists|j: int| is_reception(run, j, a.addr, false, h)
    &&& a.odd matches Some(h) ==> exists|j: int| is_reception(run, j, a.addr, true, h)
}

/// What the engine keeps of positions was received: counters and frames of `run`.
pub open spec fn all_received(t: Seq<Craft>, run: Seq<(u64, Seq<u8>)>) -> bool {
    forall|i: int| 0 <= i < t.len() ==> halves_received(#[trigger] t[i], run)
}

proof fn lemma_same_halves(a: Craft, b: Craft, run: Seq<(u64, Seq<u8>)>)
    requires
        halves_received(a, run),
        b.addr == a.addr,
        b.even is None || b.even == a.even,
        b.odd is None || b.odd == a.odd,
    ensures
        halves_received(b, run),
{
    if b.even is Some {
        let j = choose|j: int| is_reception(run, j, a.addr, false, a.even->0);
        assert(is_reception(run, j, b.addr, false, b.even->0));
    }
    if b.odd is Some {
        let j = choose|j: int| is_reception(run, j, a.addr, true, a.odd->0);
        assert(is_reception(run, j, b.addr, true, b.odd->0));
    }
}

proof fn lemma_half_entered(
    a: Craft,
    b: Craft,
    run: Seq<(u64, Seq<u8>)>,
    odd: bool,
    half: (u64, Seq<char>),
    j: int,
)
    requires
        halves_received(a, run),
        is_reception(run, j, a.addr, odd, half),
        b.addr == a.addr,
        b.even == with_half(a, odd, half).even,
        b.odd == with_half(a, odd, half).odd,
    ensures
        halves_received(b, run),
{
    if b.even is Some {
        let i = if odd {
            choose|i: int| is_reception(run, i, a.addr, false, a.even->0)
        } else {
            j
        };
        assert(is_reception(run, i, b.addr, false, b.even->0));
    }
    if b.odd is Some {
        let i = if odd {
            j
        } else {
            choose|i: int| is_reception(run, i, a.addr, true, a.odd->0)
        };
        assert(is_reception(run, i, b.addr, true, b.odd->0));
    }
}

proof fn lemma_received_longer(t: Seq<Craft>, run: Seq<(u64, Seq<u8>)>, x: (u64, Seq<u8>))
    requires
        all_received(t, run),
    ensures
        all_received(t, run.push(x)),
{
    let more = run.push(x);
    assert forall|i: int| 0 <= i < t.len() implies halves_received(#[trigger] t[i], more) by {
        let a = t[i];
        assert(halves_received(a, run));
        if a.even is Some {
            let j = choose|j: int| is_reception(run, j, a.addr, false, a.even->0);
            assert(is_reception(more, j, a.addr, false, a.even->0));
        }
        if a.odd is Some {
            let j = choose|j: int| is_reception(run, j, a.addr, true, a.odd->0);
            assert(is_reception(more, j, a.addr, true, a.odd->0));
        }
    }
}

/// The table behind the counter check and the refresh of the frame's aircraft.
proof fn lemma_refreshed_received(
    e: Traffic,
    run: Seq<(u64, Seq<u8>)>,
    counts: u64,
    addr: u32,
    now: u64,
    validated: bool,
)
    requires
        all_received(e.aircraft, run),
    ensures
        all_received(after_counter(e, counts).aircraft, run),
        all_received(
            touched(after_counter(e, counts).aircraft, addr, now, validated, e.n_servers),
            run,
        ),
{
    let t = after_counter(e, counts).aircraft;
    assert forall|i: int| 0 <= i < t.len() implies halves_received(#[trigger] t[i], run) by {
        lemma_same_halves(e.aircraft[i], t[i], run);
    }
    lemma_find(t, addr);
    let u = touched(t, addr, now, validated, e.n_servers);
    assert forall|i: int| 0 <= i < u.len() implies halves_received(#[trigger] u[i], run) by {
        if i < t.len() {
            lemma_same_halves(t[i], u[i], run);
        }
    }
}

/// Whatever the engine keeps of positions it received: a reception adds at most itself.
pub proof fn law_kept_positions_were_received(
    e: Traffic,
    run: Seq<(u64, Seq<u8>)>,
    counts: u64,
    frame: Seq<u8>,
    now: u64,
)
    requires
        all_received(e.aircraft, run),
    ensures
        all_received(received(e, counts, frame, now).0.aircraft, run.push((counts, frame))),
{
    let more = run.push((counts, frame));
    lemma_received_longer(e.aircraft, run, (counts, frame));
    lemma_refreshed_received(e, more, counts, 0, now, false);
    let e1 = after_counter(e, counts);
    match kind_of(frame) {
        Kind::Ignored => {},
        Kind::Squitter { addr, position } => {
            lemma_refreshed_received(e, more, counts, addr, now, true);
            let t = touched(e1.aircraft, addr, now, true, e.n_servers);
            if let Some(d) = position {
                lemma_find(t, d.icao.0);
                crate::proto::messages::law_hex_text_round_trip(frame);
                let p = paired(t, d.icao.0, d.odd, counts, frame, now).0;
                let half = (counts, crate::proto::messages::hex_text(frame));
                assert(is_reception(more, run.len() as int, d.icao.0, d.odd, half));
                assert forall|i: int| 0 <= i < p.len() implies halves_received(
                    #[trigger] p[i],
                    more,
                ) by {
                    assert(halves_received(t[i], more));
                    if p[i].even == t[i].even && p[i].odd == t[i].odd {
                        lemma_same_halves(t[i], p[i], more);
                    } else {
                        lemma_half_entered(t[i], p[i], more, d.odd, half, run.len() as int);
                    }
                }
            }
        },
        Kind::AllCall { addr } => {
            lemma_refreshed_received(e, more, counts, addr, now, true);
        },
        Kind::Recovered { addr } => {
            lemma_refreshed_received(e, more, counts, addr, now, false);
        },
    }
}

/// Ticks, requests, reconnections and restarts keep no position that was not kept.
pub proof fn law_only_receptions_are_kept(
    e: Traffic,
    run: Seq<(u64, Seq<u8>)>,
    server: int,
    hexes: Seq<Seq<char>>,
    v: bool,
    now: u64,
)
    requires
        all_received(e.aircraft, run),
    ensures
        all_received(ticked(e, now).aircraft, run),
        all_received(requested_all(e.aircraft, server, hexes, v), run),
        all_received(after_server_reset(e, server).aircraft, run),
        all_received(after_input_reset(e).aircraft, run),
{
    lemma_kept_received(e.aircraft, run, now);
    lemma_requested_received(e.aircraft, run, server, hexes, v);
    let t = ticked(e, now).aircraft;
    assert forall|i: int| 0 <= i < t.len() implies halves_received(#[trigger] t[i], run) by {
        lemma_same_halves(kept(e.aircraft, now)[i], t[i], run);
    }
    let r = after_server_reset(e, server).aircraft;
    assert forall|i: int| 0 <= i < r.len() implies halves_received(#[trigger] r[i], run) by {
        lemma_same_halves(e.aircraft[i], r[i], run);
    }
}

proof fn lemma_kept_received(t: Seq<Craft>, run: Seq<(u64, Seq<u8>)>, now: u64)
    requires
        all_received(t, run),
    ensures
        all_received(kept(t, now), run),
    decreases t.len(),
{
    if t.len() > 0 {
        let r = t.drop_last();
        assert forall|i: int| 0 <= i < r.len() implies halves_received(#[trigger] r[i], run) by {
            assert(halves_received(t[i], run));
        }
        lemma_kept_received(r, run, now);
        let (k, k0) = (kept(t, now), kept(r, now));
        assert forall|i: int| 0 <= i < k.len() implies halves_received(#[trigger] k[i], run) by {
            if i < k0.len() {
                assert(halves_received(k0[i], run));
            } else {
                lemma_same_halves(t[t.len() - 1], k[i], run);
            }
        }
    }
}

proof fn lemma_requested_received(
    t: Seq<Craft>,
    run: Seq<(u64, Seq<u8>)>,
    server: int,
    hexes: Seq<Seq<char>>,
    v: bool,
)
    requires
        all_received(t, run),
    ensures
        all_received(requested_all(t, server, hexes, v), run),
    decreases hexes.len(),
{
    if hexes.len() > 0 {
        lemma_requested_received(t, run, server, hexes.drop_last(), v);
        let u = requested_all(t, server, hexes.drop_last(), v);
        if let Some(addr) = named_address(hexes.last()) {
            lemma_find(u, addr);
        }
        let w = requested_all(t, server, hexes, v);
        assert forall|i: int| 0 <= i < w.len() implies halves_received(#[trigger] w[i], run) by {
            lemma_same_halves(u[i], w[i], run);
        }
    }
}

/// A sync message that a reception causes tells of two receptions, one of which is the
/// present one: `em` is the hexadecimal text of the first, which decodes to an even
/// position, `om` that of the second, which decodes to an odd position of the same
/// aircraft, and `et` and `ot` are the counters at which those very frames were
/// received, at most four seconds apart. So the server reads a pair of that aircraft.
pub proof fn law_sync_messages_are_pairs(
    e: Traffic,
    run: Seq<(u64, Seq<u8>)>,
    counts: u64,
    frame: Seq<u8>,
    now: u64,
    k: int,
) -> (r: (int, int))
    requires
        all_received(e.aircraft, run),
        0 <= k < received(e, counts, frame, now).1.len(),
        received(e, counts, frame, now).1[k].1 is Sync,
    ensures
        ({
            let m = received(e, counts, frame, now).1[k].1;
            let all = run.push((counts, frame));
            let (a, b) = r;
            &&& 0 <= a < all.len() && 0 <= b < all.len()
            &&& a == run.len() || b == run.len()
            &&& crate::proto::fields::tells_pair(
                crate::proto::messages::msg_text(m),
                all[a].0,
                all[a].1,
                all[b].0,
                all[b].1,
            )
            &&& -48_000_000 <= all[a].0 - all[b].0 <= 48_000_000
            &&& m matches crate::proto::messages::MsgView::Sync { et, ot, em, om } && {
                &&& crate::text::parse_decimal(et) == Some(all[a].0 as int)
                &&& crate::text::parse_decimal(ot) == Some(all[b].0 as int)
                &&& crate::proto::messages::hex_bytes(em) == Some(all[a].1)
                &&& crate::proto::messages::hex_bytes(om) == Some(all[b].1)
                &&& crate::server::grouping::pair_of(em, om) matches Some(p) && Some(p.icao.0)
                    == frame_address(frame)
            }
        }),
{
    let all = run.push((counts, frame));
    lemma_received_longer(e.aircraft, run, (counts, frame));
    let e1 = after_counter(e, counts);
    let start = if clock_reset(e.last_counter, counts) {
        reset_messages(e)
    } else {
        seq![]
    };
    let o = received(e, counts, frame, now).1[k];
    assert(k < start.len() ==> o == start[k]);
    match kind_of(frame) {
        Kind::Squitter { addr, position: Some(d) } => {
            lemma_refreshed_received(e, all, counts, addr, now, true);
            let t = touched(e1.aircraft, addr, now, true, e.n_servers);
            reveal_with_fuel(crate::modes::decode::be_number, 4);
            assert(d.icao.0 == addr);
            lemma_find(t, addr);
            let i = find(t, addr)->0;
            let half = (counts, crate::proto::messages::hex_text(frame));
            let a = with_half(t[i], d.odd, half);
            lemma_requesters(a.servers, sync_message(a)->0);
            assert(o == paired(t, addr, d.odd, counts, frame, now).1[k - start.len()]);
            assert(halves_received(t[i], all));
            crate::proto::messages::law_hex_text_round_trip(frame);
            assert(is_reception(all, run.len() as int, addr, d.odd, half));
            let (he, ho) = (a.even->0, a.odd->0);
            let last = run.len() as int;
            let r = if d.odd {
                (choose|j: int| is_reception(all, j, addr, false, he), last)
            } else {
                (last, choose|j: int| is_reception(all, j, addr, true, ho))
            };
            assert(is_reception(all, r.0, addr, false, he));
            assert(is_reception(all, r.1, addr, true, ho));
            crate::text::law_decimal_reads_back(he.0 as nat);
            crate::text::law_decimal_reads_back(ho.0 as nat);
            crate::proto::fields::law_sync_text_reads_back(he.0 as nat, ho.0 as nat, he.1, ho.1);
            r
        },
        Kind::AllCall { addr } => {
            let t = touched(e1.aircraft, addr, now, true, e.n_servers);
            lemma_mlat_is_mlat(t, addr, counts, frame);
            (0, 0)
        },
        Kind::Recovered { addr } => {
            let t = touched(e1.aircraft, addr, now, false, e.n_servers);
            lemma_mlat_is_mlat(t, addr, counts, frame);
            (0, 0)
        },
        _ => (0, 0),
    }
}

proof fn lemma_mlat_is_mlat(t: Seq<Craft>, addr: u32, counts: u64, frame: Seq<u8>)
    ensures
        forall|k: int|
            0 <= k < mlat_messages(t, addr, counts, frame).len() ==> (#[trigger] mlat_messages(
                t,
                addr,
                counts,
                frame,
            )[k]).1 == (crate::proto::messages::MsgView::Mlat {
                t: crate::text::decimal(counts as nat),
                m: crate::proto::messages::hex_text(frame),
            }),
{
    if let Some(i) = find(t, addr) {
        lemma_requesters(
            t[i].servers,
            crate::proto::messages::MsgView::Mlat {
                t: crate::text::decimal(counts as nat),
                m: crate::proto::messages::hex_text(frame),
            },
        );
    }
}

/// An mlat message that a reception causes tells of that reception: its frame, and the
/// counter at which it was received.
pub proof fn law_mlat_messages_tell_the_reception(
    e: Traffic,
    counts: u64,
    frame: Seq<u8>,
    now: u64,
    k: int,
)
    requires
        0 <= k < received(e, counts, frame, now).1.len(),
        received(e, counts, frame, now).1[k].1 is Mlat,
    ensures
        crate::proto::fields::tells_frame(
            crate::proto::messages::msg_text(received(e, counts, frame, now).1[k].1),
            counts,
            frame,
        ),
{
    let e1 = after_counter(e, counts);
    let start = if clock_reset(e.last_counter, counts) {
        reset_messages(e)
    } else {
        seq![]
    };
    let o = received(e, counts, frame, now).1[k];
    assert(k < start.len() ==> o == start[k]);
    crate::proto::fields::law_mlat_tells_frame(counts, frame);
    match kind_of(frame) {
        Kind::Ignored => {},
        Kind::Squitter { addr, position } => {
            let t = touched(e1.aircraft, addr, now, true, e.n_servers);
            if let Some(d) = position {
                lemma_find(t, d.icao.0);
                let i = find(t, d.icao.0)->0;
                let a = with_half(
                    t[i],
                    d.odd,
                    (counts, crate::proto::messages::hex_text(frame)),
                );
                lemma_requesters(a.servers, sync_message(a)->0);
            }
        },
        Kind::AllCall { addr } => {
            let t = touched(e1.aircraft, addr, now, true, e.n_servers);
            lemma_mlat_is_mlat(t, addr, counts, frame);
        },
        Kind::Recovered { addr } => {
            let t = touched(e1.aircraft, addr, now, false, e.n_servers);
            lemma_mlat_is_mlat(t, addr, counts, frame);
        },
    }
}

// ------------------------------------------------------------ who is told what

/// Every server that requested the aircraft gets the message, once, and no other does.
pub proof fn law_every_requester_is_told(
    servers: Seq<PerServer>,
    m: crate::proto::messages::MsgView,
    s: int,
)
    ensures
        to_requesters(servers, m).contains((s, m)) <==> 0 <= s < servers.len()
            && servers[s].requested,
        forall|j: int, k: int|
            0 <= j < k < to_requesters(servers, m).len() ==> (#[trigger] to_requesters(
                servers,
                m,
            )[j]).0 < (#[trigger] to_requesters(servers, m)[k]).0,
    decreases servers.len(),
{
    lemma_requesters(servers, m);
    let all = to_requesters(servers, m);
    if servers.len() > 0 {
        let r = servers.drop_last();
        let rest = to_requesters(r, m);
        law_every_requester_is_told(r, m, s);
        lemma_requesters(r, m);
        assert forall|j: int, k: int| 0 <= j < k < all.len() implies (#[trigger] all[j]).0 < (
        #[trigger] all[k]).0 by {
            assert(all[j] == rest[j]);
            if k < rest.len() {
                assert(all[k] == rest[k]);
            }
        }
        if rest.contains((s, m)) {
            let i = choose|i: int| 0 <= i < rest.len() && rest[i] == (s, m);
            assert(all[i] == (s, m));
        }
        if all.contains((s, m)) {
            let i = choose|i: int| 0 <= i < all.len() && all[i] == (s, m);
            if i < rest.len() {
                assert(rest[i] == (s, m));
            }
        }
        if s == servers.len() - 1 && servers[s].requested {
            assert(all[rest.len() as int] == (s, m));
        }
    }
}

/// The addresses of a table stand once.
pub open spec fn stand_once(t: Seq<Craft>) -> bool {
    forall|i: int, j: int|
        0 <= i < j < t.len() ==> (#[trigger] t[i]).addr != (#[trigger] t[j]).addr
}

/// A request changes what one server wants of the aircraft that it names, and nothing else: no
/// other aircraft, no other server's wishes, and nothing that is kept of any aircraft.
pub proof fn law_requests_are_local(
    t: Seq<Craft>,
    server: int,
    hexes: Seq<Seq<char>>,
    v: bool,
    i: int,
    other: int,
)
    requires
        stand_once(t),
        0 <= i < t.len(),
    ensures
        ({
            let u = requested_all(t, server, hexes, v);
            let named = exists|k: int|
                0 <= k < hexes.len() && #[trigger] named_address(hexes[k]) == Some(t[i].addr);
            &&& u.len() == t.len() && stand_once(u)
            &&& u[i].addr == t[i].addr && u[i].last_seen == t[i].last_seen && u[i].msgs == t[i].msgs
                && u[i].even == t[i].even && u[i].odd == t[i].odd && u[i].servers.len()
                == t[i].servers.len()
            &&& 0 <= other < t[i].servers.len() && other != server ==> u[i].servers[other]
                == t[i].servers[other]
            &&& 0 <= server < t[i].servers.len() ==> u[i].servers[server].announced
                == t[i].servers[server].announced && u[i].servers[server].last_sync
                == t[i].servers[server].last_sync && u[i].servers[server].requested == (if named {
                v
            } else {
                t[i].servers[server].requested
            })
        }),
    decreases hexes.len(),
{
    if hexes.len() > 0 {
        let r = hexes.drop_last();
        law_requests_are_local(t, server, r, v, i, other);
        let u = requested_all(t, server, r, v);
        let w = requested_all(t, server, hexes, v);
        if let Some(addr) = named_address(hexes.last()) {
            lemma_find(u, addr);
        }
        assert(stand_once(w)) by {
            assert forall|a: int, b: int| 0 <= a < b < w.len() implies (#[trigger] w[a]).addr != (
            #[trigger] w[b]).addr by {
                assert(u[a].addr != u[b].addr);
            }
        }
        let before = exists|k: int|
            0 <= k < r.len() && #[trigger] named_address(r[k]) == Some(t[i].addr);
        let named = exists|k: int|
            0 <= k < hexes.len() && #[trigger] named_address(hexes[k]) == Some(t[i].addr);
        if before {
            let k = choose|k: int|
                0 <= k < r.len() && #[trigger] named_address(r[k]) == Some(t[i].addr);
            assert(named_address(hexes[k]) == Some(t[i].addr));
        }
        if named {
            let k = choose|k: int|
                0 <= k < hexes.len() && #[trigger] named_address(hexes[k]) == Some(t[i].addr);
            if k < r.len() {
                assert(named_address(r[k]) == Some(t[i].addr));
            } else {
                let j = find(u, t[i].addr)->0;
                if find(u, t[i].addr) is Some {
                    if j < i {
                        assert(u[j].addr != u[i].addr);
                    } else if i < j {
                        assert(u[i].addr != u[j].addr);
                    }
                }
            }
        } else if let Some(addr) = named_address(hexes.last()) {
            assert(named_address(hexes[hexes.len() - 1]) != Some(t[i].addr));
        }
    }
}

/// A frame refreshes its own aircraft: it is seen now and counts one message more. Every other
/// aircraft stays as it is, and a new one has one message, no position and nobody's interest.
pub proof fn law_a_frame_refreshes_its_aircraft(
    t: Seq<Craft>,
    addr: u32,
    now: u64,
    validated: bool,
    n: nat,
    i: int,
)
    requires
        stand_once(t),
        0 <= i < t.len(),
    ensures
        ({
            let u = touched(t, addr, now, validated, n);
            &&& t.len() <= u.len() <= t.len() + 1
            &&& t[i].addr != addr ==> u[i] == t[i]
            &&& t[i].addr == addr ==> u.len() == t.len() && u[i].addr == addr && u[i].last_seen
                == now && (t[i].msgs < u32::MAX ==> u[i].msgs == t[i].msgs + 1) && u[i].even
                == t[i].even && u[i].odd == t[i].odd && u[i].servers == t[i].servers
            &&& u.len() > t.len() ==> validated && u.last().addr == addr && u.last().last_seen == now
                && u.last().msgs == 1 && u.last().even is None && u.last().odd is None
                && u.last().servers.len() == n && forall|s: int|
                0 <= s < n ==> !(#[trigger] u.last().servers[s]).requested
                    && !u.last().servers[s].announced
        }),
{
    lemma_find(t, addr);
    if let Some(k) = find(t, addr) {
        if t[i].addr == addr {
            if k < i {
                assert(t[k].addr != t[i].addr);
            } else if i < k {
                assert(t[i].addr != t[k].addr);
            }
        }
    }
}

/// A tick drops the aircraft that were silent for more than a minute and no other; those that
/// stay keep all that is known of them.
pub proof fn law_silent_aircraft_leave(t: Seq<Craft>, now: u64, a: Craft)
    ensures
        kept(t, now).len() <= t.len(),
        t.contains(a) && now <= a.last_seen + 60_000_000_000 ==> exists|k: int|
            0 <= k < kept(t, now).len() && {
                let b = #[trigger] kept(t, now)[k];
                &&& b.addr == a.addr && b.last_seen == a.last_seen && b.msgs == a.msgs && b.even
                    == a.even && b.odd == a.odd && b.servers.len() == a.servers.len()
            },
        forall|k: int|
            0 <= k < kept(t, now).len() ==> now <= (#[trigger] kept(t, now)[k]).last_seen
                + 60_000_000_000,
    decreases t.len(),
{
    if t.len() > 0 {
        let r = t.drop_last();
        law_silent_aircraft_leave(r, now, a);
        let (k1, k0) = (kept(t, now), kept(r, now));
        assert forall|k: int| 0 <= k < k1.len() implies now <= (#[trigger] k1[k]).last_seen
            + 60_000_000_000 by {
            if k < k0.len() {
                assert(k1[k] == k0[k]);
            }
        }
        if t.contains(a) && now <= a.last_seen + 60_000_000_000 {
            let i = choose|i: int| 0 <= i < t.len() && t[i] == a;
            if i < r.len() {
                assert(r[i] == a);
                let k = choose|k: int|
                    0 <= k < k0.len() && {
                        let b = #[trigger] k0[k];
                        &&& b.addr == a.addr && b.last_seen == a.last_seen && b.msgs == a.msgs
                            && b.even == a.even && b.odd == a.odd && b.servers.len()
                            == a.servers.len()
                    };
                assert(k1[k] == k0[k]);
            } else {
                assert(k1[k0.len() as int] == announced(a));
            }
        }
    }
}

/// A server is told of exactly the aircraft that are new to it, and of the loss of exactly
/// those that it had been told of.
pub proof fn law_notices_are_exact(t: Seq<Craft>, s: int, now: u64, gone: bool, h: Seq<char>)
    ensures
        notice_list(t, s, now, gone).contains(h) <==> exists|i: int|
            0 <= i < t.len() && crate::text::hex_digits((#[trigger] t[i]).addr as int, 6) == h
                && t[i].servers[s].announced == gone && (now > t[i].last_seen + 60_000_000_000)
                == gone,
    decreases t.len(),
{
    if t.len() > 0 {
        let r = t.drop_last();
        law_notices_are_exact(r, s, now, gone, h);
        let (l, l0) = (notice_list(t, s, now, gone), notice_list(r, s, now, gone));
        if l0.contains(h) {
            let i = choose|i: int| 0 <= i < l0.len() && l0[i] == h;
            assert(l[i] == h);
            let k = choose|i: int|
                0 <= i < r.len() && crate::text::hex_digits((#[trigger] r[i]).addr as int, 6) == h
                    && r[i].servers[s].announced == gone && (now > r[i].last_seen + 60_000_000_000)
                    == gone;
            assert(t[k] == r[k]);
        }
        if l.contains(h) {
            let i = choose|i: int| 0 <= i < l.len() && l[i] == h;
            if i < l0.len() {
                assert(l0[i] == h);
            } else {
                assert(t[t.len() - 1].servers[s].announced == gone);
            }
        }
        if exists|i: int|
            0 <= i < t.len() && crate::text::hex_digits((#[trigger] t[i]).addr as int, 6) == h
                && t[i].servers[s].announced == gone && (now > t[i].last_seen + 60_000_000_000)
                == gone {
            let i = choose|i: int|
                0 <= i < t.len() && crate::text::hex_digits((#[trigger] t[i]).addr as int, 6) == h
                    && t[i].servers[s].announced == gone && (now > t[i].last_seen + 60_000_000_000)
                    == gone;
            if i < r.len() {
                assert(r[i] == t[i]);
            } else {
                assert(l[l0.len() as int] == h);
            }
        }
    }
}

/// What a server asked for it gets: a frame of an aircraft that it wants and that is no
/// position is sent to it, and so is the pair that a position completes with one of the other
/// parity that was received at most four seconds before or after it.
pub proof fn law_requested_traffic_is_sent(
    e: Traffic,
    counts: u64,
    frame: Seq<u8>,
    now: u64,
    i: int,
    s: int,
) -> (k: int)
    requires
        stand_once(e.aircraft),
        !clock_reset(e.last_counter, counts),
        0 <= i < e.aircraft.len(),
        frame_address(frame) == Some(e.aircraft[i].addr),
        0 <= s < e.aircraft[i].servers.len(),
        e.aircraft[i].servers[s].requested,
        crate::modes::decode::df17_content(frame) matches Some(d) ==> {
            let half = if d.odd {
                e.aircraft[i].even
            } else {
                e.aircraft[i].odd
            };
            half matches Some(h) && -48_000_000 <= h.0 - counts <= 48_000_000
        },
        kind_of(frame) is Squitter ==> crate::modes::decode::df17_content(frame) is Some,
    ensures
        0 <= k < received(e, counts, frame, now).1.len(),
        received(e, counts, frame, now).1[k].0 == s,
        crate::modes::decode::df17_content(frame) is Some ==> received(
            e,
            counts,
            frame,
            now,
        ).1[k].1 is Sync,
        crate::modes::decode::df17_content(frame) is None ==> received(
            e,
            counts,
            frame,
            now,
        ).1[k].1 is Mlat,
{
    let t0 = e.aircraft;
    let out = received(e, counts, frame, now).1;
    reveal_with_fuel(crate::modes::decode::be_number, 4);
    match kind_of(frame) {
        Kind::Squitter { addr, position: Some(d) } => {
            let t = touched(t0, addr, now, true, e.n_servers);
            law_a_frame_refreshes_its_aircraft(t0, addr, now, true, e.n_servers, i);
            lemma_find(t0, addr);
            lemma_find_once(t0, t, addr, i);
            let a = with_half(t[i], d.odd, (counts, crate::proto::messages::hex_text(frame)));
            let m = sync_message(a)->0;
            assert(sync_message(a) is Some);
            law_every_requester_is_told(a.servers, m, s);
            assert(out =~= to_requesters(a.servers, m));
            choose|k: int| 0 <= k < out.len() && out[k] == (s, m)
        },
        Kind::AllCall { addr } => {
            law_a_frame_refreshes_its_aircraft(t0, addr, now, true, e.n_servers, i);
            lemma_mlat_sent(t0, addr, now, true, e.n_servers, counts, frame, i, s);
            let t = touched(t0, addr, now, true, e.n_servers);
            assert(out =~= mlat_messages(t, addr, counts, frame));
            choose|k: int| 0 <= k < out.len() && out[k].0 == s && out[k].1 is Mlat
        },
        Kind::Recovered { addr } => {
            law_a_frame_refreshes_its_aircraft(t0, addr, now, false, e.n_servers, i);
            lemma_mlat_sent(t0, addr, now, false, e.n_servers, counts, frame, i, s);
            let t = touched(t0, addr, now, false, e.n_servers);
            assert(out =~= mlat_messages(t, addr, counts, frame));
            choose|k: int| 0 <= k < out.len() && out[k].0 == s && out[k].1 is Mlat
        },
        _ => 0,
    }
}

proof fn lemma_find_once(t: Seq<Craft>, u: Seq<Craft>, addr: u32, i: int)
    requires
        stand_once(t),
        0 <= i < t.len(),
        t[i].addr == addr,
        u.len() == t.len(),
        forall|k: int| 0 <= k < t.len() ==> (#[trigger] u[k]).addr == t[k].addr,
    ensures
        find(u, addr) == Some(i),
{
    lemma_find(u, addr);
    assert(u[i].addr == addr);
    let k = find(u, addr)->0;
    assert(u[k].addr == t[k].addr);
    if k < i {
        assert(t[k].addr != t[i].addr);
    } else if i < k {
        assert(t[i].addr != t[k].addr);
    }
}

proof fn lemma_mlat_sent(
    t0: Seq<Craft>,
    addr: u32,
    now: u64,
    validated: bool,
    n: nat,
    counts: u64,
    frame: Seq<u8>,
    i: int,
    s: int,
)
    requires
        stand_once(t0),
        0 <= i < t0.len(),
        t0[i].addr == addr,
        0 <= s < t0[i].servers.len(),
        t0[i].servers[s].requested,
    ensures
        exists|k: int|
            0 <= k < mlat_messages(touched(t0, addr, now, validated, n), addr, counts, frame).len()
                && (#[trigger] mlat_messages(
                touched(t0, addr, now, validated, n),
                addr,
                counts,
                frame,
            )[k]).0 == s && mlat_messages(
                touched(t0, addr, now, validated, n),
                addr,
                counts,
                frame,
            )[k].1 is Mlat,
{
    let t = touched(t0, addr, now, validated, n);
    law_a_frame_refreshes_its_aircraft(t0, addr, now, validated, n, i);
    lemma_find(t0, addr);
    lemma_find_once(t0, t, addr, i);
    let m = crate::proto::messages::MsgView::Mlat {
        t: crate::text::decimal(counts as nat),
        m: crate::proto::messages::hex_text(frame),
    };
    law_every_requester_is_told(t[i].servers, m, s);
    let out = mlat_messages(t, addr, counts, frame);
    let k = choose|k: int| 0 <= k < out.len() && out[k] == (s, m);
    assert(out[k].0 == s);
}

// ----------------------------------------------------- resets, notices and rates

/// A counter that goes forward, or back by a second at most, is no reset; one that goes back by
/// more, but by less than a quarter of its range, is. The first reception is none.
pub proof fn law_clock_resets(last: u64, counts: u64)
    ensures
        counts >= last ==> !clock_reset(Some(last), counts),
        last - counts <= 12_000_000 ==> !clock_reset(Some(last), counts),
        12_000_000 < last - counts < 0x4000_0000_0000 ==> clock_reset(Some(last), counts),
        !clock_reset(None, counts),
{
}

/// At a reset every server is told, once and before all else, and no position from before it
/// is paired with one behind it; at any other reception no server is told of one.
pub proof fn law_reset_reaches_every_server(
    e: Traffic,
    counts: u64,
    frame: Seq<u8>,
    now: u64,
    s: int,
    i: int,
)
    requires
        0 <= s < e.n_servers,
        0 <= i < e.aircraft.len(),
    ensures
        ({
            let out = received(e, counts, frame, now).1;
            let t = after_counter(e, counts);
            &&& clock_reset(e.last_counter, counts) ==> out.len() >= e.n_servers && out[s].0 == s
                && out[s].1 == crate::proto::messages::MsgView::ClockReset(e.user)
            &&& clock_reset(e.last_counter, counts) ==> t.aircraft[i].even is None
                && t.aircraft[i].odd is None
            &&& !clock_reset(e.last_counter, counts) ==> t.aircraft[i] == e.aircraft[i]
            &&& t.aircraft.len() == e.aircraft.len() && t.aircraft[i].addr == e.aircraft[i].addr
                && t.aircraft[i].servers == e.aircraft[i].servers && t.aircraft[i].msgs
                == e.aircraft[i].msgs && t.aircraft[i].last_seen == e.aircraft[i].last_seen
            &&& received(e, counts, frame, now).0.last_counter == Some(counts)
        }),
{
}

/// Where the input restarts, the halves of pairs are dropped with the counter, and nothing else
/// is.
pub proof fn law_input_restart_drops_halves(e: Traffic, i: int)
    requires
        0 <= i < e.aircraft.len(),
    ensures
        ({
            let (a, b) = (e.aircraft[i], after_input_reset(e).aircraft[i]);
            &&& after_input_reset(e).aircraft.len() == e.aircraft.len()
            &&& b.even is None && b.odd is None
            &&& b.addr == a.addr && b.last_seen == a.last_seen && b.msgs == a.msgs && b.servers
                == a.servers
            &&& after_input_reset(e).last_counter is None
            &&& after_input_reset(e).last_rate_report == e.last_rate_report
        }),
{
}

/// Each server gets its own notices: the aircraft that are new to it in a seen message and those
/// that are lost to it in a lost message, where there are any.
pub proof fn law_notices_reach_their_server(
    t: Seq<Craft>,
    n: nat,
    now: u64,
    s: int,
    l: Seq<Seq<char>>,
)
    ensures
        notices(t, n, now).contains((s, crate::proto::messages::MsgView::Seen(l))) <==> 0 <= s < n
            && l == notice_list(t, s, now, false) && l.len() > 0,
        notices(t, n, now).contains((s, crate::proto::messages::MsgView::Lost(l))) <==> 0 <= s < n
            && l == notice_list(t, s, now, true) && l.len() > 0,
    decreases n,
{
    if n > 0 {
        let m = (n - 1) as nat;
        law_notices_reach_their_server(t, m, now, s, l);
        let (all, rest) = (notices(t, n, now), notices(t, m, now));
        let seen = notice_list(t, n - 1, now, false);
        let lost = notice_list(t, n - 1, now, true);
        let x = (n - 1, crate::proto::messages::MsgView::Seen(seen));
        let y = (n - 1, crate::proto::messages::MsgView::Lost(lost));
        let mid = if seen.len() > 0 {
            rest.push(x)
        } else {
            rest
        };
        let a = (s, crate::proto::messages::MsgView::Seen(l));
        let b = (s, crate::proto::messages::MsgView::Lost(l));
        lemma_push_holds(rest, x, a);
        lemma_push_holds(rest, x, b);
        lemma_push_holds(mid, y, a);
        lemma_push_holds(mid, y, b);
    }
}

proof fn lemma_push_holds<A>(s: Seq<A>, x: A, y: A)
    ensures
        s.push(x).contains(y) <==> s.contains(y) || y == x,
{
    let t = s.push(x);
    if s.contains(y) {
        let i = choose|i: int| 0 <= i < s.len() && s[i] == y;
        assert(t[i] == y);
    }
    assert(t[s.len() as int] == x);
    if t.contains(y) {
        let i = choose|i: int| 0 <= i < t.len() && t[i] == y;
        if i < s.len() {
            assert(s[i] == y);
        }
    }
}

/// Rates are reported every thirty seconds, not earlier: a report lists each aircraft that is
/// there with the messages since the last one, and counting starts afresh. Between two reports
/// nothing is cleared.
pub proof fn law_rates_cover_the_window(e: Traffic, now: u64, i: int)
    requires
        0 <= i < kept(e.aircraft, now).len(),
        e.last_rate_report <= now,
    ensures
        ({
            let t = kept(e.aircraft, now);
            let due = now - e.last_rate_report >= 30_000_000_000;
            &&& due <==> report(e, now) is Some
            &&& report(e, now) matches Some(r) ==> r.0 == now - e.last_rate_report && r.1.len()
                == t.len() && r.1[i] == (t[i].addr, t[i].msgs)
            &&& due ==> ticked(e, now).aircraft[i].msgs == 0 && ticked(e, now).last_rate_report
                == now
            &&& !due ==> ticked(e, now).aircraft[i].msgs == t[i].msgs && ticked(
                e,
                now,
            ).last_rate_report == e.last_rate_report
            &&& ticked(e, now).aircraft.len() == t.len()
            &&& ticked(e, now).aircraft[i].addr == t[i].addr
        }),
{
}

/// A pair that goes out is noted for the servers that it went to and for no other.
pub proof fn law_sync_is_noted_for_requesters(a: Craft, now: u64, s: int)
    requires
        0 <= s < a.servers.len(),
    ensures
        synced(a, now).servers.len() == a.servers.len(),
        a.servers[s].requested ==> synced(a, now).servers[s].last_sync == Some(now),
        !a.servers[s].requested ==> synced(a, now).servers[s] == a.servers[s],
        synced(a, now).servers[s].requested == a.servers[s].requested,
        synced(a, now).servers[s].announced == a.servers[s].announced,
        synced(a, now).even == a.even && synced(a, now).odd == a.odd,
{
}

} // verus!
