//! Server state of one shard: receivers, clock models, open groups and tracks.
//!
//! `M` is the clock model of a receiver pair. It is trained and read by the
//! caller; the state decides which models exist, who trains them and when they
//! are dropped.

use std::collections::HashMap;
use vstd::prelude::*;

use crate::icao::Icao;
use crate::reading::Reading;
use crate::server::cluster::is_quarantined;
use crate::server::grouping::{
    read_locatable, read_sync_pair, Arrival, Group, Groups, Report,
    SyncPair, SyncPoints, MAX_REPORTERS,
};
use crate::server::pairs::{training_steps, PairTable, Training};
use crate::server::publish::{
    judge, next_bias, next_offset, solve_gate, Fix, Gate, Track, Verdict,
};
use crate::server::receivers::{Geodetic, ReceiverInfo, Receivers, RxRef};

verus! {

/// The state as a mathematical value.
pub struct Shard<M> {
    pub receivers: crate::server::receivers::Slots,
    pub pairs: Seq<(usize, usize, M)>,
    /// Offset of the output clock, by reference slot.
    pub offsets: Map<usize, Reading>,
    pub points: Seq<crate::server::grouping::SyncPointView>,
    pub groups: Seq<crate::server::grouping::GroupView>,
    pub alts: Map<u32, i32>,
    /// Last broadcast position and when it was heard, by address.
    pub claims: Map<u32, (Geodetic, Reading)>,
    pub tracks: Map<u32, Track>,
    pub mlat_adsb: bool,
    pub solved: u64,
    pub rejected: u64,
    pub sync_obs: u64,
}

/// One more, up to the largest counter value.
pub open spec fn counted(n: u64, more: int) -> u64 {
    if n + more <= u64::MAX {
        (n + more) as u64
    } else {
        u64::MAX
    }
}

/// The state once a slot's clock is no longer known.
pub open spec fn clock_forgotten<M>(s: Shard<M>, idx: usize) -> Shard<M> {
    Shard { pairs: crate::server::pairs::without_slot(s.pairs, idx), ..s }
}

/// The state after `clock_reset`.
pub open spec fn clock_restarted<M>(s: Shard<M>, r: RxRef) -> Shard<M> {
    if crate::server::receivers::is_live(s.receivers, r) {
        clock_forgotten(s, r.idx)
    } else {
        s
    }
}

/// The state once a slot's holder left.
pub open spec fn departed<M>(s: Shard<M>, idx: usize) -> Shard<M> {
    Shard { offsets: s.offsets.remove(idx), ..clock_forgotten(s, idx) }
}

/// The state after `add_receiver`.
pub open spec fn joined<M>(
    s: Shard<M>,
    user: Seq<char>,
    site: crate::server::receivers::Site,
) -> (Shard<M>, RxRef) {
    let a = crate::server::receivers::added(s.receivers, user, site);
    let t = match crate::server::receivers::replaced_slot(s.receivers, user) {
        Some(i) => departed(s, i as usize),
        None => s,
    };
    (Shard { receivers: a.0, ..t }, a.1)
}

/// The state after `remove_receiver`.
pub open spec fn left<M>(s: Shard<M>, r: RxRef) -> Shard<M> {
    if crate::server::receivers::is_live(s.receivers, r) {
        Shard {
            receivers: crate::server::receivers::removed(s.receivers, r),
            ..departed(s, r.idx)
        }
    } else {
        s
    }
}

/// The state after a frame to locate arrived.
pub open spec fn frame_arrived<M>(
    s: Shard<M>,
    r: RxRef,
    hex: Seq<char>,
    t_s: Reading,
    at: Reading,
    now: u64,
) -> Shard<M> {
    if !crate::server::receivers::is_live(s.receivers, r) {
        s
    } else {
        match crate::server::grouping::locatable(hex, s.mlat_adsb) {
            None => s,
            Some(f) => Shard {
                groups: crate::server::grouping::arrived(
                    s.groups,
                    hex,
                    f,
                    Arrival { rx: r.idx, t_s, at_scaled: at },
                    now,
                ),
                alts: match f.alt_ft {
                    Some(a) => s.alts.insert(f.icao.0, a),
                    None => s.alts,
                },
                ..s
            },
        }
    }
}

/// The reports that train a clock against receiver `rx`: those of other receivers
/// that are still there.
pub open spec fn trainees(
    slots: Seq<crate::server::receivers::Slot>,
    rx: usize,
    others: Seq<Report>,
) -> Seq<Report>
    decreases others.len(),
{
    if others.len() == 0 {
        seq![]
    } else {
        let rest = trainees(slots, rx, others.drop_last());
        let o = others.last();
        if o.rx != rx && o.rx < slots.len() && slots[o.rx as int].alive {
            rest.push(o)
        } else {
            rest
        }
    }
}

/// What a sync message says once its times are corrected.
#[derive(Debug)]
pub struct Sync {
    /// Corrected transmit times of the even and the odd frame.
    pub te: Reading,
    pub to: Reading,
    /// Arrival time of the even frame in the receiver's clock.
    pub t_s: Reading,
    /// The position that the even frame claims.
    pub claimed: Geodetic,
    pub at_scaled: Reading,
}

/// The state after a sync message, before its sync point is touched: altitude and
/// position claim are noted, and where ADS-B aircraft are located too the even
/// frame joins its group.
pub open spec fn sync_noted<M>(
    s: Shard<M>,
    r: RxRef,
    em: Seq<char>,
    pair: SyncPair,
    y: Sync,
    now: u64,
) -> Shard<M> {
    let noted = Shard {
        alts: match pair.alt_ft {
            Some(a) => s.alts.insert(pair.icao.0, a),
            None => s.alts,
        },
        claims: s.claims.insert(pair.icao.0, (y.claimed, y.at_scaled)),
        ..s
    };
    if s.mlat_adsb {
        frame_arrived(noted, r, em, y.t_s, y.at_scaled, now)
    } else {
        noted
    }
}

/// The state after a sync message, and the steps by which it trains clocks. Where the
/// receiver is not there, the two frames are no pair or their position cannot be
/// decoded, nothing changes.
pub open spec fn synced<M>(
    s: Shard<M>,
    r: RxRef,
    em: Seq<char>,
    om: Seq<char>,
    y: Option<Sync>,
    now: u64,
) -> (Shard<M>, Seq<Training>) {
    if !crate::server::receivers::is_live(s.receivers, r) {
        (s, seq![])
    } else {
        match (crate::server::grouping::pair_of(em, om), y) {
            (Some(pair), Some(y)) => {
                let n = sync_noted(s, r, em, pair, y, now);
                let report = Report { rx: r.idx, te: y.te, to: y.to };
                let train = heard_by_others(s, r, em, om);
                (
                    Shard {
                        points: crate::server::grouping::reported(
                            s.points,
                            em,
                            om,
                            report,
                            MAX_REPORTERS,
                            now,
                        ),
                        sync_obs: counted(s.sync_obs, 2 * train.len() as int),
                        ..n
                    },
                    crate::server::pairs::steps_with(report, train),
                )
            },
            _ => (s, seq![]),
        }
    }
}

/// The reports of a sync point that a new one of a receiver trains against.
pub open spec fn heard_by_others<M>(s: Shard<M>, r: RxRef, em: Seq<char>, om: Seq<char>) -> Seq<
    Report,
> {
    trainees(
        s.receivers.slots,
        r.idx,
        crate::server::grouping::company(s.points, em, om, MAX_REPORTERS),
    )
}

/// The track of an aircraft.
pub open spec fn track_of<M>(s: Shard<M>, icao: Icao) -> Track {
    if s.tracks.dom().contains(icao.0) {
        s.tracks[icao.0]
    } else {
        crate::server::publish::no_track()
    }
}

/// The altitude of an aircraft.
pub open spec fn alt_of<M>(s: Shard<M>, icao: Icao) -> Option<i32> {
    if s.alts.dom().contains(icao.0) {
        Some(s.alts[icao.0])
    } else {
        None
    }
}

/// The state and the decision on a cluster before its solve.
pub open spec fn solve_begun<M>(
    s: Shard<M>,
    icao: Icao,
    n_obs: usize,
    since_attempt: Reading,
    since_fix: Reading,
    now: Reading,
) -> (Shard<M>, Gate) {
    let track = track_of(s, icao);
    let g = crate::server::publish::gate_of(
        track,
        n_obs,
        alt_of(s, icao),
        since_attempt,
        since_fix,
    );
    let t = if g is Solve {
        Track { last_attempt: now, ..track }
    } else {
        track
    };
    (
        Shard {
            tracks: s.tracks.insert(icao.0, t),
            rejected: if g is ZeroRedundancy {
                counted(s.rejected, 1)
            } else {
                s.rejected
            },
            ..s
        },
        g,
    )
}

/// The state and the verdict after a solve.
pub open spec fn solve_finished<M>(
    s: Shard<M>,
    icao: Icao,
    df17: bool,
    n_rx: usize,
    fix: Option<Fix>,
    claim_age: Option<Reading>,
    now: Reading,
) -> (Shard<M>, Verdict) {
    let track = track_of(s, icao);
    let v = crate::server::publish::verdict_of(track, df17, n_rx, fix, claim_age);
    (
        Shard {
            tracks: s.tracks.insert(
                icao.0,
                crate::server::publish::track_after(track, df17, fix, now),
            ),
            rejected: if v is Rejected {
                counted(s.rejected, 1)
            } else {
                s.rejected
            },
            solved: if v is Publish {
                counted(s.solved, 1)
            } else {
                s.solved
            },
            ..s
        },
        v,
    )
}

/// Live slots among the first `n` with the slots they have clock models towards.
pub open spec fn peer_lists<M>(s: Shard<M>, n: int) -> Seq<(usize, Seq<usize>)>
    decreases n,
{
    if n <= 0 {
        seq![]
    } else {
        let rest = peer_lists(s, n - 1);
        if s.receivers.slots[n - 1].alive {
            rest.push(((n - 1) as usize, crate::server::pairs::peers(s.pairs, (n - 1) as usize)))
        } else {
            rest
        }
    }
}

/// The views of peer lists.
pub open spec fn peer_views(v: Seq<(usize, Vec<usize>)>) -> Seq<(usize, Seq<usize>)> {
    v.map_values(|e: (usize, Vec<usize>)| (e.0, e.1@))
}

/// Per-shard server state.
#[derive(Debug)]
pub struct State<M> {
    receivers: Receivers,
    pairs: PairTable<M>,
    stamp_offset: HashMap<usize, Reading>,
    syncpoints: SyncPoints,
    groups: Groups,
    alts_ft: HashMap<u32, i32>,
    adsb_pos: HashMap<u32, (Geodetic, Reading)>,
    tracks: HashMap<u32, Track>,
    mlat_adsb: bool,
    stats_solved: u64,
    stats_rejected: u64,
    stats_sync_obs: u64,
}

impl<M> View for State<M> {
    type V = Shard<M>;

    closed spec fn view(&self) -> Shard<M> {
        Shard {
            receivers: self.receivers@,
            pairs: self.pairs.table(),
            offsets: self.stamp_offset@,
            points: self.syncpoints@,
            groups: self.groups@,
            alts: self.alts_ft@,
            claims: self.adsb_pos@,
            tracks: self.tracks@,
            mlat_adsb: self.mlat_adsb,
            solved: self.stats_solved,
            rejected: self.stats_rejected,
            sync_obs: self.stats_sync_obs,
        }
    }
}

impl<M> State<M> {
    /// What holds of every state; see `slots_ok`.
    pub open spec fn wf(&self) -> bool {
        crate::server::receivers::slots_ok(self@.receivers)
    }

    /// An empty state. `mlat_adsb` says that ADS-B aircraft are located too.
    pub fn new(mlat_adsb: bool) -> (r: Self)
        ensures
            r.wf(),
            r@ == (Shard::<M> {
                receivers: crate::server::receivers::Slots { slots: seq![], free: seq![] },
                pairs: seq![],
                offsets: Map::empty(),
                points: seq![],
                groups: seq![],
                alts: Map::empty(),
                claims: Map::empty(),
                tracks: Map::empty(),
                mlat_adsb,
                solved: 0,
                rejected: 0,
                sync_obs: 0,
            }),
    {
        State {
            receivers: Receivers::new(),
            pairs: PairTable::new(),
            stamp_offset: HashMap::new(),
            syncpoints: SyncPoints::new(),
            groups: Groups::new(),
            alts_ft: HashMap::new(),
            adsb_pos: HashMap::new(),
            tracks: HashMap::new(),
            mlat_adsb,
            stats_solved: 0,
            stats_rejected: 0,
            stats_sync_obs: 0,
        }
    }

    pub fn receivers(&self) -> (r: &Receivers)
        ensures
            r@ == self@.receivers,
    {
        &self.receivers
    }

    /// Counters: live receivers, sync observations, published and rejected fixes.
    pub fn stats(&self) -> (r: (usize, u64, u64, u64))
        ensures
            r.0 == crate::server::receivers::live_count(
                self@.receivers.slots,
                self@.receivers.slots.len() as int,
            ),
            r.1 == self@.sync_obs,
            r.2 == self@.solved,
            r.3 == self@.rejected,
    {
        (
            self.receivers.live_receivers(),
            self.stats_sync_obs,
            self.stats_solved,
            self.stats_rejected,
        )
    }

    pub fn live_receivers(&self) -> (r: usize)
        ensures
            r == crate::server::receivers::live_count(
                self@.receivers.slots,
                self@.receivers.slots.len() as int,
            ),
    {
        self.receivers.live_receivers()
    }

    pub fn live(&self, r: RxRef) -> (b: bool)
        ensures
            b == crate::server::receivers::is_live(self@.receivers, r),
    {
        self.receivers.live(r)
    }

    /// Gives a receiver a slot. The same user's old slot is replaced, and what was
    /// known of its clock goes with it.
    pub fn add_receiver(&mut self, info: ReceiverInfo) -> (r: RxRef)
        requires
            old(self).wf(),
            old(self)@.receivers.slots.len() < usize::MAX,
        ensures
            final(self).wf(),
            (final(self)@, r) == joined(old(self)@, info.user@, info.site),
            crate::server::receivers::is_live(final(self)@.receivers, r),
    {
        broadcast use vstd::std_specs::hash::group_hash_axioms;

        let (r, given_up) = self.receivers.add(info);
        if let Some(i) = given_up {
            self.pairs.forget(i);
            self.stamp_offset.remove(&i);
        }
        r
    }

    /// A receiver left. A stale reference changes nothing.
    pub fn remove_receiver(&mut self, r: RxRef)
        requires
            old(self).wf(),
        ensures
            final(self).wf(),
            final(self)@ == left(old(self)@, r),
    {
        broadcast use vstd::std_specs::hash::group_hash_axioms;

        if self.receivers.remove(r) {
            self.pairs.forget(r.idx);
            self.stamp_offset.remove(&r.idx);
        }
    }

    /// A receiver's clock restarted: its models are dropped. A stale reference
    /// changes nothing.
    pub fn clock_reset(&mut self, r: RxRef)
        requires
            old(self).wf(),
        ensures
            final(self).wf(),
            final(self)@ == clock_restarted(old(self)@, r),
    {
        if self.receivers.live(r) {
            self.pairs.forget(r.idx);
        }
    }

    /// The clock model of a pair of slots.
    pub fn model(&self, a: usize, b: usize) -> (r: Option<&M>)
        ensures
            match r {
                Some(m) => crate::server::pairs::model_of(self@.pairs, a, b) == Some(*m),
                None => crate::server::pairs::model_of(self@.pairs, a, b) is None,
            },
    {
        self.pairs.get(a, b)
    }

    /// Enters the clock model of a pair of slots and returns the one it replaces.
    pub fn put_model(&mut self, a: usize, b: usize, m: M) -> (r: Option<M>)
        requires
            old(self).wf(),
        ensures
            final(self).wf(),
            r == crate::server::pairs::model_of(old(self)@.pairs, a, b),
            final(self)@ == (Shard {
                pairs: crate::server::pairs::with_model(old(self)@.pairs, a, b, m),
                ..old(self)@
            }),
    {
        self.pairs.put(a, b, m)
    }

    /// The frames of a sync message, where they make a pair and the receiver is
    /// there.
    pub fn sync_pair(&self, r: RxRef, em: &str, om: &str) -> (p: Option<SyncPair>)
        ensures
            p == (if crate::server::receivers::is_live(self@.receivers, r) {
                crate::server::grouping::pair_of(em@, om@)
            } else {
                None
            }),
    {
        if !self.receivers.live(r) {
            return None;
        }
        read_sync_pair(em, om)
    }

    /// A sync message: the same even/odd pair seen by several receivers is the
    /// shared event that trains pair clocks. Returns the steps of that training.
    /// Frames that make no pair or whose position cannot be decoded, and a stale
    /// reference, change nothing.
    pub fn on_sync(
        &mut self,
        r: RxRef,
        em: &str,
        om: &str,
        y: Option<Sync>,
        now: u64,
    ) -> (steps: Vec<Training>)
        requires
            old(self).wf(),
        ensures
            final(self).wf(),
            (final(self)@, steps@) == synced(old(self)@, r, em@, om@, y, now),
    {
        broadcast use vstd::std_specs::hash::group_hash_axioms;

        let ghost s0 = self@;
        let (pair, y) = match (self.sync_pair(r, em, om), y) {
            (Some(p), Some(y)) => (p, y),
            _ => {
                return Vec::new();
            },
        };
        if let Some(a) = pair.alt_ft {
            self.alts_ft.insert(pair.icao.0, a);
        }
        self.adsb_pos.insert(pair.icao.0, (y.claimed, y.at_scaled));
        if self.mlat_adsb {
            self.on_mlat(r, em, y.t_s, y.at_scaled, now);
        }
        assert(self@ == sync_noted(s0, r, em@, pair, y, now));
        let report = Report { rx: r.idx, te: y.te, to: y.to };
        let others = self.syncpoints.report(em, om, report, MAX_REPORTERS, now);
        let ghost all = others@;
        let mut train: Vec<Report> = Vec::new();
        let mut i: usize = 0;
        while i < others.len()
            invariant
                all == others@,
                i <= all.len(),
                self.receivers@ == s0.receivers,
                train@ == trainees(s0.receivers.slots, r.idx, all.take(i as int)),
            decreases all.len() - i,
        {
            assert(all.take(i + 1).drop_last() =~= all.take(i as int));
            assert(all.take(i + 1).last() == all[i as int]);
            let o = others[i];
            if o.rx != r.idx && self.receivers.alive(o.rx) {
                train.push(o);
            }
            i = i + 1;
        }
        assert(all.take(all.len() as int) =~= all);
        let n: u64 = train.len() as u64;
        self.stats_sync_obs = self.stats_sync_obs.saturating_add(n).saturating_add(n);
        training_steps(report, &train)
    }

    /// An mlat message: identical frames are grouped across receivers.
    pub fn on_mlat(&mut self, r: RxRef, hex: &str, t_s: Reading, at: Reading, now: u64)
        requires
            old(self).wf(),
        ensures
            final(self).wf(),
            final(self)@ == frame_arrived(old(self)@, r, hex@, t_s, at, now),
    {
        broadcast use vstd::std_specs::hash::group_hash_axioms;

        if !self.receivers.live(r) {
            return ;
        }
        let f = match read_locatable(hex, self.mlat_adsb) {
            Some(f) => f,
            None => {
                return ;
            },
        };
        if let Some(a) = f.alt_ft {
            self.alts_ft.insert(f.icao.0, a);
        }
        self.groups.enter(hex, f, Arrival { rx: r.idx, t_s, at_scaled: at }, now);
    }

    /// Takes out the groups older than the window, to be solved, and expires stale
    /// sync points.
    pub fn sweep(&mut self, now: u64, window_ns: u64) -> (r: Vec<Group>)
        requires
            old(self).wf(),
        ensures
            final(self).wf(),
            crate::server::grouping::group_views(r@) == crate::server::grouping::by_ready(
                old(self)@.groups,
                now,
                window_ns,
                true,
            ),
            final(self)@ == (Shard {
                groups: crate::server::grouping::by_ready(
                    old(self)@.groups,
                    now,
                    window_ns,
                    false,
                ),
                points: crate::server::grouping::young(old(self)@.points, now),
                ..old(self)@
            }),
    {
        self.syncpoints.expire(now);
        self.groups.take_ready(now, window_ns)
    }

    /// The track of an aircraft; a fresh one where it was never solved.
    pub fn track(&self, icao: Icao) -> (r: Track)
        ensures
            r == track_of(self@, icao),
    {
        broadcast use vstd::std_specs::hash::group_hash_axioms;

        match self.tracks.get(&icao.0) {
            Some(t) => *t,
            None => Track {
                last_pos: None,
                last_time: Reading(0),
                last_attempt: Reading(0),
                speed_rejects: 0,
            },
        }
    }

    /// The aircraft's last broadcast position and when it was heard.
    pub fn claimed(&self, icao: Icao) -> (r: Option<(Geodetic, Reading)>)
        ensures
            r == (if self@.claims.dom().contains(icao.0) {
                Some(self@.claims[icao.0])
            } else {
                None
            }),
    {
        broadcast use vstd::std_specs::hash::group_hash_axioms;

        match self.adsb_pos.get(&icao.0) {
            Some(c) => Some(*c),
            None => None,
        }
    }

    /// The offset kept for a reference slot.
    pub fn offset(&self, rx: usize) -> (r: Option<Reading>)
        ensures
            r == (if self@.offsets.dom().contains(rx) {
                Some(self@.offsets[rx])
            } else {
                None
            }),
    {
        broadcast use vstd::std_specs::hash::group_hash_axioms;

        match self.stamp_offset.get(&rx) {
            Some(o) => Some(*o),
            None => None,
        }
    }

    /// Follows the offset between the output clock and a reference clock; `risen`
    /// is the known offset moved slowly towards `delta`.
    pub fn follow_offset(&mut self, rx: usize, delta: Reading, risen: Reading) -> (r: Reading)
        requires
            old(self).wf(),
        ensures
            final(self).wf(),
            r == crate::server::publish::offset_of(
                (if old(self)@.offsets.dom().contains(rx) {
                    Some(old(self)@.offsets[rx])
                } else {
                    None
                }),
                delta,
                risen,
            ),
            final(self)@ == (Shard { offsets: old(self)@.offsets.insert(rx, r), ..old(self)@ }),
    {
        broadcast use vstd::std_specs::hash::group_hash_axioms;

        let off = next_offset(self.offset(rx), delta, risen);
        self.stamp_offset.insert(rx, off);
        off
    }

    /// Decides whether a cluster of `n_obs` observations is solved.
    pub fn begin_solve(
        &mut self,
        icao: Icao,
        n_obs: usize,
        since_attempt: Reading,
        since_fix: Reading,
        now: Reading,
    ) -> (r: Gate)
        requires
            old(self).wf(),
        ensures
            final(self).wf(),
            (final(self)@, r) == solve_begun(
                old(self)@,
                icao,
                n_obs,
                since_attempt,
                since_fix,
                now,
            ),
    {
        broadcast use vstd::std_specs::hash::group_hash_axioms;

        let mut track = self.track(icao);
        let alt: Option<i32> = match self.alts_ft.get(&icao.0) {
            Some(a) => Some(*a),
            None => None,
        };
        let g = solve_gate(track, n_obs, alt, since_attempt, since_fix);
        match g {
            Gate::ZeroRedundancy => {
                self.stats_rejected = self.stats_rejected.saturating_add(1);
            },
            Gate::Solve { .. } => {
                track.last_attempt = now;
            },
            _ => {},
        }
        self.tracks.insert(icao.0, track);
        g
    }

    /// Judges the solution of a cluster of `n_rx` receivers.
    pub fn finish_solve(
        &mut self,
        icao: Icao,
        df17: bool,
        n_rx: usize,
        fix: Option<Fix>,
        claim_age: Option<Reading>,
        now: Reading,
    ) -> (r: Verdict)
        requires
            old(self).wf(),
        ensures
            final(self).wf(),
            (final(self)@, r) == solve_finished(
                old(self)@,
                icao,
                df17,
                n_rx,
                fix,
                claim_age,
                now,
            ),
    {
        broadcast use vstd::std_specs::hash::group_hash_axioms;

        let track = self.track(icao);
        let (v, t) = judge(track, df17, n_rx, fix, claim_age, now);
        self.tracks.insert(icao.0, t);
        match v {
            Verdict::Rejected => {
                self.stats_rejected = self.stats_rejected.saturating_add(1);
            },
            Verdict::Publish { .. } => {
                self.stats_solved = self.stats_solved.saturating_add(1);
            },
            _ => {},
        }
        v
    }

    /// A slot's holder learns from its residual in a solve; see `bias_after`.
    pub fn learn(&mut self, idx: usize, bias_s: Reading, mad_s: Reading, df17: bool)
        requires
            old(self).wf(),
            idx < old(self)@.receivers.slots.len(),
        ensures
            final(self).wf(),
            final(self)@ == (Shard {
                receivers: crate::server::receivers::Slots {
                    slots: old(self)@.receivers.slots.update(
                        idx as int,
                        crate::server::receivers::Slot {
                            bias: crate::server::publish::bias_after(
                                old(self)@.receivers.slots[idx as int].bias,
                                bias_s,
                                mad_s,
                                df17,
                            ),
                            ..old(self)@.receivers.slots[idx as int]
                        },
                    ),
                    ..old(self)@.receivers
                },
                ..old(self)@
            }),
    {
        let b = next_bias(self.receivers.bias(idx), bias_s, mad_s, df17);
        self.receivers.set_bias(idx, b);
    }

    /// The statistics of a receiver that is there: how many slots it has clock models
    /// towards, and whether its scatter keeps it out of solves.
    pub fn receiver_stats(&self, r: RxRef) -> (s: Option<(usize, bool)>)
        ensures
            s == (if crate::server::receivers::is_live(self@.receivers, r) {
                Some(
                    (
                        crate::server::pairs::peers(self@.pairs, r.idx).len() as usize,
                        crate::server::cluster::quarantined(
                            self@.receivers.slots[r.idx as int].bias,
                        ),
                    ),
                )
            } else {
                None
            }),
    {
        if !self.receivers.live(r) {
            return None;
        }
        let peers = self.pairs.peers_of(r.idx);
        Some((peers.len(), is_quarantined(self.receivers.bias(r.idx))))
    }

    /// The live receivers with the slots they have clock models towards: what the
    /// sync status report lists.
    pub fn sync_json(&self) -> (r: Vec<(usize, Vec<usize>)>)
        ensures
            peer_views(r@) == peer_lists(self@, self@.receivers.slots.len() as int),
    {
        let mut out: Vec<(usize, Vec<usize>)> = Vec::new();
        let n: usize = self.receivers.len();
        let mut i: usize = 0;
        assert(peer_views(out@) =~= seq![]);
        while i < n
            invariant
                n == self@.receivers.slots.len(),
                i <= n,
                peer_views(out@) == peer_lists(self@, i as int),
            decreases n - i,
        {
            if self.receivers.alive(i) {
                let ghost so_far = peer_views(out@);
                let p = self.pairs.peers_of(i);
                let ghost e = (i, p@);
                out.push((i, p));
                assert(peer_views(out@) =~= so_far.push(e));
            }
            i = i + 1;
        }
        out
    }
}

/// Messages under a stale reference change nothing: neither a departure, nor a
/// clock reset, nor a frame, nor a sync message.
pub proof fn law_stale_messages_are_ignored<M>(
    s: Shard<M>,
    r: RxRef,
    hex: Seq<char>,
    om: Seq<char>,
    y: Option<Sync>,
    t_s: Reading,
    at: Reading,
    now: u64,
)
    requires
        !crate::server::receivers::is_live(s.receivers, r),
    ensures
        left(s, r) == s,
        clock_restarted(s, r) == s,
        frame_arrived(s, r, hex, t_s, at, now) == s,
        synced(s, r, hex, om, y, now) == (s, Seq::<Training>::empty()),
{
}

/// A sync message trains no clock and counts nothing where its receiver is not there,
/// its frames are no pair or their position cannot be decoded, or its sync point has
/// all the reporters that it takes.
pub proof fn law_useless_sync_trains_nothing<M>(
    s: Shard<M>,
    r: RxRef,
    em: Seq<char>,
    om: Seq<char>,
    y: Option<Sync>,
    now: u64,
)
    requires
        !crate::server::receivers::is_live(s.receivers, r) || crate::server::grouping::pair_of(
            em,
            om,
        ) is None || y is None || crate::server::grouping::reporters_of(s.points, em, om).len()
            >= MAX_REPORTERS,
    ensures
        synced(s, r, em, om, y, now).1 == Seq::<Training>::empty(),
        synced(s, r, em, om, y, now).0.pairs == s.pairs,
        synced(s, r, em, om, y, now).0.sync_obs == s.sync_obs,
        synced(s, r, em, om, y, now).0.solved == s.solved,
        synced(s, r, em, om, y, now).0.rejected == s.rejected,
{
}

/// A sync message makes its receiver and each other live receiver that reported the
/// same frames peers of each other in the sync status report, once a model has been
/// entered for every step; `models` are those models.
pub proof fn law_sync_makes_peers<M>(
    s: Shard<M>,
    r: RxRef,
    em: Seq<char>,
    om: Seq<char>,
    y: Sync,
    now: u64,
    models: Seq<M>,
    k: int,
)
    requires
        crate::server::receivers::is_live(s.receivers, r),
        crate::server::grouping::pair_of(em, om) is Some,
        0 <= k < heard_by_others(s, r, em, om).len(),
    ensures
        ({
            let (n, steps) = synced(s, r, em, om, Some(y), now);
            let t = Shard { pairs: crate::server::pairs::trained(n.pairs, steps, models), ..n };
            let o = heard_by_others(s, r, em, om)[k].rx;
            let lists = peer_lists(t, t.receivers.slots.len() as int);
            &&& lists.contains((r.idx, crate::server::pairs::peers(t.pairs, r.idx)))
            &&& crate::server::pairs::peers(t.pairs, r.idx).contains(o)
            &&& lists.contains((o, crate::server::pairs::peers(t.pairs, o)))
            &&& crate::server::pairs::peers(t.pairs, o).contains(r.idx)
        }),
{
    let (n, steps) = synced(s, r, em, om, Some(y), now);
    let t = Shard { pairs: crate::server::pairs::trained(n.pairs, steps, models), ..n };
    let mine = Report { rx: r.idx, te: y.te, to: y.to };
    let others = heard_by_others(s, r, em, om);
    lemma_trainees_live(
        s.receivers.slots,
        r.idx,
        crate::server::grouping::company(s.points, em, om, MAX_REPORTERS),
        k,
    );
    crate::server::pairs::law_training_makes_peers(n.pairs, mine, others, models, k);
    lemma_live_are_listed(t, r.idx, t.receivers.slots.len() as int);
    lemma_live_are_listed(t, others[k].rx, t.receivers.slots.len() as int);
}

proof fn lemma_trainees_live(
    slots: Seq<crate::server::receivers::Slot>,
    rx: usize,
    others: Seq<Report>,
    k: int,
)
    requires
        0 <= k < trainees(slots, rx, others).len(),
    ensures
        ({
            let o = trainees(slots, rx, others)[k];
            o.rx != rx && o.rx < slots.len() && slots[o.rx as int].alive
        }),
    decreases others.len(),
{
    if others.len() > 0 {
        let rest = trainees(slots, rx, others.drop_last());
        if k < rest.len() {
            lemma_trainees_live(slots, rx, others.drop_last(), k);
        }
    }
}

proof fn lemma_live_are_listed<M>(s: Shard<M>, i: usize, n: int)
    requires
        i < n <= s.receivers.slots.len(),
        s.receivers.slots[i as int].alive,
    ensures
        peer_lists(s, n).contains((i, crate::server::pairs::peers(s.pairs, i))),
    decreases n,
{
    let e = (i, crate::server::pairs::peers(s.pairs, i));
    let l = peer_lists(s, n);
    if i == n - 1 {
        assert(l[l.len() - 1] == e);
    } else {
        lemma_live_are_listed(s, i, n - 1);
        let less = peer_lists(s, n - 1);
        let k = choose|k: int| 0 <= k < less.len() && less[k] == e;
        assert(l[k] == e);
    }
}

/// Nobody holds the slot.
pub open spec fn vacant<M>(s: Shard<M>, i: usize) -> bool {
    i >= s.receivers.slots.len() || !s.receivers.slots[i as int].alive
}

/// Nothing is known of the slot's clock.
pub open spec fn clockless<M>(s: Shard<M>, i: usize) -> bool {
    &&& !s.offsets.dom().contains(i)
    &&& forall|k: usize|
        (#[trigger] crate::server::pairs::model_of(s.pairs, i, k)) is None
            && crate::server::pairs::model_of(s.pairs, k, i) is None
}

/// A receiver that leaves takes all that was known of its clock with it.
pub proof fn law_departure_leaves_no_clock<M>(s: Shard<M>, r: RxRef)
    requires
        crate::server::receivers::is_live(s.receivers, r),
    ensures
        clockless(left(s, r), r.idx),
{
    let t = left(s, r);
    assert forall|k: usize|
        (#[trigger] crate::server::pairs::model_of(t.pairs, r.idx, k)) is None
            && crate::server::pairs::model_of(t.pairs, k, r.idx) is None by {
        crate::server::pairs::law_forgotten_slot_has_no_pairs(s.pairs, r.idx, r.idx, k);
        crate::server::pairs::law_forgotten_slot_has_no_pairs(s.pairs, r.idx, k, r.idx);
    }
}

/// A slot starts without history: when a receiver joins, no clock model and no
/// offset of an earlier holder of its slot is left, provided that none of a free
/// slot was there before.
pub proof fn law_slot_starts_clean<M>(
    s: Shard<M>,
    user: Seq<char>,
    site: crate::server::receivers::Site,
)
    requires
        crate::server::receivers::slots_ok(s.receivers),
        forall|i: usize| #[trigger] vacant(s, i) ==> clockless(s, i),
    ensures
        ({
            let j = joined(s, user, site);
            clockless(j.0, j.1.idx)
        }),
{
    let j = joined(s, user, site);
    let u = crate::server::receivers::before_add(s.receivers, user);
    crate::server::receivers::lemma_before_add(s.receivers, user);
    if u.free.len() > 0 {
        assert(u.free[u.free.len() - 1] < u.slots.len());
    }
    let k = j.1.idx;
    assert forall|other: usize|
        (#[trigger] crate::server::pairs::model_of(j.0.pairs, k, other)) is None
            && crate::server::pairs::model_of(j.0.pairs, other, k) is None by {
        match crate::server::receivers::replaced_slot(s.receivers, user) {
            Some(i) => {
                crate::server::pairs::law_forgotten_slot_has_no_pairs(
                    s.pairs,
                    i as usize,
                    k,
                    other,
                );
                crate::server::pairs::law_forgotten_slot_has_no_pairs(
                    s.pairs,
                    i as usize,
                    other,
                    k,
                );
            },
            None => {
                assert(vacant(s, k));
                assert(crate::server::pairs::model_of(s.pairs, k, other) is None);
            },
        }
    }
    if crate::server::receivers::replaced_slot(s.receivers, user) is None {
        assert(vacant(s, k));
    }
}

// --------------------------------------------------------- what the state keeps

/// The reports that train a clock are those of other receivers that are still there, all of
/// them.
pub proof fn law_trainees_are_other_live_receivers(
    slots: Seq<crate::server::receivers::Slot>,
    rx: usize,
    others: Seq<Report>,
    x: Report,
)
    ensures
        trainees(slots, rx, others).contains(x) <==> others.contains(x) && x.rx != rx && x.rx
            < slots.len() && slots[x.rx as int].alive,
        trainees(slots, rx, others).len() <= others.len(),
        (forall|i: int|
            0 <= i < others.len() ==> (#[trigger] others[i]).rx != rx && others[i].rx < slots.len()
                && slots[others[i].rx as int].alive) ==> trainees(slots, rx, others) == others,
    decreases others.len(),
{
    if others.len() > 0 {
        let r = others.drop_last();
        law_trainees_are_other_live_receivers(slots, rx, r, x);
        let (b, b0) = (trainees(slots, rx, others), trainees(slots, rx, r));
        if b0.contains(x) {
            let i = choose|i: int| 0 <= i < b0.len() && b0[i] == x;
            assert(b[i] == x);
            let k = choose|k: int| 0 <= k < r.len() && r[k] == x;
            assert(others[k] == x);
        }
        if b.contains(x) {
            let i = choose|i: int| 0 <= i < b.len() && b[i] == x;
            if i < b0.len() {
                assert(b0[i] == x);
            } else {
                assert(others[others.len() - 1] == x);
            }
        }
        if others.contains(x) && x.rx != rx && x.rx < slots.len() && slots[x.rx as int].alive {
            let k = choose|k: int| 0 <= k < others.len() && others[k] == x;
            if k < r.len() {
                assert(r[k] == x);
            } else {
                assert(b[b0.len() as int] == x);
            }
        }
        if forall|i: int|
            0 <= i < others.len() ==> (#[trigger] others[i]).rx != rx && others[i].rx < slots.len()
                && slots[others[i].rx as int].alive {
            assert forall|i: int| 0 <= i < r.len() implies (#[trigger] r[i]).rx != rx && r[i].rx
                < slots.len() && slots[r[i].rx as int].alive by {
                assert(others[i].rx != rx);
            }
            assert(others[others.len() - 1].rx != rx);
            assert(b =~= others);
        }
    } else {
        assert(trainees(slots, rx, others) =~= others);
    }
}

/// A sync message of a receiver that is there notes what its pair says: the position that the
/// aircraft claims, its altitude where the even frame has one, and the report behind the
/// others of the same frames, up to their limit. Nothing that is known of other aircraft
/// changes, and no counter but that of sync observations: two for each report that it trains
/// against, of which four steps follow.
pub proof fn law_sync_notes_its_pair<M>(
    s: Shard<M>,
    r: RxRef,
    em: Seq<char>,
    om: Seq<char>,
    y: Sync,
    now: u64,
    other: u32,
)
    requires
        crate::server::receivers::is_live(s.receivers, r),
        crate::server::grouping::pair_of(em, om) is Some,
    ensures
        ({
            let p = crate::server::grouping::pair_of(em, om)->0;
            let (t, steps) = synced(s, r, em, om, Some(y), now);
            &&& t.claims.dom().contains(p.icao.0) && t.claims[p.icao.0] == (y.claimed, y.at_scaled)
            &&& other != p.icao.0 ==> t.claims.dom().contains(other) == s.claims.dom().contains(
                other,
            ) && t.claims[other] == s.claims[other]
            &&& p.alt_ft matches Some(a) ==> (!s.mlat_adsb ==> t.alts.dom().contains(p.icao.0)
                && t.alts[p.icao.0] == a)
            &&& p.alt_ft is None && !s.mlat_adsb ==> t.alts == s.alts
            &&& !s.mlat_adsb ==> t.groups == s.groups
            &&& t.receivers == s.receivers && t.pairs == s.pairs && t.offsets == s.offsets
            &&& t.tracks == s.tracks && t.solved == s.solved && t.rejected == s.rejected
            &&& steps.len() == 4 * heard_by_others(s, r, em, om).len()
            &&& s.sync_obs + steps.len() / 2 <= u64::MAX ==> t.sync_obs == s.sync_obs + steps.len() / 2
            &&& crate::server::grouping::reporters_of(s.points, em, om).len() < 15
                ==> crate::server::grouping::reporters_of(t.points, em, om)
                == crate::server::grouping::reporters_of(s.points, em, om).push(
                Report { rx: r.idx, te: y.te, to: y.to },
            )
            &&& crate::server::grouping::reporters_of(t.points, em, om).len() <= 15
                || crate::server::grouping::reporters_of(t.points, em, om)
                == crate::server::grouping::reporters_of(s.points, em, om)
        }),
{
    let report = Report { rx: r.idx, te: y.te, to: y.to };
    crate::server::pairs::law_four_steps_with_each(report, heard_by_others(s, r, em, om));
    crate::server::grouping::law_reporters_grow(s.points, em, om, report, MAX_REPORTERS, now);
    crate::server::grouping::law_position_is_locatable(em);
}

/// A frame of a receiver that is there joins its group with that receiver's slot, and its
/// altitude is noted; a frame that cannot be located changes nothing.
pub proof fn law_frames_join_their_group<M>(
    s: Shard<M>,
    r: RxRef,
    hex: Seq<char>,
    t_s: Reading,
    at: Reading,
    now: u64,
)
    requires
        crate::server::receivers::is_live(s.receivers, r),
    ensures
        ({
            let t = frame_arrived(s, r, hex, t_s, at, now);
            let loc = crate::server::grouping::locatable(hex, s.mlat_adsb);
            &&& loc is None ==> t == s
            &&& loc is Some ==> crate::server::grouping::arrivals_of(t.groups, hex)
                == crate::server::grouping::arrivals_of(s.groups, hex).push(
                Arrival { rx: r.idx, t_s, at_scaled: at },
            ) && crate::server::grouping::held(t.groups) == crate::server::grouping::held(s.groups)
                + 1
            &&& loc matches Some(f) ==> (f.alt_ft matches Some(x) ==> t.alts.dom().contains(f.icao.0)
                && t.alts[f.icao.0] == x) && (f.alt_ft is None ==> t.alts == s.alts)
            &&& t.receivers == s.receivers && t.pairs == s.pairs && t.offsets == s.offsets
            &&& t.points == s.points && t.claims == s.claims && t.tracks == s.tracks
            &&& t.solved == s.solved && t.rejected == s.rejected && t.sync_obs == s.sync_obs
        }),
{
    if let Some(f) = crate::server::grouping::locatable(hex, s.mlat_adsb) {
        crate::server::grouping::law_arrivals_are_kept(
            s.groups,
            hex,
            f,
            Arrival { rx: r.idx, t_s, at_scaled: at },
            now,
            hex,
        );
    }
}

/// A solve concerns its own aircraft alone, and every solution counts once: published, refused
/// or, for an aircraft that broadcasts, neither.
pub proof fn law_solves_are_counted_once<M>(
    s: Shard<M>,
    icao: Icao,
    df17: bool,
    n_rx: usize,
    fix: Option<Fix>,
    claim_age: Option<Reading>,
    now: Reading,
    other: u32,
)
    requires
        s.solved < u64::MAX,
        s.rejected < u64::MAX,
    ensures
        ({
            let (t, v) = solve_finished(s, icao, df17, n_rx, fix, claim_age, now);
            &&& t.solved + t.rejected == s.solved + s.rejected + (if v is SelfTruth {
                0int
            } else {
                1
            })
            &&& v is Publish <==> t.solved == s.solved + 1
            &&& v is Rejected <==> t.rejected == s.rejected + 1
            &&& v is Publish ==> fix is Some && track_of(t, icao).last_pos == Some(fix->0.pos)
                && track_of(t, icao).last_time == now
            &&& other != icao.0 ==> t.tracks.dom().contains(other) == s.tracks.dom().contains(other)
                && t.tracks[other] == s.tracks[other]
            &&& t.receivers == s.receivers && t.pairs == s.pairs && t.groups == s.groups && t.alts
                == s.alts && t.claims == s.claims && t.points == s.points && t.sync_obs
                == s.sync_obs && t.offsets == s.offsets
        }),
{
    crate::server::publish::law_published_fix_is_the_track(
        track_of(s, icao),
        df17,
        n_rx,
        fix,
        claim_age,
        now,
    );
}

/// An attempt is noted where a solve begins, and nowhere else; a four-receiver cluster that is
/// put off counts as refused.
pub proof fn law_attempts_are_noted<M>(
    s: Shard<M>,
    icao: Icao,
    n_obs: usize,
    since_attempt: Reading,
    since_fix: Reading,
    now: Reading,
    other: u32,
)
    requires
        s.rejected < u64::MAX,
    ensures
        ({
            let (t, g) = solve_begun(s, icao, n_obs, since_attempt, since_fix, now);
            let (before, after) = (track_of(s, icao), track_of(t, icao));
            &&& g is Solve ==> after.last_attempt == now
            &&& !(g is Solve) ==> after == before
            &&& after.last_pos == before.last_pos && after.last_time == before.last_time
                && after.speed_rejects == before.speed_rejects
            &&& g matches Gate::Solve { alt_ft, .. } ==> alt_of(s, icao) == Some(alt_ft)
            &&& t.rejected == s.rejected + (if g is ZeroRedundancy {
                1int
            } else {
                0
            })
            &&& t.solved == s.solved && t.alts == s.alts && t.claims == s.claims && t.pairs
                == s.pairs && t.receivers == s.receivers && t.groups == s.groups
            &&& other != icao.0 ==> t.tracks.dom().contains(other) == s.tracks.dom().contains(other)
                && t.tracks[other] == s.tracks[other]
        }),
{
}

/// The sync status report lists the receivers that are there, each with the slots that it has
/// clock models towards, and no other.
pub proof fn law_live_receivers_are_listed<M>(s: Shard<M>, n: int, i: usize)
    requires
        0 <= n <= s.receivers.slots.len() <= usize::MAX,
        i < n,
    ensures
        s.receivers.slots[i as int].alive ==> peer_lists(s, n).contains(
            (i, crate::server::pairs::peers(s.pairs, i)),
        ),
        forall|k: int|
            0 <= k < peer_lists(s, n).len() ==> {
                let e = #[trigger] peer_lists(s, n)[k];
                &&& e.0 < n && s.receivers.slots[e.0 as int].alive
                &&& e.1 == crate::server::pairs::peers(s.pairs, e.0)
            },
        peer_lists(s, n).len() == crate::server::receivers::live_count(s.receivers.slots, n),
{
    if s.receivers.slots[i as int].alive {
        lemma_live_are_listed(s, i, n);
    }
    lemma_listed_are_live(s, n);
}

proof fn lemma_listed_are_live<M>(s: Shard<M>, n: int)
    requires
        0 <= n <= s.receivers.slots.len() <= usize::MAX,
    ensures
        forall|k: int|
            0 <= k < peer_lists(s, n).len() ==> {
                let e = #[trigger] peer_lists(s, n)[k];
                &&& e.0 < n && s.receivers.slots[e.0 as int].alive
                &&& e.1 == crate::server::pairs::peers(s.pairs, e.0)
            },
        peer_lists(s, n).len() == crate::server::receivers::live_count(s.receivers.slots, n),
    decreases n,
{
    if n > 0 {
        lemma_listed_are_live(s, n - 1);
        let (p, q) = (peer_lists(s, n), peer_lists(s, n - 1));
        assert forall|k: int| 0 <= k < p.len() implies ({
            let e = #[trigger] p[k];
            &&& e.0 < n && s.receivers.slots[e.0 as int].alive
            &&& e.1 == crate::server::pairs::peers(s.pairs, e.0)
        }) by {
            if k < q.len() {
                assert(p[k] == q[k]);
            }
        }
    }
}

/// What joining, leaving and a clock's restart leave alone: groups, sync points, altitudes,
/// claims, tracks and counters stay, and so does every clock model between other receivers.
pub proof fn law_comings_and_goings_are_local<M>(
    s: Shard<M>,
    r: RxRef,
    user: Seq<char>,
    site: crate::server::receivers::Site,
    a: usize,
    b: usize,
)
    ensures
        ({
            let l = left(s, r);
            let c = clock_restarted(s, r);
            let j = joined(s, user, site).0;
            &&& l.groups == s.groups && l.points == s.points && l.alts == s.alts && l.claims
                == s.claims && l.tracks == s.tracks && l.solved == s.solved && l.rejected
                == s.rejected && l.sync_obs == s.sync_obs
            &&& j.groups == s.groups && j.points == s.points && j.alts == s.alts && j.claims
                == s.claims && j.tracks == s.tracks && j.solved == s.solved && j.rejected
                == s.rejected && j.sync_obs == s.sync_obs
            &&& c.groups == s.groups && c.points == s.points && c.receivers == s.receivers
                && c.offsets == s.offsets
            &&& a != r.idx && b != r.idx ==> crate::server::pairs::model_of(l.pairs, a, b)
                == crate::server::pairs::model_of(s.pairs, a, b)
                && crate::server::pairs::model_of(c.pairs, a, b)
                == crate::server::pairs::model_of(s.pairs, a, b)
            &&& crate::server::receivers::is_live(s.receivers, r) ==> crate::server::pairs::model_of(
                c.pairs,
                r.idx,
                b,
            ) is None && crate::server::pairs::model_of(c.pairs, a, r.idx) is None
            &&& a != r.idx ==> l.offsets.dom().contains(a) == s.offsets.dom().contains(a)
                && l.offsets[a] == s.offsets[a]
        }),
{
    crate::server::pairs::law_forgotten_slot_has_no_pairs(s.pairs, r.idx, a, b);
    crate::server::pairs::law_forgotten_slot_has_no_pairs(s.pairs, r.idx, r.idx, b);
    crate::server::pairs::law_forgotten_slot_has_no_pairs(s.pairs, r.idx, a, r.idx);
}

} // verus!
