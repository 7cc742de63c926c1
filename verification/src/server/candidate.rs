//! The first candidate server: one table of receivers around one reference, and a
//! grid of cells in place of split ones.

use std::collections::HashMap;
use vstd::prelude::*;

use crate::icao::Icao;
use crate::proto::json::parse_json;
use crate::reading::Reading;
use crate::server::grouping::{
    read_locatable, read_sync_pair, Arrival, Group, Groups, Report, SyncPoints,
};
use crate::server::pairs::{training_steps, PairTable, Training};
use crate::server::session::{accept_handshake, Admission, Preference, Refusal};

verus! {

/// The outcome of a handshake line: a cheap compression is taken first, and the line
/// need not be complete.
pub open spec fn candidate_greeting(line: Seq<u8>) -> Result<
    crate::server::session::AdmissionView,
    crate::server::session::RefusalView,
> {
    if line.len() == 0 {
        Err(crate::server::session::RefusalView::Closed)
    } else {
        match crate::proto::json::json_of(line) {
            None => Err(crate::server::session::RefusalView::NotJson),
            Some(v) => crate::server::session::handshake_of(v, Preference::Cheap),
        }
    }
}

/// Reads a handshake line; see `candidate_greeting`.
pub fn read_candidate_handshake(line: &[u8]) -> (r: Result<Admission, Refusal>)
    ensures
        match r {
            Ok(a) => candidate_greeting(line@) == Ok::<
                crate::server::session::AdmissionView,
                crate::server::session::RefusalView,
            >(a@),
            Err(e) => candidate_greeting(line@) == Err::<
                crate::server::session::AdmissionView,
                crate::server::session::RefusalView,
            >(e@),
        },
{
    if line.len() == 0 {
        return Err(Refusal::Closed);
    }
    match parse_json(line) {
        Err(e) => Err(Refusal::NotJson(e)),
        Ok(v) => accept_handshake(&v, Preference::Cheap),
    }
}

// ---------------------------------------------------------------- reference

/// The hub of the clock star after a receiver joined: the first receiver, until one
/// with a GPS clock joins. `gps` tells of every receiver, the new one last.
pub open spec fn hub_after(hub: Option<usize>, gps: Seq<bool>) -> Option<usize> {
    let new = (gps.len() - 1) as usize;
    match hub {
        None => Some(new),
        Some(h) => if gps.last() && !gps[h as int] {
            Some(new)
        } else {
            Some(h)
        },
    }
}

/// The receivers of a clock star.
#[derive(Debug)]
pub struct ClockStar {
    gps: Vec<bool>,
    hub: Option<usize>,
}

impl ClockStar {
    /// Whether each receiver has a GPS clock.
    pub closed spec fn clocks(&self) -> Seq<bool> {
        self.gps@
    }

    pub closed spec fn hub(&self) -> Option<usize> {
        self.hub
    }

    /// The hub is one of the receivers, and has a GPS clock if any has.
    pub open spec fn wf(&self) -> bool {
        &&& self.hub() is None <==> self.clocks().len() == 0
        &&& self.hub() matches Some(h) ==> h < self.clocks().len() && ((exists|i: int|
            0 <= i < self.clocks().len() && #[trigger] self.clocks()[i])
            ==> self.clocks()[h as int])
    }

    pub fn new() -> (r: Self)
        ensures
            r.wf(),
            r.clocks() == Seq::<bool>::empty(),
            r.hub() is None,
    {
        ClockStar { gps: Vec::new(), hub: None }
    }

    /// A receiver joins; its place.
    pub fn join(&mut self, gps: bool) -> (r: usize)
        requires
            old(self).wf(),
        ensures
            final(self).wf(),
            r == old(self).clocks().len(),
            final(self).clocks() == old(self).clocks().push(gps),
            final(self).hub() == hub_after(old(self).hub(), final(self).clocks()),
    {
        let idx: usize = self.gps.len();
        let ghost before = self.gps@;
        self.gps.push(gps);
        match self.hub {
            None => {
                self.hub = Some(idx);
            },
            Some(h) => {
                if gps && !self.gps[h] {
                    self.hub = Some(idx);
                }
            },
        }
        proof {
            let c = self.gps@;
            assert(c.last() == gps);
            if exists|i: int| 0 <= i < c.len() && #[trigger] c[i] {
                let i = choose|i: int| 0 <= i < c.len() && #[trigger] c[i];
                if i < before.len() {
                    assert(before[i]);
                }
            }
        }
        idx
    }

    /// The receiver that times are converted to.
    pub fn reference(&self) -> (r: Option<usize>)
        ensures
            r == self.hub(),
    {
        self.hub
    }

    /// How many receivers joined.
    pub fn len(&self) -> (r: usize)
        ensures
            r == self.clocks().len(),
    {
        self.gps.len()
    }
}

/// A GPS clock is the hub as soon as any receiver has one, and a hub with a GPS clock
/// stays the hub.
pub proof fn law_gps_hub_stays(hub: usize, gps: Seq<bool>)
    requires
        gps.len() > 0,
        hub < gps.len() - 1,
        gps[hub as int],
    ensures
        hub_after(Some(hub), gps) == Some(hub),
{
}

// ------------------------------------------------------------------ arrivals

/// The places of the first arrival of each receiver, in order.
pub open spec fn first_arrivals(e: Seq<Arrival>) -> Seq<usize>
    decreases e.len(),
{
    if e.len() == 0 {
        seq![]
    } else {
        let n = e.len() - 1;
        let rest = first_arrivals(e.drop_last());
        if exists|i: int| 0 <= i < n && #[trigger] e[i].rx == e[n].rx {
            rest
        } else {
            rest.push(n as usize)
        }
    }
}

/// Picks the first arrival of each receiver: later ones of the same group are
/// dropped.
pub fn pick_first_arrivals(e: &Vec<Arrival>) -> (r: Vec<usize>)
    ensures
        r@ == first_arrivals(e@),
{
    let mut out: Vec<usize> = Vec::new();
    let mut i: usize = 0;
    while i < e.len()
        invariant
            i <= e@.len(),
            out@ == first_arrivals(e@.take(i as int)),
        decreases e@.len() - i,
    {
        let mut seen: bool = false;
        let mut k: usize = 0;
        let ghost t = e@.take(i + 1);
        proof {
            assert(t.drop_last() =~= e@.take(i as int));
        }
        while k < i
            invariant
                k <= i < e@.len(),
                t == e@.take(i + 1),
                seen == (exists|j: int| 0 <= j < k && #[trigger] t[j].rx == t[i as int].rx),
            decreases i - k,
        {
            if e[k].rx == e[i].rx {
                seen = true;
                assert(t[k as int].rx == t[i as int].rx);
            }
            k = k + 1;
        }
        if !seen {
            out.push(i);
        }
        i = i + 1;
    }
    assert(e@.take(e@.len() as int) =~= e@);
    out
}

/// Whether a group can be solved: at least four receivers, and a known altitude.
pub fn can_solve(observations: usize, altitude_known: bool) -> (r: bool)
    ensures
        r == (observations >= 4 && altitude_known),
{
    observations >= 4 && altitude_known
}

// --------------------------------------------------------------------- state

/// What the candidate server knows.
pub ghost struct CandidateView<M> {
    /// Whether each receiver has a GPS clock.
    pub clocks: Seq<bool>,
    /// The receiver that times are converted to.
    pub hub: Option<usize>,
    pub pairs: Seq<(usize, usize, M)>,
    pub points: Seq<crate::server::grouping::SyncPointView>,
    pub groups: Seq<crate::server::grouping::GroupView>,
    pub alts: Map<u32, i32>,
    pub solved: u64,
    pub rejected: u64,
    pub sync_obs: u64,
}

/// The reports of other receivers.
pub open spec fn by_others(rx: usize, reports: Seq<Report>) -> Seq<Report>
    decreases reports.len(),
{
    if reports.len() == 0 {
        seq![]
    } else {
        let rest = by_others(rx, reports.drop_last());
        if reports.last().rx != rx {
            rest.push(reports.last())
        } else {
            rest
        }
    }
}

/// A counter that stops at its limit.
pub open spec fn raised(c: u64, n: int) -> u64 {
    if c + n > u64::MAX {
        u64::MAX
    } else {
        (c + n) as u64
    }
}

/// The altitudes after one was heard, or none.
pub open spec fn alts_with(alts: Map<u32, i32>, icao: Icao, alt: Option<i32>) -> Map<u32, i32> {
    match alt {
        Some(a) => alts.insert(icao.0, a),
        None => alts,
    }
}

/// The state after a sync message: its altitude is noted, its report joins the sync
/// point, and it trains against every earlier report of another receiver. Where the
/// two frames are no pair, or there is no report because their position cannot be
/// decoded, nothing changes.
pub open spec fn candidate_synced<M>(
    s: CandidateView<M>,
    em: Seq<char>,
    om: Seq<char>,
    report: Option<Report>,
    now: u64,
) -> (CandidateView<M>, Seq<Training>) {
    match (crate::server::grouping::pair_of(em, om), report) {
        (Some(pair), Some(report)) => {
            let train = by_others(
                report.rx,
                crate::server::grouping::company(s.points, em, om, usize::MAX),
            );
            (
                CandidateView {
                    alts: alts_with(s.alts, pair.icao, pair.alt_ft),
                    points: crate::server::grouping::reported(
                        s.points,
                        em,
                        om,
                        report,
                        usize::MAX,
                        now,
                    ),
                    sync_obs: raised(s.sync_obs, 2 * train.len() as int),
                    ..s
                },
                crate::server::pairs::steps_with(report, train),
            )
        },
        _ => (s, seq![]),
    }
}

/// The state after a frame: its altitude is noted, and it joins its group.
pub open spec fn candidate_frame<M>(
    s: CandidateView<M>,
    hex: Seq<char>,
    a: Arrival,
    now: u64,
) -> CandidateView<M> {
    match crate::server::grouping::locatable(hex, false) {
        None => s,
        Some(f) => CandidateView {
            groups: crate::server::grouping::arrived(s.groups, hex, f, a, now),
            alts: alts_with(s.alts, f.icao, f.alt_ft),
            ..s
        },
    }
}

/// The state of the candidate server. Its clock models are the caller's.
#[derive(Debug)]
pub struct Candidate<M> {
    star: ClockStar,
    pairs: PairTable<M>,
    points: SyncPoints,
    groups: Groups,
    alts_ft: HashMap<u32, i32>,
    solved: u64,
    rejected: u64,
    sync_obs: u64,
}

impl<M> View for Candidate<M> {
    type V = CandidateView<M>;

    closed spec fn view(&self) -> CandidateView<M> {
        CandidateView {
            clocks: self.star.clocks(),
            hub: self.star.hub(),
            pairs: self.pairs.table(),
            points: self.points@,
            groups: self.groups@,
            alts: self.alts_ft@,
            solved: self.solved,
            rejected: self.rejected,
            sync_obs: self.sync_obs,
        }
    }
}

impl<M> Candidate<M> {
    pub closed spec fn wf(&self) -> bool {
        self.star.wf()
    }

    pub fn new() -> (r: Self)
        ensures
            r.wf(),
            r@ == (CandidateView::<M> {
                clocks: seq![],
                hub: None,
                pairs: seq![],
                points: seq![],
                groups: seq![],
                alts: Map::empty(),
                solved: 0,
                rejected: 0,
                sync_obs: 0,
            }),
    {
        broadcast use vstd::std_specs::hash::group_hash_axioms;

        let c = Candidate {
            star: ClockStar::new(),
            pairs: PairTable::new(),
            points: SyncPoints::new(),
            groups: Groups::new(),
            alts_ft: HashMap::new(),
            solved: 0,
            rejected: 0,
            sync_obs: 0,
        };
        assert(c@.alts =~= Map::empty());
        c
    }

    /// A receiver joins; its place.
    pub fn add_receiver(&mut self, gps: bool) -> (r: usize)
        requires
            old(self).wf(),
        ensures
            final(self).wf(),
            r == old(self)@.clocks.len(),
            final(self)@ == (CandidateView {
                clocks: old(self)@.clocks.push(gps),
                hub: hub_after(old(self)@.hub, old(self)@.clocks.push(gps)),
                ..old(self)@
            }),
    {
        self.star.join(gps)
    }

    /// The receiver that times are converted to.
    pub fn reference(&self) -> (r: Option<usize>)
        ensures
            r == self@.hub,
    {
        self.star.reference()
    }

    /// A receiver's clock restarted: its models are dropped.
    pub fn clock_reset(&mut self, rx: usize)
        requires
            old(self).wf(),
        ensures
            final(self).wf(),
            final(self)@ == (CandidateView {
                pairs: crate::server::pairs::without_slot(old(self)@.pairs, rx),
                ..old(self)@
            }),
    {
        self.pairs.forget(rx);
    }

    /// A sync message; the steps by which it trains clocks. Frames that make no pair, or
    /// whose position cannot be decoded, change nothing.
    pub fn on_sync(
        &mut self,
        em: &str,
        om: &str,
        report: Option<Report>,
        now: u64,
    ) -> (steps: Vec<Training>)
        requires
            old(self).wf(),
        ensures
            final(self).wf(),
            (final(self)@, steps@) == candidate_synced(
                old(self)@,
                em@,
                om@,
                report,
                now,
            ),
    {
        broadcast use vstd::std_specs::hash::group_hash_axioms;

        let (pair, report) = match (read_sync_pair(em, om), report) {
            (Some(p), Some(r)) => (p, r),
            _ => {
                return Vec::new();
            },
        };
        if let Some(a) = pair.alt_ft {
            self.alts_ft.insert(pair.icao.0, a);
        }
        let others = self.points.report(em, om, report, usize::MAX, now);
        let mut train: Vec<Report> = Vec::new();
        let mut i: usize = 0;
        while i < others.len()
            invariant
                i <= others@.len(),
                train@ == by_others(report.rx, others@.take(i as int)),
            decreases others@.len() - i,
        {
            assert(others@.take(i + 1).drop_last() =~= others@.take(i as int));
            assert(others@.take(i + 1).last() == others@[i as int]);
            let o = others[i];
            if o.rx != report.rx {
                train.push(o);
            }
            i = i + 1;
        }
        assert(others@.take(others@.len() as int) =~= others@);
        let n: u64 = train.len() as u64;
        self.sync_obs = self.sync_obs.saturating_add(n).saturating_add(n);
        training_steps(report, &train)
    }

    /// A frame: identical ones are grouped across receivers.
    pub fn on_mlat(&mut self, rx: usize, hex: &str, t_s: Reading, at: Reading, now: u64)
        requires
            old(self).wf(),
        ensures
            final(self).wf(),
            final(self)@ == candidate_frame(
                old(self)@,
                hex@,
                (Arrival { rx, t_s, at_scaled: at }),
                now,
            ),
    {
        broadcast use vstd::std_specs::hash::group_hash_axioms;

        if let Some(f) = read_locatable(hex, false) {
            if let Some(a) = f.alt_ft {
                self.alts_ft.insert(f.icao.0, a);
            }
            self.groups.enter(hex, f, Arrival { rx, t_s, at_scaled: at }, now);
        }
    }

    /// Takes out the groups older than the window, to be solved, and expires stale
    /// sync points.
    pub fn sweep(&mut self, now: u64, window_ns: u64) -> (r: Vec<Group>)
        requires
            old(self).wf(),
        ensures
            final(self).wf(),
            crate::server::grouping::group_views(r@) == crate::server::grouping::by_ready(
                old(self)@.groups,
                now,
                window_ns,
                true,
            ),
            final(self)@ == (CandidateView {
                groups: crate::server::grouping::by_ready(
                    old(self)@.groups,
                    now,
                    window_ns,
                    false,
                ),
                points: crate::server::grouping::young(old(self)@.points, now),
                ..old(self)@
            }),
    {
        self.points.expire(now);
        self.groups.take_ready(now, window_ns)
    }

    /// The clock model of a pair of receivers.
    pub fn model(&self, a: usize, b: usize) -> (r: Option<&M>)
        ensures
            match r {
                Some(m) => crate::server::pairs::model_of(self@.pairs, a, b) == Some(*m),
                None => crate::server::pairs::model_of(self@.pairs, a, b) is None,
            },
    {
        self.pairs.get(a, b)
    }

    /// The receivers that a receiver has clock models towards.
    pub fn peers(&self, rx: usize) -> (r: Vec<usize>)
        ensures
            r@ == crate::server::pairs::peers(self@.pairs, rx),
    {
        self.pairs.peers_of(rx)
    }

    /// Enters the clock model of a pair of receivers and returns the one it replaces.
    pub fn put_model(&mut self, a: usize, b: usize, m: M) -> (r: Option<M>)
        requires
            old(self).wf(),
        ensures
            final(self).wf(),
            r == crate::server::pairs::model_of(old(self)@.pairs, a, b),
            final(self)@ == (CandidateView {
                pairs: crate::server::pairs::with_model(old(self)@.pairs, a, b, m),
                ..old(self)@
            }),
    {
        self.pairs.put(a, b, m)
    }

    /// The altitude of an aircraft.
    pub fn altitude(&self, icao: Icao) -> (r: Option<i32>)
        ensures
            r == (if self@.alts.dom().contains(icao.0) {
                Some(self@.alts[icao.0])
            } else {
                None
            }),
    {
        broadcast use vstd::std_specs::hash::group_hash_axioms;

        match self.alts_ft.get(&icao.0) {
            Some(a) => Some(*a),
            None => None,
        }
    }

    /// A group was solved, or its solution was refused.
    pub fn count(&mut self, solved: bool)
        requires
            old(self).wf(),
        ensures
            final(self).wf(),
            final(self)@ == (CandidateView {
                solved: raised(
                    old(self)@.solved,
                    if solved {
                        1
                    } else {
                        0
                    },
                ),
                rejected: raised(
                    old(self)@.rejected,
                    if solved {
                        0
                    } else {
                        1
                    },
                ),
                ..old(self)@
            }),
    {
        if solved {
            self.solved = self.solved.saturating_add(1);
        } else {
            self.rejected = self.rejected.saturating_add(1);
        }
    }

    /// Counters: receivers, sync observations, solved and refused groups.
    pub fn stats(&self) -> (r: (usize, u64, u64, u64))
        ensures
            r.0 == self@.clocks.len(),
            r.1 == self@.sync_obs,
            r.2 == self@.solved,
            r.3 == self@.rejected,
    {
        (self.star.len(), self.sync_obs, self.solved, self.rejected)
    }
}

// --------------------------------------------------------------------- cells

/// The first shard with the fewest receivers.
pub open spec fn least_loaded(loads: Seq<usize>, n: int) -> int
    decreases n,
{
    if n <= 1 {
        0
    } else {
        let best = least_loaded(loads, n - 1);
        if loads[n - 1] < loads[best] {
            n - 1
        } else {
            best
        }
    }
}

/// The shard of a cell.
pub open spec fn cell_shard(t: Seq<((i16, i16), usize)>, cell: (i16, i16), n: int) -> Option<usize>
    decreases n,
{
    if n <= 0 {
        None
    } else if t[n - 1].0 == cell {
        Some(t[n - 1].1)
    } else {
        cell_shard(t, cell, n - 1)
    }
}

/// Receivers by cells of five degrees: a cell stays with the shard that was the least
/// loaded when the cell was first seen, so neighborhoods stay together.
#[derive(Debug)]
pub struct CellRouter {
    cells: Vec<((i16, i16), usize)>,
    shards: usize,
}

impl CellRouter {
    pub closed spec fn table(&self) -> Seq<((i16, i16), usize)> {
        self.cells@
    }

    pub closed spec fn shards(&self) -> nat {
        self.shards as nat
    }

    /// Every cell is with a shard that there is.
    pub open spec fn wf(&self) -> bool {
        &&& self.shards() > 0
        &&& forall|i: int|
            0 <= i < self.table().len() ==> (#[trigger] self.table()[i]).1 < self.shards()
    }

    pub fn new(shards: usize) -> (r: Self)
        requires
            shards > 0,
        ensures
            r.wf(),
            r.table() == Seq::<((i16, i16), usize)>::empty(),
            r.shards() == shards,
    {
        CellRouter { cells: Vec::new(), shards }
    }

    /// The shard for a receiver in a cell.
    pub fn shard_for(&mut self, cell: (i16, i16), loads: &[usize]) -> (r: usize)
        requires
            old(self).wf(),
            loads@.len() == old(self).shards(),
        ensures
            final(self).wf(),
            final(self).shards() == old(self).shards(),
            r < old(self).shards(),
            match cell_shard(old(self).table(), cell, old(self).table().len() as int) {
                Some(s) => r == s && final(self).table() == old(self).table(),
                None => r == least_loaded(loads@, loads@.len() as int) && final(self).table()
                    == old(self).table().push((cell, r)),
            },
    {
        let ghost t = self.cells@;
        let mut i: usize = self.cells.len();
        while i > 0
            invariant
                self.cells@ == t,
                t == old(self).table(),
                self.shards == old(self).shards,
                old(self).wf(),
                i <= t.len(),
                cell_shard(t, cell, t.len() as int) == cell_shard(t, cell, i as int),
            decreases i,
        {
            let c = self.cells[i - 1];
            if c.0 .0 == cell.0 && c.0 .1 == cell.1 {
                return c.1;
            }
            i = i - 1;
        }
        let mut best: usize = 0;
        let mut k: usize = 1;
        while k < loads.len()
            invariant
                1 <= k <= loads@.len(),
                best < k,
                best == least_loaded(loads@, k as int),
            decreases loads@.len() - k,
        {
            if loads[k] < loads[best] {
                best = k;
            }
            k = k + 1;
        }
        self.cells.push((cell, best));
        best
    }
}

/// A cell once seen stays with its shard, however loads change and whichever cells
/// are seen later.
pub proof fn law_cells_stay(
    t: Seq<((i16, i16), usize)>,
    cell: (i16, i16),
    other: (i16, i16),
    shard: usize,
)
    requires
        cell_shard(t, cell, t.len() as int) is Some,
        cell_shard(t, other, t.len() as int) is None,
    ensures
        cell_shard(t.push((other, shard)), cell, t.len() as int + 1) == cell_shard(
            t,
            cell,
            t.len() as int,
        ),
{
    let u = t.push((other, shard));
    lemma_prefix(t, u, cell, t.len() as int);
    lemma_prefix(t, u, other, t.len() as int);
}

proof fn lemma_prefix(
    t: Seq<((i16, i16), usize)>,
    u: Seq<((i16, i16), usize)>,
    cell: (i16, i16),
    n: int,
)
    requires
        0 <= n <= t.len(),
        t.len() <= u.len(),
        forall|i: int| 0 <= i < t.len() ==> u[i] == t[i],
    ensures
        cell_shard(u, cell, n) == cell_shard(t, cell, n),
    decreases n,
{
    if n > 0 {
        lemma_prefix(t, u, cell, n - 1);
    }
}

// -------------------------------------------------- what the candidate keeps

/// The arrivals that are picked: one of each receiver of the group, its first, in order.
pub proof fn law_first_arrivals_are_first(e: Seq<Arrival>, i: int)
    requires
        e.len() <= usize::MAX,
        0 <= i < e.len(),
    ensures
        ({
            let p = first_arrivals(e);
            &&& forall|j: int, k: int|
                0 <= j < k < p.len() ==> (#[trigger] p[j]) < (#[trigger] p[k]) && e[p[j] as int].rx
                    != e[p[k] as int].rx
            &&& forall|k: int| 0 <= k < p.len() ==> (#[trigger] p[k]) < e.len()
            &&& exists|k: int|
                0 <= k < p.len() && (#[trigger] p[k]) <= i && e[p[k] as int].rx == e[i].rx
        }),
    decreases e.len(),
{
    let n = e.len() - 1;
    let r = e.drop_last();
    let (p, q) = (first_arrivals(e), first_arrivals(r));
    if n > 0 {
        law_first_arrivals_are_first(r, if i < n {
            i
        } else {
            0
        });
    }
    assert forall|k: int| 0 <= k < q.len() implies (#[trigger] q[k]) < n by {}
    assert forall|j: int, k: int| 0 <= j < k < p.len() implies (#[trigger] p[j]) < (
    #[trigger] p[k]) && e[p[j] as int].rx != e[p[k] as int].rx by {
        if k < q.len() {
            assert(q[j] < q[k]);
            assert(r[q[j] as int].rx != r[q[k] as int].rx);
        } else {
            assert(p[j] == q[j]);
            assert(e[q[j] as int].rx != e[n].rx);
        }
    }
    if i < n {
        let k = choose|k: int|
            0 <= k < q.len() && (#[trigger] q[k]) <= i && r[q[k] as int].rx == r[i].rx;
        assert(p[k] <= i && e[p[k] as int].rx == e[i].rx);
    } else if exists|j: int| 0 <= j < n && #[trigger] e[j].rx == e[n].rx {
        let j = choose|j: int| 0 <= j < n && #[trigger] e[j].rx == e[n].rx;
        law_first_arrivals_are_first(r, j);
        let k = choose|k: int|
            0 <= k < q.len() && (#[trigger] q[k]) <= j && r[q[k] as int].rx == r[j].rx;
        assert(p[k] <= i && e[p[k] as int].rx == e[i].rx);
    } else {
        assert(p[q.len() as int] <= i && e[p[q.len() as int] as int].rx == e[i].rx);
    }
}

/// A receiver trains against the reports of all others and never against its own.
pub proof fn law_own_reports_do_not_train(rx: usize, reports: Seq<Report>, x: Report)
    ensures
        by_others(rx, reports).contains(x) <==> reports.contains(x) && x.rx != rx,
        by_others(rx, reports).len() <= reports.len(),
        (forall|i: int| 0 <= i < reports.len() ==> (#[trigger] reports[i]).rx != rx) ==> by_others(
            rx,
            reports,
        ) == reports,
    decreases reports.len(),
{
    if reports.len() > 0 {
        let r = reports.drop_last();
        law_own_reports_do_not_train(rx, r, x);
        let (b, b0) = (by_others(rx, reports), by_others(rx, r));
        if b0.contains(x) {
            let i = choose|i: int| 0 <= i < b0.len() && b0[i] == x;
            assert(b[i] == x);
            let k = choose|k: int| 0 <= k < r.len() && r[k] == x;
            assert(reports[k] == x);
        }
        if b.contains(x) {
            let i = choose|i: int| 0 <= i < b.len() && b[i] == x;
            if i < b0.len() {
                assert(b0[i] == x);
            } else {
                assert(reports[reports.len() - 1] == x);
            }
        }
        if reports.contains(x) && x.rx != rx {
            let k = choose|k: int| 0 <= k < reports.len() && reports[k] == x;
            if k < r.len() {
                assert(r[k] == x);
            } else {
                assert(b[b0.len() as int] == x);
            }
        }
        if forall|i: int| 0 <= i < reports.len() ==> (#[trigger] reports[i]).rx != rx {
            assert forall|i: int| 0 <= i < r.len() implies (#[trigger] r[i]).rx != rx by {
                assert(reports[i].rx != rx);
            }
            assert(reports[reports.len() - 1].rx != rx);
            assert(b =~= reports);
        }
    } else {
        assert(by_others(rx, reports) =~= reports);
    }
}

/// A sync message counts two observations for each report that it trains against, and four
/// steps follow: both frames, both ways. It leaves the clock models, the groups and the other
/// counters to the caller.
pub proof fn law_sync_is_counted<M>(
    s: CandidateView<M>,
    em: Seq<char>,
    om: Seq<char>,
    report: Option<Report>,
    now: u64,
)
    ensures
        ({
            let (t, steps) = candidate_synced(s, em, om, report, now);
            &&& t.clocks == s.clocks && t.hub == s.hub && t.pairs == s.pairs && t.groups == s.groups
            &&& t.solved == s.solved && t.rejected == s.rejected
            &&& steps.len() % 4 == 0
            &&& s.sync_obs + steps.len() / 2 <= u64::MAX ==> t.sync_obs == s.sync_obs + steps.len() / 2
            &&& crate::server::grouping::pair_of(em, om) is None || report is None ==> t == s
                && steps.len() == 0
        }),
{
    if let (Some(pair), Some(r)) = (crate::server::grouping::pair_of(em, om), report) {
        let train = by_others(
            r.rx,
            crate::server::grouping::company(s.points, em, om, usize::MAX),
        );
        crate::server::pairs::law_four_steps_with_each(r, train);
    }
}

/// The last altitude heard of an aircraft is the one known; a message without one changes
/// nothing, and no message changes that of another aircraft.
pub proof fn law_last_altitude_is_known(
    alts: Map<u32, i32>,
    icao: Icao,
    alt: Option<i32>,
    other: u32,
)
    ensures
        alt matches Some(a) ==> alts_with(alts, icao, alt).dom().contains(icao.0) && alts_with(
            alts,
            icao,
            alt,
        )[icao.0] == a,
        alt is None ==> alts_with(alts, icao, alt) == alts,
        other != icao.0 ==> alts_with(alts, icao, alt).dom().contains(other)
            == alts.dom().contains(other) && (alts.dom().contains(other) ==> alts_with(
            alts,
            icao,
            alt,
        )[other] == alts[other]),
{
}

/// A new cell goes to a shard that no other has fewer receivers than, the first of equals.
pub proof fn law_new_cells_go_where_room_is(loads: Seq<usize>, n: int, i: int)
    requires
        0 <= i < n <= loads.len(),
    ensures
        0 <= least_loaded(loads, n) < n,
        loads[least_loaded(loads, n)] <= loads[i],
        i < least_loaded(loads, n) ==> loads[least_loaded(loads, n)] < loads[i],
    decreases n,
{
    if n > 1 {
        law_new_cells_go_where_room_is(loads, n - 1, if i < n - 1 {
            i
        } else {
            0
        });
    }
}

/// The first receiver is the hub, and one with a GPS clock takes it over from one without.
pub proof fn law_hub_is_taken_over(hub: Option<usize>, gps: Seq<bool>)
    requires
        gps.len() > 0,
        gps.len() <= usize::MAX,
        hub matches Some(h) ==> h < gps.len() - 1,
    ensures
        hub_after(hub, gps) matches Some(k) && k < gps.len(),
        hub is None ==> hub_after(hub, gps) == Some((gps.len() - 1) as usize),
        hub matches Some(h) ==> (!gps.last() ==> hub_after(hub, gps) == hub) && (gps.last()
            && !gps[h as int] ==> hub_after(hub, gps) == Some((gps.len() - 1) as usize)),
{
}

/// A frame joins its group, and its altitude is noted; what cannot be located changes nothing.
pub proof fn law_candidate_keeps_frames<M>(s: CandidateView<M>, hex: Seq<char>, a: Arrival, now: u64)
    ensures
        ({
            let t = candidate_frame(s, hex, a, now);
            let loc = crate::server::grouping::locatable(hex, false);
            &&& loc is None ==> t == s
            &&& loc is Some ==> crate::server::grouping::arrivals_of(t.groups, hex)
                == crate::server::grouping::arrivals_of(s.groups, hex).push(a)
                && crate::server::grouping::held(t.groups) == crate::server::grouping::held(
                s.groups,
            ) + 1
            &&& t.clocks == s.clocks && t.hub == s.hub && t.pairs == s.pairs && t.points == s.points
            &&& t.solved == s.solved && t.rejected == s.rejected && t.sync_obs == s.sync_obs
            &&& loc matches Some(f) ==> (f.alt_ft matches Some(x) ==> t.alts.dom().contains(f.icao.0)
                && t.alts[f.icao.0] == x) && (f.alt_ft is None ==> t.alts == s.alts)
        }),
{
    if let Some(f) = crate::server::grouping::locatable(hex, false) {
        crate::server::grouping::law_arrivals_are_kept(s.groups, hex, f, a, now, hex);
    }
}

} // verus!
