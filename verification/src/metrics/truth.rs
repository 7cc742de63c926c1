//! Ground truth: where each aircraft was, by time.

use vstd::prelude::*;

use crate::icao::Icao;
use crate::order::order_by_key;
use crate::reading::Reading;
use crate::server::receivers::Geodetic;

verus! {

/// A point of the truth log. Time is in seconds since the start of the scenario.
#[derive(Debug, Clone, Copy, PartialEq, Eq, Structural)]
pub struct TruthPoint {
    pub t_s: Reading,
    pub icao: Icao,
    pub pos: Geodetic,
}

/// Where an aircraft was at a time.
#[derive(Debug, Clone, Copy, PartialEq, Eq, Structural)]
pub struct TruthAt {
    pub t_s: Reading,
    pub pos: Geodetic,
}

/// The sort keys of a run of points.
pub open spec fn point_keys(v: Seq<TruthPoint>) -> Seq<i64> {
    v.map_values(|p: TruthPoint| p.t_s.total_rank() as i64)
}

/// `sorted` are the points in order of time, points of one time in their own order.
pub open spec fn points_in_order(points: Seq<TruthPoint>, sorted: Seq<TruthPoint>) -> bool {
    exists|o: Seq<usize>|
        {
            &&& #[trigger] crate::order::is_order(point_keys(points), o, 0, points.len() as int)
            &&& sorted == o.map_values(|k: usize| points[k as int])
        }
}

/// The points of each aircraft, in order.
pub open spec fn by_aircraft(points: Seq<TruthPoint>) -> Map<u32, Seq<TruthAt>>
    decreases points.len(),
{
    if points.len() == 0 {
        Map::empty()
    } else {
        let m = by_aircraft(points.drop_last());
        let p = points.last();
        let at = TruthAt { t_s: p.t_s, pos: p.pos };
        if m.dom().contains(p.icao.0) {
            m.insert(p.icao.0, m[p.icao.0].push(at))
        } else {
            m.insert(p.icao.0, seq![at])
        }
    }
}

/// How many points lie at the front that are not behind `t`.
pub open spec fn reached(track: Seq<TruthAt>, t: Reading) -> int
    decreases track.len(),
{
    if track.len() > 0 && track[0].t_s.at_most(t) {
        1 + reached(track.drop_first(), t)
    } else {
        0
    }
}

/// The points around `t`: the last one that is not behind it, or the first of all,
/// and the one after that, or the same where there is none.
pub open spec fn around(track: Seq<TruthAt>, t: Reading) -> (TruthAt, TruthAt) {
    let n = reached(track, t);
    let i = if n > 0 {
        n - 1
    } else {
        0
    };
    (
        track[i],
        if i + 1 < track.len() {
            track[i + 1]
        } else {
            track[i]
        },
    )
}

/// Where an aircraft was at a time.
#[derive(Debug, Clone, Copy, PartialEq, Eq, Structural)]
pub enum Place {
    /// At a point.
    At(TruthAt),
    /// On the way from one point to the next.
    Between(TruthAt, TruthAt),
}

/// Where the aircraft of a track was: at the first of the two points around `t` where
/// `t` is not behind it or there is no other, else between the two.
pub open spec fn place_of(track: Seq<TruthAt>, t: Reading) -> Place {
    let (a, b) = around(track, t);
    if a == b || t.at_most(a.t_s) {
        Place::At(a)
    } else {
        Place::Between(a, b)
    }
}

#[derive(Debug)]
struct Track {
    addr: u32,
    points: Vec<TruthAt>,
}

/// Index over the truth log.
#[derive(Debug)]
pub struct TruthIndex {
    tracks: Vec<Track>,
}

spec fn tracks_map(v: Seq<Track>) -> Map<u32, Seq<TruthAt>>
    decreases v.len(),
{
    if v.len() == 0 {
        Map::empty()
    } else {
        tracks_map(v.drop_last()).insert(v.last().addr, v.last().points@)
    }
}

spec fn distinct(v: Seq<Track>) -> bool {
    forall|i: int, j: int| 0 <= i < j < v.len() ==> #[trigger] v[i].addr != #[trigger] v[j].addr
}

proof fn lemma_tracks_map(v: Seq<Track>)
    requires
        distinct(v),
    ensures
        forall|i: int|
            0 <= i < v.len() ==> tracks_map(v).dom().contains((#[trigger] v[i]).addr)
                && tracks_map(v)[v[i].addr] == v[i].points@,
        forall|a: u32|
            tracks_map(v).dom().contains(a) ==> exists|i: int|
                0 <= i < v.len() && (#[trigger] v[i]).addr == a,
    decreases v.len(),
{
    if v.len() > 0 {
        let f = v.drop_last();
        assert(distinct(f)) by {
            assert forall|i: int, j: int| 0 <= i < j < f.len() implies #[trigger] f[i].addr
                != #[trigger] f[j].addr by {
                assert(f[i] == v[i] && f[j] == v[j]);
            }
        }
        lemma_tracks_map(f);
        assert forall|i: int| 0 <= i < v.len() implies tracks_map(v).dom().contains(
            (#[trigger] v[i]).addr,
        ) && tracks_map(v)[v[i].addr] == v[i].points@ by {
            if i < f.len() {
                assert(f[i] == v[i]);
                assert(v[i].addr != v[v.len() - 1].addr);
            }
        }
        assert forall|a: u32| tracks_map(v).dom().contains(a) implies exists|i: int|
            0 <= i < v.len() && (#[trigger] v[i]).addr == a by {
            if a == v.last().addr {
                assert(v[v.len() - 1].addr == a);
            } else {
                assert(tracks_map(f).dom().contains(a));
                let i = choose|i: int| 0 <= i < f.len() && (#[trigger] f[i]).addr == a;
                assert(v[i].addr == a);
            }
        }
    }
}

proof fn lemma_tracks_update(v: Seq<Track>, w: Seq<Track>, k: int)
    requires
        distinct(v),
        w.len() == v.len(),
        0 <= k < v.len(),
        w[k].addr == v[k].addr,
        forall|i: int| 0 <= i < v.len() && i != k ==> w[i] == v[i],
    ensures
        distinct(w),
        tracks_map(w) == tracks_map(v).insert(v[k].addr, w[k].points@),
{
    assert(distinct(w)) by {
        assert forall|i: int, j: int| 0 <= i < j < w.len() implies #[trigger] w[i].addr
            != #[trigger] w[j].addr by {
            assert(v[i].addr != v[j].addr);
        }
    }
    lemma_tracks_map(v);
    lemma_tracks_map(w);
    let m = tracks_map(v).insert(v[k].addr, w[k].points@);
    assert(tracks_map(w) =~= m) by {
        assert forall|a: u32| tracks_map(w).dom().contains(a) <==> m.dom().contains(a) by {
            if tracks_map(w).dom().contains(a) {
                let i = choose|i: int| 0 <= i < w.len() && (#[trigger] w[i]).addr == a;
                assert(v[i].addr == a);
            }
            if m.dom().contains(a) {
                if a == v[k].addr {
                    assert(w[k].addr == a);
                } else {
                    let i = choose|i: int| 0 <= i < v.len() && (#[trigger] v[i]).addr == a;
                    assert(w[i].addr == a);
                }
            }
        }
        assert forall|a: u32| tracks_map(w).dom().contains(a) implies tracks_map(w)[a]
            == m[a] by {
            let i = choose|i: int| 0 <= i < w.len() && (#[trigger] w[i]).addr == a;
            assert(tracks_map(w)[w[i].addr] == w[i].points@);
            if i != k {
                assert(w[i] == v[i]);
                assert(v[i].addr != v[k].addr);
                assert(tracks_map(v)[v[i].addr] == v[i].points@);
            }
        }
    }
}

fn find_track(tracks: &Vec<Track>, addr: u32) -> (r: Option<usize>)
    requires
        distinct(tracks@),
    ensures
        r is Some <==> tracks_map(tracks@).dom().contains(addr),
        r matches Some(i) ==> i < tracks@.len() && tracks@[i as int].addr == addr
            && tracks_map(tracks@)[addr] == tracks@[i as int].points@,
{
    proof {
        lemma_tracks_map(tracks@);
    }
    let mut i: usize = 0;
    while i < tracks.len()
        invariant
            i <= tracks@.len(),
            forall|k: int| 0 <= k < i ==> (#[trigger] tracks@[k]).addr != addr,
            forall|k: int|
                0 <= k < tracks@.len() ==> tracks_map(tracks@).dom().contains(
                    (#[trigger] tracks@[k]).addr,
                ) && tracks_map(tracks@)[tracks@[k].addr] == tracks@[k].points@,
        decreases tracks@.len() - i,
    {
        if tracks[i].addr == addr {
            return Some(i);
        }
        i = i + 1;
    }
    None
}

impl View for TruthIndex {
    type V = Map<u32, Seq<TruthAt>>;

    closed spec fn view(&self) -> Map<u32, Seq<TruthAt>> {
        tracks_map(self.tracks@)
    }
}

impl TruthIndex {
    pub closed spec fn wf(&self) -> bool {
        distinct(self.tracks@)
    }

    fn record(&mut self, p: &TruthPoint)
        requires
            old(self).wf(),
        ensures
            final(self).wf(),
            final(self)@ == (if old(self)@.dom().contains(p.icao.0) {
                old(self)@.insert(
                    p.icao.0,
                    old(self)@[p.icao.0].push(TruthAt { t_s: p.t_s, pos: p.pos }),
                )
            } else {
                old(self)@.insert(p.icao.0, seq![TruthAt { t_s: p.t_s, pos: p.pos }])
            }),
    {
        let at = TruthAt { t_s: p.t_s, pos: p.pos };
        let ghost v = self.tracks@;
        match find_track(&self.tracks, p.icao.0) {
            Some(k) => {
                let mut points: Vec<TruthAt> = Vec::new();
                std::mem::swap(&mut points, &mut self.tracks[k].points);
                points.push(at);
                std::mem::swap(&mut points, &mut self.tracks[k].points);
                proof {
                    lemma_tracks_update(v, self.tracks@, k as int);
                }
            },
            None => {
                let mut points: Vec<TruthAt> = Vec::new();
                points.push(at);
                assert(points@ =~= seq![at]);
                self.tracks.push(Track { addr: p.icao.0, points });
                proof {
                    lemma_tracks_map(v);
                    assert(self.tracks@.drop_last() =~= v);
                    assert(distinct(self.tracks@)) by {
                        let w = self.tracks@;
                        assert forall|i: int, j: int| 0 <= i < j < w.len() implies #[trigger] w[i].addr
                            != #[trigger] w[j].addr by {
                            assert(w[i] == v[i]);
                            if j < v.len() {
                                assert(w[j] == v[j]);
                            } else {
                                assert(tracks_map(v).dom().contains(v[i].addr));
                            }
                        }
                    }
                }
            },
        }
    }

    /// Groups the points by aircraft, each group in order of time.
    pub fn build(points: &Vec<TruthPoint>) -> (r: Self)
        ensures
            r.wf(),
            exists|sorted: Seq<TruthPoint>|
                #[trigger] points_in_order(points@, sorted) && r@ == by_aircraft(sorted),
    {
        let mut keys: Vec<i64> = Vec::new();
        let mut i: usize = 0;
        while i < points.len()
            invariant
                i <= points@.len(),
                keys@ =~= point_keys(points@).take(i as int),
            decreases points@.len() - i,
        {
            keys.push(points[i].t_s.total_key());
            i = i + 1;
        }
        assert(keys@ =~= point_keys(points@));
        let order = order_by_key(keys.as_slice());
        let ghost sorted = order@.map_values(|k: usize| points@[k as int]);
        let mut r = TruthIndex { tracks: Vec::new() };
        assert(r@ =~= by_aircraft(sorted.take(0)));
        let mut k: usize = 0;
        while k < order.len()
            invariant
                crate::order::is_order(point_keys(points@), order@, 0, points@.len() as int),
                sorted == order@.map_values(|x: usize| points@[x as int]),
                k <= order@.len(),
                r.wf(),
                r@ == by_aircraft(sorted.take(k as int)),
            decreases order@.len() - k,
        {
            let x: usize = order[k];
            r.record(&points[x]);
            proof {
                assert(sorted.take(k + 1).drop_last() =~= sorted.take(k as int));
                assert(sorted.take(k + 1).last() == points@[x as int]);
            }
            k = k + 1;
        }
        assert(sorted.take(order@.len() as int) =~= sorted);
        assert(points_in_order(points@, sorted));
        r
    }

    /// Whether the aircraft occurs in the truth log.
    pub fn known(&self, icao: Icao) -> (r: bool)
        requires
            self.wf(),
        ensures
            r == self@.dom().contains(icao.0),
    {
        find_track(&self.tracks, icao.0).is_some()
    }

    /// The first and the last time of an aircraft, for the caller to widen.
    pub fn span(&self, icao: Icao) -> (r: Option<(Reading, Reading)>)
        requires
            self.wf(),
        ensures
            r is Some <==> self@.dom().contains(icao.0) && self@[icao.0].len() > 0,
            r matches Some(s) ==> s.0 == self@[icao.0].first().t_s && s.1
                == self@[icao.0].last().t_s,
    {
        match find_track(&self.tracks, icao.0) {
            Some(k) => {
                let n: usize = self.tracks[k].points.len();
                if n == 0 {
                    None
                } else {
                    Some((self.tracks[k].points[0].t_s, self.tracks[k].points[n - 1].t_s))
                }
            },
            None => None,
        }
    }

    /// Where the aircraft was at a time, for the caller to interpolate between two
    /// points; `None` where it is unknown, or the time lies before `from` or behind
    /// `until`: the aircraft's span, widened by the caller.
    pub fn pos_at(&self, icao: Icao, t_s: Reading, from: Reading, until: Reading) -> (r: Option<
        Place,
    >)
        requires
            self.wf(),
        ensures
            r is None <==> !self@.dom().contains(icao.0) || self@[icao.0].len() == 0
                || t_s.below(from) || until.below(t_s),
            r matches Some(p) ==> p == place_of(self@[icao.0], t_s),
    {
        if t_s.lt(from) || until.lt(t_s) {
            return None;
        }
        match self.bracket(icao, t_s) {
            Some((a, b)) => Some(
                if a == b || t_s.le(a.t_s) {
                    Place::At(a)
                } else {
                    Place::Between(a, b)
                },
            ),
            None => None,
        }
    }

    /// The points around a time, for the caller to interpolate between.
    pub fn bracket(&self, icao: Icao, t_s: Reading) -> (r: Option<(TruthAt, TruthAt)>)
        requires
            self.wf(),
        ensures
            r is Some <==> self@.dom().contains(icao.0) && self@[icao.0].len() > 0,
            r matches Some(b) ==> b == around(self@[icao.0], t_s),
    {
        match find_track(&self.tracks, icao.0) {
            Some(k) => {
                let ghost track = self.tracks@[k as int].points@;
                let n: usize = self.tracks[k].points.len();
                if n == 0 {
                    return None;
                }
                let mut i: usize = 0;
                assert(track.skip(0) =~= track);
                while i < n && self.tracks[k].points[i].t_s.le(t_s)
                    invariant
                        k < self.tracks@.len(),
                        track == self.tracks@[k as int].points@,
                        n == track.len(),
                        i <= n,
                        reached(track, t_s) == i + reached(track.skip(i as int), t_s),
                    decreases n - i,
                {
                    assert(track.skip(i as int).drop_first() =~= track.skip(i + 1));
                    i = i + 1;
                }
                assert(reached(track, t_s) == i);
                let at: usize = if i > 0 {
                    i - 1
                } else {
                    0
                };
                let a = self.tracks[k].points[at];
                let b = if at + 1 < n {
                    self.tracks[k].points[at + 1]
                } else {
                    a
                };
                Some((a, b))
            },
            None => None,
        }
    }
}

proof fn lemma_track_order(s: Seq<TruthPoint>, a: u32)
    requires
        forall|i: int, j: int|
            0 <= i < j < s.len() ==> (#[trigger] s[i]).t_s.total_rank() <= (
            #[trigger] s[j]).t_s.total_rank(),
        by_aircraft(s).dom().contains(a),
    ensures
        forall|i: int, j: int|
            0 <= i < j < by_aircraft(s)[a].len() ==> (
            #[trigger] by_aircraft(s)[a][i]).t_s.total_rank() <= (
            #[trigger] by_aircraft(s)[a][j]).t_s.total_rank(),
        forall|i: int|
            0 <= i < by_aircraft(s)[a].len() ==> (
            #[trigger] by_aircraft(s)[a][i]).t_s.total_rank() <= s.last().t_s.total_rank(),
    decreases s.len(),
{
    let f = s.drop_last();
    assert forall|i: int, j: int| 0 <= i < j < f.len() implies (#[trigger] f[i]).t_s.total_rank()
        <= (#[trigger] f[j]).t_s.total_rank() by {
        assert(f[i] == s[i] && f[j] == s[j]);
    }
    let m = by_aircraft(f);
    if m.dom().contains(a) {
        lemma_track_order(f, a);
        assert(s[f.len() - 1].t_s.total_rank() <= s[f.len() as int].t_s.total_rank());
        let old_track = m[a];
        let track = by_aircraft(s)[a];
        assert(track == old_track || track == old_track.push(
            TruthAt { t_s: s.last().t_s, pos: s.last().pos },
        ));
        assert forall|i: int| 0 <= i < track.len() implies (#[trigger] track[i]).t_s.total_rank()
            <= s.last().t_s.total_rank() by {
            if i < old_track.len() {
                assert(track[i] == old_track[i]);
            }
        }
        assert forall|i: int, j: int| 0 <= i < j < track.len() implies (
        #[trigger] track[i]).t_s.total_rank() <= (#[trigger] track[j]).t_s.total_rank() by {
            assert(track[i] == old_track[i]);
            if j < old_track.len() {
                assert(track[j] == old_track[j]);
            }
        }
    }
}

/// The index holds the points of each aircraft in order of time.
pub proof fn law_tracks_are_in_order(points: Seq<TruthPoint>, sorted: Seq<TruthPoint>, addr: u32)
    requires
        points_in_order(points, sorted),
        by_aircraft(sorted).dom().contains(addr),
    ensures
        forall|i: int, j: int|
            0 <= i < j < by_aircraft(sorted)[addr].len() ==> (
            #[trigger] by_aircraft(sorted)[addr][i]).t_s.total_rank() <= (
            #[trigger] by_aircraft(sorted)[addr][j]).t_s.total_rank(),
{
    let keys = point_keys(points);
    let o = choose|o: Seq<usize>|
        {
            &&& #[trigger] crate::order::is_order(keys, o, 0, points.len() as int)
            &&& sorted == o.map_values(|k: usize| points[k as int])
        };
    assert forall|i: int, j: int| 0 <= i < j < sorted.len() implies (
    #[trigger] sorted[i]).t_s.total_rank() <= (#[trigger] sorted[j]).t_s.total_rank() by {
        assert(crate::order::comes_before(keys, o[i] as int, o[j] as int));
        assert(keys[o[i] as int] == points[o[i] as int].t_s.total_rank());
        assert(keys[o[j] as int] == points[o[j] as int].t_s.total_rank());
    }
    lemma_track_order(sorted, addr);
}

/// A track in order of time, all of whose times are numbers.
pub open spec fn timed(track: Seq<TruthAt>) -> bool {
    &&& forall|i: int| 0 <= i < track.len() ==> !(#[trigger] track[i]).t_s.is_nan()
    &&& forall|i: int, j: int|
        0 <= i < j < track.len() ==> (#[trigger] track[i]).t_s.total_rank() <= (
        #[trigger] track[j]).t_s.total_rank()
}

proof fn lemma_reached(track: Seq<TruthAt>, t: Reading)
    ensures
        0 <= reached(track, t) <= track.len(),
        forall|i: int| 0 <= i < reached(track, t) ==> (#[trigger] track[i]).t_s.at_most(t),
        reached(track, t) < track.len() ==> !track[reached(track, t)].t_s.at_most(t),
    decreases track.len(),
{
    if track.len() > 0 && track[0].t_s.at_most(t) {
        let rest = track.drop_first();
        lemma_reached(rest, t);
        let n = reached(track, t);
        assert forall|i: int| 0 <= i < n implies (#[trigger] track[i]).t_s.at_most(t) by {
            if i > 0 {
                assert(rest[i - 1] == track[i]);
            }
        }
        if n < track.len() {
            assert(rest[n - 1] == track[n]);
        }
    }
}

/// The points that a time falls between enclose it: the first is not behind it, unless
/// the time lies before all points; the second is behind it, unless there is none; and
/// no other point lies between the two.
pub proof fn law_bracket_encloses(track: Seq<TruthAt>, t: Reading)
    requires
        timed(track),
        track.len() > 0,
        !t.is_nan(),
    ensures
        ({
            let (a, b) = around(track, t);
            &&& a.t_s.at_most(t) || (t.below(a.t_s) && a == track[0])
            &&& t.below(b.t_s) || (b == a && a == track.last())
            &&& forall|k: int|
                0 <= k < track.len() ==> (#[trigger] track[k]).t_s.at_most(a.t_s) || b.t_s.at_most(
                    track[k].t_s,
                )
        }),
{
    lemma_reached(track, t);
    let n = reached(track, t);
    let i = if n > 0 {
        n - 1
    } else {
        0
    };
    let (a, b) = around(track, t);
    assert forall|k: int| 0 <= k < track.len() implies (#[trigger] track[k]).t_s.at_most(a.t_s)
        || b.t_s.at_most(track[k].t_s) by {
        assert(!track[k].t_s.is_nan());
        assert(!track[i].t_s.is_nan());
        if k < i {
            assert(track[k].t_s.total_rank() <= track[i].t_s.total_rank());
        } else if k > i {
            assert(!track[i + 1].t_s.is_nan());
            if k > i + 1 {
                assert(track[i + 1].t_s.total_rank() <= track[k].t_s.total_rank());
            }
        }
    }
    assert(!track[i].t_s.is_nan());
    if i + 1 < track.len() {
        assert(!track[i + 1].t_s.is_nan());
        assert(track[i].t_s.total_rank() <= track[i + 1].t_s.total_rank());
    }
}

/// At the time of a point the aircraft is at that point: the first of the two points
/// has that time, and is the point itself where no other has its time.
pub proof fn law_bracket_at_a_point(track: Seq<TruthAt>, k: int)
    requires
        timed(track),
        0 <= k < track.len(),
    ensures
        ({
            let a = around(track, track[k].t_s).0;
            &&& a.t_s.at_most(track[k].t_s) && track[k].t_s.at_most(a.t_s)
            &&& (forall|j: int|
                0 <= j < track.len() && j != k ==> !((#[trigger] track[j]).t_s.at_most(track[k].t_s)
                    && track[k].t_s.at_most(track[j].t_s))) ==> a == track[k]
        }),
{
    let t = track[k].t_s;
    lemma_reached(track, t);
    let n = reached(track, t);
    assert(!t.is_nan());
    assert(n > k) by {
        if n <= k {
            assert(!track[n].t_s.is_nan());
            if n < k {
                assert(track[n].t_s.total_rank() <= track[k].t_s.total_rank());
            }
        }
    }
    assert(!track[n - 1].t_s.is_nan());
    if k < n - 1 {
        assert(track[k].t_s.total_rank() <= track[n - 1].t_s.total_rank());
    }
    assert(track[n - 1].t_s.at_most(t));
}

/// Times go up along a track, and no two are the same number.
pub open spec fn apart(track: Seq<TruthAt>) -> bool {
    &&& timed(track)
    &&& forall|i: int, j: int|
        0 <= i < j < track.len() ==> (#[trigger] track[i]).t_s.below((#[trigger] track[j]).t_s)
}

/// At the time of a point the aircraft is exactly there; before all points it is at
/// the first, behind all points at the last; and at any other time it is between the
/// two neighbouring points that enclose it.
pub proof fn law_place_follows_the_track(track: Seq<TruthAt>, t: Reading, k: int)
    requires
        apart(track),
        0 <= k < track.len(),
        !t.is_nan(),
    ensures
        track[k].t_s.at_most(t) && t.at_most(track[k].t_s) ==> place_of(track, t) == Place::At(
            track[k],
        ),
        t.below(track[0].t_s) ==> place_of(track, t) == Place::At(track[0]),
        track.last().t_s.below(t) ==> place_of(track, t) == Place::At(track.last()),
        k + 1 < track.len() && track[k].t_s.below(t) && t.below(track[k + 1].t_s) ==> place_of(
            track,
            t,
        ) == Place::Between(track[k], track[k + 1]),
{
    if track[k].t_s.at_most(t) && t.at_most(track[k].t_s) {
        lemma_place_at(track, t, k);
    }
    if k + 1 < track.len() && track[k].t_s.below(t) && t.below(track[k + 1].t_s) {
        lemma_place_between(track, t, k);
    }
    if t.below(track[0].t_s) {
        lemma_reached_count(track, t, 0);
    }
    let last = track.len() - 1;
    if track[last].t_s.below(t) {
        lemma_reached_count(track, t, last);
    }
}

/// A point is reached once its time has come.
proof fn lemma_reached_count(track: Seq<TruthAt>, t: Reading, k: int)
    requires
        apart(track),
        0 <= k < track.len(),
        !t.is_nan(),
    ensures
        k < reached(track, t) <==> track[k].t_s.at_most(t),
        0 <= reached(track, t) <= track.len(),
{
    lemma_reached(track, t);
    let n = reached(track, t);
    assert(!track[k].t_s.is_nan());
    if n < k {
        assert(track[n].t_s.below(track[k].t_s));
        assert(!track[n].t_s.is_nan());
    }
}

proof fn lemma_place_at(track: Seq<TruthAt>, t: Reading, k: int)
    requires
        apart(track),
        0 <= k < track.len(),
        track[k].t_s.at_most(t),
        t.at_most(track[k].t_s),
    ensures
        place_of(track, t) == Place::At(track[k]),
{
    lemma_reached_count(track, t, k);
    if k + 1 < track.len() {
        assert(track[k].t_s.below(track[k + 1].t_s));
        lemma_reached_count(track, t, k + 1);
    }
    assert(reached(track, t) == k + 1);
}

proof fn lemma_place_between(track: Seq<TruthAt>, t: Reading, k: int)
    requires
        apart(track),
        0 <= k < track.len() - 1,
        track[k].t_s.below(t),
        t.below(track[k + 1].t_s),
    ensures
        place_of(track, t) == Place::Between(track[k], track[k + 1]),
{
    lemma_reached_count(track, t, k);
    lemma_reached_count(track, t, k + 1);
    assert(reached(track, t) == k + 1);
}

/// No aircraft has two points of one time.
pub open spec fn distinct_times(s: Seq<TruthPoint>) -> bool {
    forall|i: int, j: int|
        0 <= i < s.len() && 0 <= j < s.len() && i != j && (#[trigger] s[i]).icao == (
        #[trigger] s[j]).icao ==> s[i].t_s.total_rank() != s[j].t_s.total_rank()
}

/// Each aircraft's points come in order, one time after the other.
spec fn strictly_timed(s: Seq<TruthPoint>) -> bool {
    forall|i: int, j: int|
        0 <= i < j < s.len() && (#[trigger] s[i]).icao == (#[trigger] s[j]).icao
            ==> s[i].t_s.total_rank() < s[j].t_s.total_rank()
}

spec fn has_point(s: Seq<TruthPoint>, a: u32, at: TruthAt) -> bool {
    s.contains(TruthPoint { t_s: at.t_s, icao: Icao(a), pos: at.pos })
}

spec fn rising(track: Seq<TruthAt>) -> bool {
    forall|i: int, j: int|
        0 <= i < j < track.len() ==> (#[trigger] track[i]).t_s.total_rank() < (
        #[trigger] track[j]).t_s.total_rank()
}

/// The track of an aircraft; empty where it has no point.
spec fn track_in(s: Seq<TruthPoint>, a: u32) -> Seq<TruthAt> {
    if by_aircraft(s).dom().contains(a) {
        by_aircraft(s)[a]
    } else {
        seq![]
    }
}

proof fn lemma_track_in(s: Seq<TruthPoint>, a: u32)
    requires
        strictly_timed(s),
    ensures
        by_aircraft(s).dom().contains(a) <==> track_in(s, a).len() > 0,
        rising(track_in(s, a)),
        forall|at: TruthAt| #[trigger] track_in(s, a).contains(at) <==> has_point(s, a, at),
    decreases s.len(),
{
    let track = track_in(s, a);
    if s.len() > 0 {
        let f = s.drop_last();
        let p = s.last();
        let last = TruthAt { t_s: p.t_s, pos: p.pos };
        assert(strictly_timed(f)) by {
            assert forall|i: int, j: int| 0 <= i < j < f.len() && (#[trigger] f[i]).icao == (
            #[trigger] f[j]).icao implies f[i].t_s.total_rank() < f[j].t_s.total_rank() by {
                assert(f[i] == s[i] && f[j] == s[j]);
            }
        }
        lemma_track_in(f, a);
        let before = track_in(f, a);
        if p.icao.0 == a {
            assert(track =~= before.push(last));
            assert forall|i: int, j: int| 0 <= i < j < track.len() implies (
            #[trigger] track[i]).t_s.total_rank() < (#[trigger] track[j]).t_s.total_rank() by {
                assert(track[i] == before[i]);
                if j < before.len() {
                    assert(track[j] == before[j]);
                } else {
                    assert(before.contains(track[i]));
                    let q = TruthPoint { t_s: track[i].t_s, icao: Icao(a), pos: track[i].pos };
                    let x = choose|x: int| 0 <= x < f.len() && f[x] == q;
                    assert(s[x] == q);
                    assert(s[s.len() - 1] == p);
                    assert(s[x].icao == s[s.len() - 1].icao);
                }
            }
        } else {
            assert(track =~= before);
        }
        assert forall|at: TruthAt| #[trigger] track.contains(at) <==> has_point(s, a, at) by {
            let q = TruthPoint { t_s: at.t_s, icao: Icao(a), pos: at.pos };
            if track.contains(at) {
                let x = choose|x: int| 0 <= x < track.len() && track[x] == at;
                if x < before.len() {
                    assert(before[x] == at);
                    assert(before.contains(at));
                    let y = choose|y: int| 0 <= y < f.len() && f[y] == q;
                    assert(s[y] == q);
                } else {
                    assert(s[s.len() - 1] == q);
                }
            }
            if has_point(s, a, at) {
                let y = choose|y: int| 0 <= y < s.len() && s[y] == q;
                if y < f.len() {
                    assert(f[y] == q);
                    assert(has_point(f, a, at));
                    assert(before.contains(at));
                    let x = choose|x: int| 0 <= x < before.len() && before[x] == at;
                    assert(track[x] == at);
                } else {
                    assert(track[track.len() - 1] == at);
                }
            }
        }
    }
}

proof fn lemma_rising_same(u: Seq<TruthAt>, v: Seq<TruthAt>)
    requires
        rising(u),
        rising(v),
        forall|at: TruthAt| #[trigger] u.contains(at) <==> v.contains(at),
    ensures
        u == v,
    decreases u.len(),
{
    if u.len() == 0 {
        if v.len() > 0 {
            assert(v.contains(v[0]));
            assert(u.contains(v[0]));
        }
        assert(u =~= v);
    } else {
        assert(u.contains(u.last()));
        assert(v.contains(u.last()));
        let x = choose|x: int| 0 <= x < v.len() && v[x] == u.last();
        assert(v.contains(v.last()));
        assert(u.contains(v.last()));
        let y = choose|y: int| 0 <= y < u.len() && u[y] == v.last();
        if x < v.len() - 1 {
            assert(v[x].t_s.total_rank() < v[v.len() - 1].t_s.total_rank());
            if y < u.len() - 1 {
                assert(u[y].t_s.total_rank() < u[u.len() - 1].t_s.total_rank());
            }
        }
        assert(u.last() == v.last());
        let (a, b) = (u.drop_last(), v.drop_last());
        assert(rising(a)) by {
            assert forall|i: int, j: int| 0 <= i < j < a.len() implies (
            #[trigger] a[i]).t_s.total_rank() < (#[trigger] a[j]).t_s.total_rank() by {
                assert(a[i] == u[i] && a[j] == u[j]);
            }
        }
        assert(rising(b)) by {
            assert forall|i: int, j: int| 0 <= i < j < b.len() implies (
            #[trigger] b[i]).t_s.total_rank() < (#[trigger] b[j]).t_s.total_rank() by {
                assert(b[i] == v[i] && b[j] == v[j]);
            }
        }
        assert forall|at: TruthAt| #[trigger] a.contains(at) <==> b.contains(at) by {
            if a.contains(at) {
                lemma_in_front(u, v, at);
            }
            if b.contains(at) {
                lemma_in_front(v, u, at);
            }
        }
        lemma_rising_same(a, b);
        assert(u =~= a.push(u.last()));
        assert(v =~= b.push(v.last()));
    }
}

proof fn lemma_in_front(u: Seq<TruthAt>, v: Seq<TruthAt>, at: TruthAt)
    requires
        rising(u),
        u.len() > 0,
        v.len() > 0,
        u.last() == v.last(),
        u.drop_last().contains(at),
        forall|x: TruthAt| #[trigger] u.contains(x) <==> v.contains(x),
    ensures
        v.drop_last().contains(at),
{
    let i = choose|i: int| 0 <= i < u.drop_last().len() && u.drop_last()[i] == at;
    assert(u[i] == at);
    assert(u.contains(at));
    let j = choose|j: int| 0 <= j < v.len() && v[j] == at;
    assert(u[i].t_s.total_rank() < u[u.len() - 1].t_s.total_rank());
    assert(j < v.len() - 1);
    assert(v.drop_last()[j] == at);
}

proof fn lemma_sorted_points(points: Seq<TruthPoint>, sorted: Seq<TruthPoint>)
    requires
        points_in_order(points, sorted),
        distinct_times(points),
        points.len() <= usize::MAX,
    ensures
        strictly_timed(sorted),
        forall|p: TruthPoint| #[trigger] sorted.contains(p) <==> points.contains(p),
{
    let keys = point_keys(points);
    let o = choose|o: Seq<usize>|
        {
            &&& #[trigger] crate::order::is_order(keys, o, 0, points.len() as int)
            &&& sorted == o.map_values(|k: usize| points[k as int])
        };
    assert forall|i: int, j: int| 0 <= i < j < sorted.len() && (#[trigger] sorted[i]).icao == (
    #[trigger] sorted[j]).icao implies sorted[i].t_s.total_rank() < sorted[j].t_s.total_rank() by {
        let (x, y) = (o[i] as int, o[j] as int);
        assert(crate::order::comes_before(keys, x, y));
        assert(keys[x] == points[x].t_s.total_rank());
        assert(keys[y] == points[y].t_s.total_rank());
        assert(sorted[i] == points[x] && sorted[j] == points[y]);
    }
    assert forall|p: TruthPoint| #[trigger] sorted.contains(p) <==> points.contains(p) by {
        if sorted.contains(p) {
            let i = choose|i: int| 0 <= i < sorted.len() && sorted[i] == p;
            assert(points[o[i] as int] == p);
        }
        if points.contains(p) {
            let x = choose|x: int| 0 <= x < points.len() && points[x] == p;
            assert(o.contains(x as usize));
            let i = choose|i: int| 0 <= i < o.len() && o[i] == x as usize;
            assert(sorted[i] == p);
        }
    }
}

proof fn lemma_same_track(s: Seq<TruthPoint>, t: Seq<TruthPoint>, a: u32)
    requires
        strictly_timed(s),
        strictly_timed(t),
        forall|p: TruthPoint| #[trigger] s.contains(p) <==> t.contains(p),
    ensures
        by_aircraft(s).dom().contains(a) <==> by_aircraft(t).dom().contains(a),
        by_aircraft(s).dom().contains(a) ==> by_aircraft(s)[a] == by_aircraft(t)[a],
{
    lemma_track_in(s, a);
    lemma_track_in(t, a);
    let (u, v) = (track_in(s, a), track_in(t, a));
    assert forall|at: TruthAt| #[trigger] u.contains(at) <==> v.contains(at) by {
        assert(has_point(s, a, at) <==> has_point(t, a, at));
        assert(v.contains(at) <==> has_point(t, a, at));
    }
    lemma_rising_same(u, v);
}

/// The order of the points in the truth log does not matter: two logs of the same
/// points make the same index, where no aircraft has two points of one time.
pub proof fn law_log_order_does_not_matter(
    points: Seq<TruthPoint>,
    sorted: Seq<TruthPoint>,
    other: Seq<TruthPoint>,
    other_sorted: Seq<TruthPoint>,
)
    requires
        points_in_order(points, sorted),
        points_in_order(other, other_sorted),
        points.len() <= usize::MAX,
        other.len() <= usize::MAX,
        distinct_times(points),
        distinct_times(other),
        forall|p: TruthPoint| #[trigger] points.contains(p) <==> other.contains(p),
    ensures
        by_aircraft(sorted) == by_aircraft(other_sorted),
{
    lemma_sorted_points(points, sorted);
    lemma_sorted_points(other, other_sorted);
    let (m, n) = (by_aircraft(sorted), by_aircraft(other_sorted));
    assert forall|p: TruthPoint| #[trigger] sorted.contains(p) <==> other_sorted.contains(p) by {
        assert(points.contains(p) <==> other.contains(p));
    }
    assert forall|a: u32| #[trigger] m.dom().contains(a) <==> n.dom().contains(a) by {
        lemma_same_track(sorted, other_sorted, a);
    }
    assert forall|a: u32| #[trigger] m.dom().contains(a) implies m[a] == n[a] by {
        lemma_same_track(sorted, other_sorted, a);
    }
    assert(m =~= n);
}

/// Every point of the log is in the index, under its own aircraft, and nothing else is.
pub proof fn law_every_point_is_indexed(points: Seq<TruthPoint>, a: u32, at: TruthAt)
    ensures
        by_aircraft(points).dom().contains(a) <==> exists|i: int|
            0 <= i < points.len() && (#[trigger] points[i]).icao.0 == a,
        by_aircraft(points).dom().contains(a) && by_aircraft(points)[a].contains(at)
            <==> points.contains(TruthPoint { t_s: at.t_s, icao: Icao(a), pos: at.pos }),
    decreases points.len(),
{
    if points.len() > 0 {
        let r = points.drop_last();
        let (m, m0) = (by_aircraft(points), by_aircraft(r));
        let p = points.last();
        let last = TruthAt { t_s: p.t_s, pos: p.pos };
        law_every_point_is_indexed(r, a, at);
        let full = TruthPoint { t_s: at.t_s, icao: Icao(a), pos: at.pos };
        if exists|i: int| 0 <= i < r.len() && (#[trigger] r[i]).icao.0 == a {
            let i = choose|i: int| 0 <= i < r.len() && (#[trigger] r[i]).icao.0 == a;
            assert(points[i].icao.0 == a);
        }
        if exists|i: int| 0 <= i < points.len() && (#[trigger] points[i]).icao.0 == a {
            let i = choose|i: int| 0 <= i < points.len() && (#[trigger] points[i]).icao.0 == a;
            if i < r.len() {
                assert(r[i].icao.0 == a);
            }
        }
        if p.icao.0 == a {
            assert(points[points.len() - 1].icao.0 == a);
        }
        if r.contains(full) {
            let i = choose|i: int| 0 <= i < r.len() && r[i] == full;
            assert(points[i] == full);
            if p.icao.0 == a {
                let k = choose|k: int| 0 <= k < m0[a].len() && m0[a][k] == at;
                assert(m[a][k] == at);
            }
        }
        if points.contains(full) {
            let i = choose|i: int| 0 <= i < points.len() && points[i] == full;
            if i < r.len() {
                assert(r[i] == full);
            } else {
                assert(m[a].last() == at);
                assert(m[a][m[a].len() - 1] == at);
            }
        }
        if m.dom().contains(a) && m[a].contains(at) {
            let k = choose|k: int| 0 <= k < m[a].len() && m[a][k] == at;
            if p.icao.0 == a {
                if m0.dom().contains(a) && k < m0[a].len() {
                    assert(m0[a][k] == at);
                    assert(m0[a].contains(at));
                } else {
                    assert(at == last);
                    assert(points[points.len() - 1] == full);
                }
            }
        }
    }
}

} // verus!
