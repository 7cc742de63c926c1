//! The scorer: what a result table is worth.
//!
//! Distances and differences are calculated in floating point outside and come in
//! as readings; which of them count, and for what, is decided here.

use std::collections::HashSet;
use vstd::prelude::*;

use crate::icao::Icao;
use crate::metrics::truth::TruthIndex;
use crate::order::order_by_key;
use crate::reading::Reading;

verus! {

/// 10 km: a matched result farther from truth is a ghost and stays out of the error
/// percentiles.
pub const GHOST_M: u64 = 0x40C3_8800_0000_0000;

/// Receivers that make an aircraft trackable: a 3D solve needs four.
pub const MIN_RX: usize = 4;

/// 1 m: below it an error estimate is not compared.
pub const RATIO_FLOOR_M: u64 = 0x3FF0_0000_0000_0000;

/// How far a result is from truth.
#[derive(Debug, Clone, Copy, PartialEq, Eq, Structural)]
pub struct Miss {
    /// Horizontal distance, meters.
    pub err_m: Reading,
    /// Altitude difference, where the result has an altitude.
    pub alt_err_m: Option<Reading>,
    /// The result's own error estimate over its error, where it has one.
    pub est_ratio: Option<Reading>,
}

/// A result, measured. `miss` is there where truth knows a position at that time.
#[derive(Debug, Clone, Copy, PartialEq, Eq, Structural)]
pub struct Measured {
    pub icao: Icao,
    /// Seconds since the start of the scenario.
    pub sim_t: Reading,
    pub miss: Option<Miss>,
}

/// Where an aircraft could be heard during a second.
#[derive(Debug, Clone, Copy, PartialEq, Eq, Structural)]
pub struct AudibilitySecond {
    pub t_s: u64,
    pub icao: Icao,
    pub n_receivers: usize,
}

/// What becomes of a result.
#[derive(Debug, Clone, Copy, PartialEq, Eq, Structural)]
pub enum Outcome {
    /// The aircraft exists but has no truth.
    Unscored,
    /// The aircraft never flew.
    UnknownGhost,
    /// Truth knows no position at that time.
    Outside,
    /// Too far from truth.
    GrossGhost,
    /// The distance is no number.
    Unmeasured,
    Matched,
}

/// What becomes of a result, by whether truth and the scenario know its aircraft.
pub open spec fn outcome(in_truth: bool, untruthed: bool, r: Measured) -> Outcome {
    if !in_truth {
        if untruthed {
            Outcome::Unscored
        } else {
            Outcome::UnknownGhost
        }
    } else {
        match r.miss {
            None => Outcome::Outside,
            Some(m) => if Reading(GHOST_M).below(m.err_m) {
                Outcome::GrossGhost
            } else if m.err_m.at_most(Reading(GHOST_M)) {
                Outcome::Matched
            } else {
                Outcome::Unmeasured
            },
        }
    }
}

/// A matched result.
#[derive(Debug, Clone, Copy, PartialEq, Eq, Structural)]
pub struct Hit {
    pub icao: Icao,
    pub sim_t: Reading,
    pub miss: Miss,
}

/// How many results have an outcome.
pub open spec fn count(rows: Seq<Measured>, truth: Set<u32>, untruthed: Set<u32>, o: Outcome) -> nat
    decreases rows.len(),
{
    if rows.len() == 0 {
        0
    } else {
        let r = rows.last();
        count(rows.drop_last(), truth, untruthed, o) + if outcome(
            truth.contains(r.icao.0),
            untruthed.contains(r.icao.0),
            r,
        ) == o {
            1nat
        } else {
            0
        }
    }
}

/// The matched results, in order.
pub open spec fn hits(rows: Seq<Measured>, truth: Set<u32>, untruthed: Set<u32>) -> Seq<Hit>
    decreases rows.len(),
{
    if rows.len() == 0 {
        seq![]
    } else {
        let r = rows.last();
        let rest = hits(rows.drop_last(), truth, untruthed);
        if outcome(truth.contains(r.icao.0), untruthed.contains(r.icao.0), r) == Outcome::Matched {
            rest.push(Hit { icao: r.icao, sim_t: r.sim_t, miss: r.miss->0 })
        } else {
            rest
        }
    }
}

/// The horizontal errors of matched results.
pub open spec fn errors(h: Seq<Hit>) -> Seq<Reading> {
    h.map_values(|x: Hit| x.miss.err_m)
}

/// The altitude errors of matched results that have one.
pub open spec fn alt_errors(h: Seq<Hit>) -> Seq<Reading>
    decreases h.len(),
{
    if h.len() == 0 {
        seq![]
    } else {
        let rest = alt_errors(h.drop_last());
        match h.last().miss.alt_err_m {
            Some(e) => rest.push(e),
            None => rest,
        }
    }
}

/// The estimate ratios of matched results that have one and are not too close to
/// compare.
pub open spec fn ratios(h: Seq<Hit>) -> Seq<Reading>
    decreases h.len(),
{
    if h.len() == 0 {
        seq![]
    } else {
        let rest = ratios(h.drop_last());
        match h.last().miss.est_ratio {
            Some(e) => if Reading(RATIO_FLOOR_M).below(h.last().miss.err_m) {
                rest.push(e)
            } else {
                rest
            },
            None => rest,
        }
    }
}

/// A result is of an aircraft: the two have the same six-digit address.
pub open spec fn is_of(icao: Icao, addr: u32) -> bool {
    icao.0 % 0x100_0000 == addr % 0x100_0000
}

/// The matched results of an aircraft.
pub open spec fn hits_of(h: Seq<Hit>, addr: u32) -> Seq<Hit>
    decreases h.len(),
{
    if h.len() == 0 {
        seq![]
    } else {
        let rest = hits_of(h.drop_last(), addr);
        if is_of(h.last().icao, addr) {
            rest.push(h.last())
        } else {
            rest
        }
    }
}

/// The sort keys of a run of readings.
pub open spec fn reading_keys(v: Seq<Reading>) -> Seq<i64> {
    v.map_values(|x: Reading| x.total_rank() as i64)
}

/// `r` holds the readings of `v` in order.
pub open spec fn is_sorted(v: Seq<Reading>, r: Seq<Reading>) -> bool {
    exists|o: Seq<usize>|
        {
            &&& #[trigger] crate::order::is_order(reading_keys(v), o, 0, v.len() as int)
            &&& r == o.map_values(|k: usize| v[k as int])
        }
}

fn sort(v: &Vec<Reading>) -> (r: Vec<Reading>)
    ensures
        is_sorted(v@, r@),
        r@.len() == v@.len(),
{
    let mut keys: Vec<i64> = Vec::new();
    let mut i: usize = 0;
    while i < v.len()
        invariant
            i <= v@.len(),
            keys@ =~= reading_keys(v@).take(i as int),
        decreases v@.len() - i,
    {
        keys.push(v[i].total_key());
        i = i + 1;
    }
    assert(keys@ =~= reading_keys(v@));
    let order = order_by_key(keys.as_slice());
    let mut out: Vec<Reading> = Vec::new();
    let mut k: usize = 0;
    while k < order.len()
        invariant
            crate::order::is_order(reading_keys(v@), order@, 0, v@.len() as int),
            k <= order@.len(),
            out@ =~= order@.take(k as int).map_values(|x: usize| v@[x as int]),
        decreases order@.len() - k,
    {
        let x: usize = order[k];
        out.push(v[x]);
        k = k + 1;
    }
    assert(order@.take(order@.len() as int) =~= order@);
    out
}

/// Percentiles of a run of errors. The mean is left to the caller.
#[derive(Debug, Clone, Copy, PartialEq, Eq, Structural)]
pub struct ErrorStats {
    pub n: usize,
    pub p50: Reading,
    pub p90: Reading,
    pub p99: Reading,
    pub max: Reading,
}

/// The place of a percentile among `n` ordered values.
pub open spec fn rank_of(n: int, percent: int) -> int {
    let i = n * percent / 100;
    if i < n - 1 {
        i
    } else {
        n - 1
    }
}

fn rank_at(n: usize, percent: usize) -> (r: usize)
    requires
        0 < n,
        0 < percent < 100,
    ensures
        r == rank_of(n as int, percent as int),
        r < n,
{
    assert(0 <= n * percent <= 0xFFFF_FFFF_FFFF_FFFF * 100) by (nonlinear_arith)
        requires
            0 <= n <= 0xFFFF_FFFF_FFFF_FFFF,
            0 <= percent <= 100,
    ;
    let i: u128 = n as u128 * percent as u128 / 100;
    if i < (n - 1) as u128 {
        i as usize
    } else {
        n - 1
    }
}

/// `v` is the value at a percentile of ordered values: of the `n` of them, `k` stand
/// before it, and `percent` of a hundred of them are at least `k` and fewer than `k + 1`.
pub open spec fn is_percentile(sorted: Seq<Reading>, percent: int, v: Reading) -> bool {
    exists|k: int|
        0 <= k < sorted.len() && v == #[trigger] sorted[k] && 100 * k <= percent * sorted.len() < 100
            * (k + 1)
}

/// The place of a percentile splits the values in that proportion: for every number of
/// values, `k` of them before it are no more than `percent` of a hundred of all, and one
/// more would be.
pub proof fn law_rank_splits_in_proportion(n: int, percent: int)
    requires
        0 < n,
        0 <= percent < 100,
    ensures
        0 <= rank_of(n, percent) < n,
        100 * rank_of(n, percent) <= percent * n,
        percent * n < 100 * (rank_of(n, percent) + 1),
{
    assert(0 <= n * percent && n * percent == percent * n && n * percent < 100 * n)
        by (nonlinear_arith)
        requires
            0 < n,
            0 <= percent < 100,
    ;
}

/// A higher percentile stands no earlier, and among more values no earlier either.
pub proof fn law_rank_grows(n: int, m: int, p: int, q: int)
    requires
        0 < n <= m,
        0 <= p <= q < 100,
    ensures
        rank_of(n, p) <= rank_of(m, q),
{
    assert(0 <= n * p && n * p <= m * q && m * q < 100 * m) by (nonlinear_arith)
        requires
            0 < n <= m,
            0 <= p <= q < 100,
    ;
    assert(n * p < 100 * n) by (nonlinear_arith)
        requires
            0 < n,
            0 <= p < 100,
    ;
}

/// Percentiles of ordered errors; none of no errors.
pub fn stats(sorted: &Vec<Reading>) -> (r: Option<ErrorStats>)
    ensures
        r is Some <==> sorted@.len() > 0,
        r matches Some(s) ==> {
            let n = sorted@.len() as int;
            &&& s.n == n
            &&& s.p50 == sorted@[rank_of(n, 50)]
            &&& s.p90 == sorted@[rank_of(n, 90)]
            &&& s.p99 == sorted@[rank_of(n, 99)]
            &&& s.max == sorted@[n - 1]
            &&& is_percentile(sorted@, 50, s.p50)
            &&& is_percentile(sorted@, 90, s.p90)
            &&& is_percentile(sorted@, 99, s.p99)
        },
{
    let n: usize = sorted.len();
    if n == 0 {
        return None;
    }
    proof {
        law_rank_splits_in_proportion(n as int, 50);
        law_rank_splits_in_proportion(n as int, 90);
        law_rank_splits_in_proportion(n as int, 99);
    }
    Some(
        ErrorStats {
            n,
            p50: sorted[rank_at(n, 50)],
            p90: sorted[rank_at(n, 90)],
            p99: sorted[rank_at(n, 99)],
            max: sorted[n - 1],
        },
    )
}

// ----------------------------------------------------------------- coverage

/// A second counts as trackable: enough receivers, and an aircraft that needs
/// multilateration.
pub open spec fn is_trackable(a: AudibilitySecond, targets: Set<u32>) -> bool {
    a.n_receivers >= MIN_RX && targets.contains(a.icao.0)
}

/// The trackable seconds of an aircraft, in order.
pub open spec fn trackable(aud: Seq<AudibilitySecond>, targets: Set<u32>, addr: u32) -> Seq<u64>
    decreases aud.len(),
{
    if aud.len() == 0 {
        seq![]
    } else {
        let rest = trackable(aud.drop_last(), targets, addr);
        let a = aud.last();
        if is_trackable(a, targets) && a.icao.0 == addr {
            rest.push(a.t_s)
        } else {
            rest
        }
    }
}

/// The trackable aircraft-seconds: pairs of an aircraft and a second, however often
/// they are listed.
pub open spec fn trackable_pairs(aud: Seq<AudibilitySecond>, targets: Set<u32>) -> Set<(u32, u64)>
    decreases aud.len(),
{
    if aud.len() == 0 {
        Set::empty()
    } else {
        let rest = trackable_pairs(aud.drop_last(), targets);
        let a = aud.last();
        if is_trackable(a, targets) {
            rest.insert((a.icao.0, a.t_s))
        } else {
            rest
        }
    }
}

/// The seconds of an aircraft that have a result, negative times left out.
pub open spec fn covered(h: Seq<Hit>, addr: u32) -> Seq<u64>
    decreases h.len(),
{
    if h.len() == 0 {
        seq![]
    } else {
        let rest = covered(h.drop_last(), addr);
        let x = h.last();
        if is_of(x.icao, addr) && Reading(0).at_most(x.sim_t) {
            rest.push(x.sim_t.truncated())
        } else {
            rest
        }
    }
}

/// What is counted of an aircraft that needs multilateration.
#[derive(Debug, Clone, Copy, PartialEq, Eq, Structural)]
pub struct AircraftTally {
    pub icao: Icao,
    /// Matched results.
    pub results: usize,
    pub p50_error_m: Option<Reading>,
    /// Trackable seconds, a second counted as often as it is listed.
    pub listed_s: usize,
    /// Different trackable seconds.
    pub trackable_s: usize,
    /// Different trackable seconds that have a result.
    pub tracked_s: usize,
    pub first_trackable_s: u64,
    /// Earliest matched result.
    pub first_result: Option<Reading>,
}

/// The tally of an aircraft is right.
pub open spec fn tally_holds(
    t: AircraftTally,
    h: Seq<Hit>,
    aud: Seq<AudibilitySecond>,
    targets: Set<u32>,
) -> bool {
    let addr = t.icao.0;
    let mine = hits_of(h, addr);
    let secs = trackable(aud, targets, addr);
    &&& t.results == mine.len()
    &&& mine.len() == 0 ==> t.p50_error_m is None && t.first_result is None
    &&& mine.len() > 0 ==> {
        &&& exists|sorted: Seq<Reading>| #[trigger]
            is_sorted(errors(mine), sorted) && t.p50_error_m == Some(
                sorted[rank_of(mine.len() as int, 50)],
            )
        &&& t.first_result matches Some(f) && (exists|i: int|
            0 <= i < mine.len() && (#[trigger] mine[i]).sim_t == f) && (forall|i: int|
            0 <= i < mine.len() ==> f.total_rank() <= (#[trigger] mine[i]).sim_t.total_rank())
    }
    &&& t.listed_s == secs.len()
    &&& t.trackable_s == secs.to_set().len()
    &&& t.tracked_s == covered(h, addr).to_set().intersect(secs.to_set()).len()
    &&& secs.contains(t.first_trackable_s)
    &&& forall|i: int| 0 <= i < secs.len() ==> t.first_trackable_s <= #[trigger] secs[i]
}

/// The tallies' addresses go up.
pub open spec fn ascending(v: Seq<AircraftTally>) -> bool {
    forall|i: int, j: int| 0 <= i < j < v.len() ==> (#[trigger] v[i]).icao.0 < (#[trigger] v[j]).icao.0
}

/// The tracked seconds of all aircraft.
pub open spec fn tracked_sum(v: Seq<AircraftTally>) -> nat
    decreases v.len(),
{
    if v.len() == 0 {
        0
    } else {
        tracked_sum(v.drop_last()) + v.last().tracked_s as nat
    }
}

fn gather_hits(
    truth: &TruthIndex,
    rows: &Vec<Measured>,
    known_untruthed: &HashSet<u32>,
) -> (r: (Vec<Hit>, usize, usize, usize))
    requires
        truth.wf(),
    ensures
        r.0@ == hits(rows@, truth@.dom(), known_untruthed@),
        r.1 == count(rows@, truth@.dom(), known_untruthed@, Outcome::Unscored),
        r.2 == count(rows@, truth@.dom(), known_untruthed@, Outcome::UnknownGhost),
        r.3 == count(rows@, truth@.dom(), known_untruthed@, Outcome::GrossGhost),
        r.0@.len() == count(rows@, truth@.dom(), known_untruthed@, Outcome::Matched),
{
    broadcast use vstd::std_specs::hash::group_hash_axioms;

    let mut out: Vec<Hit> = Vec::new();
    let mut unscored: usize = 0;
    let mut unknown: usize = 0;
    let mut gross: usize = 0;
    let ghost t = truth@.dom();
    let ghost u = known_untruthed@;
    let mut i: usize = 0;
    while i < rows.len()
        invariant
            truth.wf(),
            t == truth@.dom(),
            u == known_untruthed@,
            i <= rows@.len(),
            out@ == hits(rows@.take(i as int), t, u),
            unscored == count(rows@.take(i as int), t, u, Outcome::Unscored),
            unknown == count(rows@.take(i as int), t, u, Outcome::UnknownGhost),
            gross == count(rows@.take(i as int), t, u, Outcome::GrossGhost),
            out@.len() == count(rows@.take(i as int), t, u, Outcome::Matched),
            unscored <= i,
            unknown <= i,
            gross <= i,
        decreases rows@.len() - i,
    {
        broadcast use vstd::std_specs::hash::group_hash_axioms;

        let row = rows[i];
        proof {
            assert(rows@.take(i + 1).drop_last() =~= rows@.take(i as int));
            assert(rows@.take(i + 1).last() == row);
        }
        if !truth.known(row.icao) {
            if known_untruthed.contains(&row.icao.0) {
                unscored = unscored + 1;
            } else {
                unknown = unknown + 1;
            }
        } else if let Some(m) = row.miss {
            if Reading(GHOST_M).lt(m.err_m) {
                gross = gross + 1;
            } else if m.err_m.le(Reading(GHOST_M)) {
                out.push(Hit { icao: row.icao, sim_t: row.sim_t, miss: m });
            }
        }
        i = i + 1;
    }
    assert(rows@.take(rows@.len() as int) =~= rows@);
    (out, unscored, unknown, gross)
}

fn collect_errors(h: &Vec<Hit>) -> (r: (Vec<Reading>, Vec<Reading>, Vec<Reading>))
    ensures
        r.0@ == errors(h@),
        r.1@ == alt_errors(h@),
        r.2@ == ratios(h@),
{
    let mut e: Vec<Reading> = Vec::new();
    let mut a: Vec<Reading> = Vec::new();
    let mut q: Vec<Reading> = Vec::new();
    let mut i: usize = 0;
    while i < h.len()
        invariant
            i <= h@.len(),
            e@ =~= errors(h@.take(i as int)),
            a@ == alt_errors(h@.take(i as int)),
            q@ == ratios(h@.take(i as int)),
        decreases h@.len() - i,
    {
        let x = h[i];
        proof {
            assert(h@.take(i + 1).drop_last() =~= h@.take(i as int));
            assert(h@.take(i + 1).last() == x);
        }
        e.push(x.miss.err_m);
        if let Some(v) = x.miss.alt_err_m {
            a.push(v);
        }
        if let Some(v) = x.miss.est_ratio {
            if Reading(RATIO_FLOOR_M).lt(x.miss.err_m) {
                q.push(v);
            }
        }
        i = i + 1;
    }
    assert(h@.take(h@.len() as int) =~= h@);
    (e, a, q)
}

fn select_hits(h: &Vec<Hit>, addr: u32) -> (r: Vec<Hit>)
    ensures
        r@ == hits_of(h@, addr),
{
    let mut out: Vec<Hit> = Vec::new();
    let mut i: usize = 0;
    while i < h.len()
        invariant
            i <= h@.len(),
            out@ == hits_of(h@.take(i as int), addr),
        decreases h@.len() - i,
    {
        proof {
            assert(h@.take(i + 1).drop_last() =~= h@.take(i as int));
            assert(h@.take(i + 1).last() == h@[i as int]);
        }
        if h[i].icao.0 % 0x100_0000 == addr % 0x100_0000 {
            out.push(h[i]);
        }
        i = i + 1;
    }
    assert(h@.take(h@.len() as int) =~= h@);
    out
}

fn select_seconds(aud: &Vec<AudibilitySecond>, targets: &HashSet<u32>, addr: u32) -> (r: Vec<u64>)
    ensures
        r@ == trackable(aud@, targets@, addr),
        r@.len() <= aud@.len(),
{
    broadcast use vstd::std_specs::hash::group_hash_axioms;

    let mut out: Vec<u64> = Vec::new();
    let mut i: usize = 0;
    while i < aud.len()
        invariant
            i <= aud@.len(),
            out@ == trackable(aud@.take(i as int), targets@, addr),
            out@.len() <= i,
        decreases aud@.len() - i,
    {
        broadcast use vstd::std_specs::hash::group_hash_axioms;

        let a = aud[i];
        proof {
            assert(aud@.take(i + 1).drop_last() =~= aud@.take(i as int));
            assert(aud@.take(i + 1).last() == a);
        }
        if a.icao.0 == addr && a.n_receivers >= MIN_RX && targets.contains(&a.icao.0) {
            out.push(a.t_s);
        }
        i = i + 1;
    }
    assert(aud@.take(aud@.len() as int) =~= aud@);
    out
}

fn distinct_seconds(secs: &Vec<u64>) -> (r: HashSet<u64>)
    ensures
        r@ == secs@.to_set(),
{
    broadcast use vstd::std_specs::hash::group_hash_axioms;

    let mut out: HashSet<u64> = HashSet::new();
    let mut i: usize = 0;
    assert(out@ =~= secs@.take(0).to_set());
    while i < secs.len()
        invariant
            i <= secs@.len(),
            out@ == secs@.take(i as int).to_set(),
        decreases secs@.len() - i,
    {
        broadcast use vstd::std_specs::hash::group_hash_axioms;

        out.insert(secs[i]);
        proof {
            let s = secs@.take(i as int);
            let t = secs@.take(i + 1);
            let x = secs@[i as int];
            assert(t =~= s.push(x));
            lemma_push_set(s, x);
        }
        i = i + 1;
    }
    assert(secs@.take(secs@.len() as int) =~= secs@);
    out
}

proof fn lemma_push_set(s: Seq<u64>, x: u64)
    ensures
        s.push(x).to_set() == s.to_set().insert(x),
{
    assert forall|y: u64| s.push(x).to_set().contains(y) <==> s.to_set().insert(x).contains(y) by {
        if s.push(x).contains(y) {
            let i = choose|i: int| 0 <= i < s.push(x).len() && s.push(x)[i] == y;
            if i < s.len() {
                assert(s[i] == y);
                assert(s.contains(y));
            }
        }
        if s.contains(y) {
            let i = choose|i: int| 0 <= i < s.len() && s[i] == y;
            assert(s.push(x)[i] == y);
        }
        assert(s.push(x)[s.len() as int] == x);
    }
    assert(s.push(x).to_set() =~= s.to_set().insert(x));
}

fn covered_seconds(h: &Vec<Hit>, addr: u32, on_air: &HashSet<u64>) -> (r: HashSet<u64>)
    ensures
        r@ == covered(h@, addr).to_set().intersect(on_air@),
{
    broadcast use vstd::std_specs::hash::group_hash_axioms;

    let mut out: HashSet<u64> = HashSet::new();
    let mut i: usize = 0;
    assert(out@ =~= covered(h@.take(0), addr).to_set().intersect(on_air@));
    while i < h.len()
        invariant
            i <= h@.len(),
            out@ == covered(h@.take(i as int), addr).to_set().intersect(on_air@),
        decreases h@.len() - i,
    {
        broadcast use vstd::std_specs::hash::group_hash_axioms;

        let x = h[i];
        proof {
            assert(h@.take(i + 1).drop_last() =~= h@.take(i as int));
            assert(h@.take(i + 1).last() == x);
        }
        if x.icao.0 % 0x100_0000 == addr % 0x100_0000 && Reading(0).le(x.sim_t) {
            let s: u64 = x.sim_t.trunc();
            proof {
                lemma_push_set(covered(h@.take(i as int), addr), s);
            }
            let ghost before = out@;
            if on_air.contains(&s) {
                out.insert(s);
            }
            assert(out@ =~= covered(h@.take(i + 1), addr).to_set().intersect(on_air@));
        }
        i = i + 1;
    }
    assert(h@.take(h@.len() as int) =~= h@);
    out
}

fn least_second(secs: &Vec<u64>) -> (r: u64)
    requires
        secs@.len() > 0,
    ensures
        secs@.contains(r),
        forall|i: int| 0 <= i < secs@.len() ==> r <= #[trigger] secs@[i],
{
    let mut best: u64 = secs[0];
    let mut i: usize = 1;
    assert(secs@[0] == best);
    while i < secs.len()
        invariant
            1 <= i <= secs@.len(),
            secs@.contains(best),
            forall|k: int| 0 <= k < i ==> best <= #[trigger] secs@[k],
        decreases secs@.len() - i,
    {
        if secs[i] < best {
            best = secs[i];
            assert(secs@[i as int] == best);
        }
        i = i + 1;
    }
    best
}

fn least_time(mine: &Vec<Hit>) -> (r: Reading)
    requires
        mine@.len() > 0,
    ensures
        exists|i: int| 0 <= i < mine@.len() && (#[trigger] mine@[i]).sim_t == r,
        forall|i: int|
            0 <= i < mine@.len() ==> r.total_rank() <= (#[trigger] mine@[i]).sim_t.total_rank(),
{
    let mut best: Reading = mine[0].sim_t;
    let mut i: usize = 1;
    assert(mine@[0].sim_t == best);
    while i < mine.len()
        invariant
            1 <= i <= mine@.len(),
            exists|k: int| 0 <= k < mine@.len() && (#[trigger] mine@[k]).sim_t == best,
            forall|k: int|
                0 <= k < i ==> best.total_rank() <= (#[trigger] mine@[k]).sim_t.total_rank(),
        decreases mine@.len() - i,
    {
        let x = mine[i];
        if x.sim_t.total_key() < best.total_key() {
            best = x.sim_t;
            assert(mine@[i as int].sim_t == best);
        }
        i = i + 1;
    }
    best
}

fn tally(
    icao: Icao,
    h: &Vec<Hit>,
    aud: &Vec<AudibilitySecond>,
    targets: &HashSet<u32>,
) -> (r: AircraftTally)
    requires
        trackable(aud@, targets@, icao.0).len() > 0,
    ensures
        r.icao == icao,
        tally_holds(r, h@, aud@, targets@),
        r.tracked_s <= r.listed_s,
{
    broadcast use vstd::std_specs::hash::group_hash_axioms;

    let mine = select_hits(h, icao.0);
    let secs = select_seconds(aud, targets, icao.0);
    let on_air = distinct_seconds(&secs);
    let both = covered_seconds(h, icao.0, &on_air);
    let mut p50: Option<Reading> = None;
    let mut first: Option<Reading> = None;
    if mine.len() > 0 {
        let (e, _, _) = collect_errors(&mine);
        assert(errors(mine@).len() == mine@.len());
        let sorted = sort(&e);
        p50 = Some(sorted[rank_at(sorted.len(), 50)]);
        first = Some(least_time(&mine));
        assert(is_sorted(errors(mine@), sorted@));
    }
    proof {
        secs@.lemma_cardinality_of_set();
        vstd::set_lib::lemma_len_intersect(on_air@, covered(h@, icao.0).to_set());
        assert(on_air@.intersect(covered(h@, icao.0).to_set()) =~= both@);
    }
    AircraftTally {
        icao,
        results: mine.len(),
        p50_error_m: p50,
        listed_s: secs.len(),
        trackable_s: on_air.len(),
        tracked_s: both.len(),
        first_trackable_s: least_second(&secs),
        first_result: first,
    }
}

/// The trackable seconds of a run of aircraft.
spec fn listed_sum(aud: Seq<AudibilitySecond>, targets: Set<u32>, addrs: Seq<u32>) -> nat
    decreases addrs.len(),
{
    if addrs.len() == 0 {
        0
    } else {
        listed_sum(aud, targets, addrs.drop_last()) + trackable(aud, targets, addrs.last()).len()
    }
}

spec fn up(addrs: Seq<u32>) -> bool {
    forall|i: int, j: int| 0 <= i < j < addrs.len() ==> #[trigger] addrs[i] < #[trigger] addrs[j]
}

/// The different trackable seconds of a run of aircraft.
spec fn distinct_sum(aud: Seq<AudibilitySecond>, targets: Set<u32>, addrs: Seq<u32>) -> nat
    decreases addrs.len(),
{
    if addrs.len() == 0 {
        0
    } else {
        distinct_sum(aud, targets, addrs.drop_last()) + trackable(
            aud,
            targets,
            addrs.last(),
        ).to_set().len()
    }
}

/// The trackable aircraft-seconds of a run of aircraft.
spec fn pairs_of(aud: Seq<AudibilitySecond>, targets: Set<u32>, addrs: Seq<u32>) -> Set<(u32, u64)>
    decreases addrs.len(),
{
    if addrs.len() == 0 {
        Set::empty()
    } else {
        pairs_of(aud, targets, addrs.drop_last()) + trackable(
            aud,
            targets,
            addrs.last(),
        ).to_set().map(|t: u64| (addrs.last(), t))
    }
}

proof fn lemma_pair_is_trackable(
    aud: Seq<AudibilitySecond>,
    targets: Set<u32>,
    addr: u32,
    t: u64,
)
    ensures
        trackable_pairs(aud, targets).contains((addr, t)) <==> trackable(
            aud,
            targets,
            addr,
        ).to_set().contains(t),
    decreases aud.len(),
{
    if aud.len() > 0 {
        lemma_pair_is_trackable(aud.drop_last(), targets, addr, t);
        lemma_push_set(trackable(aud.drop_last(), targets, addr), aud.last().t_s);
    }
}

proof fn lemma_pairs_of(aud: Seq<AudibilitySecond>, targets: Set<u32>, addrs: Seq<u32>)
    requires
        up(addrs),
    ensures
        pairs_of(aud, targets, addrs).finite(),
        pairs_of(aud, targets, addrs).len() == distinct_sum(aud, targets, addrs),
        forall|a: u32, t: u64|
            pairs_of(aud, targets, addrs).contains((a, t)) <==> addrs.contains(a) && trackable(
                aud,
                targets,
                a,
            ).to_set().contains(t),
    decreases addrs.len(),
{
    if addrs.len() > 0 {
        let f = addrs.drop_last();
        let x = addrs.last();
        assert(up(f)) by {
            assert forall|i: int, j: int| 0 <= i < j < f.len() implies #[trigger] f[i]
                < #[trigger] f[j] by {
                assert(f[i] == addrs[i] && f[j] == addrs[j]);
            }
        }
        lemma_pairs_of(aud, targets, f);
        let secs = trackable(aud, targets, x).to_set();
        vstd::seq_lib::seq_to_set_is_finite(trackable(aud, targets, x));
        let pair = |t: u64| (x, t);
        let more = secs.map(pair);
        let less = pairs_of(aud, targets, f);
        vstd::set_lib::lemma_map_size(secs, more, pair);
        assert(!f.contains(x)) by {
            if f.contains(x) {
                let k = choose|k: int| 0 <= k < f.len() && f[k] == x;
                assert(addrs[k] < addrs[addrs.len() - 1]);
            }
        }
        assert forall|a: u32, t: u64| more.contains((a, t)) <==> a == x && secs.contains(t) by {
            if a == x && secs.contains(t) {
                assert(pair(t) == (a, t));
            }
        }
        assert(less.disjoint(more)) by {
            assert forall|p: (u32, u64)| !(less.contains(p) && more.contains(p)) by {
                assert(less.contains((p.0, p.1)) ==> f.contains(p.0));
            }
        }
        vstd::set_lib::lemma_set_disjoint_lens(less, more);
        assert(pairs_of(aud, targets, addrs) =~= less + more);
        assert forall|a: u32| addrs.contains(a) <==> f.contains(a) || a == x by {
            if addrs.contains(a) {
                let k = choose|k: int| 0 <= k < addrs.len() && addrs[k] == a;
                if k < f.len() {
                    assert(f[k] == a);
                }
            }
            if f.contains(a) {
                let k = choose|k: int| 0 <= k < f.len() && f[k] == a;
                assert(addrs[k] == a);
            }
            assert(addrs[addrs.len() - 1] == x);
        }
    }
}

proof fn lemma_all_pairs(aud: Seq<AudibilitySecond>, targets: Set<u32>, addrs: Seq<u32>)
    requires
        up(addrs),
        forall|a: u32| addrs.contains(a) <==> trackable(aud, targets, a).len() > 0,
    ensures
        trackable_pairs(aud, targets).len() == distinct_sum(aud, targets, addrs),
{
    lemma_pairs_of(aud, targets, addrs);
    assert forall|p: (u32, u64)|
        trackable_pairs(aud, targets).contains(p) <==> pairs_of(aud, targets, addrs).contains(
            p,
        ) by {
        lemma_pair_is_trackable(aud, targets, p.0, p.1);
        assert(p == (p.0, p.1));
        let s = trackable(aud, targets, p.0);
        if s.to_set().contains(p.1) {
            assert(s.len() > 0);
            assert(addrs.contains(p.0));
        }
    }
    assert(trackable_pairs(aud, targets) =~= pairs_of(aud, targets, addrs));
}

proof fn lemma_one_more(
    aud: Seq<AudibilitySecond>,
    x: AudibilitySecond,
    targets: Set<u32>,
    addrs: Seq<u32>,
)
    requires
        up(addrs),
    ensures
        listed_sum(aud.push(x), targets, addrs) <= listed_sum(aud, targets, addrs)
            + if addrs.contains(x.icao.0) {
            1nat
        } else {
            0
        },
    decreases addrs.len(),
{
    if addrs.len() > 0 {
        let f = addrs.drop_last();
        assert(up(f)) by {
            assert forall|i: int, j: int| 0 <= i < j < f.len() implies #[trigger] f[i]
                < #[trigger] f[j] by {
                assert(f[i] == addrs[i] && f[j] == addrs[j]);
            }
        }
        lemma_one_more(aud, x, targets, f);
        assert(aud.push(x).drop_last() =~= aud);
        if f.contains(x.icao.0) {
            let k = choose|k: int| 0 <= k < f.len() && f[k] == x.icao.0;
            assert(addrs[k] == x.icao.0);
            assert(addrs[k] < addrs[addrs.len() - 1]);
        } else if addrs.last() == x.icao.0 {
            assert(addrs[addrs.len() - 1] == x.icao.0);
        }
    }
}

proof fn lemma_listed_sum(aud: Seq<AudibilitySecond>, targets: Set<u32>, addrs: Seq<u32>)
    requires
        up(addrs),
    ensures
        listed_sum(aud, targets, addrs) <= aud.len(),
    decreases aud.len(),
{
    if aud.len() == 0 {
        lemma_listed_none(targets, addrs);
        assert(aud =~= seq![]);
    } else {
        lemma_listed_sum(aud.drop_last(), targets, addrs);
        lemma_one_more(aud.drop_last(), aud.last(), targets, addrs);
        assert(aud.drop_last().push(aud.last()) =~= aud);
    }
}

proof fn lemma_listed_none(targets: Set<u32>, addrs: Seq<u32>)
    ensures
        listed_sum(seq![], targets, addrs) == 0,
    decreases addrs.len(),
{
    if addrs.len() > 0 {
        lemma_listed_none(targets, addrs.drop_last());
    }
}

/// The addresses that have trackable seconds, going up.
fn trackable_addresses(aud: &Vec<AudibilitySecond>, targets: &HashSet<u32>) -> (r: Vec<u32>)
    ensures
        up(r@),
        forall|a: u32| r@.contains(a) <==> trackable(aud@, targets@, a).len() > 0,
{
    broadcast use vstd::std_specs::hash::group_hash_axioms;

    let mut out: Vec<u32> = Vec::new();
    let mut i: usize = 0;
    while i < aud.len()
        invariant
            i <= aud@.len(),
            up(out@),
            forall|a: u32|
                out@.contains(a) <==> trackable(aud@.take(i as int), targets@, a).len() > 0,
        decreases aud@.len() - i,
    {
        broadcast use vstd::std_specs::hash::group_hash_axioms;

        let x = aud[i];
        let ghost before = out@;
        proof {
            assert(aud@.take(i + 1).drop_last() =~= aud@.take(i as int));
            assert(aud@.take(i + 1).last() == x);
        }
        if x.n_receivers >= MIN_RX && targets.contains(&x.icao.0) {
            let mut p: usize = 0;
            while p < out.len() && out[p] < x.icao.0
                invariant
                    p <= out@.len(),
                    forall|k: int| 0 <= k < p ==> #[trigger] out@[k] < x.icao.0,
                decreases out@.len() - p,
            {
                p = p + 1;
            }
            if p == out.len() || out[p] != x.icao.0 {
                out.insert(p, x.icao.0);
                proof {
                    lemma_inserted(before, p as int, x.icao.0);
                }
            } else {
                assert(before[p as int] == x.icao.0);
            }
            assert forall|a: u32| out@.contains(a) <==> trackable(
                aud@.take(i + 1),
                targets@,
                a,
            ).len() > 0 by {
                assert(before.contains(a) <==> trackable(
                    aud@.take(i as int),
                    targets@,
                    a,
                ).len() > 0);
            }
        } else {
            assert forall|a: u32| out@.contains(a) <==> trackable(
                aud@.take(i + 1),
                targets@,
                a,
            ).len() > 0 by {
                assert(before.contains(a) <==> trackable(
                    aud@.take(i as int),
                    targets@,
                    a,
                ).len() > 0);
            }
        }
        i = i + 1;
    }
    assert(aud@.take(aud@.len() as int) =~= aud@);
    out
}

proof fn lemma_inserted(s: Seq<u32>, p: int, x: u32)
    requires
        up(s),
        0 <= p <= s.len(),
        forall|k: int| 0 <= k < p ==> #[trigger] s[k] < x,
        p < s.len() ==> s[p] > x,
    ensures
        up(s.insert(p, x)),
        forall|a: u32| s.insert(p, x).contains(a) <==> s.contains(a) || a == x,
{
    let t = s.insert(p, x);
    assert forall|i: int, j: int| 0 <= i < j < t.len() implies #[trigger] t[i]
        < #[trigger] t[j] by {
        if j < p {
            assert(t[i] == s[i] && t[j] == s[j]);
        } else if j == p {
            assert(t[i] == s[i]);
        } else {
            assert(t[j] == s[j - 1]);
            if i < p {
                assert(t[i] == s[i]);
            } else if i == p {
                if j - 1 > p {
                    assert(s[p] < s[j - 1]);
                }
            } else {
                assert(t[i] == s[i - 1]);
            }
        }
    }
    assert forall|a: u32| t.contains(a) <==> s.contains(a) || a == x by {
        if t.contains(a) {
            let k = choose|k: int| 0 <= k < t.len() && t[k] == a;
            if k < p {
                assert(s[k] == a);
            } else if k > p {
                assert(s[k - 1] == a);
            }
        }
        if s.contains(a) {
            let k = choose|k: int| 0 <= k < s.len() && s[k] == a;
            if k < p {
                assert(t[k] == a);
            } else {
                assert(t[k + 1] == a);
            }
        }
        assert(t[p] == x);
    }
}

/// What is counted of a result table.
#[derive(Debug)]
pub struct Tally {
    pub results_total: usize,
    pub results_matched: usize,
    pub unscored_known_aircraft: usize,
    pub ghosts_unknown_icao: usize,
    pub ghosts_gross_error: usize,
    /// Horizontal errors of the matched results, in order.
    pub horizontal_error_m: Vec<Reading>,
    /// Altitude errors, in order.
    pub altitude_error_m: Vec<Reading>,
    /// Error estimates over real errors, in order.
    pub err_estimate_ratio: Vec<Reading>,
    /// Aircraft that need multilateration and could be tracked, by address.
    pub per_aircraft: Vec<AircraftTally>,
    pub trackable_aircraft_seconds: u64,
    pub tracked_aircraft_seconds: u64,
}

/// A tally is the score of a result table.
pub open spec fn scores(
    r: Tally,
    rows: Seq<Measured>,
    truth: Set<u32>,
    untruthed: Set<u32>,
    aud: Seq<AudibilitySecond>,
    targets: Set<u32>,
) -> bool {
    let h = hits(rows, truth, untruthed);
    &&& r.results_total == rows.len()
    &&& r.results_matched == count(rows, truth, untruthed, Outcome::Matched)
    &&& r.unscored_known_aircraft == count(rows, truth, untruthed, Outcome::Unscored)
    &&& r.ghosts_unknown_icao == count(rows, truth, untruthed, Outcome::UnknownGhost)
    &&& r.ghosts_gross_error == count(rows, truth, untruthed, Outcome::GrossGhost)
    &&& is_sorted(errors(h), r.horizontal_error_m@)
    &&& is_sorted(alt_errors(h), r.altitude_error_m@)
    &&& is_sorted(ratios(h), r.err_estimate_ratio@)
    &&& ascending(r.per_aircraft@)
    &&& forall|a: u32|
        (exists|i: int| 0 <= i < r.per_aircraft@.len() && (#[trigger] r.per_aircraft@[i]).icao.0
            == a) <==> (#[trigger] trackable(aud, targets, a)).len() > 0
    &&& forall|i: int|
        0 <= i < r.per_aircraft@.len() ==> tally_holds(
            #[trigger] r.per_aircraft@[i],
            h,
            aud,
            targets,
        )
    &&& r.trackable_aircraft_seconds == trackable_pairs(aud, targets).len()
    &&& r.tracked_aircraft_seconds == tracked_sum(r.per_aircraft@)
}

/// Scores a result table.
pub fn score(
    truth: &TruthIndex,
    rows: &Vec<Measured>,
    audibility: &Vec<AudibilitySecond>,
    mlat_targets: &HashSet<u32>,
    known_untruthed: &HashSet<u32>,
) -> (r: Tally)
    requires
        truth.wf(),
    ensures
        scores(
            r,
            rows@,
            truth@.dom(),
            known_untruthed@,
            audibility@,
            mlat_targets@,
        ),
{
    let (h, unscored, unknown, gross) = gather_hits(truth, rows, known_untruthed);
    let (e, a, q) = collect_errors(&h);
    let addrs = trackable_addresses(audibility, mlat_targets);
    let mut per: Vec<AircraftTally> = Vec::new();
    let mut sum: u64 = 0;
    let mut total: u64 = 0;
    let mut i: usize = 0;
    while i < addrs.len()
        invariant
            up(addrs@),
            forall|x: u32|
                addrs@.contains(x) <==> trackable(audibility@, mlat_targets@, x).len() > 0,
            i <= addrs@.len(),
            per@.len() == i,
            forall|k: int| 0 <= k < i ==> (#[trigger] per@[k]).icao.0 == addrs@[k],
            forall|k: int|
                0 <= k < i ==> tally_holds(#[trigger] per@[k], h@, audibility@, mlat_targets@),
            sum == tracked_sum(per@),
            sum <= listed_sum(audibility@, mlat_targets@, addrs@.take(i as int)),
            total == distinct_sum(audibility@, mlat_targets@, addrs@.take(i as int)),
            total <= listed_sum(audibility@, mlat_targets@, addrs@.take(i as int)),
        decreases addrs@.len() - i,
    {
        let addr: u32 = addrs[i];
        assert(addrs@.contains(addr));
        let t = tally(Icao(addr), &h, audibility, mlat_targets);
        let n: usize = audibility.len();
        proof {
            let f = addrs@.take(i + 1);
            assert(f.drop_last() =~= addrs@.take(i as int));
            assert(f.last() == addr);
            assert(up(f)) by {
                assert forall|x: int, y: int| 0 <= x < y < f.len() implies #[trigger] f[x]
                    < #[trigger] f[y] by {
                    assert(f[x] == addrs@[x] && f[y] == addrs@[y]);
                }
            }
            lemma_listed_sum(audibility@, mlat_targets@, f);
            assert(t.listed_s == trackable(audibility@, mlat_targets@, addr).len());
            assert(sum + t.tracked_s <= n);
            trackable(audibility@, mlat_targets@, addr).lemma_cardinality_of_set();
            assert(total + t.trackable_s <= n);
        }
        sum = sum + t.tracked_s as u64;
        total = total + t.trackable_s as u64;
        let ghost prev = per@;
        per.push(t);
        assert(per@.drop_last() =~= prev);
        i = i + 1;
    }
    proof {
        assert(addrs@.take(addrs@.len() as int) =~= addrs@);
        lemma_all_pairs(audibility@, mlat_targets@, addrs@);
        assert forall|x: u32|
            (exists|k: int| 0 <= k < per@.len() && (#[trigger] per@[k]).icao.0 == x) <==> (
            #[trigger] trackable(audibility@, mlat_targets@, x)).len() > 0 by {
            assert(addrs@.contains(x) <==> trackable(audibility@, mlat_targets@, x).len() > 0);
            if addrs@.contains(x) {
                let k = choose|k: int| 0 <= k < addrs@.len() && addrs@[k] == x;
                assert(per@[k].icao.0 == x);
            }
            if exists|k: int| 0 <= k < per@.len() && (#[trigger] per@[k]).icao.0 == x {
                let k = choose|k: int| 0 <= k < per@.len() && (#[trigger] per@[k]).icao.0 == x;
                assert(addrs@[k] == x);
            }
        }
    }
    Tally {
        results_total: rows.len(),
        results_matched: h.len(),
        unscored_known_aircraft: unscored,
        ghosts_unknown_icao: unknown,
        ghosts_gross_error: gross,
        horizontal_error_m: sort(&e),
        altitude_error_m: sort(&a),
        err_estimate_ratio: sort(&q),
        per_aircraft: per,
        trackable_aircraft_seconds: total,
        tracked_aircraft_seconds: sum,
    }
}

/// A sample of what the server uses.
#[derive(Debug, Clone, Copy, PartialEq, Eq, Structural)]
pub struct ResourceSample {
    pub t_wall: Reading,
    pub cpu_usec: Option<u64>,
    pub mem_bytes: Option<u64>,
}

/// Processor time between two samples, where both know it, time has passed (`dt` is
/// how much) and the counter did not step back.
pub open spec fn cpu_used(a: ResourceSample, b: ResourceSample, dt: Reading) -> Option<u64> {
    match (a.cpu_usec, b.cpu_usec) {
        (Some(x), Some(y)) => if Reading(0).below(dt) && y >= x {
            Some((y - x) as u64)
        } else {
            None
        },
        _ => None,
    }
}

pub fn cpu_between(a: &ResourceSample, b: &ResourceSample, dt: Reading) -> (r: Option<u64>)
    ensures
        r == cpu_used(*a, *b, dt),
{
    match (a.cpu_usec, b.cpu_usec) {
        (Some(x), Some(y)) => if Reading(0).lt(dt) && y >= x {
            Some(y - x)
        } else {
            None
        },
        _ => None,
    }
}

/// The largest memory use among samples that know it.
pub fn peak_memory(samples: &Vec<ResourceSample>) -> (r: Option<u64>)
    ensures
        r is Some <==> (exists|i: int|
            0 <= i < samples@.len() && (#[trigger] samples@[i]).mem_bytes is Some),
        r matches Some(m) ==> {
            &&& exists|i: int|
                0 <= i < samples@.len() && (#[trigger] samples@[i]).mem_bytes == Some(m)
            &&& forall|i: int|
                0 <= i < samples@.len() ==> ((#[trigger] samples@[i]).mem_bytes matches Some(x)
                    ==> x <= m)
        },
{
    let mut best: Option<u64> = None;
    let mut i: usize = 0;
    while i < samples.len()
        invariant
            i <= samples@.len(),
            best is None ==> (forall|k: int|
                0 <= k < i ==> (#[trigger] samples@[k]).mem_bytes is None),
            best matches Some(m) ==> {
                &&& exists|k: int| 0 <= k < i && (#[trigger] samples@[k]).mem_bytes == Some(m)
                &&& forall|k: int|
                    0 <= k < i ==> ((#[trigger] samples@[k]).mem_bytes matches Some(x) ==> x <= m)
            },
        decreases samples@.len() - i,
    {
        let s = samples[i];
        if let Some(x) = s.mem_bytes {
            let larger: bool = match best {
                Some(m) => x > m,
                None => true,
            };
            if larger {
                best = Some(x);
                assert(samples@[i as int].mem_bytes == Some(x));
            }
        }
        i = i + 1;
    }
    best
}

/// Every result has exactly one outcome, so the counts, the results outside the
/// scenario and those that cannot be measured add up to the table.
pub proof fn law_outcomes_add_up(rows: Seq<Measured>, truth: Set<u32>, untruthed: Set<u32>)
    ensures
        count(rows, truth, untruthed, Outcome::Matched) + count(
            rows,
            truth,
            untruthed,
            Outcome::Unscored,
        ) + count(rows, truth, untruthed, Outcome::UnknownGhost) + count(
            rows,
            truth,
            untruthed,
            Outcome::GrossGhost,
        ) + count(rows, truth, untruthed, Outcome::Outside) + count(
            rows,
            truth,
            untruthed,
            Outcome::Unmeasured,
        ) == rows.len(),
    decreases rows.len(),
{
    if rows.len() > 0 {
        law_outcomes_add_up(rows.drop_last(), truth, untruthed);
    }
}

/// Ghosts never enter the error percentiles: every error that counts is that of a
/// known aircraft, and is a number up to the ghost threshold.
pub proof fn law_ghosts_stay_out(rows: Seq<Measured>, truth: Set<u32>, untruthed: Set<u32>)
    ensures
        forall|i: int|
            0 <= i < hits(rows, truth, untruthed).len() ==> truth.contains(
                (#[trigger] hits(rows, truth, untruthed)[i]).icao.0,
            ) && hits(rows, truth, untruthed)[i].miss.err_m.at_most(Reading(GHOST_M)),
    decreases rows.len(),
{
    if rows.len() > 0 {
        law_ghosts_stay_out(rows.drop_last(), truth, untruthed);
        let h = hits(rows, truth, untruthed);
        let g = hits(rows.drop_last(), truth, untruthed);
        assert forall|i: int| 0 <= i < h.len() implies truth.contains((#[trigger] h[i]).icao.0)
            && h[i].miss.err_m.at_most(Reading(GHOST_M)) by {
            if i < g.len() {
                assert(h[i] == g[i]);
            }
        }
    }
}

/// Sorting keeps every reading, and puts none before a smaller one.
pub proof fn law_sorted(v: Seq<Reading>, r: Seq<Reading>)
    requires
        is_sorted(v, r),
        v.len() <= usize::MAX,
    ensures
        r.len() == v.len(),
        forall|i: int, j: int|
            0 <= i < j < r.len() ==> (#[trigger] r[i]).total_rank() <= (
            #[trigger] r[j]).total_rank(),
        forall|x: Reading| r.contains(x) <==> v.contains(x),
{
    let o = choose|o: Seq<usize>|
        {
            &&& #[trigger] crate::order::is_order(reading_keys(v), o, 0, v.len() as int)
            &&& r == o.map_values(|k: usize| v[k as int])
        };
    assert forall|i: int, j: int| 0 <= i < j < r.len() implies (#[trigger] r[i]).total_rank() <= (
    #[trigger] r[j]).total_rank() by {
        assert(crate::order::comes_before(reading_keys(v), o[i] as int, o[j] as int));
        assert(reading_keys(v)[o[i] as int] == v[o[i] as int].total_rank());
        assert(reading_keys(v)[o[j] as int] == v[o[j] as int].total_rank());
    }
    assert forall|x: Reading| r.contains(x) <==> v.contains(x) by {
        if r.contains(x) {
            let i = choose|i: int| 0 <= i < r.len() && r[i] == x;
            assert(v[o[i] as int] == x);
        }
        if v.contains(x) {
            let k = choose|k: int| 0 <= k < v.len() && v[k] == x;
            assert(o.contains(k as usize));
            let i = choose|i: int| 0 <= i < o.len() && o[i] == k as usize;
            assert(r[i] == x);
        }
    }
}

/// An aircraft is never tracked for more seconds than it could be: coverage is at
/// most one.
pub proof fn law_coverage_is_at_most_one(
    t: AircraftTally,
    h: Seq<Hit>,
    aud: Seq<AudibilitySecond>,
    targets: Set<u32>,
)
    requires
        tally_holds(t, h, aud, targets),
    ensures
        t.tracked_s <= t.trackable_s <= t.listed_s,
        0 < t.trackable_s,
{
    let secs = trackable(aud, targets, t.icao.0);
    let on_air = secs.to_set();
    let seen = covered(h, t.icao.0).to_set();
    secs.lemma_cardinality_of_set();
    vstd::set_lib::lemma_len_intersect(on_air, seen);
    assert(on_air.intersect(seen) =~= seen.intersect(on_air));
    assert(on_air.contains(t.first_trackable_s));
    vstd::seq_lib::seq_to_set_is_finite(secs);
    assert(on_air.len() > 0) by {
        if on_air.len() == 0 {
            assert(on_air =~= Set::empty());
        }
    }
}

// ------------------------------------------------------------ what a score says

/// A result is matched where truth knows the aircraft and where it was, and it was no more
/// than ten kilometers away; farther away it is a ghost. What truth does not know is a ghost
/// unless the scenario has the aircraft.
pub proof fn law_outcome_by_distance(in_truth: bool, untruthed: bool, r: Measured)
    ensures
        outcome(in_truth, untruthed, r) == Outcome::Matched <==> in_truth && r.miss is Some
            && r.miss->0.err_m.at_most(Reading(0x40C3_8800_0000_0000)),
        outcome(in_truth, untruthed, r) == Outcome::GrossGhost <==> in_truth && r.miss is Some
            && Reading(0x40C3_8800_0000_0000).below(r.miss->0.err_m),
        outcome(in_truth, untruthed, r) == Outcome::UnknownGhost <==> !in_truth && !untruthed,
        outcome(in_truth, untruthed, r) == Outcome::Unscored <==> !in_truth && untruthed,
{
}

/// Every matched result counts once, with its own time and its own errors, and no other does.
pub proof fn law_every_match_counts_once(
    rows: Seq<Measured>,
    truth: Set<u32>,
    untruthed: Set<u32>,
    i: int,
)
    requires
        0 <= i < rows.len(),
    ensures
        hits(rows, truth, untruthed).len() == count(rows, truth, untruthed, Outcome::Matched),
        outcome(truth.contains(rows[i].icao.0), untruthed.contains(rows[i].icao.0), rows[i])
            == Outcome::Matched ==> exists|k: int|
            0 <= k < hits(rows, truth, untruthed).len() && {
                let h = #[trigger] hits(rows, truth, untruthed)[k];
                h.icao == rows[i].icao && h.sim_t == rows[i].sim_t && Some(h.miss) == rows[i].miss
            },
    decreases rows.len(),
{
    let r = rows.drop_last();
    let (h1, h0) = (hits(rows, truth, untruthed), hits(r, truth, untruthed));
    lemma_hits_count(rows, truth, untruthed);
    if outcome(truth.contains(rows[i].icao.0), untruthed.contains(rows[i].icao.0), rows[i])
        == Outcome::Matched {
        if i < r.len() {
            law_every_match_counts_once(r, truth, untruthed, i);
            assert(r[i] == rows[i]);
            let k = choose|k: int|
                0 <= k < h0.len() && {
                    let h = #[trigger] h0[k];
                    h.icao == r[i].icao && h.sim_t == r[i].sim_t && Some(h.miss) == r[i].miss
                };
            assert(h1[k] == h0[k]);
        } else {
            assert(h1[h0.len() as int].icao == rows[i].icao);
        }
    }
}

proof fn lemma_hits_count(rows: Seq<Measured>, truth: Set<u32>, untruthed: Set<u32>)
    ensures
        hits(rows, truth, untruthed).len() == count(rows, truth, untruthed, Outcome::Matched),
    decreases rows.len(),
{
    if rows.len() > 0 {
        lemma_hits_count(rows.drop_last(), truth, untruthed);
    }
}

/// Each kind of error is taken from the results that have it: every altitude error, and every
/// estimate of a result more than a meter off.
pub proof fn law_errors_are_those_of_the_hits(h: Seq<Hit>, i: int)
    requires
        0 <= i < h.len(),
    ensures
        errors(h).len() == h.len(),
        errors(h)[i] == h[i].miss.err_m,
        h[i].miss.alt_err_m matches Some(e) ==> alt_errors(h).contains(e),
        (h[i].miss.est_ratio is Some && Reading(0x3FF0_0000_0000_0000).below(h[i].miss.err_m))
            ==> ratios(h).contains(h[i].miss.est_ratio->0),
        alt_errors(h).len() <= h.len(),
        ratios(h).len() <= h.len(),
        (forall|k: int| 0 <= k < h.len() ==> (#[trigger] h[k]).miss.alt_err_m is Some)
            ==> alt_errors(h).len() == h.len(),
    decreases h.len(),
{
    let r = h.drop_last();
    let (a1, a0) = (alt_errors(h), alt_errors(r));
    let (q1, q0) = (ratios(h), ratios(r));
    if r.len() > 0 {
        law_errors_are_those_of_the_hits(r, if i < r.len() {
            i
        } else {
            0
        });
    }
    if forall|k: int| 0 <= k < h.len() ==> (#[trigger] h[k]).miss.alt_err_m is Some {
        assert forall|k: int| 0 <= k < r.len() implies (#[trigger] r[k]).miss.alt_err_m is Some by {
            assert(h[k].miss.alt_err_m is Some);
        }
        assert(h[h.len() - 1].miss.alt_err_m is Some);
    }
    if i < r.len() {
        assert(r[i] == h[i]);
        if let Some(e) = h[i].miss.alt_err_m {
            let k = choose|k: int| 0 <= k < a0.len() && a0[k] == e;
            assert(a1[k] == e);
        }
        if h[i].miss.est_ratio is Some && Reading(RATIO_FLOOR_M).below(h[i].miss.err_m) {
            let k = choose|k: int| 0 <= k < q0.len() && q0[k] == h[i].miss.est_ratio->0;
            assert(q1[k] == q0[k]);
        }
    } else {
        if let Some(e) = h[i].miss.alt_err_m {
            assert(a1[a0.len() as int] == e);
        }
        if h[i].miss.est_ratio is Some && Reading(RATIO_FLOOR_M).below(h[i].miss.err_m) {
            assert(q1[q0.len() as int] == h[i].miss.est_ratio->0);
        }
    }
}

/// An aircraft is trackable in a second where four receivers or more could hear it then, and it
/// is one of the targets.
pub proof fn law_trackable_seconds(
    aud: Seq<AudibilitySecond>,
    targets: Set<u32>,
    addr: u32,
    s: u64,
)
    ensures
        trackable(aud, targets, addr).contains(s) <==> exists|i: int|
            0 <= i < aud.len() && (#[trigger] aud[i]).t_s == s && aud[i].icao.0 == addr
                && aud[i].n_receivers >= 4 && targets.contains(addr),
        trackable_pairs(aud, targets).contains((addr, s)) <==> trackable(
            aud,
            targets,
            addr,
        ).contains(s),
    decreases aud.len(),
{
    if aud.len() > 0 {
        let r = aud.drop_last();
        law_trackable_seconds(r, targets, addr, s);
        let (t1, t0) = (trackable(aud, targets, addr), trackable(r, targets, addr));
        if t0.contains(s) {
            let k = choose|k: int| 0 <= k < t0.len() && t0[k] == s;
            assert(t1[k] == s);
            let i = choose|i: int|
                0 <= i < r.len() && (#[trigger] r[i]).t_s == s && r[i].icao.0 == addr
                    && r[i].n_receivers >= 4 && targets.contains(addr);
            assert(aud[i] == r[i]);
        }
        if t1.contains(s) {
            let k = choose|k: int| 0 <= k < t1.len() && t1[k] == s;
            if k < t0.len() {
                assert(t0[k] == s);
            } else {
                assert(aud[aud.len() - 1].t_s == s);
            }
        }
        if exists|i: int|
            0 <= i < aud.len() && (#[trigger] aud[i]).t_s == s && aud[i].icao.0 == addr
                && aud[i].n_receivers >= 4 && targets.contains(addr) {
            let i = choose|i: int|
                0 <= i < aud.len() && (#[trigger] aud[i]).t_s == s && aud[i].icao.0 == addr
                    && aud[i].n_receivers >= 4 && targets.contains(addr);
            if i < r.len() {
                assert(r[i] == aud[i]);
            } else {
                assert(t1[t0.len() as int] == s);
            }
        }
    }
}

/// An aircraft is covered in a second where a matched result of it falls in that second.
pub proof fn law_covered_seconds(h: Seq<Hit>, addr: u32, s: u64)
    ensures
        covered(h, addr).contains(s) <==> exists|i: int|
            0 <= i < h.len() && is_of((#[trigger] h[i]).icao, addr) && Reading(0).at_most(h[i].sim_t)
                && h[i].sim_t.truncated() == s,
    decreases h.len(),
{
    if h.len() > 0 {
        let r = h.drop_last();
        law_covered_seconds(r, addr, s);
        let (t1, t0) = (covered(h, addr), covered(r, addr));
        if t0.contains(s) {
            let k = choose|k: int| 0 <= k < t0.len() && t0[k] == s;
            assert(t1[k] == s);
            let i = choose|i: int|
                0 <= i < r.len() && is_of((#[trigger] r[i]).icao, addr) && Reading(0).at_most(
                    r[i].sim_t,
                ) && r[i].sim_t.truncated() == s;
            assert(h[i] == r[i]);
        }
        if t1.contains(s) {
            let k = choose|k: int| 0 <= k < t1.len() && t1[k] == s;
            if k < t0.len() {
                assert(t0[k] == s);
            } else {
                assert(is_of(h[h.len() - 1].icao, addr));
            }
        }
        if exists|i: int|
            0 <= i < h.len() && is_of((#[trigger] h[i]).icao, addr) && Reading(0).at_most(h[i].sim_t)
                && h[i].sim_t.truncated() == s {
            let i = choose|i: int|
                0 <= i < h.len() && is_of((#[trigger] h[i]).icao, addr) && Reading(0).at_most(
                    h[i].sim_t,
                ) && h[i].sim_t.truncated() == s;
            if i < r.len() {
                assert(r[i] == h[i]);
            } else {
                assert(t1[t0.len() as int] == s);
            }
        }
    }
}

/// The matched results of an aircraft are those with its address, all of them.
pub proof fn law_hits_of_an_aircraft(h: Seq<Hit>, addr: u32, x: Hit)
    ensures
        hits_of(h, addr).contains(x) <==> h.contains(x) && x.icao.0 % 0x100_0000 == addr
            % 0x100_0000,
        hits_of(h, addr).len() <= h.len(),
    decreases h.len(),
{
    if h.len() > 0 {
        let r = h.drop_last();
        law_hits_of_an_aircraft(r, addr, x);
        let (t1, t0) = (hits_of(h, addr), hits_of(r, addr));
        if t0.contains(x) {
            let k = choose|k: int| 0 <= k < t0.len() && t0[k] == x;
            assert(t1[k] == x);
            let i = choose|i: int| 0 <= i < r.len() && r[i] == x;
            assert(h[i] == x);
        }
        if t1.contains(x) {
            let k = choose|k: int| 0 <= k < t1.len() && t1[k] == x;
            if k < t0.len() {
                assert(t0[k] == x);
            } else {
                assert(h[h.len() - 1] == x);
            }
        }
        if h.contains(x) && x.icao.0 % 0x100_0000 == addr % 0x100_0000 {
            let i = choose|i: int| 0 <= i < h.len() && h[i] == x;
            if i < r.len() {
                assert(r[i] == x);
            } else {
                assert(t1[t0.len() as int] == x);
            }
        }
    }
}

/// The median that a tally shows is one of the aircraft's own errors, with half of them before
/// it.
pub proof fn law_tally_shows_the_median(
    t: AircraftTally,
    h: Seq<Hit>,
    aud: Seq<AudibilitySecond>,
    targets: Set<u32>,
)
    requires
        tally_holds(t, h, aud, targets),
        h.len() <= usize::MAX,
    ensures
        t.p50_error_m is Some <==> hits_of(h, t.icao.0).len() > 0,
        t.p50_error_m matches Some(v) ==> exists|sorted: Seq<Reading>|
            #[trigger] is_sorted(errors(hits_of(h, t.icao.0)), sorted) && is_percentile(
                sorted,
                50,
                v,
            ),
{
    let mine = hits_of(h, t.icao.0);
    if mine.len() > 0 {
        let sorted = choose|sorted: Seq<Reading>| #[trigger]
            is_sorted(errors(mine), sorted) && t.p50_error_m == Some(
                sorted[rank_of(mine.len() as int, 50)],
            );
        law_hits_of_an_aircraft(h, t.icao.0, mine[0]);
        law_sorted(errors(mine), sorted);
        law_rank_splits_in_proportion(mine.len() as int, 50);
        assert(sorted[rank_of(mine.len() as int, 50)] == t.p50_error_m->0);
    }
}

/// The processor time used between two samples is what the counter went up by.
pub proof fn law_cpu_is_the_difference(a: ResourceSample, b: ResourceSample, dt: Reading)
    ensures
        cpu_used(a, b, dt) matches Some(d) ==> a.cpu_usec is Some && b.cpu_usec is Some
            && a.cpu_usec->0 + d == b.cpu_usec->0 && Reading(0).below(dt),
        (a.cpu_usec is Some && b.cpu_usec is Some && a.cpu_usec->0 <= b.cpu_usec->0
            && Reading(0).below(dt)) ==> cpu_used(a, b, dt) is Some,
{
}

} // verus!
