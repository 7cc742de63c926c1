//! Publication rules: when a cluster is solved at all, which solutions are
//! published, and what is learned from them. Elapsed times and quotients are
//! calculated by the caller and compared here.

use vstd::prelude::*;

use crate::reading::Reading;
use crate::server::receivers::{Geodetic, RxBias};

verus! {

/// Solves of one aircraft are at least 0.4 s apart.
pub const RESOLVE_BACKOFF_S: u64 = 0x3FD9_9999_9999_999A;

/// A solve without redundancy waits until the track is this old (30 s); the speed
/// gate looks back as far.
pub const STARVED_S: u64 = 0x403E_0000_0000_0000;

/// A fix younger than this (60 s) starts the next solve.
pub const WARM_S: u64 = 0x404E_0000_0000_0000;

/// Largest estimated error that is published (10 km).
pub const MAX_ERR_M: u64 = 0x40C3_8800_0000_0000;

/// Shortest time over which speed is measured (0.05 s).
pub const MIN_SPEED_SPAN_S: u64 = 0x3FA9_9999_9999_999A;

/// Fastest plausible aircraft (400 m/s).
pub const MAX_SPEED_MPS: u64 = 0x4079_0000_0000_0000;

/// This many speed rejections in a row reset the track.
pub const SPEED_REJECTS_RESET: u32 = 5;

/// Biases are learned from this many receivers or more ...
pub const LEARN_MIN_RECEIVERS: usize = 5;

/// ... and an estimated error below this (500 m).
pub const LEARN_MAX_ERR_M: u64 = 0x407F_4000_0000_0000;

/// A broadcast position younger than this (5 s) scores a fix.
pub const CLAIM_MAX_AGE_S: u64 = 0x4014_0000_0000_0000;

/// A receiver learns fast for this many samples.
pub const FAST_LEARNING_N: u32 = 50;

/// Publication state of one aircraft.
#[derive(Debug, Clone, Copy, PartialEq, Eq, Structural)]
pub struct Track {
    pub last_pos: Option<Geodetic>,
    pub last_time: Reading,
    pub last_attempt: Reading,
    /// Consecutive speed-gate rejections.
    pub speed_rejects: u32,
}

/// The track of an aircraft that was never solved.
pub open spec fn no_track() -> Track {
    Track { last_pos: None, last_time: Reading(0), last_attempt: Reading(0), speed_rejects: 0 }
}

/// What happens to a cluster before it is solved.
#[derive(Debug, Clone, Copy, PartialEq, Eq, Structural)]
pub enum Gate {
    /// Too soon after the last attempt.
    Backoff,
    /// No redundancy, and the track is fresh.
    ZeroRedundancy,
    /// No altitude is known yet.
    NoAltitude,
    /// Solve at this altitude, starting from the last fix if it is fresh.
    Solve { alt_ft: i32, warm: Option<Geodetic> },
}

/// Whether a cluster of `n_obs` observations is solved. A four-receiver solve at
/// fixed altitude has no redundancy, so no residual can catch a bad observation:
/// it is allowed only when the track is starved.
pub open spec fn gate_of(
    track: Track,
    n_obs: usize,
    alt: Option<i32>,
    since_attempt: Reading,
    since_fix: Reading,
) -> Gate {
    if since_attempt.below(Reading(RESOLVE_BACKOFF_S)) {
        Gate::Backoff
    } else if n_obs == 4 && since_fix.below(Reading(STARVED_S)) {
        Gate::ZeroRedundancy
    } else {
        match alt {
            None => Gate::NoAltitude,
            Some(alt_ft) => Gate::Solve {
                alt_ft,
                warm: if since_fix.below(Reading(WARM_S)) {
                    track.last_pos
                } else {
                    None
                },
            },
        }
    }
}

/// Decides whether a cluster is solved; see `gate_of`.
pub fn solve_gate(
    track: Track,
    n_obs: usize,
    alt: Option<i32>,
    since_attempt: Reading,
    since_fix: Reading,
) -> (r: Gate)
    ensures
        r == gate_of(track, n_obs, alt, since_attempt, since_fix),
{
    if since_attempt.lt(Reading(RESOLVE_BACKOFF_S)) {
        return Gate::Backoff;
    }
    if n_obs == 4 && since_fix.lt(Reading(STARVED_S)) {
        return Gate::ZeroRedundancy;
    }
    match alt {
        None => Gate::NoAltitude,
        Some(alt_ft) => {
            let warm = if since_fix.lt(Reading(WARM_S)) {
                track.last_pos
            } else {
                None
            };
            Gate::Solve { alt_ft, warm }
        },
    }
}

/// A solution, with what the publication rules need of it.
#[derive(Debug, Clone, Copy, PartialEq, Eq, Structural)]
pub struct Fix {
    pub pos: Geodetic,
    pub err_m: Reading,
    /// Number of residuals; equal to the receivers where none was dropped.
    pub residuals: usize,
    /// Time since the last accepted fix, seconds.
    pub silence: Reading,
    /// The silence over 20 s.
    pub silence_share: Reading,
    /// The estimated error over 1500 m.
    pub err_share: Reading,
    /// Distance to the last accepted fix over the silence, m/s.
    pub speed: Reading,
}

/// What happens to a solution.
#[derive(Debug, Clone, Copy, PartialEq, Eq, Structural)]
pub enum Verdict {
    Rejected,
    /// An ADS-B aircraft's fix: scored against its broadcast position if that is
    /// fresh, never published.
    SelfTruth { learn: bool, score: bool },
    Publish { learn: bool },
}

/// The fix implies an implausible speed against a recent one.
pub open spec fn too_fast(track: Track, fix: Fix) -> bool {
    &&& track.last_pos is Some
    &&& fix.silence.below(Reading(STARVED_S))
    &&& Reading(MIN_SPEED_SPAN_S).below(fix.silence)
    &&& Reading(MAX_SPEED_MPS).below(fix.speed)
}

/// The fix is too inaccurate for so short a silence.
pub open spec fn throttled(track: Track, fix: Fix) -> bool {
    track.last_pos is Some && fix.silence_share.below(fix.err_share)
}

/// The receivers' biases are learned from a solve with all of them.
pub open spec fn learns(fix: Fix, n_rx: usize) -> bool {
    fix.residuals == n_rx && n_rx >= LEARN_MIN_RECEIVERS && fix.err_m.below(
        Reading(LEARN_MAX_ERR_M),
    )
}

/// The verdict on a solution of `n_rx` receivers; `claim_age` is the age of the
/// aircraft's own position claim.
pub open spec fn verdict_of(
    track: Track,
    df17: bool,
    n_rx: usize,
    fix: Option<Fix>,
    claim_age: Option<Reading>,
) -> Verdict {
    match fix {
        None => Verdict::Rejected,
        Some(f) => if Reading(MAX_ERR_M).below(f.err_m) || throttled(track, f) || too_fast(
            track,
            f,
        ) {
            Verdict::Rejected
        } else if df17 {
            Verdict::SelfTruth {
                learn: learns(f, n_rx),
                score: match claim_age {
                    Some(a) => a.below(Reading(CLAIM_MAX_AGE_S)),
                    None => false,
                },
            }
        } else {
            Verdict::Publish { learn: learns(f, n_rx) }
        },
    }
}

/// One more speed rejection; a run of them resets the track.
pub open spec fn speed_rejected(track: Track) -> Track {
    let n = if track.speed_rejects < u32::MAX {
        (track.speed_rejects + 1) as u32
    } else {
        u32::MAX
    };
    if n >= SPEED_REJECTS_RESET {
        Track { last_pos: None, speed_rejects: 0, ..track }
    } else {
        Track { speed_rejects: n, ..track }
    }
}

/// The track after a solution.
pub open spec fn track_after(track: Track, df17: bool, fix: Option<Fix>, now: Reading) -> Track {
    match fix {
        None => track,
        Some(f) => if Reading(MAX_ERR_M).below(f.err_m) || throttled(track, f) {
            track
        } else if too_fast(track, f) {
            speed_rejected(track)
        } else if df17 {
            track
        } else {
            Track { last_pos: Some(f.pos), last_time: now, speed_rejects: 0, ..track }
        },
    }
}

/// Judges a solution and updates the track; see `verdict_of` and `track_after`.
pub fn judge(
    track: Track,
    df17: bool,
    n_rx: usize,
    fix: Option<Fix>,
    claim_age: Option<Reading>,
    now: Reading,
) -> (r: (Verdict, Track))
    ensures
        r.0 == verdict_of(track, df17, n_rx, fix, claim_age),
        r.1 == track_after(track, df17, fix, now),
{
    let f = match fix {
        None => {
            return (Verdict::Rejected, track);
        },
        Some(f) => f,
    };
    if f.err_m.gt(Reading(MAX_ERR_M)) {
        return (Verdict::Rejected, track);
    }
    let known: bool = track.last_pos.is_some();
    if known && f.silence_share.lt(f.err_share) {
        return (Verdict::Rejected, track);
    }
    if known && f.silence.lt(Reading(STARVED_S)) && f.silence.gt(Reading(MIN_SPEED_SPAN_S))
        && f.speed.gt(Reading(MAX_SPEED_MPS)) {
        let n: u32 = track.speed_rejects.saturating_add(1);
        let next = if n >= SPEED_REJECTS_RESET {
            Track {
                last_pos: None,
                last_time: track.last_time,
                last_attempt: track.last_attempt,
                speed_rejects: 0,
            }
        } else {
            Track {
                last_pos: track.last_pos,
                last_time: track.last_time,
                last_attempt: track.last_attempt,
                speed_rejects: n,
            }
        };
        return (Verdict::Rejected, next);
    }
    let learn: bool = f.residuals == n_rx && n_rx >= LEARN_MIN_RECEIVERS && f.err_m.lt(
        Reading(LEARN_MAX_ERR_M),
    );
    if df17 {
        let score: bool = match claim_age {
            Some(a) => a.lt(Reading(CLAIM_MAX_AGE_S)),
            None => false,
        };
        return (Verdict::SelfTruth { learn, score }, track);
    }
    let next = Track {
        last_pos: Some(f.pos),
        last_time: now,
        last_attempt: track.last_attempt,
        speed_rejects: 0,
    };
    (Verdict::Publish { learn }, next)
}

/// Applies a run of solutions that all imply an implausible speed.
pub open spec fn after_ghosts(track: Track, n: nat) -> Track
    decreases n,
{
    if n == 0 {
        track
    } else {
        speed_rejected(after_ghosts(track, (n - 1) as nat))
    }
}

/// The speed gate cannot suppress a correct stream behind one bad early fix:
/// after five rejections in a row the track is open again, and no fix is too fast
/// for it.
pub proof fn law_speed_gate_opens(track: Track, fix: Fix)
    requires
        track.speed_rejects == 0,
    ensures
        after_ghosts(track, 5).last_pos is None,
        after_ghosts(track, 5).speed_rejects == 0,
        !too_fast(after_ghosts(track, 5), fix),
        !throttled(after_ghosts(track, 5), fix),
{
    reveal_with_fuel(after_ghosts, 6);
}

/// Nothing above the error ceiling is published or scored.
pub proof fn law_error_ceiling(
    track: Track,
    df17: bool,
    n_rx: usize,
    fix: Fix,
    claim_age: Option<Reading>,
    now: Reading,
)
    requires
        Reading(MAX_ERR_M).below(fix.err_m),
    ensures
        verdict_of(track, df17, n_rx, Some(fix), claim_age) is Rejected,
        track_after(track, df17, Some(fix), now) == track,
{
}

/// ADS-B fixes never become published fixes and never move the track; a run of
/// implausible ones may reset it.
pub proof fn law_self_truth_stays_out(
    track: Track,
    n_rx: usize,
    fix: Fix,
    claim_age: Option<Reading>,
    now: Reading,
)
    ensures
        !(verdict_of(track, true, n_rx, Some(fix), claim_age) is Publish),
        ({
            let t = track_after(track, true, Some(fix), now);
            &&& t.last_pos == track.last_pos || t.last_pos is None
            &&& t.last_time == track.last_time
            &&& t.last_attempt == track.last_attempt
        }),
{
}

/// The share of a new residual in the learned bias: 0.10 while samples are few,
/// 0.02 afterwards.
pub open spec fn gain(n: u32) -> Reading {
    if n < FAST_LEARNING_N {
        Reading(0x3FB9_9999_9999_999A)
    } else {
        Reading(0x3F94_7AE1_47AE_147B)
    }
}

pub fn learning_gain(n: u32) -> (r: Reading)
    ensures
        r == gain(n),
{
    if n < FAST_LEARNING_N {
        Reading(0x3FB9_9999_9999_999A)
    } else {
        Reading(0x3F94_7AE1_47AE_147B)
    }
}

/// What is known of a receiver after one more residual: `bias_s` and `mad_s` are the
/// known values moved by the learning gain. A fix of an ADS-B aircraft teaches the
/// bias but not the scatter.
pub open spec fn bias_after(b: RxBias, bias_s: Reading, mad_s: Reading, df17: bool) -> RxBias {
    RxBias {
        bias_s,
        mad_s: if df17 {
            b.mad_s
        } else {
            mad_s
        },
        n: if b.n < u32::MAX {
            (b.n + 1) as u32
        } else {
            u32::MAX
        },
    }
}

pub fn next_bias(b: RxBias, bias_s: Reading, mad_s: Reading, df17: bool) -> (r: RxBias)
    ensures
        r == bias_after(b, bias_s, mad_s, df17),
{
    RxBias {
        bias_s,
        mad_s: if df17 {
            b.mad_s
        } else {
            mad_s
        },
        n: b.n.saturating_add(1),
    }
}

/// The offset between the output clock and a reference clock: the first one seen;
/// a smaller one at once, as a faster path was observed; else `risen`, the old
/// one moved slowly towards the new.
pub open spec fn offset_of(known: Option<Reading>, delta: Reading, risen: Reading) -> Reading {
    match known {
        None => delta,
        Some(o) => if delta.below(o) {
            delta
        } else {
            risen
        },
    }
}

pub fn next_offset(known: Option<Reading>, delta: Reading, risen: Reading) -> (r: Reading)
    ensures
        r == offset_of(known, delta, risen),
{
    match known {
        None => delta,
        Some(o) => if delta.lt(o) {
            delta
        } else {
            risen
        },
    }
}

// ------------------------------------------------------- what publishing keeps

/// When a cluster is solved: not within 0.4 seconds of the last attempt, not from four
/// observations while the last fix is younger than thirty seconds, and not without an
/// altitude. In every other case it is, at that altitude, and from the last fix only if that
/// is younger than a minute.
pub proof fn law_solves_are_spaced(
    track: Track,
    n_obs: usize,
    alt: Option<i32>,
    since_attempt: Reading,
    since_fix: Reading,
)
    ensures
        ({
            let g = gate_of(track, n_obs, alt, since_attempt, since_fix);
            &&& since_attempt.below(Reading(0x3FD9_9999_9999_999A)) ==> !(g is Solve)
            &&& n_obs == 4 && since_fix.below(Reading(0x403E_0000_0000_0000)) ==> !(g is Solve)
            &&& alt is None ==> !(g is Solve)
            &&& !since_attempt.below(Reading(0x3FD9_9999_9999_999A)) && n_obs != 4 && alt is Some
                ==> g is Solve
            &&& !since_attempt.below(Reading(0x3FD9_9999_9999_999A)) && !since_fix.below(
                Reading(0x403E_0000_0000_0000),
            ) && alt is Some ==> g is Solve
            &&& g matches Gate::Solve { alt_ft, warm } ==> Some(alt_ft) == alt && (warm matches Some(
                p,
            ) ==> track.last_pos == Some(p) && since_fix.below(Reading(0x404E_0000_0000_0000)))
                && (since_fix.below(Reading(0x404E_0000_0000_0000)) ==> warm == track.last_pos)
        }),
{
}

/// What is published moves the track to the fix, and nothing else moves it there: it is the
/// fix of an aircraft that does not broadcast, its error is ten kilometers at most, and it is
/// plausible against the last one.
pub proof fn law_published_fix_is_the_track(
    track: Track,
    df17: bool,
    n_rx: usize,
    fix: Option<Fix>,
    claim_age: Option<Reading>,
    now: Reading,
)
    ensures
        ({
            let v = verdict_of(track, df17, n_rx, fix, claim_age);
            let t = track_after(track, df17, fix, now);
            &&& v is Publish ==> fix is Some && !df17 && !Reading(0x40C3_8800_0000_0000).below(
                fix->0.err_m,
            ) && t.last_pos == Some(fix->0.pos) && t.last_time == now && t.speed_rejects == 0
            &&& !(v is Publish) ==> t.last_time == track.last_time && (t.last_pos
                == track.last_pos || t.last_pos is None)
            &&& t.last_attempt == track.last_attempt
            &&& fix is None ==> v is Rejected && t == track
        }),
{
}

/// A plausible fix is never withheld: with an error of at most ten kilometers, no fix before
/// it or a longer silence, and a slow enough way from there, it is published, or scored where
/// the aircraft broadcasts.
pub proof fn law_plausible_fix_goes_out(
    track: Track,
    df17: bool,
    n_rx: usize,
    fix: Fix,
    claim_age: Option<Reading>,
)
    requires
        fix.err_m.at_most(Reading(0x40C3_8800_0000_0000)),
        track.last_pos is None || (!fix.silence_share.below(fix.err_share) && (
        fix.speed.at_most(Reading(0x4079_0000_0000_0000)) || !fix.silence.below(
            Reading(0x403E_0000_0000_0000),
        ))),
    ensures
        !df17 ==> verdict_of(track, df17, n_rx, Some(fix), claim_age) is Publish,
        df17 ==> verdict_of(track, df17, n_rx, Some(fix), claim_age) is SelfTruth,
{
}

/// A fix that is too fast against a recent one, or too inaccurate for so short a silence, is
/// not published.
pub proof fn law_implausible_fix_stays_in(
    track: Track,
    df17: bool,
    n_rx: usize,
    fix: Fix,
    claim_age: Option<Reading>,
)
    requires
        track.last_pos is Some,
        fix.silence_share.below(fix.err_share) || (Reading(0x4079_0000_0000_0000).below(fix.speed)
            && Reading(0x3FA9_9999_9999_999A).below(fix.silence) && fix.silence.below(
            Reading(0x403E_0000_0000_0000),
        )),
    ensures
        verdict_of(track, df17, n_rx, Some(fix), claim_age) is Rejected,
{
}

/// Biases are learned only from an accurate solve with all of five receivers or more, whatever
/// becomes of the fix.
pub proof fn law_learning_takes_a_good_solve(
    track: Track,
    df17: bool,
    n_rx: usize,
    fix: Fix,
    claim_age: Option<Reading>,
)
    ensures
        ({
            let v = verdict_of(track, df17, n_rx, Some(fix), claim_age);
            let good = fix.residuals == n_rx && n_rx >= 5 && fix.err_m.below(
                Reading(0x407F_4000_0000_0000),
            );
            &&& v matches Verdict::Publish { learn } ==> learn == good
            &&& v matches Verdict::SelfTruth { learn, score } ==> learn == good && score
                == (claim_age is Some && claim_age->0.below(Reading(0x4014_0000_0000_0000)))
        }),
{
}

/// One more residual counts one more sample, up to the largest count. A fix of an aircraft
/// that broadcasts leaves the scatter as it was.
pub proof fn law_residuals_are_counted(b: RxBias, bias_s: Reading, mad_s: Reading, df17: bool)
    ensures
        bias_after(b, bias_s, mad_s, df17).bias_s == bias_s,
        df17 ==> bias_after(b, bias_s, mad_s, df17).mad_s == b.mad_s,
        !df17 ==> bias_after(b, bias_s, mad_s, df17).mad_s == mad_s,
        b.n < u32::MAX ==> bias_after(b, bias_s, mad_s, df17).n == b.n + 1,
        bias_after(b, bias_s, mad_s, df17).n >= b.n,
{
}

/// The offset follows a faster path at once: it is never above a difference that is below the
/// known one, and the first difference is taken as it is.
pub proof fn law_offset_falls_at_once(known: Option<Reading>, delta: Reading, risen: Reading)
    ensures
        known is None ==> offset_of(known, delta, risen) == delta,
        known matches Some(o) ==> (delta.below(o) ==> offset_of(known, delta, risen) == delta) && (
        !delta.below(o) ==> offset_of(known, delta, risen) == risen),
{
}

/// A receiver learns faster while it has few samples.
pub proof fn law_early_samples_weigh_more(n: u32, m: u32)
    requires
        n <= m,
    ensures
        gain(m).at_most(gain(n)),
        n < 50 <= m ==> gain(m).below(gain(n)),
        Reading(0).below(gain(n)),
        gain(n).below(Reading(0x3FF0_0000_0000_0000)),
{
}

} // verus!
