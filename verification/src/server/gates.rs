//! What clock models and solves are allowed to do.
//!
//! Fits, residuals and positions are calculated in floating point outside. Whether an
//! observation enters a model, whether a model may convert a time, and which of
//! several solves is taken, is decided here.

use vstd::prelude::*;

use crate::reading::Reading;

verus! {

// -------------------------------------------------------------- pair models

/// 8: effective observations before a model is usable.
pub const MIN_WEIGHT: u64 = 0x4020_0000_0000_0000;

/// 1.5625: the variance of the observations' times before a model is usable; the
/// deviation is a quarter of five seconds.
pub const MIN_SPREAD: u64 = 0x3FF9_0000_0000_0000;

/// 1 microsecond: residuals below it are never refused.
pub const GATE_FLOOR_S: u64 = 0x3EB0_C6F7_A0B5_ED8D;

/// 2 microseconds: conversions less certain than this are refused. A poisoned
/// observation is worse than a missing one.
pub const MAX_PRED_SIGMA_S: u64 = 0x3EC0_C6F7_A0B5_ED8D;

/// Refusals in a row that mean a clock jump.
pub const RESET_AFTER_REJECTS: u32 = 8;

/// A model has enough weight over enough time.
pub open spec fn usable(weight: Reading, spread: Reading) -> bool {
    Reading(MIN_WEIGHT).at_most(weight) && Reading(MIN_SPREAD).at_most(spread)
}

/// Whether a model has enough weight over enough time.
pub fn is_usable(weight: Reading, spread: Reading) -> (r: bool)
    ensures
        r == usable(weight, spread),
{
    Reading(MIN_WEIGHT).le(weight) && Reading(MIN_SPREAD).le(spread)
}

/// The larger of two readings, and the other where one is no number.
pub open spec fn greater(a: Reading, b: Reading) -> Reading {
    if a.is_nan() || a.below(b) {
        b
    } else {
        a
    }
}

/// What becomes of an observation.
#[derive(Debug, Clone, Copy, PartialEq, Eq, Structural)]
pub enum Judgement {
    /// It enters the model.
    Ingest,
    /// It is refused.
    Reject,
    /// It is refused, and the model starts afresh.
    Reset,
}

/// An observation is too far from what a usable model predicts. `miss` is the size of
/// the residual, `limit` four deviations.
pub open spec fn is_outlier(warm: bool, miss: Reading, limit: Reading) -> bool {
    warm && greater(limit, Reading(GATE_FLOOR_S)).below(miss)
}

/// What becomes of an observation after `rejects` refusals in a row.
pub open spec fn judgement(rejects: u32, warm: bool, miss: Reading, limit: Reading) -> Judgement {
    if !is_outlier(warm, miss, limit) {
        Judgement::Ingest
    } else if rejects + 1 >= RESET_AFTER_REJECTS {
        Judgement::Reset
    } else {
        Judgement::Reject
    }
}

/// Refusals in a row behind an observation.
pub open spec fn rejects_after(
    rejects: u32,
    warm: bool,
    miss: Reading,
    limit: Reading,
) -> int {
    match judgement(rejects, warm, miss, limit) {
        Judgement::Ingest => if warm {
            0
        } else {
            rejects as int
        },
        Judgement::Reject => rejects + 1,
        Judgement::Reset => 0,
    }
}

/// What stands in front of a pair model: who enters, and when it starts afresh.
#[derive(Debug)]
pub struct PairGate {
    rejects: u32,
    n_total: u64,
}

impl PairGate {
    /// Refusals in a row.
    pub closed spec fn rejects(&self) -> u32 {
        self.rejects
    }

    /// Observations taken since the model started.
    pub closed spec fn taken(&self) -> u64 {
        self.n_total
    }

    pub open spec fn wf(&self) -> bool {
        self.rejects() < RESET_AFTER_REJECTS
    }

    pub fn new() -> (r: Self)
        ensures
            r.wf(),
            r.rejects() == 0,
            r.taken() == 0,
    {
        PairGate { rejects: 0, n_total: 0 }
    }

    /// Decides on an observation. The count of taken ones stops at its limit.
    pub fn observe(&mut self, warm: bool, miss: Reading, limit: Reading) -> (r: Judgement)
        requires
            old(self).wf(),
        ensures
            final(self).wf(),
            r == judgement(old(self).rejects(), warm, miss, limit),
            final(self).rejects() == rejects_after(old(self).rejects(), warm, miss, limit),
            final(self).taken() == (match r {
                Judgement::Ingest => if old(self).taken() == u64::MAX {
                    u64::MAX
                } else {
                    (old(self).taken() + 1) as u64
                },
                Judgement::Reject => old(self).taken(),
                Judgement::Reset => 0,
            }),
    {
        if warm {
            let floor = Reading(GATE_FLOOR_S);
            let gate = if limit.lt(floor) || !limit.le(limit) {
                floor
            } else {
                limit
            };
            if gate.lt(miss) {
                self.rejects = self.rejects + 1;
                if self.rejects >= RESET_AFTER_REJECTS {
                    self.rejects = 0;
                    self.n_total = 0;
                    return Judgement::Reset;
                }
                return Judgement::Reject;
            }
            self.rejects = 0;
        }
        self.n_total = self.n_total.saturating_add(1);
        Judgement::Ingest
    }

    /// Observations taken since the model started.
    pub fn observations(&self) -> (r: u64)
        ensures
            r == self.taken(),
    {
        self.n_total
    }
}

/// Whether a model may convert a time: it is usable, and the prediction is certain
/// enough.
pub fn may_convert(warm: bool, sigma: Reading) -> (r: bool)
    ensures
        r == (warm && !Reading(MAX_PRED_SIGMA_S).below(sigma)),
{
    warm && !Reading(MAX_PRED_SIGMA_S).lt(sigma)
}

/// Refusals in a row behind `n` outliers of a usable model.
pub open spec fn after_outliers(rejects: u32, n: nat) -> int
    decreases n,
{
    if n == 0 {
        rejects as int
    } else {
        let before = after_outliers(rejects, (n - 1) as nat);
        if before + 1 >= RESET_AFTER_REJECTS {
            0
        } else {
            before + 1
        }
    }
}

proof fn lemma_after_outliers(n: nat)
    requires
        n < RESET_AFTER_REJECTS,
    ensures
        after_outliers(0, n) == n,
    decreases n,
{
    if n > 0 {
        lemma_after_outliers((n - 1) as nat);
    }
}

/// A genuine clock jump resets the pair: the last of as many outliers in a row as the
/// limit is answered with a reset, and no earlier one is. A single wild observation
/// never moves the fit.
pub proof fn law_jump_resets(n: nat, miss: Reading, limit: Reading)
    requires
        n < RESET_AFTER_REJECTS,
        is_outlier(true, miss, limit),
    ensures
        after_outliers(0, n) == n,
        judgement(after_outliers(0, n) as u32, true, miss, limit) == (if n + 1
            == RESET_AFTER_REJECTS {
            Judgement::Reset
        } else {
            Judgement::Reject
        }),
        rejects_after(after_outliers(0, n) as u32, true, miss, limit) == after_outliers(0, n + 1),
{
    lemma_after_outliers(n);
}

// --------------------------------------------------------------------- solve

/// 0.5 microseconds: a fit this good is not retried.
pub const CLEAN_RMS_S: u64 = 0x3EA0_C6F7_A0B5_ED8D;

/// 3 microseconds: a fit worse than this is a bad group or broken sync.
pub const MAX_RMS_S: u64 = 0x3EC9_2A73_7110_E454;

/// The fit failed or is bad, and there are receivers to spare.
pub open spec fn is_retried(full: Option<Reading>, n: int) -> bool {
    n >= 5 && (full matches Some(rms) ==> Reading(CLEAN_RMS_S).below(rms))
}

/// Whether a solve is retried with each receiver left out in turn.
pub fn retry(full: Option<Reading>, n: usize) -> (r: bool)
    ensures
        r == is_retried(full, n as int),
{
    n >= 5 && match full {
        Some(rms) => Reading(CLEAN_RMS_S).lt(rms),
        None => true,
    }
}

/// Which solve is taken.
#[derive(Debug, Clone, Copy, PartialEq, Eq, Structural)]
pub enum Taken {
    /// The one with all receivers.
    Full,
    /// The one without this receiver.
    Without(usize),
}

/// The best of the full solve and the first `n` others, by residual: a later one is
/// taken only where it is strictly better.
pub open spec fn best_solve(
    full: Option<Reading>,
    others: Seq<Option<Reading>>,
    n: int,
) -> Option<(Taken, Reading)>
    decreases n,
{
    if n <= 0 {
        match full {
            Some(r) => Some((Taken::Full, r)),
            None => None,
        }
    } else {
        let best = best_solve(full, others, n - 1);
        match others[n - 1] {
            None => best,
            Some(r) => match best {
                None => Some((Taken::Without((n - 1) as usize), r)),
                Some(b) => if r.below(b.1) {
                    Some((Taken::Without((n - 1) as usize), r))
                } else {
                    best
                },
            },
        }
    }
}

/// Takes the best of the full solve and those with one receiver left out.
pub fn take_solve(full: Option<Reading>, others: &Vec<Option<Reading>>) -> (r: Option<Taken>)
    ensures
        r == (match best_solve(full, others@, others@.len() as int) {
            Some(b) => Some(b.0),
            None => None,
        }),
{
    let mut best: Option<(Taken, Reading)> = match full {
        Some(r) => Some((Taken::Full, r)),
        None => None,
    };
    let mut i: usize = 0;
    while i < others.len()
        invariant
            i <= others@.len(),
            best == best_solve(full, others@, i as int),
        decreases others@.len() - i,
    {
        if let Some(r) = others[i] {
            let better: bool = match best {
                None => true,
                Some(b) => r.lt(b.1),
            };
            if better {
                best = Some((Taken::Without(i), r));
            }
        }
        i = i + 1;
    }
    match best {
        Some(b) => Some(b.0),
        None => None,
    }
}

/// The residual of the solve that is taken is not above that of any other.
pub proof fn law_best_solve_is_best(
    full: Option<Reading>,
    others: Seq<Option<Reading>>,
    n: int,
    i: int,
)
    requires
        0 <= i < n <= others.len(),
        others[i] is Some,
        forall|k: int|
            0 <= k < others.len() ==> ((#[trigger] others[k]) matches Some(r) ==> !r.is_nan()),
        full matches Some(r) ==> !r.is_nan(),
    ensures
        best_solve(full, others, n) matches Some(b) && !b.1.is_nan() && !others[i]->0.below(b.1),
    decreases n,
{
    lemma_best_number(full, others, n);
    if i < n - 1 {
        law_best_solve_is_best(full, others, n - 1, i);
    } else {
        lemma_best_number(full, others, n - 1);
    }
}

proof fn lemma_best_number(full: Option<Reading>, others: Seq<Option<Reading>>, n: int)
    requires
        n <= others.len(),
        forall|k: int|
            0 <= k < others.len() ==> ((#[trigger] others[k]) matches Some(r) ==> !r.is_nan()),
        full matches Some(r) ==> !r.is_nan(),
    ensures
        best_solve(full, others, n) matches Some(b) ==> !b.1.is_nan(),
    decreases n,
{
    if n > 0 {
        lemma_best_number(full, others, n - 1);
        assert(others[n - 1] matches Some(r) ==> !r.is_nan());
    }
}

/// A number that is neither infinite nor no number.
pub open spec fn is_finite(x: Reading) -> bool {
    x.magnitude() < crate::reading::INFINITY
}

/// Whether a solve is physically credible: a finite position, and residuals that are
/// not too large.
pub fn is_credible(lat: Reading, lon: Reading, rms: Reading) -> (r: bool)
    ensures
        r == (is_finite(lat) && is_finite(lon) && !Reading(MAX_RMS_S).below(rms)),
{
    lat.0 % crate::reading::SIGN < crate::reading::INFINITY && lon.0 % crate::reading::SIGN
        < crate::reading::INFINITY && !Reading(MAX_RMS_S).lt(rms)
}

// ------------------------------------------------------- windowed pair models

/// 5 seconds: the time that a windowed model has to span.
pub const MIN_SPAN_S: u64 = 0x4014_0000_0000_0000;

/// Observations of a windowed model at least.
pub const MIN_OBS: usize = 8;

/// Observations of a windowed model at most.
pub const MAX_OBS: usize = 400;

/// New observations after which a fit is made again.
pub const REFIT_EVERY: u32 = 8;

/// The observations without those at the front that are before `cutoff`.
pub open spec fn since(obs: Seq<(Reading, Reading)>, cutoff: Reading) -> Seq<(Reading, Reading)>
    decreases obs.len(),
{
    if obs.len() > 0 && obs[0].0.below(cutoff) {
        since(obs.drop_first(), cutoff)
    } else {
        obs
    }
}

/// The last observations, as many as are kept.
pub open spec fn newest(obs: Seq<(Reading, Reading)>) -> Seq<(Reading, Reading)> {
    if obs.len() > MAX_OBS {
        obs.skip(obs.len() - MAX_OBS)
    } else {
        obs
    }
}

/// The observations of a windowed pair model.
#[derive(Debug)]
pub struct SyncWindow {
    obs: Vec<(Reading, Reading)>,
    stale: u32,
}

impl SyncWindow {
    pub closed spec fn observations(&self) -> Seq<(Reading, Reading)> {
        self.obs@
    }

    /// Observations since the last fit.
    pub closed spec fn fresh(&self) -> u32 {
        self.stale
    }

    pub fn new() -> (r: Self)
        ensures
            r.observations() == Seq::<(Reading, Reading)>::empty(),
            r.fresh() == 0,
    {
        SyncWindow { obs: Vec::new(), stale: 0 }
    }

    /// Takes an observation; what is before `cutoff` leaves, and so does what is too
    /// much.
    pub fn push(&mut self, t_from: Reading, t_to: Reading, cutoff: Reading)
        ensures
            final(self).observations() == newest(
                since(old(self).observations().push((t_from, t_to)), cutoff),
            ),
            final(self).fresh() == (if old(self).fresh() == u32::MAX {
                u32::MAX
            } else {
                (old(self).fresh() + 1) as u32
            }),
    {
        self.obs.push((t_from, t_to));
        self.stale = self.stale.saturating_add(1);
        let ghost all = self.obs@;
        let ghost fresh = self.stale;
        while self.obs.len() > 0 && self.obs[0].0.lt(cutoff)
            invariant
                self.stale == fresh,
                since(all, cutoff) == since(self.obs@, cutoff),
            decreases self.obs@.len(),
        {
            let ghost before = self.obs@;
            let _old = self.obs.remove(0);
            assert(self.obs@ =~= before.drop_first());
        }
        let ghost kept = self.obs@;
        assert(newest(kept) == newest(since(all, cutoff)));
        while self.obs.len() > MAX_OBS
            invariant
                self.stale == fresh,
                newest(kept) == newest(self.obs@),
            decreases self.obs@.len(),
        {
            let ghost before = self.obs@;
            let _old = self.obs.remove(0);
            assert(self.obs@ =~= before.skip(1));
            assert(newest(before) =~= newest(self.obs@));
        }
    }

    /// The first and last time of the window, for the caller to measure its span.
    pub fn ends(&self) -> (r: Option<(Reading, Reading)>)
        ensures
            r is Some <==> self.observations().len() > 0,
            r matches Some(e) ==> e.0 == self.observations().first().0 && e.1
                == self.observations().last().0,
    {
        let n: usize = self.obs.len();
        if n == 0 {
            None
        } else {
            Some((self.obs[0].0, self.obs[n - 1].0))
        }
    }

    /// Whether the window holds enough over enough time.
    pub fn is_enough(&self, span: Reading) -> (r: bool)
        ensures
            r == (self.observations().len() >= MIN_OBS && !span.below(Reading(MIN_SPAN_S))),
    {
        self.obs.len() >= MIN_OBS && !span.lt(Reading(MIN_SPAN_S))
    }

    /// Whether a fit has to be made: there is none yet, or it is stale.
    pub fn is_due(&self, fitted: bool) -> (r: bool)
        ensures
            r == (!fitted || self.fresh() >= REFIT_EVERY),
    {
        !fitted || self.stale >= REFIT_EVERY
    }

    /// A fit was made.
    pub fn fitted(&mut self)
        ensures
            final(self).observations() == old(self).observations(),
            final(self).fresh() == 0,
    {
        self.stale = 0;
    }

    pub fn items(&self) -> (r: &Vec<(Reading, Reading)>)
        ensures
            r@ == self.observations(),
    {
        &self.obs
    }
}

/// Whether the fit without outliers replaces the first: enough observations are left,
/// and some were dropped.
pub fn use_trimmed(kept: usize, n: usize) -> (r: bool)
    ensures
        r == (MIN_OBS <= kept < n),
{
    kept >= MIN_OBS && kept < n
}

/// A window never holds more than its limit.
pub proof fn law_window_is_bounded(obs: Seq<(Reading, Reading)>)
    ensures
        newest(obs).len() <= MAX_OBS,
{
}

// ------------------------------------------------------------ what gates keep

/// A model is usable with enough weight over enough time, and more of either never makes it
/// less so; without enough of both it is not.
pub proof fn law_usable_takes_weight_and_time(
    weight: Reading,
    spread: Reading,
    more: Reading,
    wider: Reading,
)
    ensures
        usable(weight, spread) && weight.at_most(more) && spread.at_most(wider) ==> usable(more, wider),
        weight.below(Reading(0x4020_0000_0000_0000)) ==> !usable(weight, spread),
        spread.below(Reading(0x3FF9_0000_0000_0000)) ==> !usable(weight, spread),
        usable(Reading(0x4020_0000_0000_0000), Reading(0x3FF9_0000_0000_0000)),
{
}

/// The larger of two readings is one of them and not below either; a reading that is no
/// number gives way.
pub proof fn law_greater_is_not_below(a: Reading, b: Reading)
    ensures
        greater(a, b) == a || greater(a, b) == b,
        !a.is_nan() ==> a.at_most(greater(a, b)) || b.is_nan(),
        !b.is_nan() ==> b.at_most(greater(a, b)),
        a.is_nan() ==> greater(a, b) == b,
        b.is_nan() && !a.is_nan() ==> greater(a, b) == a,
{
}

/// A model that is not usable refuses nothing; a usable one takes whatever is within a
/// microsecond of its prediction or within the limit, and refuses the rest.
pub proof fn law_near_observations_enter(rejects: u32, warm: bool, miss: Reading, limit: Reading)
    requires
        !miss.is_nan(),
        !limit.is_nan(),
    ensures
        judgement(rejects, warm, miss, limit) is Ingest <==> !warm || miss.at_most(
            Reading(0x3EB0_C6F7_A0B5_ED8D),
        ) || miss.at_most(limit),
        warm && judgement(rejects, warm, miss, limit) is Ingest ==> rejects_after(
            rejects,
            warm,
            miss,
            limit,
        ) == 0,
{
}

/// The solve that is taken is one of those made: the full one, or the one without that
/// receiver. It is strictly better than the full one and than every earlier one, and there
/// is one wherever any solve was made.
pub proof fn law_taken_solve_was_made(full: Option<Reading>, others: Seq<Option<Reading>>, n: int)
    requires
        0 <= n <= others.len() <= usize::MAX,
    ensures
        best_solve(full, others, n) is None <==> full is None && forall|i: int|
            0 <= i < n ==> (#[trigger] others[i]) is None,
        best_solve(full, others, n) matches Some(b) ==> match b.0 {
            Taken::Full => full == Some(b.1),
            Taken::Without(i) => {
                &&& 0 <= i < n
                &&& others[i as int] == Some(b.1)
                &&& full matches Some(f) ==> f.is_nan() || b.1.below(f)
            },
        },
    decreases n,
{
    if n > 0 {
        law_taken_solve_was_made(full, others, n - 1);
        lemma_solve_beats_full(full, others, n);
        if best_solve(full, others, n) is None {
            assert forall|i: int| 0 <= i < n implies (#[trigger] others[i]) is None by {
                if i == n - 1 {
                    assert(others[n - 1] is None);
                }
            }
        }
    }
}

proof fn lemma_solve_beats_full(full: Option<Reading>, others: Seq<Option<Reading>>, n: int)
    requires
        0 <= n <= others.len() <= usize::MAX,
    ensures
        full matches Some(f) ==> f.is_nan() || (best_solve(full, others, n) matches Some(b) && (b
            == (Taken::Full, f) || b.1.below(f))),
    decreases n,
{
    if n > 0 {
        lemma_solve_beats_full(full, others, n - 1);
    }
}

/// A solve is made again only where there are five receivers or more and the fit failed or is
/// worse than half a microsecond.
pub proof fn law_retry_takes_spare_receivers(full: Option<Reading>, n: int)
    ensures
        n < 5 ==> !is_retried(full, n),
        (full matches Some(rms) && rms.at_most(Reading(0x3EA0_C6F7_A0B5_ED8D))) ==> !is_retried(
            full,
            n,
        ),
        n >= 5 && full is None ==> is_retried(full, n),
        (full matches Some(rms) && n >= 5 && Reading(0x3EA0_C6F7_A0B5_ED8D).below(rms))
            ==> is_retried(full, n),
{
}

/// What stays of the observations is their end: what left was before the cutoff, and what is
/// now first was not.
pub proof fn law_window_drops_the_old(obs: Seq<(Reading, Reading)>, cutoff: Reading) -> (k: int)
    ensures
        0 <= k <= obs.len(),
        since(obs, cutoff) == obs.skip(k),
        forall|i: int| 0 <= i < k ==> (#[trigger] obs[i]).0.below(cutoff),
        k < obs.len() ==> !obs[k].0.below(cutoff),
    decreases obs.len(),
{
    if obs.len() > 0 && obs[0].0.below(cutoff) {
        let r = obs.drop_first();
        let k = law_window_drops_the_old(r, cutoff);
        assert(r.skip(k) =~= obs.skip(k + 1));
        assert forall|i: int| 0 <= i < k + 1 implies (#[trigger] obs[i]).0.below(cutoff) by {
            if i > 0 {
                assert(r[i - 1] == obs[i]);
            }
        }
        if k < r.len() {
            assert(r[k] == obs[k + 1]);
        }
        k + 1
    } else {
        assert(obs.skip(0) =~= obs);
        0
    }
}

/// The newest observations are kept, up to four hundred and in order: nothing is dropped while
/// there are fewer, and the last is always there.
pub proof fn law_window_keeps_the_newest(obs: Seq<(Reading, Reading)>)
    ensures
        newest(obs).len() == (if obs.len() < 400 {
            obs.len() as int
        } else {
            400
        }),
        newest(obs) == obs.skip(obs.len() - newest(obs).len()),
        obs.len() > 0 ==> newest(obs).last() == obs.last(),
{
    assert(obs.skip(0) =~= obs);
}

} // verus!
