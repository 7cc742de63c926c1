//! From a group of arrivals to the observations of one transmission: who heard
//! it, whose clock serves as reference, which arrivals belong together, and which
//! of them go into the solve.

use vstd::prelude::*;

use crate::reading::Reading;
use crate::server::grouping::Arrival;
use crate::server::receivers::{Receivers, RxBias};

verus! {

/// Receivers needed for a solve.
pub const MIN_RECEIVERS: usize = 4;

/// Arrivals of one transmission span at most 2.5 ms.
pub const CLUSTER_SPAN_S: u64 = 0x3F64_7AE1_47AE_147B;

/// A receiver with this many samples ...
pub const QUARANTINE_MIN_N: u32 = 30;

/// ... and more scatter than this (1.5 microseconds) is kept out of solves.
pub const QUARANTINE_MAD_S: u64 = 0x3EB9_2A73_7110_E454;

/// Observations per solve: beyond this they add little geometry.
pub const MAX_OBSERVATIONS: usize = 16;

/// The receivers of a group, in order of first arrival.
pub open spec fn members_of(e: Seq<Arrival>) -> Seq<usize>
    decreases e.len(),
{
    if e.len() == 0 {
        seq![]
    } else {
        let rest = members_of(e.drop_last());
        if rest.contains(e.last().rx) {
            rest
        } else {
            rest.push(e.last().rx)
        }
    }
}

fn holds(v: &Vec<usize>, x: usize) -> (r: bool)
    ensures
        r == v@.contains(x),
{
    let mut i: usize = 0;
    while i < v.len()
        invariant
            i <= v@.len(),
            forall|k: int| 0 <= k < i ==> v@[k] != x,
        decreases v@.len() - i,
    {
        if v[i] == x {
            assert(v@[i as int] == x);
            return true;
        }
        i = i + 1;
    }
    false
}

/// The receivers of a group; see `members_of`.
pub fn members(e: &Vec<Arrival>) -> (r: Vec<usize>)
    ensures
        r@ == members_of(e@),
        r@.no_duplicates(),
{
    let mut out: Vec<usize> = Vec::new();
    let mut i: usize = 0;
    while i < e.len()
        invariant
            i <= e@.len(),
            out@ == members_of(e@.take(i as int)),
            out@.no_duplicates(),
        decreases e@.len() - i,
    {
        assert(e@.take(i + 1).drop_last() =~= e@.take(i as int));
        assert(e@.take(i + 1).last() == e@[i as int]);
        if !holds(&out, e[i].rx) {
            out.push(e[i].rx);
        }
        i = i + 1;
    }
    assert(e@.take(e@.len() as int) =~= e@);
    out
}

/// The receivers of a group that may be solved: all of them, where they are enough.
pub fn solvers(e: &Vec<Arrival>) -> (r: Option<Vec<usize>>)
    ensures
        match r {
            Some(m) => m@ == members_of(e@) && m@.no_duplicates() && m@.len() >= MIN_RECEIVERS,
            None => members_of(e@).len() < MIN_RECEIVERS,
        },
{
    let m = members(e);
    if m.len() < MIN_RECEIVERS {
        None
    } else {
        Some(m)
    }
}

/// The members through which a receiver's time can be read in the reference clock
/// where no model leads there directly.
pub open spec fn between(m: Seq<usize>, rx: usize, reference: usize) -> Seq<usize>
    decreases m.len(),
{
    if m.len() == 0 {
        seq![]
    } else {
        let rest = between(m.drop_last(), rx, reference);
        if m.last() == rx || m.last() == reference {
            rest
        } else {
            rest.push(m.last())
        }
    }
}

/// The members to go through; see `between`.
pub fn detours(m: &Vec<usize>, rx: usize, reference: usize) -> (r: Vec<usize>)
    ensures
        r@ == between(m@, rx, reference),
{
    let mut out: Vec<usize> = Vec::new();
    let mut i: usize = 0;
    while i < m.len()
        invariant
            i <= m@.len(),
            out@ == between(m@.take(i as int), rx, reference),
        decreases m@.len() - i,
    {
        assert(m@.take(i + 1).drop_last() =~= m@.take(i as int));
        assert(m@.take(i + 1).last() == m@[i as int]);
        if m[i] != rx && m[i] != reference {
            out.push(m[i]);
        }
        i = i + 1;
    }
    assert(m@.take(m@.len() as int) =~= m@);
    out
}

/// Usable models from the first `n` members to a candidate. `usable[i][j]` says
/// that member `i`'s clock can be read in member `j`'s.
pub open spec fn support(usable: Seq<Seq<bool>>, cand: int, n: int) -> nat
    decreases n,
{
    if n <= 0 {
        0
    } else {
        support(usable, cand, n - 1) + (if n - 1 != cand && usable[n - 1][cand] {
            1nat
        } else {
            0
        })
    }
}

/// The reference among the first `n` of `all` members: the one with the most
/// usable models from the others, the last among equals.
pub open spec fn reference_of(usable: Seq<Seq<bool>>, all: int, n: int) -> int
    decreases n,
{
    if n <= 1 {
        0
    } else {
        let best = reference_of(usable, all, n - 1);
        if support(usable, n - 1, all) >= support(usable, best, all) {
            n - 1
        } else {
            best
        }
    }
}

/// The flags of a square table as a mathematical value.
pub open spec fn flags(v: Seq<Vec<bool>>) -> Seq<Seq<bool>> {
    v.map_values(|r: Vec<bool>| r@)
}

fn count_support(usable: &Vec<Vec<bool>>, cand: usize) -> (r: usize)
    requires
        cand < usable@.len(),
        forall|i: int| 0 <= i < usable@.len() ==> (#[trigger] usable@[i])@.len() == usable@.len(),
    ensures
        r as nat == support(flags(usable@), cand as int, usable@.len() as int),
{
    let ghost f = flags(usable@);
    let mut n: usize = 0;
    let mut i: usize = 0;
    while i < usable.len()
        invariant
            f == flags(usable@),
            cand < usable@.len(),
            forall|k: int|
                0 <= k < usable@.len() ==> (#[trigger] usable@[k])@.len() == usable@.len(),
            i <= usable@.len(),
            n <= i,
            n as nat == support(f, cand as int, i as int),
        decreases usable@.len() - i,
    {
        assert(f[i as int] == usable@[i as int]@);
        if i != cand && usable[i][cand] {
            n = n + 1;
        }
        i = i + 1;
    }
    n
}

/// Elects the reference receiver of a group, as a place in its member list. The
/// receivers of one group heard the same transmission, so they are neighbors; the
/// member that most others can be read against becomes the reference.
pub fn elect_reference(usable: &Vec<Vec<bool>>) -> (r: usize)
    requires
        usable@.len() > 0,
        forall|i: int| 0 <= i < usable@.len() ==> (#[trigger] usable@[i])@.len() == usable@.len(),
    ensures
        r < usable@.len(),
        r as int == reference_of(
            flags(usable@),
            usable@.len() as int,
            usable@.len() as int,
        ),
{
    let mut best: usize = 0;
    let mut best_n: usize = count_support(usable, 0);
    let mut j: usize = 1;
    while j < usable.len()
        invariant
            1 <= j <= usable@.len(),
            best < j,
            forall|k: int|
                0 <= k < usable@.len() ==> (#[trigger] usable@[k])@.len() == usable@.len(),
            best as int == reference_of(flags(usable@), usable@.len() as int, j as int),
            best_n as nat == support(flags(usable@), best as int, usable@.len() as int),
        decreases usable@.len() - j,
    {
        let n: usize = count_support(usable, j);
        if n >= best_n {
            best = j;
            best_n = n;
        }
        j = j + 1;
    }
    best
}

/// No member has more support than the elected reference.
pub proof fn law_reference_is_best_supported(usable: Seq<Seq<bool>>, all: int, n: int, cand: int)
    requires
        0 <= cand < n,
    ensures
        0 <= reference_of(usable, all, n) < n,
        support(usable, cand, all) <= support(usable, reference_of(usable, all, n), all),
    decreases n,
{
    if n > 1 {
        if cand < n - 1 {
            law_reference_is_best_supported(usable, all, n - 1, cand);
        } else {
            law_reference_is_best_supported(usable, all, n - 1, 0);
        }
    }
}

/// A time in the reference clock and its uncertainty.
#[derive(Debug, Clone, Copy, PartialEq, Eq, Structural)]
pub struct Stamp {
    pub t_s: Reading,
    pub sigma_s: Reading,
}

/// The detour with the least uncertainty among the first `n`; the first among
/// equals.
pub open spec fn best_hop(hops: Seq<Stamp>, n: int) -> Option<Stamp>
    decreases n,
{
    if n <= 0 {
        None
    } else {
        match best_hop(hops, n - 1) {
            None => Some(hops[n - 1]),
            Some(b) => if hops[n - 1].sigma_s.below(b.sigma_s) {
                Some(hops[n - 1])
            } else {
                Some(b)
            },
        }
    }
}

/// The larger of two uncertainties; one that is no number counts as absent.
pub open spec fn larger(a: Reading, b: Reading) -> Reading {
    if a.is_nan() {
        b
    } else if b.is_nan() {
        a
    } else if a.below(b) {
        b
    } else {
        a
    }
}

/// How an arrival is read in the reference clock: directly, else by the best
/// detour through another member; never with less uncertainty than the receiver's
/// own jitter. `None` where no way leads there.
pub open spec fn routed(direct: Option<Stamp>, hops: Seq<Stamp>, jitter: Reading) -> Option<
    Stamp,
> {
    let way = match direct {
        Some(d) => Some(d),
        None => best_hop(hops, hops.len() as int),
    };
    match way {
        Some(w) => Some(Stamp { t_s: w.t_s, sigma_s: larger(w.sigma_s, jitter) }),
        None => None,
    }
}

fn larger_of(a: Reading, b: Reading) -> (r: Reading)
    ensures
        r == larger(a, b),
{
    if !a.le(a) {
        b
    } else if !b.le(b) {
        a
    } else if a.lt(b) {
        b
    } else {
        a
    }
}

/// Chooses how an arrival is read in the reference clock; see `routed`.
pub fn choose_route(direct: Option<Stamp>, hops: &Vec<Stamp>, jitter: Reading) -> (r: Option<Stamp>)
    ensures
        r == routed(direct, hops@, jitter),
{
    let mut way: Option<Stamp> = direct;
    if way.is_none() {
        let mut i: usize = 0;
        while i < hops.len()
            invariant
                i <= hops@.len(),
                way == best_hop(hops@, i as int),
            decreases hops@.len() - i,
        {
            let h = hops[i];
            match way {
                None => {
                    way = Some(h);
                },
                Some(b) => {
                    if h.sigma_s.lt(b.sigma_s) {
                        way = Some(h);
                    }
                },
            }
            i = i + 1;
        }
    }
    match way {
        Some(w) => Some(Stamp { t_s: w.t_s, sigma_s: larger_of(w.sigma_s, jitter) }),
        None => None,
    }
}

/// An arrival in the reference clock.
#[derive(Debug, Clone, Copy, PartialEq, Eq, Structural)]
pub struct Timed {
    pub rx: usize,
    pub t_s: Reading,
    pub sigma_s: Reading,
    pub at_scaled: Reading,
}

/// The ways of an arrival into the reference clock.
#[derive(Debug)]
pub struct Ways {
    pub direct: Option<Stamp>,
    pub hops: Vec<Stamp>,
}

/// An arrival in the reference clock. The reference's own arrivals are there already,
/// with its jitter as uncertainty. `None` where no way leads there.
pub open spec fn arrival_timed(
    a: Arrival,
    reference: usize,
    w: Ways,
    slots: Seq<crate::server::receivers::Slot>,
) -> Option<Timed> {
    if a.rx >= slots.len() {
        None
    } else {
        let jitter = slots[a.rx as int].site.jitter_s;
        let direct = if a.rx == reference {
            Some(Stamp { t_s: a.t_s, sigma_s: jitter })
        } else {
            w.direct
        };
        match routed(direct, w.hops@, jitter) {
            Some(s) => Some(
                Timed { rx: a.rx, t_s: s.t_s, sigma_s: s.sigma_s, at_scaled: a.at_scaled },
            ),
            None => None,
        }
    }
}

/// The arrivals that a way leads to, in the reference clock.
pub open spec fn arrivals_timed(
    e: Seq<Arrival>,
    reference: usize,
    w: Seq<Ways>,
    slots: Seq<crate::server::receivers::Slot>,
) -> Seq<Timed>
    decreases e.len(),
{
    if e.len() == 0 {
        seq![]
    } else {
        let rest = arrivals_timed(e.drop_last(), reference, w, slots);
        match arrival_timed(e.last(), reference, w[e.len() - 1], slots) {
            Some(t) => rest.push(t),
            None => rest,
        }
    }
}

/// Reads the arrivals of a group in the reference clock and puts them in order of
/// time; `None` where too few can be read.
pub fn time_arrivals(
    e: &Vec<Arrival>,
    reference: usize,
    ways: &Vec<Ways>,
    receivers: &Receivers,
) -> (r: Option<Vec<Timed>>)
    requires
        ways@.len() == e@.len(),
    ensures
        ({
            let t = arrivals_timed(e@, reference, ways@, receivers@.slots);
            match r {
                Some(v) => v@ == in_time_order(t) && t.len() >= MIN_RECEIVERS,
                None => t.len() < MIN_RECEIVERS,
            }
        }),
{
    let ghost slots = receivers@.slots;
    let mut out: Vec<Timed> = Vec::new();
    let mut i: usize = 0;
    while i < e.len()
        invariant
            ways@.len() == e@.len(),
            slots == receivers@.slots,
            i <= e@.len(),
            out@ == arrivals_timed(e@.take(i as int), reference, ways@, slots),
        decreases e@.len() - i,
    {
        assert(e@.take(i + 1).drop_last() =~= e@.take(i as int));
        assert(e@.take(i + 1).last() == e@[i as int]);
        let a = e[i];
        if a.rx < receivers.len() {
            let jitter = receivers.site(a.rx).jitter_s;
            let direct = if a.rx == reference {
                Some(Stamp { t_s: a.t_s, sigma_s: jitter })
            } else {
                ways[i].direct
            };
            if let Some(s) = choose_route(direct, &ways[i].hops, jitter) {
                out.push(
                    Timed { rx: a.rx, t_s: s.t_s, sigma_s: s.sigma_s, at_scaled: a.at_scaled },
                );
            }
        }
        i = i + 1;
    }
    assert(e@.take(e@.len() as int) =~= e@);
    if out.len() < MIN_RECEIVERS {
        None
    } else {
        Some(order_by_time(&out))
    }
}

/// The place behind the last of the first `n` items that is not later than `x`.
pub open spec fn insert_place(s: Seq<Timed>, x: Timed, n: int) -> int
    decreases n,
{
    if n <= 0 {
        0
    } else if s[n - 1].t_s.total_rank() <= x.t_s.total_rank() {
        n
    } else {
        insert_place(s, x, n - 1)
    }
}

/// The arrivals in order of time; equal times keep their order.
pub open spec fn in_time_order(s: Seq<Timed>) -> Seq<Timed>
    decreases s.len(),
{
    if s.len() == 0 {
        seq![]
    } else {
        let rest = in_time_order(s.drop_last());
        rest.insert(insert_place(rest, s.last(), rest.len() as int), s.last())
    }
}

proof fn lemma_insert_place(s: Seq<Timed>, x: Timed, n: int)
    requires
        0 <= n <= s.len(),
    ensures
        0 <= insert_place(s, x, n) <= n,
        forall|k: int|
            insert_place(s, x, n) <= k < n ==> (#[trigger] s[k]).t_s.total_rank()
                > x.t_s.total_rank(),
        insert_place(s, x, n) > 0 ==> s[insert_place(s, x, n) - 1].t_s.total_rank()
            <= x.t_s.total_rank(),
    decreases n,
{
    if n > 0 && s[n - 1].t_s.total_rank() > x.t_s.total_rank() {
        lemma_insert_place(s, x, n - 1);
    }
}

/// Ordering by time loses and invents nothing, and the result is in order.
pub proof fn law_time_order(s: Seq<Timed>)
    ensures
        in_time_order(s).to_multiset() == s.to_multiset(),
        in_time_order(s).len() == s.len(),
        forall|i: int, j: int|
            0 <= i <= j < s.len() ==> (#[trigger] in_time_order(s)[i]).t_s.total_rank() <= (
            #[trigger] in_time_order(s)[j]).t_s.total_rank(),
    decreases s.len(),
{
    if s.len() == 0 {
        assert(in_time_order(s) =~= s);
    } else {
        let rest = in_time_order(s.drop_last());
        let x = s.last();
        law_time_order(s.drop_last());
        lemma_insert_place(rest, x, rest.len() as int);
        let p = insert_place(rest, x, rest.len() as int);
        let out = rest.insert(p, x);
        vstd::seq_lib::to_multiset_insert(rest, p, x);
        assert(s =~= s.drop_last().push(x));
        vstd::seq_lib::to_multiset_build(s.drop_last(), x);
        assert forall|i: int, j: int| 0 <= i <= j < s.len() implies (
        #[trigger] out[i]).t_s.total_rank() <= (#[trigger] out[j]).t_s.total_rank() by {
            if j < p {
                assert(out[i] == rest[i] && out[j] == rest[j]);
            } else if j == p {
                if i < p {
                    assert(out[i] == rest[i]);
                    assert(rest[i].t_s.total_rank() <= rest[p - 1].t_s.total_rank());
                }
            } else {
                assert(out[j] == rest[j - 1]);
                assert(rest[j - 1].t_s.total_rank() > x.t_s.total_rank());
                if i < p {
                    assert(out[i] == rest[i]);
                } else if i > p {
                    assert(out[i] == rest[i - 1]);
                }
            }
        }
    }
}

/// Orders arrivals by time; see `in_time_order`.
pub fn order_by_time(s: &Vec<Timed>) -> (r: Vec<Timed>)
    ensures
        r@ == in_time_order(s@),
{
    let mut out: Vec<Timed> = Vec::new();
    let mut i: usize = 0;
    while i < s.len()
        invariant
            i <= s@.len(),
            out@ == in_time_order(s@.take(i as int)),
        decreases s@.len() - i,
    {
        assert(s@.take(i + 1).drop_last() =~= s@.take(i as int));
        assert(s@.take(i + 1).last() == s@[i as int]);
        let x = s[i];
        let key: i64 = x.t_s.total_key();
        let mut p: usize = out.len();
        while p > 0 && out[p - 1].t_s.total_key() > key
            invariant
                p <= out@.len(),
                key == x.t_s.total_rank(),
                insert_place(out@, x, out@.len() as int) == insert_place(out@, x, p as int),
            decreases p,
        {
            p = p - 1;
        }
        out.insert(p, x);
        i = i + 1;
    }
    assert(s@.take(s@.len() as int) =~= s@);
    out
}

/// What an arrival does to the open cluster, which starts at `first`: one that is near
/// joins it; another closes it and opens the next. The closed cluster, if any, and the
/// first arrival of the open one.
pub open spec fn cut_step(first: int, upcoming: int, near: bool) -> (Option<(int, int)>, int) {
    if near {
        (None, first)
    } else {
        (Some((first, upcoming)), upcoming)
    }
}

/// The clusters closed after a run of arrivals behind the first, and the first arrival
/// of the open one; `near` says of each whether it was near.
pub open spec fn cuts(near: Seq<bool>) -> (Seq<(int, int)>, int)
    decreases near.len(),
{
    if near.len() == 0 {
        (seq![], 0)
    } else {
        let r = cuts(near.drop_last());
        let s = cut_step(r.1, near.len() as int, near.last());
        match s.0 {
            Some(c) => (r.0.push(c), s.1),
            None => (r.0, s.1),
        }
    }
}

/// Every arrival is in one cluster: clusters are not empty, the first starts with the
/// first arrival, each starts where the one before it ends, and the open one starts
/// where the last closed one ends and holds the last arrival.
pub proof fn law_clusters_partition(near: Seq<bool>)
    ensures
        ({
            let c = cuts(near).0;
            let open = cuts(near).1;
            &&& 0 <= open <= near.len()
            &&& c.len() == 0 ==> open == 0
            &&& c.len() > 0 ==> c[0].0 == 0 && c[c.len() - 1].1 == open
            &&& forall|i: int| 0 <= i < c.len() ==> (#[trigger] c[i]).0 < c[i].1
            &&& forall|i: int, j: int|
                0 <= i && j == i + 1 && j < c.len() ==> (#[trigger] c[i]).1 == (#[trigger] c[j]).0
        }),
    decreases near.len(),
{
    if near.len() > 0 {
        law_clusters_partition(near.drop_last());
    }
}

/// Cuts ordered arrivals into clusters. The caller measures the time from the
/// first arrival of the open cluster to the next arrival and hands it in.
#[derive(Debug)]
pub struct ClusterCursor {
    start: usize,
    next: usize,
    len: usize,
}

impl ClusterCursor {
    /// The first arrival of the open cluster.
    pub closed spec fn first(&self) -> int {
        self.start as int
    }

    /// The arrival to measure next.
    pub closed spec fn upcoming(&self) -> int {
        self.next as int
    }

    pub closed spec fn total(&self) -> int {
        self.len as int
    }

    pub open spec fn wf(&self) -> bool {
        if self.total() == 0 {
            self.first() == 0 && self.upcoming() == 0
        } else {
            0 <= self.first() < self.upcoming() <= self.total()
        }
    }

    pub fn new(len: usize) -> (r: Self)
        ensures
            r.wf(),
            r.total() == len,
            r.first() == 0,
            r.upcoming() == (if len == 0 {
                0int
            } else {
                1
            }),
    {
        ClusterCursor {
            start: 0,
            next: if len == 0 {
                0
            } else {
                1
            },
            len,
        }
    }

    /// The two arrivals whose distance in time is asked for: the first of the open
    /// cluster and the next one. `None` when all are cut.
    pub fn question(&self) -> (r: Option<(usize, usize)>)
        requires
            self.wf(),
        ensures
            match r {
                Some(q) => q.0 as int == self.first() && q.1 as int == self.upcoming()
                    && self.upcoming() < self.total(),
                None => self.upcoming() >= self.total(),
            },
    {
        if self.next < self.len {
            Some((self.start, self.next))
        } else {
            None
        }
    }

    /// Takes the distance asked for. An arrival within the span joins the open
    /// cluster; one beyond it closes the cluster, which is returned as a range, and
    /// opens the next.
    pub fn answer(&mut self, span: Reading) -> (r: Option<(usize, usize)>)
        requires
            old(self).wf(),
            old(self).upcoming() < old(self).total(),
        ensures
            final(self).wf(),
            final(self).total() == old(self).total(),
            final(self).upcoming() == old(self).upcoming() + 1,
            ({
                let near = span.at_most(Reading(CLUSTER_SPAN_S));
                let s = cut_step(old(self).first(), old(self).upcoming(), near);
                &&& final(self).first() == s.1
                &&& match r {
                    Some(c) => s.0 == Some((c.0 as int, c.1 as int)),
                    None => s.0 is None,
                }
            }),
    {
        let closed: Option<(usize, usize)> = if span.le(Reading(CLUSTER_SPAN_S)) {
            None
        } else {
            let c: (usize, usize) = (self.start, self.next);
            self.start = self.next;
            Some(c)
        };
        self.next = self.next + 1;
        closed
    }

    /// The cluster that is open when all arrivals are cut.
    pub fn last(&self) -> (r: Option<(usize, usize)>)
        requires
            self.wf(),
            self.upcoming() == self.total(),
        ensures
            match r {
                Some(c) => c.0 as int == self.first() && c.1 as int == self.total()
                    && self.total() > 0,
                None => self.total() == 0,
            },
    {
        if self.len == 0 {
            None
        } else {
            Some((self.start, self.len))
        }
    }
}

/// A receiver's learned scatter keeps it out of solves.
pub open spec fn quarantined(b: crate::server::receivers::RxBias) -> bool {
    b.n >= QUARANTINE_MIN_N && Reading(QUARANTINE_MAD_S).below(b.mad_s)
}

/// Whether a receiver's scatter keeps it out of solves; see `quarantined`.
pub fn is_quarantined(b: RxBias) -> (r: bool)
    ensures
        r == quarantined(b),
{
    b.n >= QUARANTINE_MIN_N && b.mad_s.gt(Reading(QUARANTINE_MAD_S))
}

/// Arrival `i` of a cluster is an observation: the receiver's earliest in it, and
/// the receiver is there and not quarantined.
pub open spec fn is_observation(
    c: Seq<Timed>,
    slots: Seq<crate::server::receivers::Slot>,
    i: int,
) -> bool {
    &&& forall|k: int| 0 <= k < i ==> (#[trigger] c[k]).rx != c[i].rx
    &&& c[i].rx < slots.len()
    &&& slots[c[i].rx as int].alive
    &&& !quarantined(slots[c[i].rx as int].bias)
}

/// The observations among the first `n` arrivals of a cluster, as places in it.
pub open spec fn observations_of(
    c: Seq<Timed>,
    slots: Seq<crate::server::receivers::Slot>,
    n: int,
) -> Seq<usize>
    decreases n,
{
    if n <= 0 {
        seq![]
    } else {
        let rest = observations_of(c, slots, n - 1);
        if is_observation(c, slots, n - 1) {
            rest.push((n - 1) as usize)
        } else {
            rest
        }
    }
}

/// Picks the observations of a cluster; see `is_observation`.
pub fn observations(c: &[Timed], receivers: &Receivers) -> (r: Vec<usize>)
    ensures
        r@ == observations_of(c@, receivers@.slots, c@.len() as int),
{
    let mut out: Vec<usize> = Vec::new();
    let mut i: usize = 0;
    while i < c.len()
        invariant
            i <= c@.len(),
            out@ == observations_of(c@, receivers@.slots, i as int),
        decreases c@.len() - i,
    {
        let rx: usize = c[i].rx;
        let mut first: bool = true;
        let mut k: usize = 0;
        while k < i
            invariant
                k <= i < c@.len(),
                rx == c@[i as int].rx,
                first <==> (forall|m: int| 0 <= m < k ==> (#[trigger] c@[m]).rx != rx),
            decreases i - k,
        {
            if c[k].rx == rx {
                first = false;
            }
            k = k + 1;
        }
        if first && receivers.alive(rx) {
            if !is_quarantined(receivers.bias(rx)) {
                out.push(i);
            }
        }
        i = i + 1;
    }
    out
}

/// The observations that a cluster is solved from; `None` where they are too few.
pub fn solvable(c: &[Timed], receivers: &Receivers) -> (r: Option<Vec<usize>>)
    ensures
        ({
            let o = observations_of(c@, receivers@.slots, c@.len() as int);
            match r {
                Some(v) => v@ == o && o.len() >= MIN_RECEIVERS,
                None => o.len() < MIN_RECEIVERS,
            }
        }),
{
    let o = observations(c, receivers);
    if o.len() < MIN_RECEIVERS {
        None
    } else {
        Some(o)
    }
}

/// How many of the first `n` items come before item `i`: by rank, then by place.
pub open spec fn ahead(keys: Seq<Reading>, i: int, n: int) -> nat
    decreases n,
{
    if n <= 0 {
        0
    } else {
        let j = n - 1;
        let before = keys[j].total_rank() < keys[i].total_rank() || (keys[j].total_rank()
            == keys[i].total_rank() && j < i);
        ahead(keys, i, n - 1) + (if before {
            1nat
        } else {
            0
        })
    }
}

/// The places among the first `n` whose item is one of the `cap` most precise.
pub open spec fn most_precise(keys: Seq<Reading>, cap: nat, n: int) -> Seq<usize>
    decreases n,
{
    if n <= 0 {
        seq![]
    } else {
        let rest = most_precise(keys, cap, n - 1);
        if ahead(keys, n - 1, keys.len() as int) < cap {
            rest.push((n - 1) as usize)
        } else {
            rest
        }
    }
}

/// Caps the size of a solve: the places of the most precise observations, in
/// their order. `keys` are the uncertainties.
pub fn cap_observations(keys: &Vec<Reading>) -> (r: Vec<usize>)
    ensures
        r@ == most_precise(keys@, MAX_OBSERVATIONS as nat, keys@.len() as int),
{
    let mut out: Vec<usize> = Vec::new();
    let mut i: usize = 0;
    while i < keys.len()
        invariant
            i <= keys@.len(),
            out@ == most_precise(keys@, MAX_OBSERVATIONS as nat, i as int),
        decreases keys@.len() - i,
    {
        let key: i64 = keys[i].total_key();
        let mut n: usize = 0;
        let mut j: usize = 0;
        while j < keys.len()
            invariant
                i < keys@.len(),
                j <= keys@.len(),
                n <= j,
                key == keys@[i as int].total_rank(),
                n as nat == ahead(keys@, i as int, j as int),
            decreases keys@.len() - j,
        {
            let other: i64 = keys[j].total_key();
            if other < key || (other == key && j < i) {
                n = n + 1;
            }
            j = j + 1;
        }
        if n < MAX_OBSERVATIONS {
            out.push(i);
        }
        i = i + 1;
    }
    out
}

/// Item `j` comes before item `i`: by rank, then by place.
pub open spec fn precedes(keys: Seq<Reading>, j: int, i: int) -> bool {
    keys[j].total_rank() < keys[i].total_rank() || (keys[j].total_rank() == keys[i].total_rank()
        && j < i)
}

proof fn lemma_ahead_monotone(keys: Seq<Reading>, j: int, i: int, n: int)
    requires
        precedes(keys, j, i),
    ensures
        ahead(keys, j, n) <= ahead(keys, i, n),
        0 <= j < n ==> ahead(keys, j, n) < ahead(keys, i, n),
        ahead(keys, i, n) <= (if n > 0 {
            n
        } else {
            0
        }),
    decreases n,
{
    if n > 0 {
        lemma_ahead_monotone(keys, j, i, n - 1);
    }
}

proof fn lemma_ahead_bound(keys: Seq<Reading>, i: int, n: int)
    requires
        0 <= n,
    ensures
        ahead(keys, i, n) <= n,
        0 <= i < n ==> ahead(keys, i, n) < n,
    decreases n,
{
    if n > 0 {
        lemma_ahead_bound(keys, i, n - 1);
    }
}

/// The cap keeps the most precise observations: whatever is kept comes before
/// whatever is dropped.
pub proof fn law_cap_keeps_the_most_precise(keys: Seq<Reading>, cap: nat, i: int, j: int)
    requires
        0 <= i < keys.len(),
        0 <= j < keys.len(),
        ahead(keys, i, keys.len() as int) < cap,
        ahead(keys, j, keys.len() as int) >= cap,
    ensures
        precedes(keys, i, j),
{
    if !precedes(keys, i, j) {
        if i == j {
        } else {
            lemma_ahead_monotone(keys, j, i, keys.len() as int);
        }
    }
}

/// The places of the kept items as a set.
spec fn kept_places(keys: Seq<Reading>, cap: nat, n: int) -> Set<int> {
    vstd::set_lib::set_int_range(0, n).filter(|i: int| ahead(keys, i, keys.len() as int) < cap)
}

proof fn lemma_most_precise_len(keys: Seq<Reading>, cap: nat, n: int)
    requires
        0 <= n <= keys.len(),
    ensures
        most_precise(keys, cap, n).len() == kept_places(keys, cap, n).len(),
        kept_places(keys, cap, n).finite(),
    decreases n,
{
    vstd::set_lib::lemma_int_range(0, n);
    let k = kept_places(keys, cap, n);
    if n == 0 {
        assert(k =~= Set::empty());
    } else {
        lemma_most_precise_len(keys, cap, n - 1);
        let k0 = kept_places(keys, cap, n - 1);
        if ahead(keys, n - 1, keys.len() as int) < cap {
            assert(k =~= k0.insert(n - 1));
        } else {
            assert(k =~= k0);
        }
    }
}

/// The cap keeps all observations, or exactly as many as it allows.
pub proof fn law_cap_keeps_as_many_as_allowed(keys: Seq<Reading>, cap: nat)
    ensures
        most_precise(keys, cap, keys.len() as int).len() == (if keys.len() < cap {
            keys.len()
        } else {
            cap
        }),
{
    let n = keys.len() as int;
    let f = |i: int| ahead(keys, i, n) as int;
    let all = vstd::set_lib::set_int_range(0, n);
    vstd::set_lib::lemma_int_range(0, n);
    lemma_most_precise_len(keys, cap, n);
    let k = kept_places(keys, cap, n);
    assert forall|i: int, j: int|
        all.contains(i) && all.contains(j) && #[trigger] f(i) == #[trigger] f(j) implies i == j by {
        if i != j {
            if precedes(keys, i, j) {
                lemma_ahead_monotone(keys, i, j, n);
            } else {
                lemma_ahead_monotone(keys, j, i, n);
            }
        }
    }
    let image = all.map(f);
    vstd::set_lib::lemma_map_size(all, image, f);
    assert(image.subset_of(all)) by {
        assert forall|v: int| image.contains(v) implies all.contains(v) by {
            let i = choose|i: int| all.contains(i) && f(i) == v;
            lemma_ahead_bound(keys, i, n);
        }
    }
    vstd::set_lib::lemma_subset_equality(image, all);
    let m = if n < cap {
        n
    } else {
        cap as int
    };
    let low = vstd::set_lib::set_int_range(0, m);
    vstd::set_lib::lemma_int_range(0, m);
    let k_image = k.map(f);
    assert(k_image =~= low) by {
        assert forall|v: int| low.contains(v) implies k_image.contains(v) by {
            assert(all.contains(v));
            assert(image.contains(v));
            let i = choose|i: int| all.contains(i) && f(i) == v;
            assert(k.contains(i));
            assert(f(i) == v);
        }
        assert forall|v: int| k_image.contains(v) implies low.contains(v) by {
            let i = choose|i: int| k.contains(i) && f(i) == v;
            lemma_ahead_bound(keys, i, n);
        }
    }
    assert forall|i: int, j: int|
        k.contains(i) && k.contains(j) && #[trigger] f(i) == #[trigger] f(j) implies i == j by {
        assert(all.contains(i) && all.contains(j));
    }
    vstd::set_lib::lemma_map_size(k, k_image, f);
}

// --------------------------------------------------------- what clusters keep

/// The members of a group are the receivers that it has arrivals of, each once. Arrivals
/// that come later change nothing of those that are listed.
pub proof fn law_members_are_the_receivers(e: Seq<Arrival>, rx: usize, n: int)
    requires
        0 <= n <= e.len(),
    ensures
        members_of(e).no_duplicates(),
        members_of(e).contains(rx) <==> exists|i: int| 0 <= i < e.len() && (#[trigger] e[i]).rx == rx,
        members_of(e.take(n)).len() <= members_of(e).len(),
        members_of(e).take(members_of(e.take(n)).len() as int) == members_of(e.take(n)),
    decreases e.len(),
{
    if e.len() > 0 {
        let r = e.drop_last();
        let (m, m0) = (members_of(e), members_of(r));
        if n < e.len() {
            law_members_are_the_receivers(r, rx, n);
            assert(r.take(n) =~= e.take(n));
            assert(m.take(m0.len() as int) =~= m0);
            assert(m.take(members_of(e.take(n)).len() as int) =~= m0.take(
                members_of(e.take(n)).len() as int,
            ));
        } else {
            law_members_are_the_receivers(r, rx, 0);
            assert(e.take(n) =~= e);
            assert(m.take(m.len() as int) =~= m);
        }
        if m0.contains(rx) {
            let i = choose|i: int| 0 <= i < m0.len() && m0[i] == rx;
            assert(m[i] == rx);
            let k = choose|k: int| 0 <= k < r.len() && (#[trigger] r[k]).rx == rx;
            assert(e[k].rx == rx);
        }
        if e.last().rx == rx {
            assert(e[e.len() - 1].rx == rx);
            if !m0.contains(rx) {
                assert(m[m0.len() as int] == rx);
            }
        }
        if m.contains(rx) && e.last().rx != rx {
            let i = choose|i: int| 0 <= i < m.len() && m[i] == rx;
            assert(m0[i] == rx);
            assert(m0.contains(rx));
        }
        if exists|i: int| 0 <= i < e.len() && (#[trigger] e[i]).rx == rx {
            let i = choose|i: int| 0 <= i < e.len() && (#[trigger] e[i]).rx == rx;
            if i < r.len() {
                assert(r[i].rx == rx);
            }
        }
        assert(m.no_duplicates()) by {
            assert forall|i: int, j: int| 0 <= i < j < m.len() implies m[i] != m[j] by {
                if j < m0.len() {
                    assert(m0[i] != m0[j]);
                } else {
                    assert(m0[i] == m[i]);
                    assert(!m0.contains(e.last().rx));
                }
            }
        }
    }
}

/// The members to go through are all the others but the two ends, in their order.
pub proof fn law_detours_are_the_others(m: Seq<usize>, rx: usize, reference: usize, x: usize)
    ensures
        between(m, rx, reference).contains(x) <==> m.contains(x) && x != rx && x != reference,
        m.no_duplicates() ==> between(m, rx, reference).no_duplicates(),
        !m.contains(rx) && !m.contains(reference) ==> between(m, rx, reference) == m,
    decreases m.len(),
{
    if m.len() > 0 {
        let r = m.drop_last();
        law_detours_are_the_others(r, rx, reference, x);
        law_detours_are_the_others(r, rx, reference, m.last());
        let (b, b0) = (between(m, rx, reference), between(r, rx, reference));
        assert(r.push(m.last()) =~= m);
        lemma_push_contains(r, m.last(), x);
        lemma_push_contains(r, m.last(), rx);
        lemma_push_contains(r, m.last(), reference);
        lemma_push_contains(b0, m.last(), x);
        if m.no_duplicates() {
            assert(!r.contains(m.last())) by {
                if r.contains(m.last()) {
                    let i = choose|i: int| 0 <= i < r.len() && r[i] == m.last();
                    assert(m[i] == m[m.len() - 1]);
                }
            }
            assert forall|i: int, j: int| 0 <= i < j < r.len() implies r[i] != r[j] by {
                assert(m[i] != m[j]);
            }
            assert forall|i: int, j: int| 0 <= i < j < b.len() implies b[i] != b[j] by {
                if j < b0.len() {
                    assert(b0[i] != b0[j]);
                } else {
                    assert(b0.contains(b0[i]));
                }
            }
        }
    } else {
        assert(between(m, rx, reference) =~= m);
    }
}

proof fn lemma_push_contains<A>(s: Seq<A>, x: A, y: A)
    ensures
        s.push(x).contains(y) <==> s.contains(y) || y == x,
{
    let t = s.push(x);
    if s.contains(y) {
        let i = choose|i: int| 0 <= i < s.len() && s[i] == y;
        assert(t[i] == y);
    }
    assert(t[s.len() as int] == x);
    if t.contains(y) {
        let i = choose|i: int| 0 <= i < t.len() && t[i] == y;
        if i < s.len() {
            assert(s[i] == y);
        }
    }
}

/// The members among the first `n` whose clock can be read in that of `cand`.
pub open spec fn supporters(usable: Seq<Seq<bool>>, cand: int, n: int) -> Set<int> {
    vstd::set_lib::set_int_range(0, n).filter(|i: int| i != cand && usable[i][cand])
}

/// The support of a member is the number of others that can be read against it.
pub proof fn law_support_counts_supporters(usable: Seq<Seq<bool>>, cand: int, n: int)
    requires
        0 <= n,
    ensures
        supporters(usable, cand, n).finite(),
        support(usable, cand, n) == supporters(usable, cand, n).len(),
    decreases n,
{
    vstd::set_lib::lemma_int_range(0, n);
    if n > 0 {
        law_support_counts_supporters(usable, cand, n - 1);
        let (s, s0) = (supporters(usable, cand, n), supporters(usable, cand, n - 1));
        if n - 1 != cand && usable[n - 1][cand] {
            assert(s =~= s0.insert(n - 1));
        } else {
            assert(s =~= s0);
        }
    } else {
        assert(supporters(usable, cand, n) =~= Set::empty());
    }
}

/// Of members with equal support the last is the reference: whoever stands behind it has
/// less.
pub proof fn law_last_of_equals_is_reference(usable: Seq<Seq<bool>>, all: int, n: int, cand: int)
    requires
        reference_of(usable, all, n) < cand < n,
    ensures
        support(usable, cand, all) < support(usable, reference_of(usable, all, n), all),
    decreases n,
{
    if n > 1 {
        if cand < n - 1 && support(usable, n - 1, all) < support(
            usable,
            reference_of(usable, all, n - 1),
            all,
        ) {
            law_last_of_equals_is_reference(usable, all, n - 1, cand);
        }
    } else {
        assert(false);
    }
}

/// The detour that is taken is one of those there are, none is less uncertain, and of
/// equals it is the first.
pub proof fn law_best_hop_is_best(hops: Seq<Stamp>, n: int) -> (k: int)
    requires
        0 < n <= hops.len(),
        forall|i: int| 0 <= i < hops.len() ==> !(#[trigger] hops[i]).sigma_s.is_nan(),
    ensures
        0 <= k < n,
        best_hop(hops, n) == Some(hops[k]),
        forall|i: int|
            0 <= i < n ==> hops[k].sigma_s.rank() <= (#[trigger] hops[i]).sigma_s.rank(),
        forall|i: int|
            0 <= i < k ==> hops[k].sigma_s.rank() < (#[trigger] hops[i]).sigma_s.rank(),
    decreases n,
{
    if n == 1 {
        reveal_with_fuel(best_hop, 2);
        0
    } else {
        let k = law_best_hop_is_best(hops, n - 1);
        if hops[n - 1].sigma_s.below(hops[k].sigma_s) {
            n - 1
        } else {
            k
        }
    }
}

/// An arrival is read directly where that is possible, and otherwise by a detour; what it
/// is read as is never more certain than the way or the receiver's own jitter.
pub proof fn law_route_is_honest(direct: Option<Stamp>, hops: Seq<Stamp>, jitter: Reading)
    requires
        forall|i: int| 0 <= i < hops.len() ==> !(#[trigger] hops[i]).sigma_s.is_nan(),
        direct matches Some(d) ==> !d.sigma_s.is_nan(),
        !jitter.is_nan(),
    ensures
        routed(direct, hops, jitter) is None <==> direct is None && hops.len() == 0,
        routed(direct, hops, jitter) matches Some(w) ==> {
            &&& jitter.at_most(w.sigma_s)
            &&& direct matches Some(d) ==> w.t_s == d.t_s && d.sigma_s.at_most(w.sigma_s)
            &&& direct is None ==> exists|i: int|
                0 <= i < hops.len() && w.t_s == (#[trigger] hops[i]).t_s
                    && hops[i].sigma_s.at_most(w.sigma_s)
        },
{
    if direct is None && hops.len() > 0 {
        let k = law_best_hop_is_best(hops, hops.len() as int);
        assert(hops[k].sigma_s.at_most(routed(direct, hops, jitter)->0.sigma_s));
    }
}

/// How many of the first `n` arrivals can be read in the reference clock.
pub open spec fn readable(
    e: Seq<Arrival>,
    reference: usize,
    w: Seq<Ways>,
    slots: Seq<crate::server::receivers::Slot>,
) -> Set<int> {
    vstd::set_lib::set_int_range(0, e.len() as int).filter(
        |i: int|
            e[i].rx < slots.len() && (e[i].rx == reference || w[i].direct is Some
                || w[i].hops@.len() > 0),
    )
}

/// Every arrival that some way leads from is read once, and no other: it stays its own
/// receiver's and keeps when it was heard by the output clock. The reference's own keep
/// their time.
pub proof fn law_every_readable_arrival_is_timed(
    e: Seq<Arrival>,
    reference: usize,
    w: Seq<Ways>,
    slots: Seq<crate::server::receivers::Slot>,
    i: int,
)
    requires
        w.len() >= e.len(),
        0 <= i < e.len(),
    ensures
        readable(e, reference, w, slots).finite(),
        arrivals_timed(e, reference, w, slots).len() == readable(e, reference, w, slots).len(),
        readable(e, reference, w, slots).contains(i) ==> exists|k: int|
            0 <= k < arrivals_timed(e, reference, w, slots).len() && {
                let t = #[trigger] arrivals_timed(e, reference, w, slots)[k];
                &&& t.rx == e[i].rx
                &&& t.at_scaled == e[i].at_scaled
                &&& e[i].rx == reference ==> t.t_s == e[i].t_s
                &&& e[i].rx != reference && w[i].direct is Some ==> t.t_s == w[i].direct->0.t_s
            },
    decreases e.len(),
{
    lemma_readable_count(e, reference, w, slots);
    if readable(e, reference, w, slots).contains(i) {
        lemma_readable_is_there(e, reference, w, slots, i);
    }
}

proof fn lemma_hop_there(hops: Seq<Stamp>, n: int)
    requires
        0 <= n <= hops.len(),
    ensures
        best_hop(hops, n) is Some <==> n > 0,
    decreases n,
{
    if n > 0 {
        lemma_hop_there(hops, n - 1);
    }
}

proof fn lemma_readable_count(
    e: Seq<Arrival>,
    reference: usize,
    w: Seq<Ways>,
    slots: Seq<crate::server::receivers::Slot>,
)
    requires
        w.len() >= e.len(),
    ensures
        readable(e, reference, w, slots).finite(),
        arrivals_timed(e, reference, w, slots).len() == readable(e, reference, w, slots).len(),
    decreases e.len(),
{
    let s = readable(e, reference, w, slots);
    vstd::set_lib::lemma_int_range(0, e.len() as int);
    if e.len() > 0 {
        let r = e.drop_last();
        let n = e.len() - 1;
        lemma_readable_count(r, reference, w, slots);
        lemma_hop_there(w[n].hops@, w[n].hops@.len() as int);
        let s0 = readable(r, reference, w, slots);
        assert forall|i: int| 0 <= i < n implies r[i] == e[i] by {}
        if arrival_timed(e.last(), reference, w[n], slots) is Some {
            assert(s =~= s0.insert(n));
        } else {
            assert(s =~= s0);
        }
    } else {
        assert(s =~= Set::empty());
    }
}

proof fn lemma_readable_is_there(
    e: Seq<Arrival>,
    reference: usize,
    w: Seq<Ways>,
    slots: Seq<crate::server::receivers::Slot>,
    i: int,
)
    requires
        w.len() >= e.len(),
        0 <= i < e.len(),
        readable(e, reference, w, slots).contains(i),
    ensures
        exists|k: int|
            0 <= k < arrivals_timed(e, reference, w, slots).len() && {
                let t = #[trigger] arrivals_timed(e, reference, w, slots)[k];
                &&& t.rx == e[i].rx
                &&& t.at_scaled == e[i].at_scaled
                &&& e[i].rx == reference ==> t.t_s == e[i].t_s
                &&& e[i].rx != reference && w[i].direct is Some ==> t.t_s == w[i].direct->0.t_s
            },
    decreases e.len(),
{
    let r = e.drop_last();
    let n = e.len() - 1;
    let all = arrivals_timed(e, reference, w, slots);
    let rest = arrivals_timed(r, reference, w, slots);
    lemma_hop_there(w[n].hops@, w[n].hops@.len() as int);
    if i == n {
        assert(all.len() == rest.len() + 1);
        let t = all[rest.len() as int];
        assert(t.rx == e[i].rx);
    } else {
        assert(r[i] == e[i]);
        assert(readable(r, reference, w, slots).contains(i));
        lemma_readable_is_there(r, reference, w, slots, i);
        let k = choose|k: int|
            0 <= k < rest.len() && {
                let t = #[trigger] rest[k];
                &&& t.rx == r[i].rx
                &&& t.at_scaled == r[i].at_scaled
                &&& r[i].rx == reference ==> t.t_s == r[i].t_s
                &&& r[i].rx != reference && w[i].direct is Some ==> t.t_s == w[i].direct->0.t_s
            };
        assert(all[k] == rest[k]);
    }
}

/// Where clusters are cut: the arrivals that open a cluster are the first of all and those
/// that were not near; all others stay with the one before them.
pub proof fn law_clusters_open_where_not_near(near: Seq<bool>, k: int)
    requires
        0 <= k < near.len(),
    ensures
        near[k] ==> cuts(near).1 != k + 1 && forall|i: int|
            0 <= i < cuts(near).0.len() ==> (#[trigger] cuts(near).0[i]).0 != k + 1,
        !near[k] ==> cuts(near).1 == k + 1 || exists|i: int|
            0 <= i < cuts(near).0.len() && (#[trigger] cuts(near).0[i]).0 == k + 1,
    decreases near.len(),
{
    let r = near.drop_last();
    let (c, c0) = (cuts(near).0, cuts(r).0);
    law_clusters_partition(r);
    law_clusters_partition(near);
    if k < r.len() {
        law_clusters_open_where_not_near(r, k);
        assert(near[k] == r[k]);
        if near[k] {
            assert forall|i: int| 0 <= i < c.len() implies (#[trigger] c[i]).0 != k + 1 by {
                if i < c0.len() {
                    assert(c[i] == c0[i]);
                }
            }
        } else if cuts(r).1 == k + 1 {
            if !near.last() {
                assert(c[c0.len() as int].0 == k + 1);
            }
        } else {
            let i = choose|i: int| 0 <= i < c0.len() && (#[trigger] c0[i]).0 == k + 1;
            assert(c[i].0 == k + 1);
        }
    } else if near[k] {
        assert forall|i: int| 0 <= i < c.len() implies (#[trigger] c[i]).0 != k + 1 by {
            assert(c[i] == c0[i]);
            lemma_cuts_inside(r, i);
        }
    }
}

proof fn lemma_cuts_inside(near: Seq<bool>, i: int)
    requires
        0 <= i < cuts(near).0.len(),
    ensures
        cuts(near).0[i].1 <= near.len(),
        cuts(near).0[i].0 < near.len(),
    decreases near.len(),
{
    let r = near.drop_last();
    law_clusters_partition(near);
    law_clusters_partition(r);
    assert(cuts(near).0[i].0 < cuts(near).0[i].1);
    if i < cuts(r).0.len() {
        lemma_cuts_inside(r, i);
    }
}

/// The observations of a cluster: no receiver is observed twice, none that left is, and
/// none whose scatter keeps it out. Every other receiver of the cluster is observed, by
/// its first arrival.
pub proof fn law_each_receiver_is_observed_once(
    c: Seq<Timed>,
    slots: Seq<crate::server::receivers::Slot>,
    i: int,
)
    requires
        c.len() <= usize::MAX,
        0 <= i < c.len(),
    ensures
        ({
            let o = observations_of(c, slots, c.len() as int);
            &&& forall|j: int, k: int|
                0 <= j < k < o.len() ==> (#[trigger] o[j]) < (#[trigger] o[k]) && c[o[j] as int].rx
                    != c[o[k] as int].rx
            &&& forall|k: int|
                0 <= k < o.len() ==> (#[trigger] o[k]) < c.len() && c[o[k] as int].rx < slots.len()
                    && slots[c[o[k] as int].rx as int].alive
            &&& c[i].rx < slots.len() && slots[c[i].rx as int].alive && !quarantined(
                slots[c[i].rx as int].bias,
            ) ==> exists|k: int|
                0 <= k < o.len() && (#[trigger] o[k]) <= i && c[o[k] as int].rx == c[i].rx
            &&& o.contains(i as usize) ==> !quarantined(slots[c[i].rx as int].bias) && forall|k: int|
                0 <= k < i ==> (#[trigger] c[k]).rx != c[i].rx
        }),
{
    let n = c.len() as int;
    lemma_observed(c, slots, n);
    let o = observations_of(c, slots, n);
    assert forall|j: int, k: int| 0 <= j < k < o.len() implies (#[trigger] o[j]) < (
    #[trigger] o[k]) && c[o[j] as int].rx != c[o[k] as int].rx by {
        assert(is_observation(c, slots, o[k] as int));
        assert(c[o[j] as int].rx != c[o[k] as int].rx);
    }
    if c[i].rx < slots.len() && slots[c[i].rx as int].alive && !quarantined(
        slots[c[i].rx as int].bias,
    ) {
        let f = lemma_first_of(c, i);
        assert(is_observation(c, slots, f));
        assert(o.contains(f as usize));
        let k = choose|k: int| 0 <= k < o.len() && o[k] == f as usize;
        assert(o[k] <= i && c[o[k] as int].rx == c[i].rx);
    }
    if o.contains(i as usize) {
        let k = choose|k: int| 0 <= k < o.len() && o[k] == i as usize;
        assert(is_observation(c, slots, o[k] as int));
    }
}

proof fn lemma_first_of(c: Seq<Timed>, i: int) -> (f: int)
    requires
        0 <= i < c.len(),
    ensures
        0 <= f <= i,
        c[f].rx == c[i].rx,
        forall|k: int| 0 <= k < f ==> (#[trigger] c[k]).rx != c[f].rx,
    decreases i,
{
    if exists|k: int| 0 <= k < i && (#[trigger] c[k]).rx == c[i].rx {
        let k = choose|k: int| 0 <= k < i && (#[trigger] c[k]).rx == c[i].rx;
        lemma_first_of(c, k)
    } else {
        i
    }
}

proof fn lemma_observed(c: Seq<Timed>, slots: Seq<crate::server::receivers::Slot>, n: int)
    requires
        0 <= n <= c.len() <= usize::MAX,
    ensures
        ({
            let o = observations_of(c, slots, n);
            &&& forall|j: int, k: int|
                0 <= j < k < o.len() ==> (#[trigger] o[j]) < (#[trigger] o[k])
            &&& forall|k: int|
                0 <= k < o.len() ==> (#[trigger] o[k]) < n && is_observation(c, slots, o[k] as int)
            &&& forall|i: int|
                0 <= i < n && #[trigger] is_observation(c, slots, i) ==> o.contains(i as usize)
        }),
    decreases n,
{
    if n > 0 {
        lemma_observed(c, slots, n - 1);
        let (o, o0) = (observations_of(c, slots, n), observations_of(c, slots, n - 1));
        assert forall|i: int| 0 <= i < n && #[trigger] is_observation(c, slots, i) implies o.contains(
            i as usize,
        ) by {
            if i < n - 1 {
                assert(o0.contains(i as usize));
                let k = choose|k: int| 0 <= k < o0.len() && o0[k] == i as usize;
                assert(o[k] == i as usize);
            } else {
                assert(o[o0.len() as int] == i as usize);
            }
        }
    }
}

/// Few samples keep no receiver out of solves, and neither does little scatter; with thirty
/// or more and a scatter above one and a half microseconds it stays out until the scatter
/// falls.
pub proof fn law_quarantine_takes_evidence(
    b: crate::server::receivers::RxBias,
    worse: crate::server::receivers::RxBias,
)
    ensures
        b.n < 30 ==> !quarantined(b),
        b.mad_s.at_most(Reading(0x3EB9_2A73_7110_E454)) ==> !quarantined(b),
        b.n >= 30 && Reading(0x3EB9_2A73_7110_E454).below(b.mad_s) ==> quarantined(b),
        quarantined(b) && worse.n >= b.n && b.mad_s.at_most(worse.mad_s) ==> quarantined(worse),
{
}

/// The arrivals of one time, in order.
pub open spec fn at_time(s: Seq<Timed>, rank: int) -> Seq<Timed>
    decreases s.len(),
{
    if s.len() == 0 {
        seq![]
    } else if s.last().t_s.total_rank() == rank {
        at_time(s.drop_last(), rank).push(s.last())
    } else {
        at_time(s.drop_last(), rank)
    }
}

proof fn lemma_at_time_add(a: Seq<Timed>, b: Seq<Timed>, rank: int)
    ensures
        at_time(a + b, rank) == at_time(a, rank) + at_time(b, rank),
    decreases b.len(),
{
    if b.len() == 0 {
        assert(a + b =~= a);
        assert(at_time(a, rank) + at_time(b, rank) =~= at_time(a, rank));
    } else {
        lemma_at_time_add(a, b.drop_last(), rank);
        assert((a + b).drop_last() =~= a + b.drop_last());
        assert(at_time(a + b, rank) =~= at_time(a, rank) + at_time(b, rank));
    }
}

proof fn lemma_at_time_none(s: Seq<Timed>, rank: int)
    requires
        forall|i: int| 0 <= i < s.len() ==> (#[trigger] s[i]).t_s.total_rank() > rank,
    ensures
        at_time(s, rank) == Seq::<Timed>::empty(),
    decreases s.len(),
{
    if s.len() > 0 {
        let r = s.drop_last();
        assert forall|i: int| 0 <= i < r.len() implies (#[trigger] r[i]).t_s.total_rank() > rank by {
            assert(s[i].t_s.total_rank() > rank);
        }
        lemma_at_time_none(r, rank);
        assert(s[s.len() - 1].t_s.total_rank() > rank);
    }
}

/// Arrivals of one time stay in the order in which they came.
pub proof fn law_time_order_is_stable(s: Seq<Timed>, rank: int)
    ensures
        at_time(in_time_order(s), rank) == at_time(s, rank),
    decreases s.len(),
{
    if s.len() > 0 {
        let r = s.drop_last();
        let x = s.last();
        law_time_order_is_stable(r, rank);
        let t = in_time_order(r);
        let p = insert_place(t, x, t.len() as int);
        law_time_order(r);
        lemma_insert_place(t, x, t.len() as int);
        let (a, b) = (t.take(p), t.skip(p));
        assert(t =~= a + b);
        assert(in_time_order(s) =~= a.push(x) + b);
        assert(a.push(x) =~= a + seq![x]);
        lemma_at_time_add(a, b, rank);
        lemma_at_time_add(a.push(x), b, rank);
        assert(a.push(x).drop_last() =~= a);
        assert(a.push(x).last() == x);
        if x.t_s.total_rank() == rank {
            assert forall|i: int| 0 <= i < b.len() implies (#[trigger] b[i]).t_s.total_rank()
                > rank by {
                assert(b[i] == t[p + i]);
            }
            lemma_at_time_none(b, rank);
            assert(at_time(a, rank) + at_time(b, rank) =~= at_time(a, rank));
            assert(at_time(a, rank).push(x) + at_time(b, rank) =~= at_time(a, rank).push(x));
        }
    }
}

} // verus!
