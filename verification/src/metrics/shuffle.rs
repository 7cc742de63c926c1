//! The order of a result table does not matter to its score.

use vstd::prelude::*;

use crate::metrics::score::{
    AircraftTally, AudibilitySecond, Hit, Measured, Outcome, Tally,
};
use crate::reading::Reading;

verus! {

/// What `pick` makes of the rows that it takes, in order.
pub open spec fn picked<A, R>(rows: Seq<A>, pick: spec_fn(A) -> Option<R>) -> Seq<R>
    decreases rows.len(),
{
    if rows.len() == 0 {
        seq![]
    } else {
        let rest = picked(rows.drop_last(), pick);
        match pick(rows.last()) {
            Some(x) => rest.push(x),
            None => rest,
        }
    }
}

proof fn lemma_picked_concat<A, R>(a: Seq<A>, b: Seq<A>, pick: spec_fn(A) -> Option<R>)
    ensures
        picked(a + b, pick) == picked(a, pick) + picked(b, pick),
    decreases b.len(),
{
    if b.len() == 0 {
        assert(a + b =~= a);
        assert(picked(a, pick) + picked(b, pick) =~= picked(a, pick));
    } else {
        lemma_picked_concat(a, b.drop_last(), pick);
        assert((a + b).drop_last() =~= a + b.drop_last());
        assert((a + b).last() == b.last());
        assert(picked(a + b, pick) =~= picked(a, pick) + picked(b, pick));
    }
}

/// The same rows in another order give the same picks in another order.
proof fn lemma_picked_shuffled<A, R>(rows: Seq<A>, others: Seq<A>, pick: spec_fn(A) -> Option<R>)
    requires
        rows.to_multiset() == others.to_multiset(),
    ensures
        picked(rows, pick).to_multiset() == picked(others, pick).to_multiset(),
    decreases rows.len(),
{
    broadcast use vstd::seq_lib::group_to_multiset_ensures;

    assert(rows.len() == rows.to_multiset().len());
    assert(others.len() == others.to_multiset().len());
    if rows.len() == 0 {
        assert(rows =~= others);
    } else {
        let x = rows.last();
        let less = rows.drop_last();
        assert(rows =~= less.push(x));
        assert(others.to_multiset().count(x) > 0);
        assert(others.contains(x));
        let j = choose|j: int| 0 <= j < others.len() && others[j] == x;
        let (a, b) = (others.take(j), others.skip(j + 1));
        assert(others.remove(j) =~= a + b);
        assert(less.to_multiset() =~= rows.to_multiset().remove(x));
        lemma_picked_shuffled(less, a + b, pick);
        let one = seq![x];
        assert(others =~= (a + one) + b);
        lemma_picked_concat(a + one, b, pick);
        lemma_picked_concat(a, one, pick);
        lemma_picked_concat(a, b, pick);
        lemma_picked_concat(less, one, pick);
        assert(rows =~= less + one);
        let (p, q, m) = (picked(a, pick), picked(b, pick), picked(one, pick));
        vstd::seq_lib::lemma_multiset_commutative(p + m, q);
        vstd::seq_lib::lemma_multiset_commutative(p, m);
        vstd::seq_lib::lemma_multiset_commutative(p, q);
        vstd::seq_lib::lemma_multiset_commutative(picked(less, pick), m);
        assert(picked(rows, pick).to_multiset() =~= picked(others, pick).to_multiset());
    }
}

/// Reading a sequence at each of its places once, in any order, gives its items.
proof fn lemma_places<A>(v: Seq<A>, o: Seq<usize>)
    requires
        o.len() == v.len(),
        o.no_duplicates(),
        forall|i: int| 0 <= i < o.len() ==> #[trigger] o[i] < v.len(),
        forall|k: usize| k < v.len() ==> #[trigger] o.contains(k),
        v.len() <= usize::MAX,
    ensures
        o.map_values(|k: usize| v[k as int]).to_multiset() == v.to_multiset(),
    decreases v.len(),
{
    broadcast use vstd::seq_lib::group_to_multiset_ensures;

    let r = o.map_values(|k: usize| v[k as int]);
    if v.len() == 0 {
        assert(r =~= v);
    } else {
        let n = (v.len() - 1) as usize;
        assert(o.contains(n));
        let j = choose|j: int| 0 <= j < o.len() && o[j] == n;
        let w = v.drop_last();
        let p = o.remove(j);
        assert forall|i: int| 0 <= i < p.len() implies #[trigger] p[i] < w.len() by {
            let k = if i < j {
                i
            } else {
                i + 1
            };
            assert(p[i] == o[k]);
            assert(o[k] != o[j]);
        }
        assert forall|k: usize| k < w.len() implies #[trigger] p.contains(k) by {
            assert(o.contains(k));
            let i = choose|i: int| 0 <= i < o.len() && o[i] == k;
            if i < j {
                assert(p[i] == k);
            } else {
                assert(p[i - 1] == k);
            }
        }
        assert(p.no_duplicates());
        lemma_places(w, p);
        let q = p.map_values(|k: usize| w[k as int]);
        assert(r.remove(j) =~= q);
        assert(r[j] == v.last());
        assert(v =~= w.push(v.last()));
        assert(r.remove(j).to_multiset() =~= r.to_multiset().remove(r[j]));
        assert(r.contains(r[j]));
        assert(r.to_multiset().count(r[j]) > 0);
        assert(r.to_multiset() =~= q.to_multiset().insert(v.last()));
    }
}

/// Readings are ordered by their rank.
spec fn rank_leq() -> spec_fn(Reading, Reading) -> bool {
    |a: Reading, b: Reading| a.total_rank() <= b.total_rank()
}

/// The same readings in any order are the same when sorted.
pub proof fn law_sorted_is_unique(
    v: Seq<Reading>,
    w: Seq<Reading>,
    r: Seq<Reading>,
    s: Seq<Reading>,
)
    requires
        v.to_multiset() == w.to_multiset(),
        v.len() <= usize::MAX,
        crate::metrics::score::is_sorted(v, r),
        crate::metrics::score::is_sorted(w, s),
    ensures
        r == s,
{
    broadcast use vstd::seq_lib::group_to_multiset_ensures;

    assert(v.len() == v.to_multiset().len());
    assert(w.len() == w.to_multiset().len());
    lemma_sorted_keeps(v, r);
    lemma_sorted_keeps(w, s);
    crate::metrics::score::law_sorted(v, r);
    crate::metrics::score::law_sorted(w, s);
    assert forall|a: Reading, b: Reading| a.total_rank() == b.total_rank() implies a == b by {
        crate::reading::law_reading_order(a, b, a);
    }
    assert(vstd::relations::total_ordering(rank_leq()));
    assert(vstd::relations::sorted_by(r, rank_leq()));
    assert(vstd::relations::sorted_by(s, rank_leq()));
    vstd::seq_lib::lemma_sorted_unique(r, s, rank_leq());
}

proof fn lemma_sorted_keeps(v: Seq<Reading>, r: Seq<Reading>)
    requires
        crate::metrics::score::is_sorted(v, r),
        v.len() <= usize::MAX,
    ensures
        r.to_multiset() == v.to_multiset(),
{
    let keys = crate::metrics::score::reading_keys(v);
    let o = choose|o: Seq<usize>|
        {
            &&& #[trigger] crate::order::is_order(keys, o, 0, v.len() as int)
            &&& r == o.map_values(|k: usize| v[k as int])
        };
    assert forall|i: int, j: int| 0 <= i < j < o.len() implies o[i] != o[j] by {
        assert(crate::order::comes_before(keys, o[i] as int, o[j] as int));
    }
    assert(o.no_duplicates());
    lemma_places(v, o);
}

/// The matched results of a row.
spec fn hit_in(truth: Set<u32>, untruthed: Set<u32>) -> spec_fn(Measured) -> Option<Hit> {
    |r: Measured|
        if crate::metrics::score::outcome(
            truth.contains(r.icao.0),
            untruthed.contains(r.icao.0),
            r,
        ) == Outcome::Matched {
            Some(Hit { icao: r.icao, sim_t: r.sim_t, miss: r.miss->0 })
        } else {
            None
        }
}

spec fn row_with(truth: Set<u32>, untruthed: Set<u32>, o: Outcome) -> spec_fn(
    Measured,
) -> Option<Measured> {
    |r: Measured|
        if crate::metrics::score::outcome(
            truth.contains(r.icao.0),
            untruthed.contains(r.icao.0),
            r,
        ) == o {
            Some(r)
        } else {
            None
        }
}

spec fn error_of() -> spec_fn(Hit) -> Option<Reading> {
    |h: Hit| Some(h.miss.err_m)
}

spec fn alt_error_of() -> spec_fn(Hit) -> Option<Reading> {
    |h: Hit| h.miss.alt_err_m
}

spec fn ratio_of() -> spec_fn(Hit) -> Option<Reading> {
    |h: Hit|
        if Reading(crate::metrics::score::RATIO_FLOOR_M).below(h.miss.err_m) {
            h.miss.est_ratio
        } else {
            None
        }
}

spec fn of_aircraft(addr: u32) -> spec_fn(Hit) -> Option<Hit> {
    |h: Hit|
        if crate::metrics::score::is_of(h.icao, addr) {
            Some(h)
        } else {
            None
        }
}

spec fn second_of(addr: u32) -> spec_fn(Hit) -> Option<u64> {
    |h: Hit|
        if crate::metrics::score::is_of(h.icao, addr) && Reading(0).at_most(h.sim_t) {
            Some(h.sim_t.truncated())
        } else {
            None
        }
}

proof fn lemma_count_is_picked(
    rows: Seq<Measured>,
    truth: Set<u32>,
    untruthed: Set<u32>,
    o: Outcome,
)
    ensures
        crate::metrics::score::count(rows, truth, untruthed, o) == picked(
            rows,
            row_with(truth, untruthed, o),
        ).len(),
    decreases rows.len(),
{
    if rows.len() > 0 {
        lemma_count_is_picked(rows.drop_last(), truth, untruthed, o);
    }
}

proof fn lemma_hits_are_picked(rows: Seq<Measured>, truth: Set<u32>, untruthed: Set<u32>)
    ensures
        crate::metrics::score::hits(rows, truth, untruthed) == picked(
            rows,
            hit_in(truth, untruthed),
        ),
        crate::metrics::score::hits(rows, truth, untruthed).len() <= rows.len(),
    decreases rows.len(),
{
    if rows.len() > 0 {
        lemma_hits_are_picked(rows.drop_last(), truth, untruthed);
    }
}

proof fn lemma_errors_are_picked(h: Seq<Hit>)
    ensures
        crate::metrics::score::errors(h) == picked(h, error_of()),
        crate::metrics::score::alt_errors(h) == picked(h, alt_error_of()),
        crate::metrics::score::ratios(h) == picked(h, ratio_of()),
        crate::metrics::score::errors(h).len() <= h.len(),
        crate::metrics::score::alt_errors(h).len() <= h.len(),
        crate::metrics::score::ratios(h).len() <= h.len(),
    decreases h.len(),
{
    if h.len() > 0 {
        lemma_errors_are_picked(h.drop_last());
        assert(crate::metrics::score::errors(h) =~= crate::metrics::score::errors(
            h.drop_last(),
        ).push(h.last().miss.err_m));
    } else {
        assert(crate::metrics::score::errors(h) =~= seq![]);
    }
}

proof fn lemma_aircraft_is_picked(h: Seq<Hit>, addr: u32)
    ensures
        crate::metrics::score::hits_of(h, addr) == picked(h, of_aircraft(addr)),
        crate::metrics::score::covered(h, addr) == picked(h, second_of(addr)),
        crate::metrics::score::hits_of(h, addr).len() <= h.len(),
    decreases h.len(),
{
    if h.len() > 0 {
        lemma_aircraft_is_picked(h.drop_last(), addr);
    }
}

/// Sequences of the same items hold the same items.
proof fn lemma_same_items<A>(a: Seq<A>, b: Seq<A>)
    requires
        a.to_multiset() == b.to_multiset(),
    ensures
        a.len() == b.len(),
        forall|x: A| #[trigger] a.contains(x) <==> b.contains(x),
        a.to_set() == b.to_set(),
{
    broadcast use vstd::seq_lib::group_to_multiset_ensures;

    assert(a.len() == a.to_multiset().len());
    assert(b.len() == b.to_multiset().len());
    assert forall|x: A| #[trigger] a.contains(x) <==> b.contains(x) by {
        assert(a.contains(x) <==> a.to_multiset().count(x) > 0);
        assert(b.contains(x) <==> b.to_multiset().count(x) > 0);
    }
    assert(a.to_set() =~= b.to_set());
}

/// Two tallies of one aircraft over the same matched results are equal.
proof fn lemma_same_tally(
    t: AircraftTally,
    u: AircraftTally,
    h: Seq<Hit>,
    g: Seq<Hit>,
    aud: Seq<AudibilitySecond>,
    targets: Set<u32>,
)
    requires
        t.icao == u.icao,
        h.to_multiset() == g.to_multiset(),
        h.len() <= usize::MAX,
        crate::metrics::score::tally_holds(t, h, aud, targets),
        crate::metrics::score::tally_holds(u, g, aud, targets),
    ensures
        t == u,
{
    let addr = t.icao.0;
    let (mine, yours) = (
        crate::metrics::score::hits_of(h, addr),
        crate::metrics::score::hits_of(g, addr),
    );
    lemma_aircraft_is_picked(h, addr);
    lemma_aircraft_is_picked(g, addr);
    lemma_picked_shuffled(h, g, of_aircraft(addr));
    lemma_picked_shuffled(h, g, second_of(addr));
    lemma_same_items(mine, yours);
    lemma_same_items(
        crate::metrics::score::covered(h, addr),
        crate::metrics::score::covered(g, addr),
    );
    if mine.len() > 0 {
        lemma_errors_are_picked(mine);
        lemma_errors_are_picked(yours);
        lemma_picked_shuffled(mine, yours, error_of());
        let (e, f) = (crate::metrics::score::errors(mine), crate::metrics::score::errors(yours));
        let place = crate::metrics::score::rank_of(mine.len() as int, 50);
        let r = choose|r: Seq<Reading>| #[trigger]
            crate::metrics::score::is_sorted(e, r) && t.p50_error_m == Some(r[place]);
        let s = choose|s: Seq<Reading>| #[trigger]
            crate::metrics::score::is_sorted(f, s) && u.p50_error_m == Some(s[place]);
        law_sorted_is_unique(e, f, r, s);
        let (a, b) = (t.first_result->0, u.first_result->0);
        let i = choose|i: int| 0 <= i < mine.len() && (#[trigger] mine[i]).sim_t == a;
        let j = choose|j: int| 0 <= j < yours.len() && (#[trigger] yours[j]).sim_t == b;
        assert(mine.contains(mine[i]) && yours.contains(yours[j]));
        assert(yours.contains(mine[i]) && mine.contains(yours[j]));
        let k = choose|k: int| 0 <= k < yours.len() && yours[k] == mine[i];
        let l = choose|l: int| 0 <= l < mine.len() && mine[l] == yours[j];
        assert(b.total_rank() <= yours[k].sim_t.total_rank());
        assert(a.total_rank() <= mine[l].sim_t.total_rank());
        crate::reading::law_reading_order(a, b, a);
    }
    let secs = crate::metrics::score::trackable(aud, targets, addr);
    let x = choose|x: int| 0 <= x < secs.len() && secs[x] == t.first_trackable_s;
    let y = choose|y: int| 0 <= y < secs.len() && secs[y] == u.first_trackable_s;
    assert(u.first_trackable_s <= secs[x] && t.first_trackable_s <= secs[y]);
}

/// Lists of the same aircraft in ascending order name the same one at every place.
proof fn lemma_same_aircraft(v: Seq<AircraftTally>, w: Seq<AircraftTally>, n: int)
    requires
        crate::metrics::score::ascending(v),
        crate::metrics::score::ascending(w),
        same_aircraft(v, w),
        same_aircraft(w, v),
        0 <= n < v.len(),
    ensures
        n < w.len(),
        v[n].icao == w[n].icao,
    decreases n,
{
    assert forall|i: int| 0 <= i < n implies v[i].icao == w[i].icao && i < w.len() by {
        lemma_same_aircraft(v, w, i);
    }
    let j = choose|j: int| 0 <= j < w.len() && (#[trigger] w[j]).icao == v[n].icao;
    assert(v[n].icao == v[n].icao);
    if j < n {
        assert(v[j].icao.0 < v[n].icao.0);
    }
    let k = choose|k: int| 0 <= k < v.len() && (#[trigger] v[k]).icao == w[n].icao;
    if k < n {
        assert(w[k].icao == v[k].icao);
        assert(w[k].icao.0 < w[n].icao.0);
    }
    if j > n && k > n {
        assert(w[n].icao.0 < w[j].icao.0);
        assert(v[n].icao.0 < v[k].icao.0);
    }
}

spec fn same_aircraft(v: Seq<AircraftTally>, w: Seq<AircraftTally>) -> bool {
    forall|i: int|
        0 <= i < v.len() ==> exists|j: int|
            0 <= j < w.len() && (#[trigger] w[j]).icao == (#[trigger] v[i]).icao
}

/// The order of a result table does not matter: the same results in any order are
/// scored alike.
pub proof fn law_row_order_does_not_matter(
    r: Tally,
    s: Tally,
    rows: Seq<Measured>,
    others: Seq<Measured>,
    truth: Set<u32>,
    untruthed: Set<u32>,
    aud: Seq<AudibilitySecond>,
    targets: Set<u32>,
)
    requires
        rows.to_multiset() == others.to_multiset(),
        crate::metrics::score::scores(r, rows, truth, untruthed, aud, targets),
        crate::metrics::score::scores(s, others, truth, untruthed, aud, targets),
    ensures
        r.results_total == s.results_total,
        r.results_matched == s.results_matched,
        r.unscored_known_aircraft == s.unscored_known_aircraft,
        r.ghosts_unknown_icao == s.ghosts_unknown_icao,
        r.ghosts_gross_error == s.ghosts_gross_error,
        r.horizontal_error_m@ == s.horizontal_error_m@,
        r.altitude_error_m@ == s.altitude_error_m@,
        r.err_estimate_ratio@ == s.err_estimate_ratio@,
        r.per_aircraft@ == s.per_aircraft@,
        r.trackable_aircraft_seconds == s.trackable_aircraft_seconds,
        r.tracked_aircraft_seconds == s.tracked_aircraft_seconds,
{
    lemma_same_items(rows, others);
    lemma_same_count(rows, others, truth, untruthed, Outcome::Matched);
    lemma_same_count(rows, others, truth, untruthed, Outcome::Unscored);
    lemma_same_count(rows, others, truth, untruthed, Outcome::UnknownGhost);
    lemma_same_count(rows, others, truth, untruthed, Outcome::GrossGhost);
    let (h, g) = (
        crate::metrics::score::hits(rows, truth, untruthed),
        crate::metrics::score::hits(others, truth, untruthed),
    );
    lemma_hits_are_picked(rows, truth, untruthed);
    lemma_hits_are_picked(others, truth, untruthed);
    lemma_picked_shuffled(rows, others, hit_in(truth, untruthed));
    lemma_errors_are_picked(h);
    lemma_errors_are_picked(g);
    lemma_picked_shuffled(h, g, error_of());
    lemma_picked_shuffled(h, g, alt_error_of());
    lemma_picked_shuffled(h, g, ratio_of());
    law_sorted_is_unique(
        crate::metrics::score::errors(h),
        crate::metrics::score::errors(g),
        r.horizontal_error_m@,
        s.horizontal_error_m@,
    );
    law_sorted_is_unique(
        crate::metrics::score::alt_errors(h),
        crate::metrics::score::alt_errors(g),
        r.altitude_error_m@,
        s.altitude_error_m@,
    );
    law_sorted_is_unique(
        crate::metrics::score::ratios(h),
        crate::metrics::score::ratios(g),
        r.err_estimate_ratio@,
        s.err_estimate_ratio@,
    );
    let (v, w) = (r.per_aircraft@, s.per_aircraft@);
    lemma_listed_alike(v, w, aud, targets);
    lemma_listed_alike(w, v, aud, targets);
    assert forall|i: int| 0 <= i < v.len() implies i < w.len() && v[i] == w[i] by {
        lemma_same_aircraft(v, w, i);
        lemma_same_tally(v[i], w[i], h, g, aud, targets);
    }
    if w.len() > v.len() {
        lemma_same_aircraft(w, v, v.len() as int);
    }
    assert(v.len() <= w.len()) by {
        if v.len() > 0 {
            lemma_same_aircraft(v, w, v.len() - 1);
        }
    }
    assert(v =~= w);
}

proof fn lemma_same_count(
    rows: Seq<Measured>,
    others: Seq<Measured>,
    truth: Set<u32>,
    untruthed: Set<u32>,
    o: Outcome,
)
    requires
        rows.to_multiset() == others.to_multiset(),
    ensures
        crate::metrics::score::count(rows, truth, untruthed, o) == crate::metrics::score::count(
            others,
            truth,
            untruthed,
            o,
        ),
{
    let pick = row_with(truth, untruthed, o);
    lemma_count_is_picked(rows, truth, untruthed, o);
    lemma_count_is_picked(others, truth, untruthed, o);
    lemma_picked_shuffled(rows, others, pick);
    lemma_same_items(picked(rows, pick), picked(others, pick));
}

proof fn lemma_listed_alike(
    v: Seq<AircraftTally>,
    w: Seq<AircraftTally>,
    aud: Seq<AudibilitySecond>,
    targets: Set<u32>,
)
    requires
        forall|a: u32|
            (exists|i: int| 0 <= i < v.len() && (#[trigger] v[i]).icao.0 == a) <==> (
            #[trigger] crate::metrics::score::trackable(aud, targets, a)).len() > 0,
        forall|a: u32|
            (exists|i: int| 0 <= i < w.len() && (#[trigger] w[i]).icao.0 == a) <==> (
            #[trigger] crate::metrics::score::trackable(aud, targets, a)).len() > 0,
    ensures
        same_aircraft(v, w),
{
    assert forall|i: int| 0 <= i < v.len() implies exists|j: int|
        0 <= j < w.len() && (#[trigger] w[j]).icao == (#[trigger] v[i]).icao by {
        let a = v[i].icao.0;
        assert(crate::metrics::score::trackable(aud, targets, a).len() > 0);
        let j = choose|j: int| 0 <= j < w.len() && (#[trigger] w[j]).icao.0 == a;
        assert(w[j].icao == v[i].icao);
    }
}

} // verus!
