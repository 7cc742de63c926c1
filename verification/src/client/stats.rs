//! Sync quality over the last hour, from what the server reports.

use vstd::prelude::*;

use crate::proto::json::{
    empty_object, integer_value, member_number, number_value, set_member, value_pretty, Number,
};
use crate::text::chars_of;

verus! {

/// How well a feeder is synchronized.
#[derive(Debug, Clone, Copy, PartialEq, Eq, Structural)]
pub enum SyncState {
    Good,
    /// No peers.
    Idle,
    Bad,
}

/// A number token writes a number above zero: it has no minus sign, and a digit
/// other than zero before its exponent.
pub open spec fn is_positive(t: Seq<char>) -> bool {
    exists|i: int| 0 <= i < t.len() && #[trigger] counts_at(t, i)
}

/// The character at `i` is a digit other than zero, without a minus sign at the start
/// and without an exponent before it.
pub open spec fn counts_at(t: Seq<char>, i: int) -> bool {
    &&& '1' <= t[i] <= '9'
    &&& t[0] != '-'
    &&& forall|k: int| 0 <= k < i ==> #[trigger] t[k] != 'e' && t[k] != 'E'
}

fn check_positive(t: &str) -> (r: bool)
    ensures
        r == is_positive(t@),
{
    let c = chars_of(t);
    if c.len() == 0 || c[0] == '-' {
        return false;
    }
    let mut i: usize = 0;
    while i < c.len()
        invariant
            c@ == t@,
            c@.len() > 0,
            c@[0] != '-',
            i <= c@.len(),
            forall|k: int| 0 <= k < i ==> #[trigger] t@[k] != 'e' && t@[k] != 'E',
            forall|k: int| 0 <= k < i ==> !(#[trigger] counts_at(t@, k)),
        decreases c@.len() - i,
    {
        if c[i] == 'e' || c[i] == 'E' {
            assert forall|k: int| 0 <= k < t@.len() implies !(#[trigger] counts_at(t@, k)) by {
                if k > i {
                    assert(t@[i as int] == 'e' || t@[i as int] == 'E');
                }
            }
            return false;
        }
        if c[i] >= '1' && c[i] <= '9' {
            assert(counts_at(t@, i as int));
            return true;
        }
        i = i + 1;
    }
    false
}

/// A member of a report that is a number above zero.
pub open spec fn is_above_zero(v: crate::proto::json::JsonView, key: Seq<char>) -> bool {
    match crate::proto::json::number_member(v, key) {
        Some(t) => is_positive(t),
        None => false,
    }
}

/// The state that a report of the server means.
pub open spec fn state_in(v: crate::proto::json::JsonView) -> SyncState {
    if is_above_zero(v, "bad_sync_timeout"@) {
        SyncState::Bad
    } else if is_above_zero(v, "peer_count"@) {
        SyncState::Good
    } else {
        SyncState::Idle
    }
}

/// Seconds of history that are kept.
pub const HISTORY_S: u64 = 3600;

/// The history without what is too old at its front.
pub open spec fn recent(h: Seq<(u64, SyncState)>, now: u64) -> Seq<(u64, SyncState)>
    decreases h.len(),
{
    if h.len() > 0 && now - h[0].0 > HISTORY_S {
        recent(h.drop_first(), now)
    } else {
        h
    }
}

/// How often a state occurs.
pub open spec fn times(h: Seq<(u64, SyncState)>, s: SyncState) -> nat
    decreases h.len(),
{
    if h.len() == 0 {
        0
    } else {
        times(h.drop_last(), s) + if h.last().1 == s {
            1nat
        } else {
            0
        }
    }
}

/// What the statistics file holds.
pub open spec fn file_tree(
    report: crate::proto::json::JsonView,
    now: u64,
    good: crate::proto::json::JsonView,
    bad: crate::proto::json::JsonView,
    last_bad: u64,
) -> crate::proto::json::JsonView {
    let m = match report {
        crate::proto::json::JsonView::Object(m) => m,
        _ => Map::empty(),
    };
    crate::proto::json::JsonView::Object(
        m.insert(
            "now"@,
            crate::proto::json::JsonView::Number(crate::text::decimal(now as nat)),
        ).insert("good_sync_percentage_last_hour"@, good).insert(
            "bad_sync_percentage_last_hour"@,
            bad,
        ).insert(
            "last_bad_sync"@,
            crate::proto::json::JsonView::Number(crate::text::decimal(last_bad as nat)),
        ),
    )
}

/// Reports of the last hour.
#[derive(Debug)]
pub struct StatsFile {
    history: Vec<(u64, SyncState)>,
    last_bad_sync: u64,
}

fn above_zero(v: &serde_json::Value, key: &str) -> (r: bool)
    ensures
        r == is_above_zero(crate::proto::json::value_view(*v), key@),
{
    match member_number(v, key) {
        Some(t) => check_positive(t.as_str()),
        None => false,
    }
}

impl StatsFile {
    pub closed spec fn history(&self) -> Seq<(u64, SyncState)> {
        self.history@
    }

    pub closed spec fn bad_at(&self) -> u64 {
        self.last_bad_sync
    }

    pub fn new() -> (r: Self)
        ensures
            r.history() == Seq::<(u64, SyncState)>::empty(),
            r.bad_at() == 0,
    {
        StatsFile { history: Vec::new(), last_bad_sync: 0 }
    }

    /// Takes a report of the server at a time in seconds.
    pub fn push(&mut self, v: &serde_json::Value, now: u64)
        ensures
            ({
                let s = state_in(crate::proto::json::value_view(*v));
                &&& final(self).history() == recent(old(self).history().push((now, s)), now)
                &&& final(self).bad_at() == (if s == SyncState::Bad {
                    now
                } else {
                    old(self).bad_at()
                })
            }),
    {
        let state = if above_zero(v, "bad_sync_timeout") {
            self.last_bad_sync = now;
            SyncState::Bad
        } else if above_zero(v, "peer_count") {
            SyncState::Good
        } else {
            SyncState::Idle
        };
        self.history.push((now, state));
        let ghost all = self.history@;
        while self.history.len() > 0 && now.saturating_sub(self.history[0].0) > HISTORY_S
            invariant
                recent(all, now) == recent(self.history@, now),
                self.last_bad_sync == (if state == SyncState::Bad {
                    now
                } else {
                    old(self).last_bad_sync
                }),
            decreases self.history@.len(),
        {
            let ghost before = self.history@;
            let _dropped = self.history.remove(0);
            assert(self.history@ =~= before.drop_first());
        }
    }

    /// Reports in the last hour, and how many of them were good and bad.
    pub fn counts(&self) -> (r: (usize, usize, usize))
        ensures
            r.0 == self.history().len(),
            r.1 == times(self.history(), SyncState::Good),
            r.2 == times(self.history(), SyncState::Bad),
    {
        let mut good: usize = 0;
        let mut bad: usize = 0;
        let mut i: usize = 0;
        while i < self.history.len()
            invariant
                i <= self.history@.len(),
                good == times(self.history@.take(i as int), SyncState::Good),
                bad == times(self.history@.take(i as int), SyncState::Bad),
                good <= i,
                bad <= i,
            decreases self.history@.len() - i,
        {
            proof {
                assert(self.history@.take(i + 1).drop_last() =~= self.history@.take(i as int));
            }
            let s = self.history[i].1;
            if s == SyncState::Good {
                good = good + 1;
            }
            if s == SyncState::Bad {
                bad = bad + 1;
            }
            i = i + 1;
        }
        assert(self.history@.take(self.history@.len() as int) =~= self.history@);
        (self.history.len(), good, bad)
    }

    /// The statistics file at a time: the server's last report with that time, the shares
    /// of good and bad sync in percent, and when sync was last bad. A report that is no
    /// object counts as one without members. `None` where a share is out of range.
    pub fn file_text(
        &self,
        report: &serde_json::Value,
        now: u64,
        good_pct: &Number,
        bad_pct: &Number,
    ) -> (r: Option<String>)
        ensures
            match (
                crate::proto::json::number_tree(*good_pct),
                crate::proto::json::number_tree(*bad_pct),
            ) {
                (Some(g), Some(b)) => r matches Some(s) && s@ == crate::proto::json::pretty_text(
                    file_tree(
                        crate::proto::json::value_view(*report),
                        now,
                        g,
                        b,
                        self.bad_at(),
                    ),
                ),
                _ => r is None,
            },
    {
        let (g, b) = match (number_value(good_pct), number_value(bad_pct)) {
            (Some(g), Some(b)) => (g, b),
            _ => {
                return None;
            },
        };
        let mut v = if report.is_object() {
            report.clone()
        } else {
            empty_object()
        };
        let _now = set_member(&mut v, "now", integer_value(now));
        let _good = set_member(&mut v, "good_sync_percentage_last_hour", g);
        let _bad = set_member(&mut v, "bad_sync_percentage_last_hour", b);
        let _last = set_member(&mut v, "last_bad_sync", integer_value(self.last_bad_sync));
        match value_pretty(&v) {
            Ok(s) => Some(s),
            Err(_) => None,
        }
    }

    /// When the server last reported bad sync.
    pub fn last_bad_sync(&self) -> (r: u64)
        ensures
            r == self.bad_at(),
    {
        self.last_bad_sync
    }
}

proof fn lemma_recent(h: Seq<(u64, SyncState)>, now: u64)
    requires
        forall|i: int, j: int| 0 <= i < j < h.len() ==> (#[trigger] h[i]).0 <= (#[trigger] h[j]).0,
    ensures
        forall|i: int|
            0 <= i < recent(h, now).len() ==> now - (#[trigger] recent(h, now)[i]).0 <= HISTORY_S,
    decreases h.len(),
{
    if h.len() > 0 {
        if now - h[0].0 > HISTORY_S {
            let t = h.drop_first();
            assert forall|i: int, j: int| 0 <= i < j < t.len() implies (#[trigger] t[i]).0 <= (
            #[trigger] t[j]).0 by {
                assert(t[i] == h[i + 1] && t[j] == h[j + 1]);
            }
            lemma_recent(t, now);
            assert(recent(h, now) == recent(t, now));
        } else {
            assert(recent(h, now) == h);
            assert forall|i: int| 0 <= i < h.len() implies now - (#[trigger] h[i]).0
                <= HISTORY_S by {
                if i > 0 {
                    assert(h[0].0 <= h[i].0);
                }
            }
        }
    }
}

/// While the clock does not step back, nothing older than an hour is kept.
pub proof fn law_history_is_one_hour(h: Seq<(u64, SyncState)>, s: SyncState, now: u64)
    requires
        forall|i: int, j: int| 0 <= i < j < h.len() ==> (#[trigger] h[i]).0 <= (#[trigger] h[j]).0,
        forall|i: int| 0 <= i < h.len() ==> (#[trigger] h[i]).0 <= now,
    ensures
        forall|i: int|
            0 <= i < recent(h.push((now, s)), now).len() ==> now - (#[trigger] recent(
                h.push((now, s)),
                now,
            )[i]).0 <= HISTORY_S,
{
    let t = h.push((now, s));
    assert forall|i: int, j: int| 0 <= i < j < t.len() implies (#[trigger] t[i]).0 <= (
    #[trigger] t[j]).0 by {
        assert(t[i] == h[i]);
        if j < h.len() {
            assert(t[j] == h[j]);
        }
    }
    lemma_recent(t, now);
}

/// Every report is good, bad or idle.
pub proof fn law_reports_add_up(h: Seq<(u64, SyncState)>)
    ensures
        times(h, SyncState::Good) + times(h, SyncState::Bad) + times(h, SyncState::Idle) == h.len(),
    decreases h.len(),
{
    if h.len() > 0 {
        law_reports_add_up(h.drop_last());
    }
}

/// How often a state occurs is the number of reports with it.
pub proof fn law_times_counts(h: Seq<(u64, SyncState)>, s: SyncState)
    ensures
        vstd::set_lib::set_int_range(0, h.len() as int).filter(|i: int| h[i].1 == s).finite(),
        times(h, s) == vstd::set_lib::set_int_range(0, h.len() as int).filter(
            |i: int| h[i].1 == s,
        ).len(),
    decreases h.len(),
{
    let n = h.len() as int;
    let all = vstd::set_lib::set_int_range(0, n).filter(|i: int| h[i].1 == s);
    vstd::set_lib::lemma_int_range(0, n);
    if n > 0 {
        let r = h.drop_last();
        law_times_counts(r, s);
        let rest = vstd::set_lib::set_int_range(0, n - 1).filter(|i: int| r[i].1 == s);
        assert forall|i: int| 0 <= i < n - 1 implies r[i] == h[i] by {}
        if h.last().1 == s {
            assert(all =~= rest.insert(n - 1));
        } else {
            assert(all =~= rest);
        }
    } else {
        assert(all =~= Set::empty());
    }
}

/// Bad sync counts as bad whatever else the server reports; without it a feeder with peers is
/// good, and one without is idle.
pub proof fn law_bad_sync_comes_first(v: crate::proto::json::JsonView)
    ensures
        state_in(v) == SyncState::Bad <==> is_above_zero(v, "bad_sync_timeout"@),
        state_in(v) == SyncState::Good ==> is_above_zero(v, "peer_count"@),
        state_in(v) == SyncState::Idle ==> !is_above_zero(v, "peer_count"@),
{
}

/// What stays of the history is its end: what left is more than an hour old.
pub proof fn law_history_drops_the_old(h: Seq<(u64, SyncState)>, now: u64) -> (k: int)
    ensures
        0 <= k <= h.len(),
        recent(h, now) == h.skip(k),
        forall|i: int| 0 <= i < k ==> now > (#[trigger] h[i]).0 + 3600,
        k < h.len() ==> now <= h[k].0 + 3600,
    decreases h.len(),
{
    if h.len() > 0 && now - h[0].0 > HISTORY_S {
        let r = h.drop_first();
        let k = law_history_drops_the_old(r, now);
        assert(r.skip(k) =~= h.skip(k + 1));
        assert forall|i: int| 0 <= i < k + 1 implies now > (#[trigger] h[i]).0 + 3600 by {
            if i > 0 {
                assert(r[i - 1] == h[i]);
            }
        }
        if k < r.len() {
            assert(r[k] == h[k + 1]);
        }
        k + 1
    } else {
        assert(h.skip(0) =~= h);
        0
    }
}

/// The statistics file keeps what the server reports and adds the time, the two shares and
/// when sync was last bad, each under its own name.
pub proof fn law_file_keeps_the_report(
    m: Map<Seq<char>, crate::proto::json::JsonView>,
    now: u64,
    good: crate::proto::json::JsonView,
    bad: crate::proto::json::JsonView,
    last_bad: u64,
    key: Seq<char>,
)
    ensures
        file_tree(crate::proto::json::JsonView::Object(m), now, good, bad, last_bad) matches
            crate::proto::json::JsonView::Object(f) && {
            &&& f.dom().contains("good_sync_percentage_last_hour"@)
                && f["good_sync_percentage_last_hour"@] == good
            &&& f.dom().contains("bad_sync_percentage_last_hour"@)
                && f["bad_sync_percentage_last_hour"@] == bad
            &&& f.dom().contains("now"@) && f["now"@] == crate::proto::json::JsonView::Number(
                crate::text::decimal(now as nat),
            )
            &&& f.dom().contains("last_bad_sync"@) && f["last_bad_sync"@]
                == crate::proto::json::JsonView::Number(crate::text::decimal(last_bad as nat))
            &&& key != "now"@ && key != "last_bad_sync"@ && key != "good_sync_percentage_last_hour"@
                && key != "bad_sync_percentage_last_hour"@ ==> f.dom().contains(key)
                == m.dom().contains(key) && f[key] == m[key]
        },
{
    reveal_strlit("now");
    reveal_strlit("good_sync_percentage_last_hour");
    reveal_strlit("bad_sync_percentage_last_hour");
    reveal_strlit("last_bad_sync");
    assert("now"@.len() == 3 && "last_bad_sync"@.len() == 13);
    assert("good_sync_percentage_last_hour"@.len() == 30);
    assert("bad_sync_percentage_last_hour"@.len() == 29);
}

/// A counting number is above zero exactly where it is not zero.
pub proof fn law_positive_counts(n: nat)
    ensures
        is_positive(crate::text::decimal(n)) <==> n > 0,
{
    let d = crate::text::decimal(n);
    crate::proto::json::lemma_decimal_digits(n);
    if n > 0 {
        assert('0' <= d[0] <= '9');
        assert(counts_at(d, 0));
    } else {
        assert(d.len() == 1);
        assert(d[0] == '0');
    }
}

} // verus!
