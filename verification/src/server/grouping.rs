//! Grouping: sync pairs and frames that several receivers heard. Times are
//! readings of a monotonic clock, in nanoseconds.

use vstd::prelude::*;

use crate::icao::Icao;
use crate::modes::decode::{df_of, parse_df11, parse_df17_airborne, parse_df4, Df17Airborne};
use crate::proto::messages::hex_decode;
use crate::reading::Reading;
use crate::text::same_text;

verus! {

/// A sync point is dropped when it is this old (4 s).
pub const SYNC_LIFETIME_NS: u64 = 4_000_000_000;

/// Reporters per sync point. Pair training grows with their square.
pub const MAX_REPORTERS: usize = 15;

/// What a sync message's two frames say: one aircraft's even and odd position.
#[derive(Debug, Clone, Copy, PartialEq, Eq)]
pub struct SyncPair {
    pub icao: Icao,
    pub even: (u32, u32),
    pub odd: (u32, u32),
    /// Altitude of the even frame.
    pub alt_ft: Option<i32>,
}

/// The position frame that a hexadecimal text writes.
pub open spec fn position_of(hex: Seq<char>) -> Option<Df17Airborne> {
    match crate::proto::messages::hex_bytes(hex) {
        Some(b) => crate::modes::decode::df17_content(b),
        None => None,
    }
}

/// The sync pair of two frames: both are valid positions of one aircraft, the
/// first even and the second odd.
pub open spec fn pair_of(em: Seq<char>, om: Seq<char>) -> Option<SyncPair> {
    match (position_of(em), position_of(om)) {
        (Some(e), Some(o)) => if e.icao == o.icao && !e.odd && o.odd {
            Some(
                SyncPair {
                    icao: e.icao,
                    even: (e.cpr_lat, e.cpr_lon),
                    odd: (o.cpr_lat, o.cpr_lon),
                    alt_ft: e.alt_ft,
                },
            )
        } else {
            None
        },
        _ => None,
    }
}

fn read_position(hex: &str) -> (r: Option<Df17Airborne>)
    ensures
        r == position_of(hex@),
{
    match hex_decode(hex) {
        Some(b) => parse_df17_airborne(b.as_slice()),
        None => None,
    }
}

/// Reads the two frames of a sync message; see `pair_of`.
pub fn read_sync_pair(em: &str, om: &str) -> (r: Option<SyncPair>)
    ensures
        r == pair_of(em@, om@),
{
    let e = match read_position(em) {
        Some(e) => e,
        None => {
            return None;
        },
    };
    let o = match read_position(om) {
        Some(o) => o,
        None => {
            return None;
        },
    };
    if e.icao.0 != o.icao.0 || e.odd || !o.odd {
        return None;
    }
    Some(
        SyncPair {
            icao: e.icao,
            even: (e.cpr_lat, e.cpr_lon),
            odd: (o.cpr_lat, o.cpr_lon),
            alt_ft: e.alt_ft,
        },
    )
}

/// What a frame to locate says.
#[derive(Debug, Clone, Copy, PartialEq, Eq, Structural)]
pub struct Locatable {
    pub icao: Icao,
    pub df17: bool,
    pub alt_ft: Option<i32>,
}

/// Whether a frame can be grouped: DF11, DF4, and DF17 positions where ADS-B
/// aircraft are located too.
pub open spec fn locatable(hex: Seq<char>, mlat_adsb: bool) -> Option<Locatable> {
    match crate::proto::messages::hex_bytes(hex) {
        None => None,
        Some(b) => match crate::modes::decode::df_spec(b) {
            None => None,
            Some(df) => if df == 17 {
                if !mlat_adsb {
                    None
                } else {
                    match crate::modes::decode::df17_content(b) {
                        Some(d) => Some(Locatable { icao: d.icao, df17: true, alt_ft: None }),
                        None => None,
                    }
                }
            } else if df == 4 {
                match crate::modes::decode::df4_content(b) {
                    Some(d) => Some(Locatable { icao: d.0, df17: false, alt_ft: d.1 }),
                    None => None,
                }
            } else if df == 11 {
                match crate::modes::decode::df11_content(b) {
                    Some(i) => Some(Locatable { icao: i, df17: false, alt_ft: None }),
                    None => None,
                }
            } else {
                None
            },
        },
    }
}

/// Reads a frame to locate; see `locatable`.
pub fn read_locatable(hex: &str, mlat_adsb: bool) -> (r: Option<Locatable>)
    ensures
        r == locatable(hex@, mlat_adsb),
{
    let b = match hex_decode(hex) {
        Some(b) => b,
        None => {
            return None;
        },
    };
    let f = b.as_slice();
    match df_of(f) {
        None => None,
        Some(df) => {
            if df == 17 {
                if !mlat_adsb {
                    return None;
                }
                match parse_df17_airborne(f) {
                    Some(d) => Some(Locatable { icao: d.icao, df17: true, alt_ft: None }),
                    None => None,
                }
            } else if df == 4 {
                match parse_df4(f) {
                    Some(d) => Some(Locatable { icao: d.0, df17: false, alt_ft: d.1 }),
                    None => None,
                }
            } else if df == 11 {
                match parse_df11(f) {
                    Some(i) => Some(Locatable { icao: i, df17: false, alt_ft: None }),
                    None => None,
                }
            } else {
                None
            }
        },
    }
}

/// One receiver's report of a sync pair: its slot and the corrected transmit
/// times of the even and the odd frame.
#[derive(Debug, Clone, Copy, PartialEq, Eq, Structural)]
pub struct Report {
    pub rx: usize,
    pub te: Reading,
    pub to: Reading,
}

/// A sync point as a mathematical value.
pub struct SyncPointView {
    pub em: Seq<char>,
    pub om: Seq<char>,
    pub created: u64,
    pub reporters: Seq<Report>,
}

#[derive(Debug)]
struct SyncPoint {
    em: String,
    om: String,
    created: u64,
    reporters: Vec<Report>,
}

impl View for SyncPoint {
    type V = SyncPointView;

    closed spec fn view(&self) -> SyncPointView {
        SyncPointView {
            em: self.em@,
            om: self.om@,
            created: self.created,
            reporters: self.reporters@,
        }
    }
}

spec fn points(v: Seq<SyncPoint>) -> Seq<SyncPointView> {
    v.map_values(|p: SyncPoint| p@)
}

/// The place of a pair of frames among the first `n` sync points.
pub open spec fn sync_place(t: Seq<SyncPointView>, em: Seq<char>, om: Seq<char>, n: int) -> Option<
    int,
>
    decreases n,
{
    if n <= 0 {
        None
    } else if t[n - 1].em == em && t[n - 1].om == om {
        Some(n - 1)
    } else {
        sync_place(t, em, om, n - 1)
    }
}

/// The reporters of a pair of frames so far.
pub open spec fn reporters_of(t: Seq<SyncPointView>, em: Seq<char>, om: Seq<char>) -> Seq<Report> {
    match sync_place(t, em, om, t.len() as int) {
        Some(i) => t[i].reporters,
        None => seq![],
    }
}

/// The sync points after a report: the pair gets a sync point, and the report
/// joins it unless it has as many as the limit.
pub open spec fn reported(
    t: Seq<SyncPointView>,
    em: Seq<char>,
    om: Seq<char>,
    r: Report,
    limit: usize,
    now: u64,
) -> Seq<SyncPointView> {
    match sync_place(t, em, om, t.len() as int) {
        Some(i) => if t[i].reporters.len() >= limit {
            t
        } else {
            t.update(i, SyncPointView { reporters: t[i].reporters.push(r), ..t[i] })
        },
        None => t.push(SyncPointView { em, om, created: now, reporters: seq![r] }),
    }
}

/// The earlier reports that a report is compared with: none if the sync point is
/// full.
pub open spec fn company(
    t: Seq<SyncPointView>,
    em: Seq<char>,
    om: Seq<char>,
    limit: usize,
) -> Seq<Report> {
    let others = reporters_of(t, em, om);
    if others.len() >= limit {
        seq![]
    } else {
        others
    }
}

/// The sync points that are still young.
pub open spec fn young(t: Seq<SyncPointView>, now: u64) -> Seq<SyncPointView>
    decreases t.len(),
{
    if t.len() == 0 {
        seq![]
    } else {
        let rest = young(t.drop_last(), now);
        if crate::client::engine::elapsed(now, t.last().created) < SYNC_LIFETIME_NS {
            rest.push(t.last())
        } else {
            rest
        }
    }
}

/// The open sync points.
#[derive(Debug)]
pub struct SyncPoints {
    points: Vec<SyncPoint>,
}

impl View for SyncPoints {
    type V = Seq<SyncPointView>;

    closed spec fn view(&self) -> Seq<SyncPointView> {
        points(self.points@)
    }
}

impl SyncPoints {
    pub fn new() -> (r: Self)
        ensures
            r@ == Seq::<SyncPointView>::empty(),
    {
        let t = SyncPoints { points: Vec::new() };
        assert(t@ =~= seq![]);
        t
    }

    /// Enters a report and returns the earlier reports of the same pair of frames. A
    /// sync point takes reports up to a limit.
    pub fn report(&mut self, em: &str, om: &str, r: Report, limit: usize, now: u64) -> (others: Vec<
        Report,
    >)
        ensures
            final(self)@ == reported(old(self)@, em@, om@, r, limit, now),
            others@ == company(old(self)@, em@, om@, limit),
    {
        let ghost t = self@;
        let mut i: usize = self.points.len();
        let mut found: Option<usize> = None;
        while i > 0 && found.is_none()
            invariant
                t == self@,
                t.len() == self.points@.len(),
                i <= t.len(),
                match found {
                    Some(k) => k < t.len() && sync_place(t, em@, om@, t.len() as int) == Some(
                        k as int,
                    ),
                    None => sync_place(t, em@, om@, t.len() as int) == sync_place(
                        t,
                        em@,
                        om@,
                        i as int,
                    ),
                },
            decreases i, (if found is None { 1int } else { 0 }),
        {
            assert(t[i - 1] == self.points@[i - 1]@);
            if same_text(self.points[i - 1].em.as_str(), em) && same_text(
                self.points[i - 1].om.as_str(),
                om,
            ) {
                found = Some(i - 1);
            } else {
                i = i - 1;
            }
        }
        match found {
            Some(k) => {
                assert(t[k as int] == self.points@[k as int]@);
                if self.points[k].reporters.len() >= limit {
                    return Vec::new();
                }
                let mut others: Vec<Report> = Vec::new();
                let mut j: usize = 0;
                while j < self.points[k].reporters.len()
                    invariant
                        k < self.points@.len(),
                        j <= self.points@[k as int].reporters@.len(),
                        others@ == self.points@[k as int].reporters@.take(j as int),
                    decreases self.points@[k as int].reporters@.len() - j,
                {
                    let o = self.points[k].reporters[j];
                    others.push(o);
                    assert(others@ =~= self.points@[k as int].reporters@.take(j + 1));
                    j = j + 1;
                }
                assert(others@ =~= t[k as int].reporters);
                self.points[k].reporters.push(r);
                assert(self@ =~= reported(t, em@, om@, r, limit, now));
                others
            },
            None => {
                let mut reporters: Vec<Report> = Vec::new();
                reporters.push(r);
                self.points.push(
                    SyncPoint { em: em.to_owned(), om: om.to_owned(), created: now, reporters },
                );
                assert(reporters@ =~= seq![r]);
                assert(self@ =~= reported(t, em@, om@, r, limit, now));
                let none: Vec<Report> = Vec::new();
                assert(none@ =~= company(t, em@, om@, limit));
                none
            },
        }
    }

    /// Drops the sync points that are too old.
    pub fn expire(&mut self, now: u64)
        ensures
            final(self)@ == young(old(self)@, now),
    {
        let ghost t = self@;
        let ghost mut done: int = 0;
        let mut i: usize = 0;
        assert(young(t.take(0), now) + t.skip(0) =~= t);
        while i < self.points.len()
            invariant
                t == old(self)@,
                0 <= done <= t.len(),
                i == young(t.take(done), now).len(),
                i <= self.points@.len(),
                self@ == young(t.take(done), now) + t.skip(done),
            decreases t.len() - done,
        {
            let ghost head = young(t.take(done), now);
            let ghost raw = self.points@;
            assert(points(raw) == head + t.skip(done));
            assert(points(raw).len() == raw.len());
            assert(done < t.len());
            assert((head + t.skip(done))[i as int] == t[done]);
            assert(points(raw)[i as int] == raw[i as int]@);
            assert(t.take(done + 1).drop_last() =~= t.take(done));
            assert(t.take(done + 1).last() == t[done]);
            if now.saturating_sub(self.points[i].created) < SYNC_LIFETIME_NS {
                assert(head + t.skip(done) =~= head.push(t[done]) + t.skip(done + 1));
                i = i + 1;
            } else {
                self.points.remove(i);
                assert(points(self.points@) =~= points(raw).remove(i as int));
                assert(points(raw).remove(i as int) =~= head + t.skip(done + 1));
            }
            proof {
                done = done + 1;
            }
        }
        proof {
            assert(self@.len() == self.points@.len());
            assert(t.skip(done).len() == 0);
            assert(t.take(done) =~= t);
            assert(young(t, now) + t.skip(done) =~= young(t, now));
        }
    }
}

/// One arrival of a frame: the receiver's slot, the arrival time in its clock, and
/// the output clock when the message was read.
#[derive(Debug, Clone, Copy, PartialEq, Eq, Structural)]
pub struct Arrival {
    pub rx: usize,
    pub t_s: Reading,
    pub at_scaled: Reading,
}

/// A group as a mathematical value.
pub struct GroupView {
    pub key: Seq<char>,
    pub created: u64,
    pub icao: Icao,
    pub df17: bool,
    pub entries: Seq<Arrival>,
}

/// Arrivals of identical frames across receivers.
#[derive(Debug)]
pub struct Group {
    pub key: String,
    pub created: u64,
    pub icao: Icao,
    pub df17: bool,
    pub entries: Vec<Arrival>,
}

impl View for Group {
    type V = GroupView;

    open spec fn view(&self) -> GroupView {
        GroupView {
            key: self.key@,
            created: self.created,
            icao: self.icao,
            df17: self.df17,
            entries: self.entries@,
        }
    }
}

/// The views of a run of groups.
pub open spec fn group_views(v: Seq<Group>) -> Seq<GroupView> {
    v.map_values(|g: Group| g@)
}

/// The place of a frame text among the first `n` groups.
pub open spec fn group_place(t: Seq<GroupView>, key: Seq<char>, n: int) -> Option<int>
    decreases n,
{
    if n <= 0 {
        None
    } else if t[n - 1].key == key {
        Some(n - 1)
    } else {
        group_place(t, key, n - 1)
    }
}

/// The groups after an arrival: it joins the group of its frame text, or starts
/// one.
pub open spec fn arrived(
    t: Seq<GroupView>,
    key: Seq<char>,
    frame: Locatable,
    a: Arrival,
    now: u64,
) -> Seq<GroupView> {
    match group_place(t, key, t.len() as int) {
        Some(i) => t.update(i, GroupView { entries: t[i].entries.push(a), ..t[i] }),
        None => t.push(
            GroupView {
                key,
                created: now,
                icao: frame.icao,
                df17: frame.df17,
                entries: seq![a],
            },
        ),
    }
}

/// The group's window has passed.
pub open spec fn is_ready(g: GroupView, now: u64, window_ns: u64) -> bool {
    crate::client::engine::elapsed(now, g.created) >= window_ns
}

/// The groups whose window has passed (`ready`), or the others, in order.
pub open spec fn by_ready(t: Seq<GroupView>, now: u64, window_ns: u64, ready: bool) -> Seq<
    GroupView,
>
    decreases t.len(),
{
    if t.len() == 0 {
        seq![]
    } else {
        let rest = by_ready(t.drop_last(), now, window_ns, ready);
        if is_ready(t.last(), now, window_ns) == ready {
            rest.push(t.last())
        } else {
            rest
        }
    }
}

/// The open groups.
#[derive(Debug)]
pub struct Groups {
    groups: Vec<Group>,
}

impl View for Groups {
    type V = Seq<GroupView>;

    closed spec fn view(&self) -> Seq<GroupView> {
        group_views(self.groups@)
    }
}

impl Groups {
    pub fn new() -> (r: Self)
        ensures
            r@ == Seq::<GroupView>::empty(),
    {
        let t = Groups { groups: Vec::new() };
        assert(t@ =~= seq![]);
        t
    }

    /// Enters an arrival of a frame.
    pub fn enter(&mut self, key: &str, frame: Locatable, a: Arrival, now: u64)
        ensures
            final(self)@ == arrived(old(self)@, key@, frame, a, now),
    {
        let ghost t = self@;
        let mut i: usize = self.groups.len();
        while i > 0
            invariant
                t == self@,
                t == old(self)@,
                t.len() == self.groups@.len(),
                i <= t.len(),
                group_place(t, key@, t.len() as int) == group_place(t, key@, i as int),
            decreases i,
        {
            assert(t[i - 1] == self.groups@[i - 1]@);
            if same_text(self.groups[i - 1].key.as_str(), key) {
                self.groups[i - 1].entries.push(a);
                assert(self@ =~= arrived(t, key@, frame, a, now));
                return ;
            }
            i = i - 1;
        }
        let mut entries: Vec<Arrival> = Vec::new();
        entries.push(a);
        assert(entries@ =~= seq![a]);
        self.groups.push(
            Group { key: key.to_owned(), created: now, icao: frame.icao, df17: frame.df17, entries },
        );
        assert(self@ =~= arrived(t, key@, frame, a, now));
    }

    /// Takes out the groups whose window has passed.
    pub fn take_ready(&mut self, now: u64, window_ns: u64) -> (r: Vec<Group>)
        ensures
            group_views(r@) == by_ready(old(self)@, now, window_ns, true),
            final(self)@ == by_ready(old(self)@, now, window_ns, false),
    {
        let ghost t = self@;
        let ghost mut done: int = 0;
        let mut out: Vec<Group> = Vec::new();
        let mut i: usize = 0;
        assert(by_ready(t.take(0), now, window_ns, false) + t.skip(0) =~= t);
        assert(group_views(out@) =~= by_ready(t.take(0), now, window_ns, true));
        while i < self.groups.len()
            invariant
                t == old(self)@,
                0 <= done <= t.len(),
                i == by_ready(t.take(done), now, window_ns, false).len(),
                i <= self.groups@.len(),
                self@ == by_ready(t.take(done), now, window_ns, false) + t.skip(done),
                group_views(out@) == by_ready(t.take(done), now, window_ns, true),
            decreases t.len() - done,
        {
            let ghost head = by_ready(t.take(done), now, window_ns, false);
            let ghost raw = self.groups@;
            assert(group_views(raw) == head + t.skip(done));
            assert(group_views(raw).len() == raw.len());
            assert(done < t.len());
            assert((head + t.skip(done))[i as int] == t[done]);
            assert(group_views(raw)[i as int] == raw[i as int]@);
            assert(t.take(done + 1).drop_last() =~= t.take(done));
            assert(t.take(done + 1).last() == t[done]);
            if now.saturating_sub(self.groups[i].created) >= window_ns {
                let ghost so_far = group_views(out@);
                let g = self.groups.remove(i);
                assert(g@ == t[done]);
                out.push(g);
                assert(group_views(out@) =~= so_far.push(t[done]));
                assert(group_views(self.groups@) =~= group_views(raw).remove(i as int));
                assert(group_views(raw).remove(i as int) =~= head + t.skip(done + 1));
            } else {
                assert(head + t.skip(done) =~= head.push(t[done]) + t.skip(done + 1));
                i = i + 1;
            }
            proof {
                done = done + 1;
            }
        }
        proof {
            assert(self@.len() == self.groups@.len());
            assert(t.skip(done).len() == 0);
            assert(t.take(done) =~= t);
            assert(by_ready(t, now, window_ns, false) + t.skip(done) =~= by_ready(
                t,
                now,
                window_ns,
                false,
            ));
        }
        out
    }
}

// ----------------------------------------------------------- what groups keep

/// How many arrivals the groups hold together.
pub open spec fn held(t: Seq<GroupView>) -> nat
    decreases t.len(),
{
    if t.len() == 0 {
        0
    } else {
        held(t.drop_last()) + t.last().entries.len()
    }
}

/// All arrivals of a frame text, in the order of the groups.
pub open spec fn arrivals_of(t: Seq<GroupView>, key: Seq<char>) -> Seq<Arrival>
    decreases t.len(),
{
    if t.len() == 0 {
        seq![]
    } else if t.last().key == key {
        arrivals_of(t.drop_last(), key) + t.last().entries
    } else {
        arrivals_of(t.drop_last(), key)
    }
}

proof fn lemma_group_place(t: Seq<GroupView>, key: Seq<char>, n: int)
    requires
        0 <= n <= t.len(),
    ensures
        match group_place(t, key, n) {
            Some(i) => 0 <= i < n && t[i].key == key && forall|j: int|
                i < j < n ==> (#[trigger] t[j]).key != key,
            None => forall|j: int| 0 <= j < n ==> (#[trigger] t[j]).key != key,
        },
    decreases n,
{
    if n > 0 && t[n - 1].key != key {
        lemma_group_place(t, key, n - 1);
    }
}

/// A table in which one group got one more arrival at its end.
proof fn lemma_one_more(
    t: Seq<GroupView>,
    u: Seq<GroupView>,
    i: int,
    a: Arrival,
    k: Seq<char>,
)
    requires
        0 <= i < t.len(),
        u.len() == t.len(),
        forall|j: int| 0 <= j < t.len() && j != i ==> #[trigger] u[j] == t[j],
        u[i].key == t[i].key,
        u[i].entries == t[i].entries.push(a),
        forall|j: int| i < j < t.len() ==> (#[trigger] t[j]).key != t[i].key,
    ensures
        held(u) == held(t) + 1,
        arrivals_of(u, k) == (if k == t[i].key {
            arrivals_of(t, k).push(a)
        } else {
            arrivals_of(t, k)
        }),
    decreases t.len(),
{
    let (t0, u0) = (t.drop_last(), u.drop_last());
    if i == t.len() - 1 {
        assert(u0 =~= t0);
        assert(arrivals_of(t0, k) + t[i].entries.push(a) =~= (arrivals_of(t0, k)
            + t[i].entries).push(a));
    } else {
        assert forall|j: int| 0 <= j < t0.len() && j != i implies #[trigger] u0[j] == t0[j] by {
            assert(u[j] == t[j]);
        }
        assert forall|j: int| i < j < t0.len() implies (#[trigger] t0[j]).key != t0[i].key by {
            assert(t[j].key != t[i].key);
        }
        lemma_one_more(t0, u0, i, a, k);
        assert(u[t.len() - 1] == t[t.len() - 1]);
        assert(t[t.len() - 1].key != t[i].key);
    }
}

/// No arrival is lost and none is counted twice, whatever the groups hold: each makes the
/// arrivals of its own frame text longer by itself, at the end, and leaves those of every
/// other text alone.
pub proof fn law_arrivals_are_kept(
    t: Seq<GroupView>,
    key: Seq<char>,
    frame: Locatable,
    a: Arrival,
    now: u64,
    other: Seq<char>,
)
    ensures
        held(arrived(t, key, frame, a, now)) == held(t) + 1,
        arrivals_of(arrived(t, key, frame, a, now), key) == arrivals_of(t, key).push(a),
        other != key ==> arrivals_of(arrived(t, key, frame, a, now), other) == arrivals_of(
            t,
            other,
        ),
{
    let u = arrived(t, key, frame, a, now);
    lemma_group_place(t, key, t.len() as int);
    match group_place(t, key, t.len() as int) {
        Some(i) => {
            lemma_one_more(t, u, i, a, key);
            lemma_one_more(t, u, i, a, other);
        },
        None => {
            assert(u.drop_last() =~= t);
            assert(arrivals_of(t, key) + seq![a] =~= arrivals_of(t, key).push(a));
        },
    }
}

/// One message that is grouped: the frame's text and what it says, the arrival and when
/// it came.
pub ghost struct Entered {
    pub key: Seq<char>,
    pub frame: Locatable,
    pub arrival: Arrival,
    pub now: u64,
}

/// The groups after a run of messages.
pub open spec fn all_arrived(t: Seq<GroupView>, run: Seq<Entered>) -> Seq<GroupView>
    decreases run.len(),
{
    if run.len() == 0 {
        t
    } else {
        let x = run.last();
        arrived(all_arrived(t, run.drop_last()), x.key, x.frame, x.arrival, x.now)
    }
}

/// The arrivals of one frame text in a run of messages.
pub open spec fn of_text(run: Seq<Entered>, key: Seq<char>) -> Seq<Arrival>
    decreases run.len(),
{
    if run.len() == 0 {
        seq![]
    } else if run.last().key == key {
        of_text(run.drop_last(), key).push(run.last().arrival)
    } else {
        of_text(run.drop_last(), key)
    }
}

/// Between two sweeps a frame text's arrivals are exactly those that came, all of them
/// and in order.
pub proof fn law_groups_hold_all_arrivals(t: Seq<GroupView>, run: Seq<Entered>, key: Seq<char>)
    ensures
        arrivals_of(all_arrived(t, run), key) == arrivals_of(t, key) + of_text(run, key),
        held(all_arrived(t, run)) == held(t) + run.len(),
    decreases run.len(),
{
    if run.len() == 0 {
        assert(arrivals_of(t, key) + of_text(run, key) =~= arrivals_of(t, key));
    } else {
        let x = run.last();
        law_groups_hold_all_arrivals(t, run.drop_last(), key);
        law_arrivals_are_kept(
            all_arrived(t, run.drop_last()),
            x.key,
            x.frame,
            x.arrival,
            x.now,
            key,
        );
        assert(arrivals_of(t, key) + of_text(run, key) =~= if x.key == key {
            (arrivals_of(t, key) + of_text(run.drop_last(), key)).push(x.arrival)
        } else {
            arrivals_of(t, key) + of_text(run.drop_last(), key)
        });
    }
}

/// No two groups are of one frame text, and none is empty.
pub open spec fn one_group_each(t: Seq<GroupView>) -> bool {
    &&& forall|i: int, j: int|
        0 <= i < j < t.len() ==> (#[trigger] t[i]).key != (#[trigger] t[j]).key
    &&& forall|i: int| 0 <= i < t.len() ==> (#[trigger] t[i]).entries.len() > 0
}

/// Arrivals keep one group for each frame text. What a group was started with stays; a new
/// group comes last and is that of the frame, from now on.
pub proof fn law_one_group_per_text(
    t: Seq<GroupView>,
    key: Seq<char>,
    frame: Locatable,
    a: Arrival,
    now: u64,
)
    requires
        one_group_each(t),
    ensures
        ({
            let u = arrived(t, key, frame, a, now);
            &&& one_group_each(u)
            &&& t.len() <= u.len() <= t.len() + 1
            &&& forall|i: int|
                0 <= i < t.len() ==> (#[trigger] u[i]).key == t[i].key && u[i].created
                    == t[i].created && u[i].icao == t[i].icao && u[i].df17 == t[i].df17
            &&& u.len() == t.len() <==> (exists|i: int|
                0 <= i < t.len() && (#[trigger] t[i]).key == key)
            &&& u.len() > t.len() ==> u.last().key == key && u.last().created == now
                && u.last().icao == frame.icao && u.last().df17 == frame.df17
                && u.last().entries.len() == 1
        }),
{
    lemma_group_place(t, key, t.len() as int);
}

/// A sweep parts the groups: each one goes out or stays, as it is and in order, by whether
/// its window has passed.
pub proof fn law_sweep_loses_nothing(t: Seq<GroupView>, now: u64, window_ns: u64, g: GroupView)
    ensures
        by_ready(t, now, window_ns, true).len() + by_ready(t, now, window_ns, false).len()
            == t.len(),
        held(by_ready(t, now, window_ns, true)) + held(by_ready(t, now, window_ns, false)) == held(
            t,
        ),
        by_ready(t, now, window_ns, true).contains(g) <==> t.contains(g)
            && crate::client::engine::elapsed(now, g.created) >= window_ns,
        by_ready(t, now, window_ns, false).contains(g) <==> t.contains(g)
            && crate::client::engine::elapsed(now, g.created) < window_ns,
    decreases t.len(),
{
    if t.len() > 0 {
        let r = t.drop_last();
        law_sweep_loses_nothing(r, now, window_ns, g);
        let (y0, n0) = (by_ready(r, now, window_ns, true), by_ready(r, now, window_ns, false));
        lemma_contains_push(r, t.last(), g);
        assert(r.push(t.last()) =~= t);
        lemma_contains_push(y0, t.last(), g);
        lemma_contains_push(n0, t.last(), g);
        assert(y0.push(t.last()).drop_last() =~= y0);
        assert(n0.push(t.last()).drop_last() =~= n0);
    }
}

proof fn lemma_contains_push(s: Seq<GroupView>, x: GroupView, g: GroupView)
    ensures
        s.push(x).contains(g) <==> s.contains(g) || g == x,
{
    let t = s.push(x);
    if s.contains(g) {
        let i = choose|i: int| 0 <= i < s.len() && s[i] == g;
        assert(t[i] == g);
    }
    assert(t[s.len() as int] == x);
    if t.contains(g) {
        let i = choose|i: int| 0 <= i < t.len() && t[i] == g;
        if i < s.len() {
            assert(s[i] == g);
        }
    }
}

// ------------------------------------------------------ what sync points keep

proof fn lemma_sync_place(t: Seq<SyncPointView>, em: Seq<char>, om: Seq<char>, n: int)
    requires
        0 <= n <= t.len(),
    ensures
        match sync_place(t, em, om, n) {
            Some(i) => 0 <= i < n && t[i].em == em && t[i].om == om && forall|j: int|
                i < j < n ==> (#[trigger] t[j]).em != em || t[j].om != om,
            None => forall|j: int| 0 <= j < n ==> (#[trigger] t[j]).em != em || t[j].om != om,
        },
    decreases n,
{
    if n > 0 && !(t[n - 1].em == em && t[n - 1].om == om) {
        lemma_sync_place(t, em, om, n - 1);
    }
}

/// No two sync points are of one pair of frames.
pub open spec fn one_point_each(t: Seq<SyncPointView>) -> bool {
    forall|i: int, j: int|
        0 <= i < j < t.len() ==> (#[trigger] t[i]).em != (#[trigger] t[j]).em || t[i].om != t[j].om
}

/// A report joins those of its pair of frames, behind all that came before, up to the
/// limit; it is compared with exactly those. The reports of every other pair stay.
pub proof fn law_reports_join_their_pair(
    t: Seq<SyncPointView>,
    em: Seq<char>,
    om: Seq<char>,
    r: Report,
    limit: usize,
    now: u64,
    i: int,
)
    requires
        one_point_each(t),
        0 < limit,
        0 <= i < t.len(),
    ensures
        ({
            let u = reported(t, em, om, r, limit, now);
            &&& one_point_each(u)
            &&& u[i].em == t[i].em && u[i].om == t[i].om && u[i].created == t[i].created
            &&& t[i].em != em || t[i].om != om ==> u[i] == t[i]
            &&& t[i].em == em && t[i].om == om ==> {
                &&& u.len() == t.len()
                &&& t[i].reporters.len() < limit ==> u[i].reporters == t[i].reporters + seq![r]
                    && company(t, em, om, limit) == t[i].reporters
                &&& t[i].reporters.len() >= limit ==> u[i].reporters == t[i].reporters && company(
                    t,
                    em,
                    om,
                    limit,
                ) == Seq::<Report>::empty()
            }
        }),
{
    lemma_sync_place(t, em, om, t.len() as int);
    if let Some(k) = sync_place(t, em, om, t.len() as int) {
        if t[i].em == em && t[i].om == om {
            assert(i == k) by {
                if i < k {
                    assert(t[i].em != t[k].em || t[i].om != t[k].om);
                }
            }
            assert(t[i].reporters + seq![r] =~= t[i].reporters.push(r));
        }
    }
}

/// The first report of a pair of frames opens its sync point, behind the others, and has
/// nothing to be compared with.
pub proof fn law_first_report_opens_a_point(
    t: Seq<SyncPointView>,
    em: Seq<char>,
    om: Seq<char>,
    r: Report,
    limit: usize,
    now: u64,
)
    requires
        forall|i: int| 0 <= i < t.len() ==> (#[trigger] t[i]).em != em || t[i].om != om,
    ensures
        ({
            let u = reported(t, em, om, r, limit, now);
            &&& u.len() == t.len() + 1
            &&& u.drop_last() == t
            &&& u.last().em == em && u.last().om == om && u.last().created == now
            &&& u.last().reporters == seq![r]
            &&& company(t, em, om, limit).len() == 0
        }),
{
    lemma_sync_place(t, em, om, t.len() as int);
    assert(reported(t, em, om, r, limit, now).drop_last() =~= t);
}

/// A sync point stays for as long as it is younger than four seconds, as it is, and no
/// longer.
pub proof fn law_sync_points_live_four_seconds(t: Seq<SyncPointView>, now: u64, p: SyncPointView)
    ensures
        young(t, now).len() <= t.len(),
        young(t, now).contains(p) <==> t.contains(p) && now < p.created + 4_000_000_000,
    decreases t.len(),
{
    if t.len() > 0 {
        let r = t.drop_last();
        law_sync_points_live_four_seconds(r, now, p);
        let y = young(r, now);
        assert(r.push(t.last()) =~= t);
        lemma_contains_point(r, t.last(), p);
        lemma_contains_point(y, t.last(), p);
    }
}

proof fn lemma_contains_point(s: Seq<SyncPointView>, x: SyncPointView, g: SyncPointView)
    ensures
        s.push(x).contains(g) <==> s.contains(g) || g == x,
{
    let t = s.push(x);
    if s.contains(g) {
        let i = choose|i: int| 0 <= i < s.len() && s[i] == g;
        assert(t[i] == g);
    }
    assert(t[s.len() as int] == x);
    if t.contains(g) {
        let i = choose|i: int| 0 <= i < t.len() && t[i] == g;
        if i < s.len() {
            assert(s[i] == g);
        }
    }
}

/// The reporters of a pair of frames after one more report: it stands behind the others, where
/// they are fewer than the limit.
pub proof fn law_reporters_grow(
    t: Seq<SyncPointView>,
    em: Seq<char>,
    om: Seq<char>,
    r: Report,
    limit: usize,
    now: u64,
)
    requires
        0 < limit,
    ensures
        reporters_of(reported(t, em, om, r, limit, now), em, om) == (if reporters_of(
            t,
            em,
            om,
        ).len() < limit {
            reporters_of(t, em, om).push(r)
        } else {
            reporters_of(t, em, om)
        }),
{
    let u = reported(t, em, om, r, limit, now);
    lemma_sync_place(t, em, om, t.len() as int);
    lemma_sync_place(u, em, om, u.len() as int);
    match sync_place(t, em, om, t.len() as int) {
        Some(i) => {
            let k = sync_place(u, em, om, u.len() as int)->0;
            assert(u[i].em == em && u[i].om == om);
            if k < i {
                assert(u[i].em != em || u[i].om != om);
            } else if i < k {
                assert(t[k].em == u[k].em && t[k].om == u[k].om);
                assert(t[k].em != em || t[k].om != om);
            }
        },
        None => {
            assert(u[t.len() as int].em == em);
            let k = sync_place(u, em, om, u.len() as int)->0;
            if k < t.len() {
                assert(u[t.len() as int].em != em || u[t.len() as int].om != om);
            }
            assert(seq![r] =~= Seq::<Report>::empty().push(r));
        },
    }
}

/// The even and the odd frame of a pair each say what they are: both decode, to one aircraft,
/// and what is taken from each is its own. The altitude is that of the even one.
pub proof fn law_pair_is_even_and_odd(em: Seq<char>, om: Seq<char>)
    ensures
        pair_of(em, om) matches Some(p) ==> {
            &&& position_of(em) is Some && position_of(om) is Some
            &&& !position_of(em)->0.odd && position_of(om)->0.odd
            &&& p.icao == position_of(em)->0.icao && p.icao == position_of(om)->0.icao
            &&& p.even == (position_of(em)->0.cpr_lat, position_of(em)->0.cpr_lon)
            &&& p.odd == (position_of(om)->0.cpr_lat, position_of(om)->0.cpr_lon)
            &&& p.alt_ft == position_of(em)->0.alt_ft
        },
        pair_of(em, om) is Some ==> pair_of(om, em) is None,
        pair_of(em, em) is None,
{
}

/// A position can be located where aircraft that broadcast are located too, under its own
/// address; then it carries no altitude into the group.
pub proof fn law_position_is_locatable(hex: Seq<char>)
    requires
        position_of(hex) is Some,
    ensures
        locatable(hex, true) == Some(
            Locatable { icao: position_of(hex)->0.icao, df17: true, alt_ft: None },
        ),
        locatable(hex, false) is None,
{
}

/// A sweep keeps the order of the groups: what it takes of two runs is what it takes of the one
/// and then of the other, and so is what it leaves.
pub proof fn law_sweep_keeps_order(
    a: Seq<GroupView>,
    b: Seq<GroupView>,
    now: u64,
    window_ns: u64,
    ready: bool,
)
    ensures
        by_ready(a + b, now, window_ns, ready) == by_ready(a, now, window_ns, ready) + by_ready(
            b,
            now,
            window_ns,
            ready,
        ),
    decreases b.len(),
{
    if b.len() == 0 {
        assert(a + b =~= a);
        assert(by_ready(a, now, window_ns, ready) + by_ready(b, now, window_ns, ready) =~= by_ready(
            a,
            now,
            window_ns,
            ready,
        ));
    } else {
        law_sweep_keeps_order(a, b.drop_last(), now, window_ns, ready);
        assert((a + b).drop_last() =~= a + b.drop_last());
        assert(by_ready(a + b, now, window_ns, ready) =~= by_ready(a, now, window_ns, ready)
            + by_ready(b, now, window_ns, ready));
    }
}

/// Dropping old sync points keeps the order of the others.
pub proof fn law_expiry_keeps_order(a: Seq<SyncPointView>, b: Seq<SyncPointView>, now: u64)
    ensures
        young(a + b, now) == young(a, now) + young(b, now),
    decreases b.len(),
{
    if b.len() == 0 {
        assert(a + b =~= a);
        assert(young(a, now) + young(b, now) =~= young(a, now));
    } else {
        law_expiry_keeps_order(a, b.drop_last(), now);
        assert((a + b).drop_last() =~= a + b.drop_last());
        assert(young(a + b, now) =~= young(a, now) + young(b, now));
    }
}

} // verus!
