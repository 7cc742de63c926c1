//! The receiver table. Slot indexes are reused across reconnects; the generation
//! tells stale holders of a slot apart.

use vstd::prelude::*;

use crate::reading::Reading;
use crate::text::same_text;

verus! {

/// Geodetic position: degrees and meters above the ellipsoid.
#[derive(Debug, Clone, Copy, PartialEq, Eq, Structural)]
pub struct Geodetic {
    pub lat_deg: Reading,
    pub lon_deg: Reading,
    pub alt_m: Reading,
}

/// Earth-centered, earth-fixed position, meters.
#[derive(Debug, Clone, Copy, PartialEq, Eq, Structural)]
pub struct Ecef {
    pub x: Reading,
    pub y: Reading,
    pub z: Reading,
}

/// Where a receiver stands and how its clock behaves.
#[derive(Debug, Clone, Copy, PartialEq, Eq, Structural)]
pub struct Site {
    pub geo: Geodetic,
    pub ecef: Ecef,
    pub freq_hz: u64,
    pub gps: bool,
    /// Expected timing error (1 sigma), seconds.
    pub jitter_s: Reading,
}

/// A receiver that asks for a slot.
#[derive(Debug)]
pub struct ReceiverInfo {
    pub user: String,
    pub site: Site,
}

/// A receiver slot plus the generation it was issued with.
#[derive(Debug, Clone, Copy, PartialEq, Eq, Structural)]
pub struct RxRef {
    pub idx: usize,
    pub gen: u32,
}

/// Learned systematic timing error of a receiver.
#[derive(Debug, Clone, Copy, PartialEq, Eq, Structural)]
pub struct RxBias {
    pub bias_s: Reading,
    /// Scatter of the residuals around the bias.
    pub mad_s: Reading,
    pub n: u32,
}

/// The bias of a receiver that nothing is known of.
pub open spec fn no_bias() -> RxBias {
    RxBias { bias_s: Reading(0), mad_s: Reading(0), n: 0 }
}

/// One slot as a mathematical value.
pub struct Slot {
    pub user: Seq<char>,
    pub site: Site,
    pub gen: u32,
    pub alive: bool,
    pub bias: RxBias,
}

/// The table as a mathematical value: the slots, and the free ones as a stack.
pub struct Slots {
    pub slots: Seq<Slot>,
    pub free: Seq<usize>,
}

/// The reference names the current holder of its slot.
pub open spec fn is_live(t: Slots, r: RxRef) -> bool {
    r.idx < t.slots.len() && t.slots[r.idx as int].alive && t.slots[r.idx as int].gen == r.gen
}

/// The free stack holds every dead slot once, and no user holds two slots.
pub open spec fn slots_ok(t: Slots) -> bool {
    &&& forall|k: int|
        0 <= k < t.free.len() ==> (#[trigger] t.free[k]) < t.slots.len()
            && !t.slots[t.free[k] as int].alive
    &&& forall|j: int, k: int|
        0 <= j < k < t.free.len() ==> #[trigger] t.free[j] != #[trigger] t.free[k]
    &&& forall|i: int|
        0 <= i < t.slots.len() && !(#[trigger] t.slots[i]).alive ==> t.free.contains(i as usize)
    &&& forall|i: int, j: int|
        0 <= i < j < t.slots.len() && (#[trigger] t.slots[i]).alive && (
        #[trigger] t.slots[j]).alive ==> t.slots[i].user != t.slots[j].user
    &&& t.slots.len() <= usize::MAX
}

/// The slot that a user holds among the first `n`.
pub open spec fn holder(t: Seq<Slot>, user: Seq<char>, n: int) -> Option<int>
    decreases n,
{
    if n <= 0 {
        None
    } else if t[n - 1].alive && t[n - 1].user == user {
        Some(n - 1)
    } else {
        holder(t, user, n - 1)
    }
}

/// The table after the holder of a slot left.
pub open spec fn vacated(t: Slots, idx: int) -> Slots {
    Slots {
        slots: t.slots.update(idx, Slot { alive: false, ..t.slots[idx] }),
        free: t.free.push(idx as usize),
    }
}

/// The table after `remove`.
pub open spec fn removed(t: Slots, r: RxRef) -> Slots {
    if is_live(t, r) {
        vacated(t, r.idx as int)
    } else {
        t
    }
}

/// The slot that a reconnecting user gives up.
pub open spec fn replaced_slot(t: Slots, user: Seq<char>) -> Option<int> {
    holder(t.slots, user, t.slots.len() as int)
}

/// The table once a reconnecting user has given up the old slot.
pub open spec fn before_add(t: Slots, user: Seq<char>) -> Slots {
    match replaced_slot(t, user) {
        Some(i) => vacated(t, i),
        None => t,
    }
}

/// The table and the reference after `add`: a free slot is reused under the next
/// generation, else the table grows.
pub open spec fn added(t: Slots, user: Seq<char>, site: Site) -> (Slots, RxRef) {
    let u = before_add(t, user);
    if u.free.len() > 0 {
        let i = u.free.last() as int;
        let g = if u.slots[i].gen == u32::MAX {
            0u32
        } else {
            (u.slots[i].gen + 1) as u32
        };
        (
            Slots {
                slots: u.slots.update(
                    i,
                    Slot { user, site, gen: g, alive: true, bias: no_bias() },
                ),
                free: u.free.drop_last(),
            },
            RxRef { idx: i as usize, gen: g },
        )
    } else {
        (
            Slots {
                slots: u.slots.push(Slot { user, site, gen: 0, alive: true, bias: no_bias() }),
                free: u.free,
            },
            RxRef { idx: u.slots.len() as usize, gen: 0 },
        )
    }
}

/// Live slots among the first `n`.
pub open spec fn live_count(t: Seq<Slot>, n: int) -> nat
    decreases n,
{
    if n <= 0 {
        0
    } else {
        live_count(t, n - 1) + (if t[n - 1].alive {
            1nat
        } else {
            0
        })
    }
}

#[derive(Debug)]
struct Entry {
    user: String,
    site: Site,
    gen: u32,
    alive: bool,
    bias: RxBias,
}

impl View for Entry {
    type V = Slot;

    closed spec fn view(&self) -> Slot {
        Slot {
            user: self.user@,
            site: self.site,
            gen: self.gen,
            alive: self.alive,
            bias: self.bias,
        }
    }
}

spec fn entries(v: Seq<Entry>) -> Seq<Slot> {
    v.map_values(|e: Entry| e@)
}

/// The receiver table.
#[derive(Debug)]
pub struct Receivers {
    slots: Vec<Entry>,
    free: Vec<usize>,
}

impl View for Receivers {
    type V = Slots;

    closed spec fn view(&self) -> Slots {
        Slots { slots: entries(self.slots@), free: self.free@ }
    }
}

proof fn lemma_holder(t: Seq<Slot>, user: Seq<char>, n: int)
    requires
        0 <= n <= t.len(),
    ensures
        match holder(t, user, n) {
            Some(i) => 0 <= i < n && t[i].alive && t[i].user == user,
            None => forall|i: int|
                0 <= i < n ==> !((#[trigger] t[i]).alive && t[i].user == user),
        },
    decreases n,
{
    if n > 0 {
        lemma_holder(t, user, n - 1);
    }
}

proof fn lemma_vacated_ok(t: Slots, idx: int)
    requires
        slots_ok(t),
        0 <= idx < t.slots.len(),
        t.slots[idx].alive,
    ensures
        slots_ok(vacated(t, idx)),
{
    let u = vacated(t, idx);
    assert forall|i: int| 0 <= i < u.slots.len() && !(#[trigger] u.slots[i]).alive implies
        u.free.contains(i as usize) by {
        if i == idx {
            assert(u.free[t.free.len() as int] == idx as usize);
        } else {
            assert(!t.slots[i].alive);
            assert(t.free.contains(i as usize));
            let k = choose|k: int| 0 <= k < t.free.len() && t.free[k] == i as usize;
            assert(u.free[k] == i as usize);
        }
    }
    assert forall|j: int, k: int| 0 <= j < k < u.free.len() implies #[trigger] u.free[j]
        != #[trigger] u.free[k] by {
        assert(u.free[j] == t.free[j]);
        assert(t.free[j] < t.slots.len() && !t.slots[t.free[j] as int].alive);
    }
    assert forall|k: int| 0 <= k < u.free.len() implies (#[trigger] u.free[k]) < u.slots.len()
        && !u.slots[u.free[k] as int].alive by {
        if k < t.free.len() {
            assert(u.free[k] == t.free[k]);
        }
    }
    assert forall|i: int, j: int|
        0 <= i < j < u.slots.len() && (#[trigger] u.slots[i]).alive && (
        #[trigger] u.slots[j]).alive implies u.slots[i].user != u.slots[j].user by {
        assert(t.slots[i].alive && t.slots[j].alive);
    }
}

impl Receivers {
    /// What holds of every receiver table; see `slots_ok`.
    pub open spec fn wf(&self) -> bool {
        slots_ok(self@)
    }

    pub fn new() -> (r: Self)
        ensures
            r.wf(),
            r@ == (Slots { slots: seq![], free: seq![] }),
    {
        let t = Receivers { slots: Vec::new(), free: Vec::new() };
        assert(t@.slots =~= seq![]);
        assert(t@.free =~= seq![]);
        t
    }

    /// The number of slots, dead ones included.
    pub fn len(&self) -> (r: usize)
        ensures
            r == self@.slots.len(),
    {
        self.slots.len()
    }

    pub fn live(&self, r: RxRef) -> (b: bool)
        ensures
            b == is_live(self@, r),
    {
        r.idx < self.slots.len() && self.slots[r.idx].alive && self.slots[r.idx].gen == r.gen
    }

    pub fn alive(&self, idx: usize) -> (b: bool)
        ensures
            b == (idx < self@.slots.len() && self@.slots[idx as int].alive),
    {
        idx < self.slots.len() && self.slots[idx].alive
    }

    pub fn site(&self, idx: usize) -> (r: Site)
        requires
            idx < self@.slots.len(),
        ensures
            r == self@.slots[idx as int].site,
    {
        self.slots[idx].site
    }

    pub fn user(&self, idx: usize) -> (r: &str)
        requires
            idx < self@.slots.len(),
        ensures
            r@ == self@.slots[idx as int].user,
    {
        self.slots[idx].user.as_str()
    }

    pub fn bias(&self, idx: usize) -> (r: RxBias)
        requires
            idx < self@.slots.len(),
        ensures
            r == self@.slots[idx as int].bias,
    {
        self.slots[idx].bias
    }

    /// Enters a newly learned bias.
    pub fn set_bias(&mut self, idx: usize, bias: RxBias)
        requires
            old(self).wf(),
            idx < old(self)@.slots.len(),
        ensures
            final(self).wf(),
            final(self)@ == (Slots {
                slots: old(self)@.slots.update(
                    idx as int,
                    Slot { bias, ..old(self)@.slots[idx as int] },
                ),
                ..old(self)@
            }),
    {
        let ghost t = self@;
        assert(t.slots[idx as int] == self.slots@[idx as int]@);
        self.slots[idx].bias = bias;
        assert(self@.slots =~= t.slots.update(
            idx as int,
            Slot { bias, ..t.slots[idx as int] },
        ));
        proof {
            lemma_same_holders(t, self@);
        }
    }

    fn find_user(&self, user: &str) -> (r: Option<usize>)
        ensures
            match r {
                Some(i) => replaced_slot(self@, user@) == Some(i as int) && i < self.slots@.len(),
                None => replaced_slot(self@, user@) is None,
            },
    {
        let mut i: usize = self.slots.len();
        while i > 0
            invariant
                i <= self.slots@.len(),
                replaced_slot(self@, user@) == holder(self@.slots, user@, i as int),
            decreases i,
        {
            assert(self@.slots[i - 1] == self.slots@[i - 1]@);
            if self.slots[i - 1].alive && same_text(self.slots[i - 1].user.as_str(), user) {
                return Some(i - 1);
            }
            i = i - 1;
        }
        None
    }

    fn vacate(&mut self, idx: usize)
        requires
            old(self).wf(),
            idx < old(self)@.slots.len(),
            old(self)@.slots[idx as int].alive,
        ensures
            final(self).wf(),
            final(self)@ == vacated(old(self)@, idx as int),
    {
        let ghost t = self@;
        assert(t.slots[idx as int] == self.slots@[idx as int]@);
        self.slots[idx].alive = false;
        self.free.push(idx);
        assert(self@.slots =~= vacated(t, idx as int).slots);
        assert(self@.free =~= vacated(t, idx as int).free);
        proof {
            lemma_vacated_ok(t, idx as int);
        }
    }

    /// Gives a receiver a slot. A reconnect of the same user replaces the old
    /// slot: real feeders leave half-open sockets behind, and the old connection's
    /// late messages fail the generation check. The slot given up is returned too.
    pub fn add(&mut self, info: ReceiverInfo) -> (r: (RxRef, Option<usize>))
        requires
            old(self).wf(),
            old(self)@.slots.len() < usize::MAX,
        ensures
            final(self).wf(),
            (final(self)@, r.0) == added(old(self)@, info.user@, info.site),
            match r.1 {
                Some(i) => replaced_slot(old(self)@, info.user@) == Some(i as int),
                None => replaced_slot(old(self)@, info.user@) is None,
            },
            is_live(final(self)@, r.0),
    {
        let ghost t = self@;
        let old_slot = self.find_user(info.user.as_str());
        proof {
            lemma_holder(t.slots, info.user@, t.slots.len() as int);
        }
        if let Some(i) = old_slot {
            self.vacate(i);
        }
        let ghost u = self@;
        assert(u == before_add(t, info.user@));
        let ghost user = info.user@;
        proof {
            lemma_no_holder(t, user);
        }
        match self.free.pop() {
            Some(i) => {
                assert(u.free[u.free.len() - 1] == i);
                assert(u.slots[i as int] == self.slots@[i as int]@);
                let g: u32 = self.slots[i].gen;
                let next: u32 = if g == 0xFFFF_FFFF {
                    0
                } else {
                    g + 1
                };
                self.slots.set(
                    i,
                    Entry {
                        user: info.user,
                        site: info.site,
                        gen: next,
                        alive: true,
                        bias: RxBias { bias_s: Reading(0), mad_s: Reading(0), n: 0 },
                    },
                );
                assert(self@.slots =~= added(t, user, info.site).0.slots);
                assert(self@.free =~= added(t, user, info.site).0.free);
                proof {
                    lemma_added_ok(t, user, info.site);
                }
                (RxRef { idx: i, gen: next }, old_slot)
            },
            None => {
                self.slots.push(
                    Entry {
                        user: info.user,
                        site: info.site,
                        gen: 0,
                        alive: true,
                        bias: RxBias { bias_s: Reading(0), mad_s: Reading(0), n: 0 },
                    },
                );
                assert(self@.slots =~= added(t, user, info.site).0.slots);
                assert(self@.free =~= added(t, user, info.site).0.free);
                proof {
                    lemma_added_ok(t, user, info.site);
                }
                (RxRef { idx: self.slots.len() - 1, gen: 0 }, old_slot)
            },
        }
    }

    /// The receiver left. A stale reference changes nothing; the result says
    /// whether the slot was freed.
    pub fn remove(&mut self, r: RxRef) -> (b: bool)
        requires
            old(self).wf(),
        ensures
            final(self).wf(),
            final(self)@ == removed(old(self)@, r),
            b == is_live(old(self)@, r),
    {
        if !self.live(r) {
            return false;
        }
        self.vacate(r.idx);
        true
    }

    pub fn live_receivers(&self) -> (r: usize)
        ensures
            r == live_count(self@.slots, self@.slots.len() as int),
    {
        let mut n: usize = 0;
        let mut i: usize = 0;
        while i < self.slots.len()
            invariant
                i <= self.slots@.len(),
                n <= i,
                n == live_count(self@.slots, i as int),
            decreases self.slots@.len() - i,
        {
            assert(self@.slots[i as int] == self.slots@[i as int]@);
            if self.slots[i].alive {
                n = n + 1;
            }
            i = i + 1;
        }
        n
    }
}

/// Changing what is learned of a receiver keeps the table in order.
proof fn lemma_same_holders(t: Slots, u: Slots)
    requires
        slots_ok(t),
        u.free == t.free,
        u.slots.len() == t.slots.len(),
        forall|i: int|
            0 <= i < t.slots.len() ==> (#[trigger] u.slots[i]).alive == t.slots[i].alive
                && u.slots[i].user == t.slots[i].user,
    ensures
        slots_ok(u),
{
    assert forall|i: int, j: int|
        0 <= i < j < u.slots.len() && (#[trigger] u.slots[i]).alive && (
        #[trigger] u.slots[j]).alive implies u.slots[i].user != u.slots[j].user by {
        assert(t.slots[i].alive && t.slots[j].alive);
    }
    assert forall|i: int| 0 <= i < u.slots.len() && !(#[trigger] u.slots[i]).alive implies
        u.free.contains(i as usize) by {
        assert(!t.slots[i].alive);
    }
    assert forall|k: int| 0 <= k < u.free.len() implies (#[trigger] u.free[k]) < u.slots.len()
        && !u.slots[u.free[k] as int].alive by {
        assert(t.free[k] < t.slots.len());
        assert(u.slots[t.free[k] as int].alive == t.slots[t.free[k] as int].alive);
    }
}

/// Once the old slot is given up, the user holds none.
proof fn lemma_no_holder(t: Slots, user: Seq<char>)
    requires
        slots_ok(t),
    ensures
        slots_ok(before_add(t, user)),
        forall|i: int|
            0 <= i < before_add(t, user).slots.len() ==> !((
            #[trigger] before_add(t, user).slots[i]).alive && before_add(t, user).slots[i].user
                == user),
{
    let u = before_add(t, user);
    lemma_holder(t.slots, user, t.slots.len() as int);
    match replaced_slot(t, user) {
        Some(k) => {
            lemma_vacated_ok(t, k);
            assert forall|i: int| 0 <= i < u.slots.len() implies !((#[trigger] u.slots[i]).alive
                && u.slots[i].user == user) by {
                if i != k && t.slots[i].alive && t.slots[i].user == user {
                    if i < k {
                        assert(t.slots[i].user != t.slots[k].user);
                    } else {
                        assert(t.slots[k].user != t.slots[i].user);
                    }
                }
            }
        },
        None => {},
    }
}

/// Giving up the old slot keeps the table in order, and the slot given up is the
/// next to be reused.
pub proof fn lemma_before_add(t: Slots, user: Seq<char>)
    requires
        slots_ok(t),
    ensures
        slots_ok(before_add(t, user)),
        replaced_slot(t, user) matches Some(i) ==> 0 <= i < t.slots.len() && before_add(
            t,
            user,
        ).free.last() == i as usize,
{
    lemma_no_holder(t, user);
    lemma_holder(t.slots, user, t.slots.len() as int);
}

proof fn lemma_added_ok(t: Slots, user: Seq<char>, site: Site)
    requires
        slots_ok(t),
        t.slots.len() < usize::MAX,
    ensures
        slots_ok(added(t, user, site).0),
{
    lemma_no_holder(t, user);
    let u = before_add(t, user);
    let v = added(t, user, site).0;
    if u.free.len() > 0 {
        let f = u.free.last() as int;
        assert(u.free[u.free.len() - 1] < u.slots.len());
        assert forall|i: int| 0 <= i < v.slots.len() && !(#[trigger] v.slots[i]).alive implies
            v.free.contains(i as usize) by {
            assert(i != f);
            assert(!u.slots[i].alive);
            assert(u.free.contains(i as usize));
            let k = choose|k: int| 0 <= k < u.free.len() && u.free[k] == i as usize;
            assert(k != u.free.len() - 1);
            assert(v.free[k] == i as usize);
        }
        assert forall|k: int| 0 <= k < v.free.len() implies (#[trigger] v.free[k]) < v.slots.len()
            && !v.slots[v.free[k] as int].alive by {
            assert(v.free[k] == u.free[k]);
            assert(u.free[k] != u.free[u.free.len() - 1]);
        }
        assert forall|j: int, k: int| 0 <= j < k < v.free.len() implies #[trigger] v.free[j]
            != #[trigger] v.free[k] by {
            assert(u.free[j] != u.free[k]);
        }
        assert forall|i: int, j: int|
            0 <= i < j < v.slots.len() && (#[trigger] v.slots[i]).alive && (
            #[trigger] v.slots[j]).alive implies v.slots[i].user != v.slots[j].user by {
            if i != f && j != f {
                assert(u.slots[i].alive && u.slots[j].alive);
            } else if i != f {
                assert(!(u.slots[i].alive && u.slots[i].user == user));
            } else {
                assert(!(u.slots[j].alive && u.slots[j].user == user));
            }
        }
    } else {
        assert forall|i: int| 0 <= i < v.slots.len() && !(#[trigger] v.slots[i]).alive implies
            v.free.contains(i as usize) by {
            assert(!u.slots[i].alive);
        }
        assert forall|i: int, j: int|
            0 <= i < j < v.slots.len() && (#[trigger] v.slots[i]).alive && (
            #[trigger] v.slots[j]).alive implies v.slots[i].user != v.slots[j].user by {
            if j < u.slots.len() {
                assert(u.slots[i].alive && u.slots[j].alive);
            } else {
                assert(!(u.slots[i].alive && u.slots[i].user == user));
            }
        }
    }
}

/// A reference dies with its slot: once its holder left, or the same user came
/// back, or the slot went to somebody else, the old reference is not live.
pub proof fn law_stale_references_die(t: Slots, r: RxRef, user: Seq<char>, site: Site)
    requires
        slots_ok(t),
        is_live(t, r),
    ensures
        !is_live(removed(t, r), r),
        t.slots[r.idx as int].user == user ==> !is_live(added(t, user, site).0, r),
        !is_live(added(removed(t, r), user, site).0, r),
        is_live(added(t, user, site).0, added(t, user, site).1),
{
    let w = removed(t, r);
    lemma_vacated_ok(t, r.idx as int);
    lemma_no_holder(t, user);
    lemma_no_holder(w, user);
    lemma_holder(t.slots, user, t.slots.len() as int);
    lemma_holder(w.slots, user, w.slots.len() as int);
    let u = before_add(t, user);
    if u.free.len() > 0 {
        assert(u.free[u.free.len() - 1] < u.slots.len());
    }
    let x = before_add(w, user);
    if x.free.len() > 0 {
        assert(x.free[x.free.len() - 1] < x.slots.len());
    }
    if t.slots[r.idx as int].user == user {
        let k = replaced_slot(t, user)->0;
        if k < r.idx {
            assert(t.slots[k].user != t.slots[r.idx as int].user);
        } else if k > r.idx {
            assert(t.slots[r.idx as int].user != t.slots[k].user);
        }
    }
}

/// Reconnect churn does not grow the table: a freed slot is taken before a new
/// one is made.
pub proof fn law_freed_slot_is_reused(t: Slots, r: RxRef, user: Seq<char>, site: Site)
    requires
        slots_ok(t),
        is_live(t, r),
        replaced_slot(removed(t, r), user) is None,
    ensures
        added(removed(t, r), user, site).1.idx == r.idx,
        added(removed(t, r), user, site).1.gen != r.gen,
        added(removed(t, r), user, site).0.slots.len() == t.slots.len(),
{
}

/// A user who reconnects takes the same slot back.
pub proof fn law_reconnect_takes_the_slot_back(t: Slots, r: RxRef, site: Site)
    requires
        slots_ok(t),
        is_live(t, r),
    ensures
        added(t, t.slots[r.idx as int].user, site).1.idx == r.idx,
        added(t, t.slots[r.idx as int].user, site).0.slots.len() == t.slots.len(),
{
    let user = t.slots[r.idx as int].user;
    lemma_holder(t.slots, user, t.slots.len() as int);
    let k = replaced_slot(t, user)->0;
    if k < r.idx {
        assert(t.slots[k].user != t.slots[r.idx as int].user);
    } else if k > r.idx {
        assert(t.slots[r.idx as int].user != t.slots[k].user);
    }
}

/// Whoever joins gets a slot of their own with nothing learned yet, and nobody else's slot
/// changes: not who holds it, where that stands, nor what is learned of it.
pub proof fn law_joining_leaves_others_alone(t: Slots, user: Seq<char>, site: Site, i: int)
    requires
        slots_ok(t),
        t.slots.len() < usize::MAX,
        0 <= i < t.slots.len(),
    ensures
        ({
            let (u, r) = added(t, user, site);
            &&& r.idx < u.slots.len()
            &&& u.slots[r.idx as int].user == user && u.slots[r.idx as int].site == site
            &&& u.slots[r.idx as int].alive && u.slots[r.idx as int].gen == r.gen
            &&& u.slots[r.idx as int].bias.n == 0
            &&& t.slots.len() <= u.slots.len() <= t.slots.len() + 1
            &&& t.slots[i].alive && t.slots[i].user != user ==> r.idx != i && u.slots[i] == t.slots[i]
            &&& t.slots[i].alive && t.slots[i].user == user ==> r.idx == i
        }),
{
    lemma_before_add(t, user);
    lemma_no_holder(t, user);
    lemma_holder(t.slots, user, t.slots.len() as int);
    let u = before_add(t, user);
    if u.free.len() > 0 {
        assert(!u.slots[u.free[u.free.len() - 1] as int].alive);
    }
    if let Some(k) = replaced_slot(t, user) {
        if t.slots[i].alive && t.slots[i].user == user {
            assert(i == k) by {
                if i < k {
                    assert(t.slots[i].user != t.slots[k].user);
                } else if k < i {
                    assert(t.slots[k].user != t.slots[i].user);
                }
            }
        }
    }
}

/// Whoever leaves frees their own slot and no other.
pub proof fn law_leaving_leaves_others_alone(t: Slots, r: RxRef, i: int)
    requires
        is_live(t, r),
        0 <= i < t.slots.len(),
    ensures
        removed(t, r).slots.len() == t.slots.len(),
        !removed(t, r).slots[r.idx as int].alive,
        i != r.idx ==> removed(t, r).slots[i] == t.slots[i],
        removed(t, r).free == t.free.push(r.idx),
{
}

/// The slots that are held, among the first `n`.
pub open spec fn held_slots(t: Seq<Slot>, n: int) -> Set<int> {
    vstd::set_lib::set_int_range(0, n).filter(|i: int| t[i].alive)
}

/// As many receivers are there as slots are held.
pub proof fn law_live_count_counts(t: Seq<Slot>, n: int)
    requires
        0 <= n <= t.len(),
    ensures
        held_slots(t, n).finite(),
        live_count(t, n) == held_slots(t, n).len(),
    decreases n,
{
    vstd::set_lib::lemma_int_range(0, n);
    if n > 0 {
        law_live_count_counts(t, n - 1);
        if t[n - 1].alive {
            assert(held_slots(t, n) =~= held_slots(t, n - 1).insert(n - 1));
        } else {
            assert(held_slots(t, n) =~= held_slots(t, n - 1));
        }
    } else {
        assert(held_slots(t, n) =~= Set::empty());
    }
}

/// One receiver fewer is there once one has left, one more once a new one has joined, and as
/// many as before once one has come back.
pub proof fn law_arrivals_and_departures_count(t: Slots, r: RxRef, user: Seq<char>, site: Site)
    requires
        slots_ok(t),
        t.slots.len() < usize::MAX,
    ensures
        is_live(t, r) ==> live_count(removed(t, r).slots, removed(t, r).slots.len() as int) + 1
            == live_count(t.slots, t.slots.len() as int),
        ({
            let u = added(t, user, site).0;
            live_count(u.slots, u.slots.len() as int) == live_count(t.slots, t.slots.len() as int)
                + (if replaced_slot(t, user) is Some {
                0int
            } else {
                1
            })
        }),
{
    let n = t.slots.len() as int;
    law_live_count_counts(t.slots, n);
    if is_live(t, r) {
        let v = removed(t, r);
        law_live_count_counts(v.slots, n);
        assert(held_slots(v.slots, n) =~= held_slots(t.slots, n).remove(r.idx as int));
    }
    lemma_before_add(t, user);
    lemma_holder(t.slots, user, n);
    let b = before_add(t, user);
    let u = added(t, user, site).0;
    law_live_count_counts(b.slots, n);
    law_live_count_counts(u.slots, u.slots.len() as int);
    if let Some(k) = replaced_slot(t, user) {
        assert(held_slots(b.slots, n) =~= held_slots(t.slots, n).remove(k));
    }
    if b.free.len() > 0 {
        let i = b.free.last() as int;
        assert(b.free[b.free.len() - 1] < b.slots.len());
        assert(!b.slots[i].alive);
        assert(held_slots(u.slots, n) =~= held_slots(b.slots, n).insert(i));
    } else {
        assert(held_slots(u.slots, n + 1) =~= held_slots(b.slots, n).insert(n));
    }
}

} // verus!
