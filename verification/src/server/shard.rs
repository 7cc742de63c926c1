//! Geographic sharding.
//!
//! A receiver is assigned at handshake by its geographic cell. New cells join
//! the shard that owns most of their neighbor cells, up to a capacity cap; dense
//! cells split, so the partition adapts to feeder density. Assignments last for
//! the life of the router.
//!
//! Places are grid coordinates: a point carries its cell indexes at the deepest
//! level, and coarser indexes are floor halvings of those.

use vstd::prelude::*;

use crate::order::order_by_key;
use crate::reading::Reading;

verus! {

/// A leaf cell splits when it has taken more than this many receivers.
pub const SPLIT_AT: usize = 64;

/// Sync observations per stats window from which a shard stops growing.
pub const CAP_RATE_PER_WINDOW: u64 = 50_000;

/// Cells never split below 2 degrees, the scale on which receivers hear the same
/// aircraft; a base size has at most this many levels below it.
pub const LEVEL_LIMIT: u8 = 24;

/// A partition cell: its level (0 is the coarsest) and its indexes.
#[derive(Debug, Clone, Copy, PartialEq, Eq, Structural)]
pub struct CellKey {
    pub level: u8,
    pub lat: i16,
    pub lon: i16,
}

/// A place: cell indexes at the deepest level.
#[derive(Debug, Clone, Copy, PartialEq, Eq, Structural)]
pub struct Point {
    pub lat: i64,
    pub lon: i64,
}

/// What a shard carries at the moment.
#[derive(Debug, Clone, Copy, PartialEq, Eq, Structural)]
pub struct ShardLoad {
    pub receivers: usize,
    /// Sync observations in the last stats window.
    pub rate: u64,
}

/// What the router knows of one cell.
#[derive(Debug, Clone, Copy, PartialEq, Eq, Structural)]
pub struct Cell {
    pub key: CellKey,
    pub owner: usize,
    pub count: usize,
    pub split: bool,
}

/// `v` halved `d` times, rounding down.
pub open spec fn halved(v: int, d: nat) -> int
    decreases d,
{
    if d == 0 {
        v
    } else {
        halved(v / 2, (d - 1) as nat)
    }
}

/// `v` doubled `d` times.
pub open spec fn doubled(v: int, d: nat) -> int
    decreases d,
{
    if d == 0 {
        v
    } else {
        doubled(2 * v, (d - 1) as nat)
    }
}

/// A cell index is a 16-bit number; indexes beyond saturate.
pub open spec fn index16(v: int) -> i16 {
    if v < i16::MIN {
        i16::MIN
    } else if v > i16::MAX {
        i16::MAX
    } else {
        v as i16
    }
}

/// The cell of a level that contains a point, where `depth` is the deepest level.
pub open spec fn cell_of(p: Point, level: u8, depth: u8) -> CellKey {
    CellKey {
        level,
        lat: index16(halved(p.lat as int, (depth - level) as nat)),
        lon: index16(halved(p.lon as int, (depth - level) as nat)),
    }
}

/// The deepest-level index of the middle of the cell with index `v`.
pub open spec fn middle(v: int, d: nat) -> int {
    if d == 0 {
        v
    } else {
        doubled(2 * v + 1, (d - 1) as nat)
    }
}

/// The middle of the neighbor cell at an offset.
pub open spec fn neighbor(key: CellKey, dy: int, dx: int, depth: u8) -> Point {
    Point {
        lat: middle(key.lat + dy, (depth - key.level) as nat) as i64,
        lon: middle(key.lon + dx, (depth - key.level) as nat) as i64,
    }
}

/// The place of a cell in the table.
pub open spec fn find_cell(t: Seq<Cell>, key: CellKey) -> Option<int>
    decreases t.len(),
{
    if t.len() == 0 {
        None
    } else if t.last().key == key {
        Some(t.len() - 1)
    } else {
        find_cell(t.drop_last(), key)
    }
}

/// The shard that a cell is mapped to.
pub open spec fn owner_of(t: Seq<Cell>, key: CellKey) -> Option<usize> {
    match find_cell(t, key) {
        Some(i) => Some(t[i].owner),
        None => None,
    }
}

/// The cell has split.
pub open spec fn is_split(t: Seq<Cell>, key: CellKey) -> bool {
    match find_cell(t, key) {
        Some(i) => t[i].split,
        None => false,
    }
}

/// The deepest unsplit cell that contains a point, from a level on.
pub open spec fn leaf_from(t: Seq<Cell>, p: Point, level: u8, depth: u8) -> CellKey
    decreases depth - level,
{
    if level < depth && is_split(t, cell_of(p, level, depth)) {
        leaf_from(t, p, (level + 1) as u8, depth)
    } else {
        cell_of(p, level, depth)
    }
}

/// The deepest unsplit cell that contains a point.
pub open spec fn leaf(t: Seq<Cell>, p: Point, depth: u8) -> CellKey {
    leaf_from(t, p, 0, depth)
}

/// The mapped cell nearest above a level, that level included.
pub open spec fn owner_up(t: Seq<Cell>, p: Point, level: u8, depth: u8) -> Option<usize>
    decreases level,
{
    match owner_of(t, cell_of(p, level, depth)) {
        Some(s) => Some(s),
        None => if level == 0 {
            None
        } else {
            owner_up(t, p, (level - 1) as u8, depth)
        },
    }
}

/// The shard that effectively owns a point: the leaf cell's mapping, else the
/// nearest mapped ancestor.
pub open spec fn owner_at(t: Seq<Cell>, p: Point, depth: u8) -> Option<usize> {
    owner_up(t, p, leaf(t, p, depth).level, depth)
}

/// The shard may take new cells.
pub open spec fn has_room(load: ShardLoad, cap: usize) -> bool {
    load.receivers < cap && load.rate < CAP_RATE_PER_WINDOW
}

/// The neighbor at place `k` of the eight around a cell, row by row.
pub open spec fn around(k: int) -> (int, int) {
    let i = if k < 4 {
        k
    } else {
        k + 1
    };
    (i / 3 - 1, i % 3 - 1)
}

/// Votes for a shard among the first `k` neighbors: those that it owns, if it
/// has room.
pub open spec fn votes(
    t: Seq<Cell>,
    key: CellKey,
    depth: u8,
    cap: usize,
    loads: Seq<ShardLoad>,
    shard: int,
    k: int,
) -> nat
    decreases k,
{
    if k <= 0 {
        0
    } else {
        let n = neighbor(key, around(k - 1).0, around(k - 1).1, depth);
        let more = if owner_at(t, n, depth) == Some(shard as usize) && has_room(
            loads[shard],
            cap,
        ) {
            1nat
        } else {
            0
        };
        votes(t, key, depth, cap, loads, shard, k - 1) + more
    }
}

/// `a` carries less than `b`: by observations, then by receivers.
pub open spec fn lighter(a: ShardLoad, b: ShardLoad) -> bool {
    a.rate < b.rate || (a.rate == b.rate && a.receivers < b.receivers)
}

/// Shard `a` wins over shard `b` in the vote: more votes, then the lighter load.
pub open spec fn wins(va: nat, la: ShardLoad, vb: nat, lb: ShardLoad) -> bool {
    va > vb || (va == vb && lighter(la, lb))
}

/// The best voted of the first `n` shards; the lowest index among equals, and
/// `None` where no shard has a vote.
pub open spec fn elected(
    t: Seq<Cell>,
    key: CellKey,
    depth: u8,
    cap: usize,
    loads: Seq<ShardLoad>,
    n: int,
) -> Option<int>
    decreases n,
{
    if n <= 0 {
        None
    } else {
        let best = elected(t, key, depth, cap, loads, n - 1);
        let v = votes(t, key, depth, cap, loads, n - 1, 8);
        if v == 0 {
            best
        } else {
            match best {
                None => Some(n - 1),
                Some(b) => if wins(
                    v,
                    loads[n - 1],
                    votes(t, key, depth, cap, loads, b, 8),
                    loads[b],
                ) {
                    Some(n - 1)
                } else {
                    best
                },
            }
        }
    }
}

/// The lightest of the first `n` shards; the lowest index among equals.
pub open spec fn lightest(loads: Seq<ShardLoad>, n: int) -> int
    decreases n,
{
    if n <= 1 {
        0
    } else {
        let best = lightest(loads, n - 1);
        if lighter(loads[n - 1], loads[best]) {
            n - 1
        } else {
            best
        }
    }
}

/// The shard for a point: the one that owns it already, through its leaf cell or the
/// nearest mapped ancestor, so that the children of a split cell stay with their
/// parent even where its shard is full; else the winner of the neighbors' vote; else
/// the lightest shard.
pub open spec fn shard_of(
    t: Seq<Cell>,
    p: Point,
    depth: u8,
    cap: usize,
    loads: Seq<ShardLoad>,
) -> int {
    match owner_at(t, p, depth) {
        Some(s) => s as int,
        None => match elected(t, leaf(t, p, depth), depth, cap, loads, loads.len() as int) {
            Some(s) => s,
            None => lightest(loads, loads.len() as int),
        },
    }
}

/// The table after a receiver was assigned to a cell: the cell is mapped, counts
/// one receiver more, and splits when it is crowded and may.
pub open spec fn assigned(t: Seq<Cell>, key: CellKey, shard: usize, depth: u8) -> Seq<Cell> {
    match find_cell(t, key) {
        Some(i) => {
            let n = if t[i].count < usize::MAX {
                (t[i].count + 1) as usize
            } else {
                t[i].count
            };
            t.update(
                i,
                Cell { count: n, split: t[i].split || (n > SPLIT_AT && key.level < depth), ..t[i] },
            )
        },
        None => t.push(Cell { key, owner: shard, count: 1, split: false }),
    }
}

/// Cells map to existing shards and stand once; only cells that may split have.
pub open spec fn cells_ok(t: Seq<Cell>, depth: u8, n_shards: nat) -> bool {
    &&& forall|i: int, j: int|
        0 <= i < j < t.len() ==> (#[trigger] t[i]).key != (#[trigger] t[j]).key
    &&& forall|i: int| 0 <= i < t.len() ==> (#[trigger] t[i]).owner < n_shards
    &&& forall|i: int|
        0 <= i < t.len() && (#[trigger] t[i]).split ==> t[i].key.level < depth
}

proof fn lemma_find_cell(t: Seq<Cell>, key: CellKey)
    ensures
        match find_cell(t, key) {
            Some(i) => 0 <= i < t.len() && t[i].key == key,
            None => forall|i: int| 0 <= i < t.len() ==> (#[trigger] t[i]).key != key,
        },
    decreases t.len(),
{
    if t.len() > 0 && t.last().key != key {
        lemma_find_cell(t.drop_last(), key);
        match find_cell(t.drop_last(), key) {
            Some(i) => {},
            None => {
                assert forall|i: int| 0 <= i < t.len() implies (#[trigger] t[i]).key != key by {
                    if i < t.len() - 1 {
                        assert(t.drop_last()[i].key != key);
                    }
                }
            },
        }
    }
}

/// Floor halving of a coordinate.
fn halve(v: i64, d: u8) -> (r: i64)
    ensures
        r == halved(v as int, d as nat),
    decreases d,
{
    if d == 0 {
        v
    } else {
        let h: i64 = if v >= 0 {
            v / 2
        } else {
            -((-(v + 1)) / 2) - 1
        };
        assert(h == v as int / 2);
        halve(h, d - 1)
    }
}

/// Repeated doubling of a cell index, which stays far inside 64 bits.
fn double(v: i64, d: u8) -> (r: i64)
    requires
        d <= LEVEL_LIMIT,
        -0x4_0000 * vstd::arithmetic::power2::pow2((LEVEL_LIMIT - d) as nat) <= v,
        v <= 0x4_0000 * vstd::arithmetic::power2::pow2((LEVEL_LIMIT - d) as nat),
    ensures
        r == doubled(v as int, d as nat),
    decreases d,
{
    if d == 0 {
        v
    } else {
        proof {
            vstd::arithmetic::power2::lemma2_to64();
            vstd::arithmetic::power2::lemma_pow2_unfold((LEVEL_LIMIT - d + 1) as nat);
            if LEVEL_LIMIT - d < LEVEL_LIMIT {
                vstd::arithmetic::power2::lemma_pow2_strictly_increases(
                    (LEVEL_LIMIT - d) as nat,
                    LEVEL_LIMIT as nat,
                );
            }
        }
        double(2 * v, d - 1)
    }
}

fn middle_of(v: i64, d: u8) -> (r: i64)
    requires
        d <= LEVEL_LIMIT,
        -0x1_0000 <= v <= 0x1_0000,
    ensures
        r == middle(v as int, d as nat),
{
    if d == 0 {
        v
    } else {
        proof {
            vstd::arithmetic::power2::lemma_pow2_pos((LEVEL_LIMIT - (d - 1)) as nat);
        }
        double(2 * v + 1, d - 1)
    }
}

fn clamp16(v: i64) -> (r: i16)
    ensures
        r == index16(v as int),
{
    if v < -32768 {
        -32768
    } else if v > 32767 {
        32767
    } else {
        v as i16
    }
}

/// Assigns receivers to shards by place.
#[derive(Debug)]
pub struct Router {
    cells: Vec<Cell>,
    depth: u8,
    cap: usize,
    n_shards: usize,
}

/// How often a cell of a base size may split: as long as the halves are at least
/// 2 degrees wide. `base` is the size in degrees; sizes beyond the level limit
/// count as the limit.
pub open spec fn splits_allowed(base: Reading, level: nat) -> nat
    decreases LEVEL_LIMIT - level,
{
    if level < LEVEL_LIMIT && two_to(level + 2).at_most(base) {
        splits_allowed(base, level + 1)
    } else {
        level
    }
}

/// The reading of 2 to the `e`.
pub open spec fn two_to(e: nat) -> Reading {
    Reading(((1023 + e) * 0x10_0000_0000_0000) as u64)
}

impl Router {
    pub closed spec fn table(&self) -> Seq<Cell> {
        self.cells@
    }

    pub closed spec fn deepest(&self) -> u8 {
        self.depth
    }

    pub closed spec fn capacity(&self) -> usize {
        self.cap
    }

    pub closed spec fn shards(&self) -> nat {
        self.n_shards as nat
    }

    pub open spec fn wf(&self) -> bool {
        &&& cells_ok(self.table(), self.deepest(), self.shards())
        &&& self.deepest() <= LEVEL_LIMIT
        &&& self.shards() > 0
    }

    /// A router over `n_shards` shards with level 0 cells of `base` degrees, which
    /// lets a shard grow up to `cap` receivers.
    pub fn new(n_shards: usize, base: Reading, cap: usize) -> (r: Self)
        requires
            n_shards > 0,
        ensures
            r.wf(),
            r.table() == Seq::<Cell>::empty(),
            r.deepest() as nat == splits_allowed(base, 0),
            r.capacity() == cap,
            r.shards() == n_shards,
    {
        let mut level: u8 = 0;
        while level < LEVEL_LIMIT && Reading((1025 + level as u64) * 0x10_0000_0000_0000).le(base)
            invariant
                level <= LEVEL_LIMIT,
                splits_allowed(base, 0) == splits_allowed(base, level as nat),
            decreases LEVEL_LIMIT - level,
        {
            level = level + 1;
        }
        Router { cells: Vec::new(), depth: level, cap, n_shards }
    }

    /// The deepest level, at whose cells points are given.
    pub fn point_level(&self) -> (r: u8)
        ensures
            r == self.deepest(),
    {
        self.depth
    }

    fn position(&self, key: CellKey) -> (r: Option<usize>)
        ensures
            match r {
                Some(i) => find_cell(self.cells@, key) == Some(i as int) && i < self.cells@.len(),
                None => find_cell(self.cells@, key) is None,
            },
    {
        let ghost t = self.cells@;
        let mut i: usize = self.cells.len();
        assert(t.take(t.len() as int) =~= t);
        while i > 0
            invariant
                i <= self.cells@.len(),
                t == self.cells@,
                find_cell(t, key) == find_cell(t.take(i as int), key),
            decreases i,
        {
            assert(t.take(i as int).drop_last() =~= t.take(i - 1));
            let c = self.cells[i - 1].key;
            if c.level == key.level && c.lat == key.lat && c.lon == key.lon {
                return Some(i - 1);
            }
            i = i - 1;
        }
        None
    }

    fn cell_at(&self, level: u8, p: Point) -> (r: CellKey)
        requires
            level <= self.depth,
        ensures
            r == cell_of(p, level, self.depth),
    {
        CellKey {
            level,
            lat: clamp16(halve(p.lat, self.depth - level)),
            lon: clamp16(halve(p.lon, self.depth - level)),
        }
    }

    /// Deepest unsplit cell containing the point.
    fn leaf_at(&self, p: Point) -> (r: CellKey)
        requires
            self.wf(),
        ensures
            r == leaf(self.table(), p, self.deepest()),
            r.level <= self.deepest(),
            r == cell_of(p, r.level, self.deepest()),
    {
        let mut level: u8 = 0;
        loop
            invariant
                self.wf(),
                level <= self.depth,
                leaf(self.cells@, p, self.depth) == leaf_from(self.cells@, p, level, self.depth),
            decreases self.depth - level,
        {
            let key = self.cell_at(level, p);
            let split: bool = match self.position(key) {
                Some(i) => self.cells[i].split,
                None => false,
            };
            proof {
                lemma_find_cell(self.cells@, key);
            }
            if !split {
                return key;
            }
            level = level + 1;
        }
    }

    /// The shard that effectively owns a point: the leaf cell's mapping, else the
    /// nearest mapped ancestor (a split parent keeps owning the areas its children
    /// have not claimed yet).
    fn owner_at(&self, p: Point) -> (r: Option<usize>)
        requires
            self.wf(),
        ensures
            r == owner_at(self.table(), p, self.deepest()),
            r matches Some(s) ==> s < self.shards(),
    {
        let start = self.leaf_at(p);
        let mut level: u8 = start.level;
        loop
            invariant
                self.wf(),
                level <= self.depth,
                owner_at(self.cells@, p, self.depth) == owner_up(
                    self.cells@,
                    p,
                    level,
                    self.depth,
                ),
            decreases level,
        {
            let key = self.cell_at(level, p);
            proof {
                lemma_find_cell(self.cells@, key);
            }
            if let Some(i) = self.position(key) {
                return Some(self.cells[i].owner);
            }
            if level == 0 {
                return None;
            }
            level = level - 1;
        }
    }

    /// The shard whose territory contains this point, if any cell around it is
    /// mapped.
    pub fn owner_of_point(&self, p: Point) -> (r: Option<usize>)
        requires
            self.wf(),
        ensures
            r == owner_at(self.table(), p, self.deepest()),
    {
        self.owner_at(p)
    }

    /// The level of the leaf cell that contains a point.
    pub fn leaf_level(&self, p: Point) -> (r: u8)
        requires
            self.wf(),
        ensures
            r == leaf(self.table(), p, self.deepest()).level,
    {
        self.leaf_at(p).level
    }

    fn has_capacity(&self, load: ShardLoad) -> (r: bool)
        ensures
            r == has_room(load, self.cap),
    {
        load.receivers < self.cap && load.rate < CAP_RATE_PER_WINDOW
    }

    /// The shard that owns each of the eight neighbors of a cell.
    fn neighbor_owners(&self, key: CellKey) -> (r: Vec<Option<usize>>)
        requires
            self.wf(),
            key.level <= self.deepest(),
        ensures
            r@.len() == 8,
            forall|k: int|
                0 <= k < 8 ==> #[trigger] r@[k] == owner_at(
                    self.table(),
                    neighbor(key, around(k).0, around(k).1, self.deepest()),
                    self.deepest(),
                ),
    {
        let mut out: Vec<Option<usize>> = Vec::new();
        let d: u8 = self.depth - key.level;
        let mut k: usize = 0;
        while k < 8
            invariant
                self.wf(),
                key.level <= self.depth,
                d == self.depth - key.level,
                k <= 8,
                out@.len() == k,
                forall|j: int|
                    0 <= j < k ==> #[trigger] out@[j] == owner_at(
                        self.cells@,
                        neighbor(key, around(j).0, around(j).1, self.depth),
                        self.depth,
                    ),
            decreases 8 - k,
        {
            let i: i64 = if k < 4 {
                k as i64
            } else {
                k as i64 + 1
            };
            let dy: i64 = i / 3 - 1;
            let dx: i64 = i % 3 - 1;
            let n = Point {
                lat: middle_of(key.lat as i64 + dy, d),
                lon: middle_of(key.lon as i64 + dx, d),
            };
            assert(n == neighbor(key, around(k as int).0, around(k as int).1, self.depth));
            out.push(self.owner_at(n));
            k = k + 1;
        }
        out
    }

    /// Votes for one shard.
    fn count_votes(
        &self,
        key: CellKey,
        owners: &Vec<Option<usize>>,
        shard: usize,
        loads: &[ShardLoad],
    ) -> (r: usize)
        requires
            shard < loads@.len(),
            owners@.len() == 8,
            forall|k: int|
                0 <= k < 8 ==> #[trigger] owners@[k] == owner_at(
                    self.table(),
                    neighbor(key, around(k).0, around(k).1, self.deepest()),
                    self.deepest(),
                ),
        ensures
            r as nat == votes(
                self.table(),
                key,
                self.deepest(),
                self.capacity(),
                loads@,
                shard as int,
                8,
            ),
    {
        let room: bool = self.has_capacity(loads[shard]);
        let mut n: usize = 0;
        let mut k: usize = 0;
        while k < 8
            invariant
                shard < loads@.len(),
                owners@.len() == 8,
                room == has_room(loads@[shard as int], self.cap),
                forall|j: int|
                    0 <= j < 8 ==> #[trigger] owners@[j] == owner_at(
                        self.cells@,
                        neighbor(key, around(j).0, around(j).1, self.depth),
                        self.depth,
                    ),
                k <= 8,
                n <= k,
                n as nat == votes(
                    self.cells@,
                    key,
                    self.depth,
                    self.cap,
                    loads@,
                    shard as int,
                    k as int,
                ),
            decreases 8 - k,
        {
            assert(owners@[k as int] == owner_at(
                self.cells@,
                neighbor(key, around(k as int).0, around(k as int).1, self.depth),
                self.depth,
            ));
            if let Some(s) = owners[k] {
                if s == shard && room {
                    n = n + 1;
                }
            }
            k = k + 1;
        }
        n
    }

    /// The winner of the neighbors' vote, if any shard has a vote.
    fn elect(&self, key: CellKey, loads: &[ShardLoad]) -> (r: Option<usize>)
        requires
            self.wf(),
            key.level <= self.deepest(),
        ensures
            match r {
                Some(s) => s < loads@.len() && elected(
                    self.table(),
                    key,
                    self.deepest(),
                    self.capacity(),
                    loads@,
                    loads@.len() as int,
                ) == Some(s as int),
                None => elected(
                    self.table(),
                    key,
                    self.deepest(),
                    self.capacity(),
                    loads@,
                    loads@.len() as int,
                ) is None,
            },
    {
        let owners = self.neighbor_owners(key);
        let mut best: Option<usize> = None;
        let mut best_votes: usize = 0;
        let mut s: usize = 0;
        while s < loads.len()
            invariant
                s <= loads@.len(),
                owners@.len() == 8,
                forall|k: int|
                    0 <= k < 8 ==> #[trigger] owners@[k] == owner_at(
                        self.cells@,
                        neighbor(key, around(k).0, around(k).1, self.depth),
                        self.depth,
                    ),
                match best {
                    Some(b) => b < s && elected(
                        self.cells@,
                        key,
                        self.depth,
                        self.cap,
                        loads@,
                        s as int,
                    ) == Some(b as int) && best_votes as nat == votes(
                        self.cells@,
                        key,
                        self.depth,
                        self.cap,
                        loads@,
                        b as int,
                        8,
                    ),
                    None => elected(
                        self.cells@,
                        key,
                        self.depth,
                        self.cap,
                        loads@,
                        s as int,
                    ) is None,
                },
            decreases loads@.len() - s,
        {
            let v: usize = self.count_votes(key, &owners, s, loads);
            if v > 0 {
                let better: bool = match best {
                    None => true,
                    Some(b) => v > best_votes || (v == best_votes && is_lighter(
                        loads[s],
                        loads[b],
                    )),
                };
                if better {
                    best = Some(s);
                    best_votes = v;
                }
            }
            s = s + 1;
        }
        best
    }

    /// Shard for a receiver at a place, remembered for the router's lifetime. A
    /// new cell joins the shard that owns most of its 8 geometric neighbors;
    /// capacity (receivers and rate) filters the vote, ties go to the lighter
    /// shard, and with no eligible neighbor the lightest shard starts a region. The
    /// children of a split cell go home to its shard, full or not.
    pub fn shard_for(&mut self, p: Point, loads: &[ShardLoad]) -> (r: usize)
        requires
            old(self).wf(),
            loads@.len() == old(self).shards(),
        ensures
            final(self).wf(),
            r as int == shard_of(
                old(self).table(),
                p,
                old(self).deepest(),
                old(self).capacity(),
                loads@,
            ),
            r < loads@.len(),
            final(self).table() == assigned(
                old(self).table(),
                leaf(old(self).table(), p, old(self).deepest()),
                r,
                old(self).deepest(),
            ),
            final(self).deepest() == old(self).deepest(),
            final(self).capacity() == old(self).capacity(),
            final(self).shards() == old(self).shards(),
    {
        let key = self.leaf_at(p);
        let ghost t = self.cells@;
        proof {
            lemma_find_cell(t, key);
        }
        match self.position(key) {
            Some(i) => {
                let shard: usize = self.cells[i].owner;
                let c = self.cells[i];
                let n: usize = c.count.saturating_add(1);
                let split: bool = c.split || (n > SPLIT_AT && key.level < self.depth);
                self.cells.set(i, Cell { key: c.key, owner: c.owner, count: n, split });
                assert(self.cells@ =~= assigned(t, key, shard, self.depth));
                shard
            },
            None => {
                let shard: usize = match self.owner_at(p) {
                    Some(s) => s,
                    None => match self.elect(key, loads) {
                        Some(s) => s,
                        None => lightest_of(loads),
                    },
                };
                self.cells.push(Cell { key, owner: shard, count: 1, split: false });
                assert(self.cells@ =~= assigned(t, key, shard, self.depth));
                shard
            },
        }
    }

    /// The cells of the partition in order of level, latitude and longitude, with
    /// their owners and the receivers assigned through each.
    pub fn partition_dump(&self) -> (r: Vec<(u8, i16, i16, usize, usize)>)
        ensures
            exists|o: Seq<usize>|
                #[trigger] crate::order::is_order(
                    cell_ranks(self.table()),
                    o,
                    0,
                    self.table().len() as int,
                ) && r@ == rows_of(self.table(), o),
    {
        let mut ranks: Vec<i64> = Vec::new();
        let mut i: usize = 0;
        while i < self.cells.len()
            invariant
                i <= self.cells@.len(),
                ranks@ =~= cell_ranks(self.cells@.take(i as int)),
            decreases self.cells@.len() - i,
        {
            let k = self.cells[i].key;
            let rank: i64 = k.level as i64 * 0x1_0000_0000 + (k.lat as i64 + 0x8000) * 0x1_0000 + (
            k.lon as i64 + 0x8000);
            ranks.push(rank);
            assert(rank == cell_rank(self.cells@[i as int].key));
            i = i + 1;
        }
        assert(self.cells@.take(self.cells@.len() as int) =~= self.cells@);
        let order = order_by_key(ranks.as_slice());
        let mut out: Vec<(u8, i16, i16, usize, usize)> = Vec::new();
        let mut j: usize = 0;
        while j < order.len()
            invariant
                crate::order::is_order(
                    cell_ranks(self.cells@),
                    order@,
                    0,
                    self.cells@.len() as int,
                ),
                j <= order@.len(),
                out@ =~= rows_of(self.cells@, order@.take(j as int)),
            decreases order@.len() - j,
        {
            let c = self.cells[order[j]];
            out.push((c.key.level, c.key.lat, c.key.lon, c.owner, c.count));
            j = j + 1;
        }
        assert(order@.take(order@.len() as int) =~= order@);
        assert(crate::order::is_order(
            cell_ranks(self.table()),
            order@,
            0,
            self.table().len() as int,
        ));
        assert(out@ == rows_of(self.table(), order@));
        out
    }
}

/// The place of a cell in the order of level, latitude and longitude.
pub open spec fn cell_rank(k: CellKey) -> i64 {
    (k.level * 0x1_0000_0000 + (k.lat + 0x8000) * 0x1_0000 + (k.lon + 0x8000)) as i64
}

/// The ranks of the cells of a table.
pub open spec fn cell_ranks(t: Seq<Cell>) -> Seq<i64> {
    t.map_values(|c: Cell| cell_rank(c.key))
}

/// Cells of a table, at the places given, as they are listed.
pub open spec fn rows_of(t: Seq<Cell>, o: Seq<usize>) -> Seq<(u8, i16, i16, usize, usize)> {
    o.map_values(
        |i: usize|
            (
                t[i as int].key.level,
                t[i as int].key.lat,
                t[i as int].key.lon,
                t[i as int].owner,
                t[i as int].count,
            ),
    )
}

/// The rank of cells is their order by level, then latitude, then longitude.
pub proof fn law_rank_orders_cells(a: CellKey, b: CellKey)
    ensures
        cell_rank(a) < cell_rank(b) <==> a.level < b.level || (a.level == b.level && (a.lat < b.lat
            || (a.lat == b.lat && a.lon < b.lon))),
        cell_rank(a) == cell_rank(b) <==> a == b,
{
}

fn is_lighter(a: ShardLoad, b: ShardLoad) -> (r: bool)
    ensures
        r == lighter(a, b),
{
    a.rate < b.rate || (a.rate == b.rate && a.receivers < b.receivers)
}

fn lightest_of(loads: &[ShardLoad]) -> (r: usize)
    requires
        loads@.len() > 0,
    ensures
        r as int == lightest(loads@, loads@.len() as int),
        r < loads@.len(),
{
    let mut best: usize = 0;
    let mut s: usize = 1;
    while s < loads.len()
        invariant
            1 <= s <= loads@.len(),
            best < s,
            best as int == lightest(loads@, s as int),
        decreases loads@.len() - s,
    {
        if is_lighter(loads[s], loads[best]) {
            best = s;
        }
        s = s + 1;
    }
    best
}

/// Assignments are remembered: a mapped cell keeps its shard whatever is assigned
/// later, and the assigned cell is mapped to the shard that was returned.
pub proof fn law_assignments_last(t: Seq<Cell>, key: CellKey, shard: usize, depth: u8, k: CellKey)
    requires
        owner_of(t, key) is None || owner_of(t, key) == Some(shard),
    ensures
        owner_of(t, k) is Some ==> owner_of(assigned(t, key, shard, depth), k) == owner_of(t, k),
        owner_of(assigned(t, key, shard, depth), key) == Some(shard),
{
    lemma_find_cell(t, key);
    let u = assigned(t, key, shard, depth);
    match find_cell(t, key) {
        Some(i) => {
            lemma_find_cell_same(t, u, k);
            lemma_find_cell_same(t, u, key);
            lemma_find_cell(t, k);
        },
        None => {
            assert(u.drop_last() =~= t);
            lemma_find_cell(t, k);
        },
    }
}

proof fn lemma_find_cell_same(t: Seq<Cell>, u: Seq<Cell>, key: CellKey)
    requires
        t.len() == u.len(),
        forall|i: int| 0 <= i < t.len() ==> (#[trigger] t[i]).key == (#[trigger] u[i]).key,
    ensures
        find_cell(t, key) == find_cell(u, key),
    decreases t.len(),
{
    if t.len() > 0 {
        assert(t[t.len() - 1].key == u[t.len() - 1].key);
        assert forall|i: int| 0 <= i < t.len() - 1 implies (#[trigger] t.drop_last()[i]).key == (
        #[trigger] u.drop_last()[i]).key by {
            assert(t[i].key == u[i].key);
        }
        lemma_find_cell_same(t.drop_last(), u.drop_last(), key);
    }
}

/// A receiver at a place that a shard owns already lands in that shard, whatever the
/// loads are: feeders of a mapped cell, and of the children of a split one.
pub proof fn law_owned_place_is_sticky(
    t: Seq<Cell>,
    p: Point,
    depth: u8,
    cap: usize,
    loads: Seq<ShardLoad>,
)
    requires
        owner_at(t, p, depth) is Some,
    ensures
        shard_of(t, p, depth, cap, loads) == owner_at(t, p, depth)->0,
        owner_of(t, leaf(t, p, depth)) matches Some(s) ==> shard_of(t, p, depth, cap, loads) == s,
{
    lemma_leaf(t, p, 0, depth);
}

/// The leaf above which every cell of the point has split.
proof fn lemma_leaf(t: Seq<Cell>, p: Point, level: u8, depth: u8)
    requires
        level <= depth,
    ensures
        ({
            let k = leaf_from(t, p, level, depth);
            &&& level <= k.level <= depth
            &&& k == cell_of(p, k.level, depth)
            &&& k.level < depth ==> !is_split(t, k)
            &&& forall|m: u8| level <= m < k.level ==> is_split(t, #[trigger] cell_of(p, m, depth))
        }),
    decreases depth - level,
{
    if level < depth && is_split(t, cell_of(p, level, depth)) {
        lemma_leaf(t, p, (level + 1) as u8, depth);
        let k = leaf_from(t, p, level, depth);
        assert forall|m: u8| level <= m < k.level implies is_split(
            t,
            #[trigger] cell_of(p, m, depth),
        ) by {
            if m > level {
                assert((level + 1) as u8 <= m);
            }
        }
    }
}

proof fn lemma_leaf_is(t: Seq<Cell>, p: Point, level: u8, m: u8, depth: u8)
    requires
        level <= m <= depth,
        m == depth || !is_split(t, cell_of(p, m, depth)),
        forall|j: u8| level <= j < m ==> is_split(t, #[trigger] cell_of(p, j, depth)),
    ensures
        leaf_from(t, p, level, depth) == cell_of(p, m, depth),
    decreases depth - level,
{
    if level < m {
        assert(is_split(t, cell_of(p, level, depth)));
        lemma_leaf_is(t, p, (level + 1) as u8, m, depth);
    }
}

proof fn lemma_halved(v: int, d: nat)
    ensures
        halved(v, d + 1) == halved(v, d) / 2,
        i16::MIN <= v <= i16::MAX ==> i16::MIN <= halved(v, d) <= i16::MAX,
    decreases d,
{
    if d > 0 {
        lemma_halved(v / 2, (d - 1) as nat);
    } else {
        reveal_with_fuel(halved, 2);
    }
}

/// The cell around a cell, one level up.
pub open spec fn parent_of(key: CellKey) -> CellKey {
    CellKey {
        level: (key.level - 1) as u8,
        lat: (key.lat as int / 2) as i16,
        lon: (key.lon as int / 2) as i16,
    }
}

/// The point's indexes are 16-bit numbers, so that no cell of it saturates.
pub open spec fn on_grid(p: Point) -> bool {
    i16::MIN <= p.lat <= i16::MAX && i16::MIN <= p.lon <= i16::MAX
}

/// Only children of split cells are mapped.
pub open spec fn rooted(t: Seq<Cell>) -> bool {
    forall|i: int|
        0 <= i < t.len() && (#[trigger] t[i]).key.level > 0 ==> is_split(t, parent_of(t[i].key))
}

proof fn lemma_parent(p: Point, level: u8, depth: u8)
    requires
        on_grid(p),
        0 < level <= depth,
    ensures
        cell_of(p, (level - 1) as u8, depth) == parent_of(cell_of(p, level, depth)),
{
    let d = (depth - level) as nat;
    lemma_halved(p.lat as int, d);
    lemma_halved(p.lon as int, d);
    lemma_halved(p.lat as int, d + 1);
    lemma_halved(p.lon as int, d + 1);
}

proof fn lemma_shared_path(p: Point, q: Point, m: u8, level: u8, depth: u8)
    requires
        on_grid(p),
        on_grid(q),
        m <= level <= depth,
        cell_of(p, level, depth) == cell_of(q, level, depth),
    ensures
        cell_of(p, m, depth) == cell_of(q, m, depth),
    decreases level - m,
{
    if m < level {
        lemma_parent(p, level, depth);
        lemma_parent(q, level, depth);
        lemma_shared_path(p, q, m, (level - 1) as u8, depth);
    }
}

proof fn lemma_owner_up_same(t: Seq<Cell>, u: Seq<Cell>, p: Point, q: Point, level: u8, depth: u8)
    requires
        forall|m: u8|
            m <= level ==> owner_of(u, #[trigger] cell_of(p, m, depth)) == owner_of(
                t,
                cell_of(q, m, depth),
            ),
    ensures
        owner_up(u, p, level, depth) == owner_up(t, q, level, depth),
    decreases level,
{
    assert(owner_of(u, cell_of(p, level, depth)) == owner_of(t, cell_of(q, level, depth)));
    if level > 0 {
        lemma_owner_up_same(t, u, p, q, (level - 1) as u8, depth);
    }
}

/// What an assignment leaves in the table.
proof fn lemma_assigned(t: Seq<Cell>, key: CellKey, shard: usize, depth: u8, k: CellKey)
    ensures
        ({
            let u = assigned(t, key, shard, depth);
            &&& k != key ==> owner_of(u, k) == owner_of(t, k) && is_split(u, k) == is_split(t, k)
            &&& owner_of(t, key) is Some ==> owner_of(u, key) == owner_of(t, key)
            &&& owner_of(t, key) is None ==> owner_of(u, key) == Some(shard) && !is_split(u, key)
            &&& is_split(t, key) ==> is_split(u, key)
            &&& is_split(u, key) && !is_split(t, key) ==> key.level < depth && owner_of(
                t,
                key,
            ) is Some
        }),
{
    lemma_find_cell(t, key);
    lemma_find_cell(t, k);
    let u = assigned(t, key, shard, depth);
    match find_cell(t, key) {
        Some(i) => {
            lemma_find_cell_same(t, u, k);
            lemma_find_cell_same(t, u, key);
        },
        None => {
            assert(u.drop_last() =~= t);
        },
    }
}

/// The point at which a receiver was assigned is owned by the shard that it got, and
/// only children of split cells are mapped, in the new table as in the old one.
pub proof fn law_assigned_place_is_owned(
    t: Seq<Cell>,
    q: Point,
    depth: u8,
    cap: usize,
    loads: Seq<ShardLoad>,
)
    requires
        rooted(t),
        on_grid(q),
        0 <= shard_of(t, q, depth, cap, loads) <= usize::MAX,
    ensures
        ({
            let s = shard_of(t, q, depth, cap, loads) as usize;
            let u = assigned(t, leaf(t, q, depth), s, depth);
            owner_at(u, q, depth) == Some(s) && rooted(u)
        }),
{
    let s = shard_of(t, q, depth, cap, loads) as usize;
    let key = leaf(t, q, depth);
    let u = assigned(t, key, s, depth);
    lemma_leaf(t, q, 0, depth);
    lemma_find_cell(t, key);
    lemma_assigned(t, key, s, depth, key);
    assert forall|i: int| 0 <= i < u.len() && (#[trigger] u[i]).key.level > 0 implies is_split(
        u,
        parent_of(u[i].key),
    ) by {
        let above = parent_of(u[i].key);
        lemma_assigned(t, key, s, depth, above);
        if i < t.len() {
            assert(t[i].key == u[i].key);
        } else {
            lemma_parent(q, key.level, depth);
            assert(is_split(t, cell_of(q, (key.level - 1) as u8, depth)));
        }
    }
    if owner_at(t, q, depth) is Some {
        law_owned_place_keeps_its_shard(t, q, q, depth, cap, loads);
    } else {
        assert(owner_of(t, key) is None);
        assert forall|j: u8| 0 <= j < key.level implies is_split(
            u,
            #[trigger] cell_of(q, j, depth),
        ) by {
            lemma_assigned(t, key, s, depth, cell_of(q, j, depth));
        }
        lemma_leaf_is(u, q, 0, key.level, depth);
    }
}

/// Cell assignments are remembered: a place that a shard owns stays with it when a
/// receiver is assigned anywhere, even where the place's own cell splits.
pub proof fn law_owned_place_keeps_its_shard(
    t: Seq<Cell>,
    p: Point,
    q: Point,
    depth: u8,
    cap: usize,
    loads: Seq<ShardLoad>,
)
    requires
        rooted(t),
        on_grid(p),
        on_grid(q),
        owner_at(t, p, depth) is Some,
    ensures
        owner_at(
            assigned(
                t,
                leaf(t, q, depth),
                shard_of(t, q, depth, cap, loads) as usize,
                depth,
            ),
            p,
            depth,
        ) == owner_at(t, p, depth),
{
    let s = shard_of(t, q, depth, cap, loads) as usize;
    let key = leaf(t, q, depth);
    let u = assigned(t, key, s, depth);
    let home = leaf(t, p, depth);
    lemma_leaf(t, q, 0, depth);
    lemma_leaf(t, p, 0, depth);
    lemma_find_cell(t, key);
    lemma_assigned(t, key, s, depth, key);
    assert forall|j: u8| j < home.level implies is_split(u, #[trigger] cell_of(p, j, depth)) by {
        assert(is_split(t, cell_of(p, j, depth)));
        lemma_assigned(t, key, s, depth, cell_of(p, j, depth));
    }
    if key == home {
        assert forall|m: u8| m <= key.level implies owner_of(t, #[trigger] cell_of(p, m, depth))
            == owner_of(t, cell_of(q, m, depth)) by {
            lemma_shared_path(p, q, m, key.level, depth);
        }
        lemma_owner_up_same(t, t, p, q, key.level, depth);
        assert(owner_at(t, q, depth) == owner_at(t, p, depth));
        assert(owner_at(t, p, depth) == Some(s));
        if is_split(u, key) && key.level < depth {
            let m = (key.level + 1) as u8;
            let below = cell_of(p, m, depth);
            lemma_parent(p, m, depth);
            lemma_find_cell(t, below);
            assert(owner_of(t, below) is None) by {
                match find_cell(t, below) {
                    Some(i) => {
                        assert(t[i].key == below);
                        assert(is_split(t, parent_of(t[i].key)));
                    },
                    None => {},
                }
            }
            lemma_assigned(t, key, s, depth, below);
            lemma_leaf_is(u, p, 0, m, depth);
        } else {
            lemma_leaf_is(u, p, 0, key.level, depth);
        }
        assert(owner_up(u, p, key.level, depth) == Some(s)) by {
            if owner_of(t, key) is Some {
                assert(owner_of(u, key) == Some(s));
            }
        }
    } else {
        lemma_assigned(t, key, s, depth, home);
        lemma_leaf_is(u, p, 0, home.level, depth);
        assert forall|m: u8| m <= home.level implies owner_of(u, #[trigger] cell_of(p, m, depth))
            == owner_of(t, cell_of(p, m, depth)) by {
            let k = cell_of(p, m, depth);
            lemma_assigned(t, key, s, depth, k);
            if k == key {
                assert(m < home.level);
                assert(is_split(t, k));
            }
        }
        lemma_owner_up_same(t, u, p, p, home.level, depth);
    }
}

proof fn lemma_elected_has_vote(
    t: Seq<Cell>,
    key: CellKey,
    depth: u8,
    cap: usize,
    loads: Seq<ShardLoad>,
    n: int,
)
    requires
        0 <= n <= loads.len(),
    ensures
        match elected(t, key, depth, cap, loads, n) {
            Some(s) => 0 <= s < n && votes(t, key, depth, cap, loads, s, 8) > 0,
            None => true,
        },
    decreases n,
{
    if n > 0 {
        lemma_elected_has_vote(t, key, depth, cap, loads, n - 1);
    }
}

proof fn lemma_votes_need_room(
    t: Seq<Cell>,
    key: CellKey,
    depth: u8,
    cap: usize,
    loads: Seq<ShardLoad>,
    s: int,
    k: int,
)
    requires
        votes(t, key, depth, cap, loads, s, k) > 0,
    ensures
        has_room(loads[s], cap),
    decreases k,
{
    if !has_room(loads[s], cap) {
        if votes(t, key, depth, cap, loads, s, k - 1) > 0 {
            lemma_votes_need_room(t, key, depth, cap, loads, s, k - 1);
        }
    }
}

/// A full or busy shard takes no new ground: a place that no shard owns goes to a
/// shard without room only as the lightest shard of a region that no neighbor can
/// extend.
pub proof fn law_full_shard_takes_no_new_ground(
    t: Seq<Cell>,
    p: Point,
    depth: u8,
    cap: usize,
    loads: Seq<ShardLoad>,
)
    requires
        owner_at(t, p, depth) is None,
        loads.len() > 0,
    ensures
        ({
            let s = shard_of(t, p, depth, cap, loads);
            has_room(loads[s], cap) || (elected(
                t,
                leaf(t, p, depth),
                depth,
                cap,
                loads,
                loads.len() as int,
            ) is None && s == lightest(loads, loads.len() as int))
        }),
{
    let key = leaf(t, p, depth);
    lemma_elected_has_vote(t, key, depth, cap, loads, loads.len() as int);
    match elected(t, key, depth, cap, loads, loads.len() as int) {
        Some(s) => {
            lemma_votes_need_room(t, key, depth, cap, loads, s, 8);
        },
        None => {},
    }
}

// ---------------------------------------------------------- what the router keeps

/// Halving a coordinate `d` times is dividing it by two to the `d`, rounding down.
pub proof fn law_halving_divides(v: int, d: nat)
    ensures
        halved(v, d) * vstd::arithmetic::power2::pow2(d) <= v,
        v < (halved(v, d) + 1) * vstd::arithmetic::power2::pow2(d),
    decreases d,
{
    if d == 0 {
        vstd::arithmetic::power2::lemma2_to64();
    } else {
        law_halving_divides(v / 2, (d - 1) as nat);
        vstd::arithmetic::power2::lemma_pow2_unfold(d);
        let h = halved(v, d);
        let p = vstd::arithmetic::power2::pow2((d - 1) as nat) as int;
        assert(h * (2 * p) == 2 * (h * p)) by (nonlinear_arith);
        assert((h + 1) * (2 * p) == 2 * ((h + 1) * p)) by (nonlinear_arith);
    }
}

proof fn lemma_doubled(v: int, d: nat)
    ensures
        halved(doubled(v, d), d) == v,
        halved(doubled(2 * v + 1, d), d + 1) == v,
    decreases d,
{
    if d > 0 {
        lemma_doubled_out(v, (d - 1) as nat);
        lemma_doubled(v, (d - 1) as nat);
        lemma_doubled_out(2 * v + 1, (d - 1) as nat);
    } else {
        reveal_with_fuel(halved, 2);
    }
}

/// Doubling first or last is the same.
proof fn lemma_doubled_out(v: int, d: nat)
    ensures
        doubled(v, d + 1) == 2 * doubled(v, d),
    decreases d,
{
    if d > 0 {
        lemma_doubled_out(2 * v, (d - 1) as nat);
    } else {
        reveal_with_fuel(doubled, 2);
    }
}

/// The middle of a cell lies in the cell.
pub proof fn law_middle_is_inside(v: int, d: nat)
    ensures
        halved(middle(v, d), d) == v,
{
    if d > 0 {
        lemma_doubled(v, (d - 1) as nat);
    }
}

/// The neighbor at an offset lies in the cell that many cells away, of the same level.
pub proof fn law_neighbor_is_next_to(key: CellKey, dy: int, dx: int, depth: u8)
    requires
        key.level <= depth <= LEVEL_LIMIT,
        -1 <= dy <= 1,
        -1 <= dx <= 1,
        i16::MIN < key.lat < i16::MAX,
        i16::MIN < key.lon < i16::MAX,
    ensures
        ({
            let c = cell_of(neighbor(key, dy, dx, depth), key.level, depth);
            c.level == key.level && c.lat == key.lat + dy && c.lon == key.lon + dx
        }),
{
    let d = (depth - key.level) as nat;
    law_middle_is_inside(key.lat + dy, d);
    law_middle_is_inside(key.lon + dx, d);
    lemma_middle_bound(key.lat + dy, d);
    lemma_middle_bound(key.lon + dx, d);
}

proof fn lemma_middle_bound(v: int, d: nat)
    requires
        -0x1_0000 <= v <= 0x1_0000,
        d <= LEVEL_LIMIT,
    ensures
        i64::MIN <= middle(v, d) <= i64::MAX,
{
    if d > 0 {
        lemma_doubled_bound(2 * v + 1, (d - 1) as nat, 0x2_0001);
        vstd::arithmetic::power2::lemma2_to64();
        vstd::arithmetic::power2::lemma_pow2_strictly_increases((d - 1) as nat, 25);
        let p = vstd::arithmetic::power2::pow2((d - 1) as nat) as int;
        assert(0x2_0001 * p <= 0x2_0001 * 0x200_0000) by (nonlinear_arith)
            requires
                0 <= p <= 0x200_0000,
        ;
    }
}

proof fn lemma_doubled_bound(v: int, d: nat, m: int)
    requires
        -m <= v <= m,
        0 <= m,
    ensures
        -m * vstd::arithmetic::power2::pow2(d) <= doubled(v, d) <= m
            * vstd::arithmetic::power2::pow2(d),
    decreases d,
{
    if d == 0 {
        vstd::arithmetic::power2::lemma2_to64();
    } else {
        lemma_doubled_bound(2 * v, (d - 1) as nat, 2 * m);
        vstd::arithmetic::power2::lemma_pow2_unfold(d);
        let p = vstd::arithmetic::power2::pow2((d - 1) as nat) as int;
        assert((2 * m) * p == m * (2 * p)) by (nonlinear_arith);
        assert((-(2 * m)) * p == (-m) * (2 * p)) by (nonlinear_arith);
    }
}

/// The eight neighbors are all cells around one, each once, and never the cell itself.
pub proof fn law_eight_neighbors(dy: int, dx: int) -> (k: int)
    requires
        -1 <= dy <= 1,
        -1 <= dx <= 1,
        dy != 0 || dx != 0,
    ensures
        0 <= k < 8,
        around(k) == (dy, dx),
        forall|j: int|
            0 <= j < 8 ==> around(j) != (0int, 0int) && (#[trigger] around(j) == (dy, dx) ==> j == k),
{
    let i = 3 * (dy + 1) + dx + 1;
    if i < 4 {
        i
    } else {
        i - 1
    }
}

/// The neighbors among the first `k` that a shard owns.
pub open spec fn voters(t: Seq<Cell>, key: CellKey, depth: u8, shard: int, k: int) -> Set<int> {
    vstd::set_lib::set_int_range(0, k).filter(
        |j: int|
            owner_at(t, neighbor(key, around(j).0, around(j).1, depth), depth) == Some(
                shard as usize,
            ),
    )
}

/// A shard with room has a vote of every neighbor that it owns, and one without room has
/// none.
pub proof fn law_votes_are_owned_neighbors(
    t: Seq<Cell>,
    key: CellKey,
    depth: u8,
    cap: usize,
    loads: Seq<ShardLoad>,
    shard: int,
    k: int,
)
    requires
        0 <= k,
    ensures
        voters(t, key, depth, shard, k).finite(),
        loads[shard].receivers < cap && loads[shard].rate < 50_000 ==> votes(
            t,
            key,
            depth,
            cap,
            loads,
            shard,
            k,
        ) == voters(t, key, depth, shard, k).len(),
        loads[shard].receivers >= cap || loads[shard].rate >= 50_000 ==> votes(
            t,
            key,
            depth,
            cap,
            loads,
            shard,
            k,
        ) == 0,
    decreases k,
{
    vstd::set_lib::lemma_int_range(0, k);
    if k > 0 {
        law_votes_are_owned_neighbors(t, key, depth, cap, loads, shard, k - 1);
        let (s, s0) = (voters(t, key, depth, shard, k), voters(t, key, depth, shard, k - 1));
        if owner_at(t, neighbor(key, around(k - 1).0, around(k - 1).1, depth), depth) == Some(
            shard as usize,
        ) {
            assert(s =~= s0.insert(k - 1));
        } else {
            assert(s =~= s0);
        }
    } else {
        assert(voters(t, key, depth, shard, k) =~= Set::empty());
    }
}

/// The shard elected by the neighbors has a vote, no other has more, and none with as many
/// carries less; where any shard has a vote one is elected.
pub proof fn law_elected_shard_is_best(
    t: Seq<Cell>,
    key: CellKey,
    depth: u8,
    cap: usize,
    loads: Seq<ShardLoad>,
    n: int,
    i: int,
)
    requires
        0 <= i < n <= loads.len(),
        votes(t, key, depth, cap, loads, i, 8) > 0,
    ensures
        elected(t, key, depth, cap, loads, n) matches Some(b) && 0 <= b < n && {
            let (vb, vi) = (
                votes(t, key, depth, cap, loads, b, 8),
                votes(t, key, depth, cap, loads, i, 8),
            );
            &&& vb >= vi
            &&& vb == vi ==> !lighter(loads[i], loads[b])
            &&& vb == vi && i < b ==> lighter(loads[b], loads[i])
        },
    decreases n,
{
    lemma_elected_has_vote(t, key, depth, cap, loads, n - 1);
    if i < n - 1 {
        law_elected_shard_is_best(t, key, depth, cap, loads, n - 1, i);
    } else if let Some(b) = elected(t, key, depth, cap, loads, n - 1) {
        law_elected_shard_is_best(t, key, depth, cap, loads, n - 1, b);
    }
}

/// No shard carries less than the lightest, by observations and then by receivers; of equals
/// it is the first.
pub proof fn law_lightest_carries_least(loads: Seq<ShardLoad>, n: int, i: int)
    requires
        0 <= i < n <= loads.len(),
    ensures
        0 <= lightest(loads, n) < n,
        ({
            let b = loads[lightest(loads, n)];
            &&& b.rate <= loads[i].rate
            &&& b.rate == loads[i].rate ==> b.receivers <= loads[i].receivers
            &&& b == loads[i] ==> lightest(loads, n) <= i
        }),
    decreases n,
{
    if n > 1 {
        lemma_lightest_in(loads, n - 1);
        law_lightest_carries_least(loads, n - 1, if i < n - 1 {
            i
        } else {
            lightest(loads, n - 1)
        });
    }
}

proof fn lemma_lightest_in(loads: Seq<ShardLoad>, n: int)
    requires
        0 < n,
    ensures
        0 <= lightest(loads, n) < n,
    decreases n,
{
    if n > 1 {
        lemma_lightest_in(loads, n - 1);
    }
}

/// How many receivers were assigned through the cells together.
pub open spec fn total_count(t: Seq<Cell>) -> nat
    decreases t.len(),
{
    if t.len() == 0 {
        0
    } else {
        total_count(t.drop_last()) + t.last().count as nat
    }
}

proof fn lemma_count_update(t: Seq<Cell>, i: int, c: Cell)
    requires
        0 <= i < t.len(),
    ensures
        total_count(t.update(i, c)) == total_count(t) - t[i].count + c.count,
    decreases t.len(),
{
    let u = t.update(i, c);
    if i == t.len() - 1 {
        assert(u.drop_last() =~= t.drop_last());
    } else {
        lemma_count_update(t.drop_last(), i, c);
        assert(u.drop_last() =~= t.drop_last().update(i, c));
    }
}

/// Every assignment counts one receiver in its own cell and none elsewhere. The cell splits
/// with its sixty-fifth receiver, where it may, and what has split stays so.
pub proof fn law_assignments_are_counted(
    t: Seq<Cell>,
    key: CellKey,
    shard: usize,
    depth: u8,
    k: CellKey,
)
    requires
        find_cell(t, key) matches Some(i) ==> t[i].count < usize::MAX,
    ensures
        ({
            let u = assigned(t, key, shard, depth);
            &&& total_count(u) == total_count(t) + 1
            &&& find_cell(u, key) is Some
            &&& find_cell(t, key) matches Some(i) ==> u.len() == t.len() && u[i].count == t[i].count
                + 1 && u[i].owner == t[i].owner && u[i].key == key && (u[i].split <==> t[i].split
                || (t[i].count >= 64 && key.level < depth))
            &&& find_cell(t, key) is None ==> u.len() == t.len() + 1 && u.last().key == key
                && u.last().owner == shard && u.last().count == 1 && !u.last().split
            &&& k != key ==> (find_cell(t, k) matches Some(j) ==> u[j] == t[j])
        }),
{
    let u = assigned(t, key, shard, depth);
    lemma_find_cell(t, key);
    lemma_find_cell(t, k);
    match find_cell(t, key) {
        Some(i) => {
            lemma_count_update(t, i, u[i]);
            lemma_find_cell_same(t, u, key);
        },
        None => {
            assert(u.drop_last() =~= t);
        },
    }
}

/// A base size may split for as long as the halves are at least two degrees wide: at every
/// level above the deepest they are, and one level further they would not be.
pub proof fn law_cells_stay_two_degrees_wide(base: Reading, level: nat, k: nat)
    requires
        level <= LEVEL_LIMIT,
    ensures
        level <= splits_allowed(base, level) <= LEVEL_LIMIT,
        level <= k < splits_allowed(base, level) ==> two_to(k + 2).at_most(base),
        splits_allowed(base, level) < LEVEL_LIMIT ==> !two_to(
            splits_allowed(base, level) + 2,
        ).at_most(base),
    decreases LEVEL_LIMIT - level,
{
    if level < LEVEL_LIMIT && two_to(level + 2).at_most(base) {
        law_cells_stay_two_degrees_wide(base, level + 1, k);
    }
}

} // verus!
