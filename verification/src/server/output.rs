//! Output decisions: territories and boundary twins, listening addresses, shard
//! counts.

use std::collections::VecDeque;
use vstd::prelude::*;
use vstd::string::StringExecFns;

verus! {

/// How many fixes the twin filter remembers.
pub const RECENT_FIXES: usize = 4096;

/// Drops boundary twins: an aircraft at the border of two shards may be solved by
/// both within the same instant. A fix is identified by its address and its 100 ms
/// bucket.
#[derive(Debug)]
pub struct TwinFilter {
    order: VecDeque<(u32, i64)>,
}

/// The memory after a fix was let through.
pub open spec fn remembered(recent: Seq<(u32, i64)>, key: (u32, i64)) -> Seq<(u32, i64)> {
    let s = recent.push(key);
    if s.len() > RECENT_FIXES {
        s.drop_first()
    } else {
        s
    }
}

/// A fix of a shard is published: its position lies in the territory of that shard,
/// and its bucket is not remembered. `owner` is the shard whose territory the position
/// lies in.
pub open spec fn is_published(
    owner: Option<usize>,
    shard: usize,
    recent: Seq<(u32, i64)>,
    key: (u32, i64),
) -> bool {
    owner == Some(shard) && !recent.contains(key)
}

impl TwinFilter {
    /// The fixes remembered, oldest first.
    pub closed spec fn recent(&self) -> Seq<(u32, i64)> {
        self.order@
    }

    /// Each fix once, and no more than the filter remembers.
    pub open spec fn wf(&self) -> bool {
        self.recent().no_duplicates() && self.recent().len() <= RECENT_FIXES
    }

    pub fn new() -> (r: Self)
        ensures
            r.wf(),
            r.recent() == Seq::<(u32, i64)>::empty(),
    {
        TwinFilter { order: VecDeque::new() }
    }

    /// Whether a fix of a shard is published; see `is_published`.
    pub fn let_through(&mut self, owner: Option<usize>, shard: usize, icao: u32, bucket: i64) -> (r:
        bool)
        requires
            old(self).wf(),
        ensures
            final(self).wf(),
            r == is_published(owner, shard, old(self).recent(), (icao, bucket)),
            final(self).recent() == (if r {
                remembered(old(self).recent(), (icao, bucket))
            } else {
                old(self).recent()
            }),
    {
        let home: bool = match owner {
            Some(o) => o == shard,
            None => false,
        };
        if !home {
            return false;
        }
        let ghost before = self.order@;
        let mut i: usize = 0;
        while i < self.order.len()
            invariant
                self.order@ == before,
                self.order@ == old(self).recent(),
                self.wf(),
                i <= before.len(),
                forall|k: int| 0 <= k < i ==> before[k] != (icao, bucket),
            decreases before.len() - i,
        {
            let k = &self.order[i];
            if k.0 == icao && k.1 == bucket {
                assert(before[i as int] == (icao, bucket));
                return false;
            }
            i = i + 1;
        }
        self.order.push_back((icao, bucket));
        if self.order.len() > RECENT_FIXES {
            self.order.pop_front();
        }
        assert(self.order@ =~= remembered(before, (icao, bucket)));
        assert(self.order@.no_duplicates()) by {
            let s = before.push((icao, bucket));
            assert(s.no_duplicates());
        }
        true
    }
}

/// A border aircraft that two shards solve in one instant yields one fix, that of the
/// owner of its position: no shard's fix follows it.
pub proof fn law_border_fix_is_published_once(
    recent: Seq<(u32, i64)>,
    key: (u32, i64),
    owner: Option<usize>,
    a: usize,
    other_owner: Option<usize>,
    b: usize,
)
    requires
        recent.len() <= RECENT_FIXES,
        is_published(owner, a, recent, key),
    ensures
        is_published(owner, b, recent, key) ==> a == b,
        !is_published(other_owner, b, remembered(recent, key), key),
{
    law_twin_is_remembered(recent, key);
}

/// A twin that follows while the filter still remembers the fix is dropped: after
/// a fix is let through, its bucket is remembered until that many others were let
/// through.
pub proof fn law_twin_is_remembered(recent: Seq<(u32, i64)>, key: (u32, i64))
    requires
        recent.len() <= RECENT_FIXES,
    ensures
        remembered(recent, key).contains(key),
        forall|k: int|
            1 <= k < recent.len() ==> remembered(recent, key).contains(#[trigger] recent[k]),
{
    let s = recent.push(key);
    let r = remembered(recent, key);
    assert(r[r.len() - 1] == key);
    assert forall|k: int| 1 <= k < recent.len() implies r.contains(#[trigger] recent[k]) by {
        if s.len() > RECENT_FIXES {
            assert(r[k - 1] == recent[k]);
        } else {
            assert(r[k] == recent[k]);
        }
    }
}

/// The address to listen on: a bare port means every interface.
pub open spec fn address_of(client_listen: Option<Seq<char>>, listen: Seq<char>) -> Seq<char> {
    match client_listen {
        None => listen,
        Some(s) => if s.contains(':') {
            s
        } else {
            "0.0.0.0:"@ + s
        },
    }
}

/// Chooses the address to listen on; see `address_of`.
pub fn listen_address(client_listen: Option<&str>, listen: &str) -> (r: String)
    ensures
        r@ == address_of(
            (match client_listen {
                Some(s) => Some(s@),
                None => None,
            }),
            listen@,
        ),
{
    match client_listen {
        None => listen.to_owned(),
        Some(s) => {
            if crate::text::has_char(s, ':') {
                s.to_owned()
            } else {
                let mut out = String::new();
                out.append("0.0.0.0:");
                out.append(s);
                assert(out@ =~= "0.0.0.0:"@ + s@);
                out
            }
        },
    }
}

/// The number of shards: as asked, or two less than the cores, at least one.
pub fn shard_count(asked: usize, cores: Option<usize>) -> (r: usize)
    ensures
        r as int == (if asked != 0 {
            asked as int
        } else {
            match cores {
                Some(c) => if c > 3 {
                    c - 2
                } else {
                    1
                },
                None => 1,
            }
        }),
        r > 0,
{
    if asked != 0 {
        return asked;
    }
    match cores {
        Some(c) => if c > 3 {
            c - 2
        } else {
            1
        },
        None => 1,
    }
}

} // verus!
