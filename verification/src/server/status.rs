//! The sync status report: which receivers are synchronized with which, in the form
//! that monitoring reads.

use vstd::prelude::*;
use vstd::string::StringExecFns;

use crate::proto::json::{empty_object, parse_json, set_member, value_text, Number};
use crate::text::decimal_of;

verus! {

/// What is known of a clock model towards a peer.
#[derive(Debug)]
pub struct PeerStatus {
    pub user: String,
    /// Observations.
    pub count: u64,
    /// Frequency offset in parts per million, where it is a number.
    pub ppm: Option<Number>,
}

/// A receiver and its peers.
#[derive(Debug)]
pub struct SyncEntry {
    pub user: String,
    pub peers: Vec<PeerStatus>,
}

/// The columns of a peer: observations, error, offset, and five that are not measured.
pub open spec fn peer_row(p: PeerStatus) -> Seq<char> {
    "["@ + crate::text::decimal(p.count as nat) + ",0.1,"@
        + crate::proto::messages::number_or_null(p.ppm) + ",0,0,0.0,0,0]"@
}

/// The tree of a peer's columns; `None` where the offset is out of range.
pub open spec fn peer_tree(p: PeerStatus) -> Option<crate::proto::json::JsonView> {
    crate::proto::json::json_of(vstd::utf8::encode_utf8(peer_row(p)))
}

/// Peers by name. Of peers with one name the last counts.
pub open spec fn peers_tree(peers: Seq<PeerStatus>) -> Option<
    Map<Seq<char>, crate::proto::json::JsonView>,
>
    decreases peers.len(),
{
    if peers.len() == 0 {
        Some(Map::empty())
    } else {
        match (peers_tree(peers.drop_last()), peer_tree(peers.last())) {
            (Some(m), Some(v)) => Some(m.insert(peers.last().user@, v)),
            _ => None,
        }
    }
}

/// Receivers by name, each with its peers. Of receivers with one name the last counts.
pub open spec fn report_tree(entries: Seq<SyncEntry>) -> Option<
    Map<Seq<char>, crate::proto::json::JsonView>,
>
    decreases entries.len(),
{
    if entries.len() == 0 {
        Some(Map::empty())
    } else {
        let e = entries.last();
        match (report_tree(entries.drop_last()), peers_tree(e.peers@)) {
            (Some(m), Some(p)) => Some(
                m.insert(
                    e.user@,
                    crate::proto::json::JsonView::Object(
                        map!["peers"@ => crate::proto::json::JsonView::Object(p)],
                    ),
                ),
            ),
            _ => None,
        }
    }
}

fn peer_value(p: &PeerStatus) -> (r: Option<serde_json::Value>)
    ensures
        r is Some <==> peer_tree(*p) is Some,
        r matches Some(v) ==> Some(crate::proto::json::value_view(v)) == peer_tree(*p),
{
    let mut row = "[".to_owned();
    let n = decimal_of(p.count);
    row.append(n.as_str());
    row.append(",0.1,");
    match &p.ppm {
        Some(t) => row.append(t.as_text()),
        None => row.append("null"),
    }
    row.append(",0,0,0.0,0,0]");
    match parse_json(row.as_str().as_bytes()) {
        Ok(v) => Some(v),
        Err(_) => None,
    }
}

fn peers_value(peers: &Vec<PeerStatus>) -> (r: Option<serde_json::Value>)
    ensures
        match peers_tree(peers@) {
            Some(m) => r matches Some(v) && crate::proto::json::value_view(v)
                == crate::proto::json::JsonView::Object(m),
            None => r is None,
        },
{
    let mut out = empty_object();
    let mut i: usize = 0;
    while i < peers.len()
        invariant
            i <= peers@.len(),
            peers_tree(peers@.take(i as int)) is Some,
            crate::proto::json::value_view(out) == crate::proto::json::JsonView::Object(
                peers_tree(peers@.take(i as int))->0,
            ),
        decreases peers@.len() - i,
    {
        proof {
            assert(peers@.take(i + 1).drop_last() =~= peers@.take(i as int));
            assert(peers@.take(i + 1).last() == peers@[i as int]);
        }
        match peer_value(&peers[i]) {
            Some(v) => {
                let _set = set_member(&mut out, peers[i].user.as_str(), v);
            },
            None => {
                proof {
                    lemma_no_peers(peers@, i + 1);
                }
                return None;
            },
        }
        i = i + 1;
    }
    assert(peers@.take(peers@.len() as int) =~= peers@);
    Some(out)
}

/// Once a peer cannot be written, the list cannot be.
proof fn lemma_no_peers(peers: Seq<PeerStatus>, n: int)
    requires
        0 <= n <= peers.len(),
        peers_tree(peers.take(n)) is None,
    ensures
        peers_tree(peers) is None,
    decreases peers.len() - n,
{
    if n < peers.len() {
        assert(peers.take(n + 1).drop_last() =~= peers.take(n));
        lemma_no_peers(peers, n + 1);
    } else {
        assert(peers.take(n) =~= peers);
    }
}

proof fn lemma_no_report(entries: Seq<SyncEntry>, n: int)
    requires
        0 <= n <= entries.len(),
        report_tree(entries.take(n)) is None,
    ensures
        report_tree(entries) is None,
    decreases entries.len() - n,
{
    if n < entries.len() {
        assert(entries.take(n + 1).drop_last() =~= entries.take(n));
        lemma_no_report(entries, n + 1);
    } else {
        assert(entries.take(n) =~= entries);
    }
}

/// The text of the report; `None` where an offset is out of range.
pub fn sync_report(entries: &Vec<SyncEntry>) -> (r: Option<String>)
    ensures
        match report_tree(entries@) {
            Some(m) => r matches Some(s) && s@ == crate::proto::json::json_text(
                crate::proto::json::JsonView::Object(m),
            ),
            None => r is None,
        },
{
    let mut out = empty_object();
    let mut i: usize = 0;
    while i < entries.len()
        invariant
            i <= entries@.len(),
            report_tree(entries@.take(i as int)) is Some,
            crate::proto::json::value_view(out) == crate::proto::json::JsonView::Object(
                report_tree(entries@.take(i as int))->0,
            ),
        decreases entries@.len() - i,
    {
        proof {
            assert(entries@.take(i + 1).drop_last() =~= entries@.take(i as int));
            assert(entries@.take(i + 1).last() == entries@[i as int]);
        }
        match peers_value(&entries[i].peers) {
            Some(p) => {
                let mut e = empty_object();
                let _peers = set_member(&mut e, "peers", p);
                let _set = set_member(&mut out, entries[i].user.as_str(), e);
            },
            None => {
                proof {
                    lemma_no_report(entries@, i + 1);
                }
                return None;
            },
        }
        i = i + 1;
    }
    assert(entries@.take(entries@.len() as int) =~= entries@);
    Some(value_text(&out))
}

/// Every receiver that is listed is in the report, and no other.
pub proof fn law_report_lists_receivers(entries: Seq<SyncEntry>, user: Seq<char>)
    requires
        report_tree(entries) is Some,
    ensures
        report_tree(entries)->0.dom().contains(user) <==> exists|i: int|
            0 <= i < entries.len() && (#[trigger] entries[i]).user@ == user,
    decreases entries.len(),
{
    if entries.len() > 0 {
        let f = entries.drop_last();
        law_report_lists_receivers(f, user);
        if exists|i: int| 0 <= i < f.len() && (#[trigger] f[i]).user@ == user {
            let i = choose|i: int| 0 <= i < f.len() && (#[trigger] f[i]).user@ == user;
            assert(entries[i].user@ == user);
        }
        if exists|i: int| 0 <= i < entries.len() && (#[trigger] entries[i]).user@ == user {
            let i = choose|i: int| 0 <= i < entries.len() && (#[trigger] entries[i]).user@ == user;
            if i < f.len() {
                assert(f[i].user@ == user);
            }
        }
        assert(entries[entries.len() - 1] == entries.last());
    }
}

/// Every peer of a receiver is listed under its own name, with its own columns: of peers with
/// one name, the last.
pub proof fn law_peers_are_listed(peers: Seq<PeerStatus>, i: int, user: Seq<char>)
    requires
        peers_tree(peers) is Some,
        0 <= i < peers.len(),
        forall|k: int| i < k < peers.len() ==> (#[trigger] peers[k]).user@ != peers[i].user@,
    ensures
        peers_tree(peers)->0.dom().contains(peers[i].user@),
        Some(peers_tree(peers)->0[peers[i].user@]) == peer_tree(peers[i]),
        peers_tree(peers)->0.dom().contains(user) ==> exists|k: int|
            0 <= k < peers.len() && (#[trigger] peers[k]).user@ == user,
    decreases peers.len(),
{
    lemma_only_peers(peers, user);
    let r = peers.drop_last();
    if i < r.len() {
        assert forall|k: int| i < k < r.len() implies (#[trigger] r[k]).user@ != r[i].user@ by {
            assert(peers[k].user@ != peers[i].user@);
        }
        law_peers_are_listed(r, i, user);
        assert(peers[peers.len() - 1].user@ != peers[i].user@);
    }
}

proof fn lemma_only_peers(peers: Seq<PeerStatus>, user: Seq<char>)
    requires
        peers_tree(peers) is Some,
    ensures
        peers_tree(peers)->0.dom().contains(user) ==> exists|k: int|
            0 <= k < peers.len() && (#[trigger] peers[k]).user@ == user,
    decreases peers.len(),
{
    if peers.len() > 0 {
        let r = peers.drop_last();
        lemma_only_peers(r, user);
        if peers_tree(peers)->0.dom().contains(user) {
            if peers.last().user@ == user {
                assert(peers[peers.len() - 1].user@ == user);
            } else {
                let k = choose|k: int| 0 <= k < r.len() && (#[trigger] r[k]).user@ == user;
                assert(peers[k].user@ == user);
            }
        }
    }
}

/// A receiver's entry holds its own peers: of receivers with one name, those of the last.
pub proof fn law_receivers_hold_their_peers(entries: Seq<SyncEntry>, i: int)
    requires
        report_tree(entries) is Some,
        0 <= i < entries.len(),
        forall|k: int| i < k < entries.len() ==> (#[trigger] entries[k]).user@ != entries[i].user@,
    ensures
        report_tree(entries)->0.dom().contains(entries[i].user@),
        peers_tree(entries[i].peers@) is Some,
        report_tree(entries)->0[entries[i].user@].member("peers"@) == Some(
            crate::proto::json::JsonView::Object(peers_tree(entries[i].peers@)->0),
        ),
    decreases entries.len(),
{
    let r = entries.drop_last();
    if i < r.len() {
        assert forall|k: int| i < k < r.len() implies (#[trigger] r[k]).user@ != r[i].user@ by {
            assert(entries[k].user@ != entries[i].user@);
        }
        law_receivers_hold_their_peers(r, i);
        assert(entries[entries.len() - 1].user@ != entries[i].user@);
    }
}

} // verus!
