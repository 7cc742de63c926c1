//! Writing a client's stream into a capture.

use vstd::prelude::*;

use crate::capture::{CaptureError, ClientWriter, REC_C2S, REC_CONNECT};
use crate::sim::gen::SendRecord;

verus! {

/// The records of a client: its handshake at the start, then what it sends.
pub open spec fn client_records(handshake: Seq<u8>, sent: Seq<(u64, Seq<u8>)>) -> Seq<
    crate::capture::RecordView,
> {
    seq![
        crate::capture::RecordView { t_nanos: 0, kind: REC_CONNECT, payload: handshake },
    ] + sent.map_values(
        |s: (u64, Seq<u8>)|
            crate::capture::RecordView { t_nanos: s.0, kind: REC_C2S, payload: s.1 },
    )
}

/// The stream of a client, before it is packed.
pub open spec fn client_stream(
    id: Seq<char>,
    handshake: Seq<u8>,
    sent: Seq<(u64, Seq<u8>)>,
) -> Seq<u8> {
    crate::capture::stream_start(id) + crate::capture::records_bytes(
        client_records(handshake, sent),
    )
}

/// Every payload fits a record.
pub open spec fn all_fit(handshake: Seq<u8>, sent: Seq<(u64, Seq<u8>)>) -> bool {
    &&& crate::capture::fits(handshake)
    &&& forall|i: int| 0 <= i < sent.len() ==> crate::capture::fits((#[trigger] sent[i]).1)
}

/// The bytes of records written one after the other.
proof fn lemma_records_push(
    rs: Seq<crate::capture::RecordView>,
    r: crate::capture::RecordView,
)
    ensures
        crate::capture::records_bytes(rs.push(r)) == crate::capture::records_bytes(rs)
            + crate::capture::record_bytes(r),
    decreases rs.len(),
{
    let t = rs.push(r);
    if rs.len() == 0 {
        assert(t.drop_first() =~= rs);
        assert(crate::capture::records_bytes(rs) == Seq::<u8>::empty());
        assert(t[0] == r);
        assert(crate::capture::records_bytes(t) == crate::capture::record_bytes(r)
            + crate::capture::records_bytes(t.drop_first()));
        lemma_empty(crate::capture::record_bytes(r));
    } else {
        lemma_records_push(rs.drop_first(), r);
        assert(t.drop_first() =~= rs.drop_first().push(r));
        assert(t[0] == rs[0]);
        lemma_assoc(
            crate::capture::record_bytes(rs[0]),
            crate::capture::records_bytes(rs.drop_first()),
            crate::capture::record_bytes(r),
        );
    }
}

proof fn lemma_assoc(a: Seq<u8>, b: Seq<u8>, c: Seq<u8>)
    ensures
        (a + b) + c == a + (b + c),
{
    assert((a + b) + c =~= a + (b + c));
}

proof fn lemma_empty(a: Seq<u8>)
    ensures
        a + Seq::<u8>::empty() == a,
        Seq::<u8>::empty() + a == a,
{
    assert(a + Seq::<u8>::empty() =~= a);
    assert(Seq::<u8>::empty() + a =~= a);
}

/// The file of a client's stream. `TooLong` where a payload does not fit a record;
/// `Damaged` where the stream could not be packed.
pub fn client_file_bytes(id: &str, handshake: &Vec<u8>, sent: &Vec<SendRecord>) -> (r: Result<
    Vec<u8>,
    CaptureError,
>)
    ensures
        !all_fit(handshake@, crate::sim::gen::send_views(sent@)) ==> r == Err::<
            Vec<u8>,
            CaptureError,
        >(CaptureError::TooLong),
        all_fit(handshake@, crate::sim::gen::send_views(sent@)) ==> crate::capture::is_file_of(
            r,
            client_stream(id@, handshake@, crate::sim::gen::send_views(sent@)),
        ),
{
    let mut w = ClientWriter::new(id);
    let ghost start = crate::capture::stream_start(id@);
    let ghost views = crate::sim::gen::send_views(sent@);
    assert(views.len() == sent@.len());
    match w.record(0, REC_CONNECT, handshake.as_slice()) {
        Ok(()) => {},
        Err(e) => {
            return Err(e);
        },
    }
    let mut i: usize = 0;
    proof {
        let first = crate::capture::RecordView {
            t_nanos: 0,
            kind: REC_CONNECT,
            payload: handshake@,
        };
        assert(client_records(handshake@, views.take(0)) =~= seq![first]);
        assert(seq![first] =~= Seq::<crate::capture::RecordView>::empty().push(first));
        lemma_records_push(seq![], first);
        lemma_empty(crate::capture::record_bytes(first));
    }
    while i < sent.len()
        invariant
            views == crate::sim::gen::send_views(sent@),
            views.len() == sent@.len(),
            i <= sent@.len(),
            crate::capture::fits(handshake@),
            forall|k: int| 0 <= k < i ==> crate::capture::fits((#[trigger] views[k]).1),
            w.bytes() == start + crate::capture::records_bytes(
                client_records(handshake@, views.take(i as int)),
            ),
        decreases sent@.len() - i,
    {
        let ghost rec = crate::capture::RecordView {
            t_nanos: views[i as int].0,
            kind: REC_C2S,
            payload: views[i as int].1,
        };
        let ghost before = client_records(handshake@, views.take(i as int));
        match w.record(sent[i].t.0, REC_C2S, sent[i].bytes.as_slice()) {
            Ok(()) => {},
            Err(e) => {
                assert(!crate::capture::fits(views[i as int].1));
                return Err(e);
            },
        }
        proof {
            lemma_records_push(before, rec);
            assert(client_records(handshake@, views.take(i + 1)) =~= before.push(rec));
            lemma_assoc(
                start,
                crate::capture::records_bytes(before),
                crate::capture::record_bytes(rec),
            );
        }
        i = i + 1;
    }
    assert(views.take(sent@.len() as int) =~= views);
    w.finish()
}

/// A generated stream replays: read back, it starts with the connection, and then
/// holds what the client sent, in order.
pub proof fn law_generated_stream_replays(
    id: Seq<char>,
    handshake: Seq<u8>,
    sent: Seq<(u64, Seq<u8>)>,
)
    requires
        all_fit(handshake, sent),
    ensures
        ({
            let rs = client_records(handshake, sent);
            let b = client_stream(id, handshake, sent);
            let i = crate::capture::stream_start(id).len() as int;
            &&& crate::capture::records_start(b, crate::capture::Ending::Whole) == Ok::<
                int,
                CaptureError,
            >(i)
            &&& crate::capture::all_records(b, i, crate::capture::Ending::Whole) == (
                rs,
                None::<CaptureError>,
            )
            &&& rs[0].kind == REC_CONNECT
        }),
{
    let rs = client_records(handshake, sent);
    assert forall|k: int| 0 <= k < rs.len() implies crate::capture::fits(
        #[trigger] rs[k].payload,
    ) by {
        if k > 0 {
            assert(rs[k].payload == sent[k - 1].1);
        }
    }
    crate::capture::law_stream_round_trip(id, rs);
}

} // verus!
