//! Replaying and recording: what is checked, what is sent, what is written down.

use vstd::prelude::*;
use vstd::string::StringExecFns;

use crate::capture::{CaptureError, ClientEntry, Record, REC_C2S, REC_CONNECT};
use crate::order::order_by_key;
use crate::proto::json::{
    empty_object, integer_or_null_value, integer_value, member, member_number, member_text,
    null_value, number_value, parse_json, set_member, text_value, value_pretty, value_text, Number,
};
use crate::proto::messages::{hex_decode, Compression, ServerMsg};
use crate::text::{decimal_of, padded_of, same_text};

verus! {

// -------------------------------------------------------------------- replay

/// Why a client of a capture cannot be replayed.
#[derive(Debug)]
pub enum FeedFault {
    /// The stream holds no record.
    Empty,
    /// The stream is broken.
    Broken(CaptureError),
    /// The first record is of another kind.
    NotConnect(u8),
    /// The capture names a compression that is not known.
    UnknownCompress,
    /// The server chose another compression than the stream is framed with.
    Negotiated(Compression, Compression),
    /// The server refused; its reply.
    Denied(serde_json::Value),
    /// The reply is no handshake reply.
    BadReply(crate::proto::messages::ProtoError),
    /// The reply is some other message.
    Unexpected,
}

/// The handshake of a stream: its first record must be a connection.
pub fn check_first(first: Option<Result<Record, CaptureError>>) -> (r: Result<Record, FeedFault>)
    ensures
        match first {
            None => r matches Err(FeedFault::Empty),
            Some(Err(e)) => r matches Err(FeedFault::Broken(f)) && f == e,
            Some(Ok(rec)) => if rec.kind == REC_CONNECT {
                r matches Ok(got) && got == rec
            } else {
                r matches Err(FeedFault::NotConnect(k)) && k == rec.kind
            },
        },
{
    match first {
        None => Err(FeedFault::Empty),
        Some(Err(e)) => Err(FeedFault::Broken(e)),
        Some(Ok(rec)) => if rec.kind == REC_CONNECT {
            Ok(rec)
        } else {
            Err(FeedFault::NotConnect(rec.kind))
        },
    }
}

/// Checks the reply to a replayed handshake: the server must have chosen the
/// compression that the stream is framed with.
pub fn check_reply(line: &[u8], compress: &str) -> (r: Result<Compression, FeedFault>)
    ensures
        match crate::proto::json::json_of(line@) {
            None => r matches Err(
                FeedFault::BadReply(crate::proto::messages::ProtoError::Json(_)),
            ),
            Some(v) => match crate::proto::messages::handshake_reply(v) {
                None => r matches Err(
                    FeedFault::BadReply(
                        crate::proto::messages::ProtoError::BadHandshakeReply(t),
                    ),
                ) && t@ == crate::proto::json::json_text(v),
                Some(crate::proto::messages::ServerView::Deny(d)) => r matches Err(
                    FeedFault::Denied(w),
                ) && crate::proto::json::value_view(w) == d,
                Some(
                    crate::proto::messages::ServerView::HandshakeAccept { compress: chosen, .. },
                ) => match crate::proto::messages::compress_named(compress@) {
                    None => r matches Err(FeedFault::UnknownCompress),
                    Some(want) => if chosen == want {
                        r matches Ok(c) && c == want
                    } else {
                        r matches Err(FeedFault::Negotiated(a, b)) && a == chosen && b == want
                    },
                },
                Some(_) => r matches Err(FeedFault::Unexpected),
            },
        },
{
    match ServerMsg::parse_handshake_reply(line) {
        Err(e) => Err(FeedFault::BadReply(e)),
        Ok(m) => match m {
            ServerMsg::HandshakeAccept { compress: chosen, .. } => match Compression::from_wire(
                compress,
            ) {
                None => Err(FeedFault::UnknownCompress),
                Some(want) => if chosen == want {
                    Ok(want)
                } else {
                    Err(FeedFault::Negotiated(chosen, want))
                },
            },
            ServerMsg::Deny(v) => Err(FeedFault::Denied(v)),
            _ => Err(FeedFault::Unexpected),
        },
    }
}

/// Whether replay sends a record: only what the client sent. Other kinds, known or
/// not, are passed over.
pub fn is_sent(rec: &Record) -> (r: bool)
    ensures
        r == (rec.kind == REC_C2S),
{
    rec.kind == REC_C2S
}

/// Whether a line of the server is a result.
pub fn is_result(line: &[u8]) -> (r: bool)
    ensures
        r == (crate::proto::json::json_of(line@) matches Some(v)
            && crate::proto::messages::server_message(v) is Result),
{
    match ServerMsg::parse_line(line) {
        Ok(m) => matches!(m, ServerMsg::Result(_)),
        Err(_) => false,
    }
}

/// Where the files of a run go.
pub fn run_directory(stamp_s: u64, name: &str, replay: bool, seed: u64) -> (r: String)
    ensures
        r@ == "runs/"@ + crate::text::decimal(stamp_s as nat) + "_"@ + name@ + (if replay {
            "_replay_s"@
        } else {
            "_s"@
        }) + crate::text::decimal(seed as nat),
{
    let mut out = "runs/".to_owned();
    let s = decimal_of(stamp_s);
    out.append(s.as_str());
    out.append("_");
    out.append(name);
    out.append(
        if replay {
            "_replay_s"
        } else {
            "_s"
        },
    );
    let n = decimal_of(seed);
    out.append(n.as_str());
    out
}

// ------------------------------------------------------------------- inspect

/// What a client's stream holds.
#[derive(Debug)]
pub struct Summary {
    /// Records of each kind.
    pub counts: Vec<u64>,
    pub payload_bytes: u64,
    pub last_t_nanos: u64,
}

/// How many records are of a kind.
pub open spec fn kind_count(v: Seq<Record>, kind: int) -> nat
    decreases v.len(),
{
    if v.len() == 0 {
        0
    } else {
        kind_count(v.drop_last(), kind) + if v.last().kind == kind {
            1nat
        } else {
            0
        }
    }
}

/// The payload bytes of a run of records.
pub open spec fn payload_sum(v: Seq<Record>) -> nat
    decreases v.len(),
{
    if v.len() == 0 {
        0
    } else {
        payload_sum(v.drop_last()) + v.last().payload@.len()
    }
}

/// The latest time of a run of records.
pub open spec fn latest(v: Seq<Record>) -> u64
    decreases v.len(),
{
    if v.len() == 0 {
        0
    } else {
        let rest = latest(v.drop_last());
        if v.last().t_nanos > rest {
            v.last().t_nanos
        } else {
            rest
        }
    }
}

proof fn lemma_payload_sum(v: Seq<Record>, i: int)
    requires
        0 <= i <= v.len(),
    ensures
        payload_sum(v.take(i)) <= payload_sum(v),
    decreases v.len() - i,
{
    if i < v.len() {
        lemma_payload_sum(v, i + 1);
        assert(v.take(i + 1).drop_last() =~= v.take(i));
    } else {
        assert(v.take(i) =~= v);
    }
}

/// Summarizes the records of a stream. Their payloads must fit in memory together.
pub fn summarize(records: &Vec<Record>) -> (r: Summary)
    requires
        payload_sum(records@) <= u64::MAX,
    ensures
        r.counts@.len() == 256,
        forall|k: int|
            0 <= k < 256 ==> #[trigger] r.counts@[k] == kind_count(records@, k),
        r.payload_bytes == payload_sum(records@),
        r.last_t_nanos == latest(records@),
{
    let mut counts: Vec<u64> = vec![0u64; 256];
    let mut bytes: u64 = 0;
    let mut last: u64 = 0;
    let mut i: usize = 0;
    while i < records.len()
        invariant
            payload_sum(records@) <= u64::MAX,
            i <= records@.len(),
            counts@.len() == 256,
            forall|k: int|
                0 <= k < 256 ==> #[trigger] counts@[k] == kind_count(records@.take(i as int), k),
            forall|k: int| 0 <= k < 256 ==> #[trigger] counts@[k] <= i,
            bytes == payload_sum(records@.take(i as int)),
            last == latest(records@.take(i as int)),
        decreases records@.len() - i,
    {
        proof {
            assert(records@.take(i + 1).drop_last() =~= records@.take(i as int));
            assert(records@.take(i + 1).last() == records@[i as int]);
            lemma_payload_sum(records@, i + 1);
        }
        let k: usize = records[i].kind as usize;
        counts[k] = counts[k] + 1;
        bytes = bytes + records[i].payload.len() as u64;
        if records[i].t_nanos > last {
            last = records[i].t_nanos;
        }
        i = i + 1;
    }
    assert(records@.take(records@.len() as int) =~= records@);
    Summary { counts, payload_bytes: bytes, last_t_nanos: last }
}

// -------------------------------------------------------------------- record

/// What a recorded handshake tells of its client. Coordinates stand as number
/// tokens.
#[derive(Debug)]
pub struct Recorded {
    pub clock_type: String,
    pub compress: String,
    pub lat: Option<String>,
    pub lon: Option<String>,
    pub alt: Option<String>,
}

/// The first offer of a handshake, where there is one and it is text.
pub open spec fn first_offer(v: crate::proto::json::JsonView) -> Option<Seq<char>> {
    match v.member("compress"@) {
        Some(crate::proto::json::JsonView::Array(items)) => if items.len() > 0 {
            items[0].text()
        } else {
            None
        },
        _ => None,
    }
}

/// A text, or the word for none.
pub open spec fn or_unknown(t: Option<Seq<char>>) -> Seq<char> {
    match t {
        Some(s) => s,
        None => "unknown"@,
    }
}

/// The tree of a handshake line; a line that is not JSON says nothing.
pub open spec fn handshake_tree(line: Seq<u8>) -> crate::proto::json::JsonView {
    match crate::proto::json::json_of(line) {
        Some(v) => v,
        None => crate::proto::json::JsonView::Null,
    }
}

fn offer_of(v: &serde_json::Value) -> (r: Option<String>)
    ensures
        crate::proto::messages::text_view(r) == first_offer(crate::proto::json::value_view(*v)),
{
    match member(v, "compress") {
        None => None,
        Some(m) => match m.as_array() {
            None => None,
            Some(items) => if items.len() == 0 {
                None
            } else {
                match items[0].as_str() {
                    Some(t) => Some(t.to_owned()),
                    None => None,
                }
            },
        },
    }
}

/// Reads a recorded handshake line, as far as it can be read. The server's choice of
/// compression is not in it: the first offer stands for it.
pub fn read_recorded(line: &[u8]) -> (r: Recorded)
    ensures
        ({
            let v = handshake_tree(line@);
            &&& r.clock_type@ == or_unknown(crate::proto::json::text_member(v, "clock_type"@))
            &&& r.compress@ == or_unknown(first_offer(v))
            &&& crate::proto::messages::text_view(r.lat) == crate::proto::json::number_member(
                v,
                "lat"@,
            )
            &&& crate::proto::messages::text_view(r.lon) == crate::proto::json::number_member(
                v,
                "lon"@,
            )
            &&& crate::proto::messages::text_view(r.alt) == crate::proto::json::number_member(
                v,
                "alt"@,
            )
        }),
{
    match parse_json(line) {
        Err(_) => Recorded {
            clock_type: "unknown".to_owned(),
            compress: "unknown".to_owned(),
            lat: None,
            lon: None,
            alt: None,
        },
        Ok(v) => Recorded {
            clock_type: match member_text(&v, "clock_type") {
                Some(t) => t,
                None => "unknown".to_owned(),
            },
            compress: match offer_of(&v) {
                Some(t) => t,
                None => "unknown".to_owned(),
            },
            lat: member_number(&v, "lat"),
            lon: member_number(&v, "lon"),
            alt: member_number(&v, "alt"),
        },
    }
}

/// The id of a recorded connection.
pub fn connection_id(seq: u32) -> (r: String)
    ensures
        r@ == "conn-"@ + crate::text::padded(seq as int, 3),
{
    let mut out = "conn-".to_owned();
    let n = padded_of(seq as i64, 3);
    out.append(n.as_str());
    out
}

// --------------------------------------------------------------------- beast

/// The client of a capture with an id.
pub fn find_client(clients: &Vec<ClientEntry>, id: &str) -> (r: Option<usize>)
    ensures
        r is Some <==> (exists|i: int| 0 <= i < clients@.len() && (#[trigger] clients@[i]).id@ == id@),
        r matches Some(i) ==> i < clients@.len() && clients@[i as int].id@ == id@ && (forall|k: int|
            0 <= k < i ==> (#[trigger] clients@[k]).id@ != id@),
{
    let mut i: usize = 0;
    while i < clients.len()
        invariant
            i <= clients@.len(),
            forall|k: int| 0 <= k < i ==> (#[trigger] clients@[k]).id@ != id@,
        decreases clients@.len() - i,
    {
        if same_text(clients[i].id.as_str(), id) {
            return Some(i);
        }
        i = i + 1;
    }
    None
}

/// The frequency of a client's counter, in hertz.
pub fn source_frequency(clock_type: &str) -> (r: u64)
    ensures
        r == (if clock_type@ == "radarcape_gps"@ {
            1_000_000_000
        } else if clock_type@ == "sbs"@ {
            20_000_000
        } else {
            12_000_000u64
        }),
{
    if same_text(clock_type, "radarcape_gps") {
        1_000_000_000
    } else if same_text(clock_type, "sbs") {
        20_000_000
    } else {
        12_000_000
    }
}

/// A reception that a line reports: the counter, as its token, and the frame.
#[derive(Debug)]
pub struct Reported {
    pub t: String,
    pub frame: Vec<u8>,
}

/// The views of a run of reported receptions.
pub open spec fn reported_views(v: Seq<Reported>) -> Seq<(Seq<char>, Seq<u8>)> {
    v.map_values(|r: Reported| (r.t@, r.frame@))
}

/// The reception under two keys of a report, where both are there and the frame is
/// hexadecimal.
pub open spec fn reported_in(
    v: crate::proto::json::JsonView,
    t: Seq<char>,
    m: Seq<char>,
) -> Seq<(Seq<char>, Seq<u8>)> {
    match (crate::proto::json::number_member(v, t), crate::proto::json::text_member(v, m)) {
        (Some(n), Some(hex)) => match crate::proto::messages::hex_bytes(hex) {
            Some(b) => seq![(n, b)],
            None => seq![],
        },
        _ => seq![],
    }
}

/// The receptions that a client's line reports: both of a pair, or the one of a
/// single measurement.
pub open spec fn reported_by(line: Seq<u8>) -> Seq<(Seq<char>, Seq<u8>)> {
    match crate::proto::json::json_of(line) {
        None => seq![],
        Some(v) => match v.member("sync"@) {
            Some(s) => reported_in(s, "et"@, "em"@) + reported_in(s, "ot"@, "om"@),
            None => match v.member("mlat"@) {
                Some(m) => reported_in(m, "t"@, "m"@),
                None => seq![],
            },
        },
    }
}

fn push_reported(out: &mut Vec<Reported>, v: &serde_json::Value, t: &str, m: &str)
    ensures
        reported_views(final(out)@) == reported_views(old(out)@) + reported_in(
            crate::proto::json::value_view(*v),
            t@,
            m@,
        ),
{
    let ghost before = reported_views(out@);
    if let (Some(n), Some(hex)) = (member_number(v, t), member_text(v, m)) {
        if let Some(frame) = hex_decode(hex.as_str()) {
            let ghost added = (n@, frame@);
            out.push(Reported { t: n, frame });
            assert(reported_views(out@) =~= before + seq![added]);
            return;
        }
    }
    assert(reported_views(out@) =~= before + Seq::<(Seq<char>, Seq<u8>)>::empty());
}

/// Reads the receptions out of a client's line; see `reported_by`.
pub fn read_reported(line: &[u8]) -> (r: Vec<Reported>)
    ensures
        reported_views(r@) == reported_by(line@),
{
    let mut out: Vec<Reported> = Vec::new();
    assert(reported_views(out@) =~= seq![]);
    let v = match parse_json(line) {
        Ok(v) => v,
        Err(_) => {
            return out;
        },
    };
    if let Some(s) = member(&v, "sync") {
        push_reported(&mut out, s, "et", "em");
        push_reported(&mut out, s, "ot", "om");
        assert(reported_views(out@) =~= reported_by(line@));
    } else if let Some(m) = member(&v, "mlat") {
        push_reported(&mut out, m, "t", "m");
        assert(reported_views(out@) =~= reported_by(line@));
    }
    out
}

/// The order in which receptions are served: by counter, those of one counter in the
/// order in which they were reported. Counters have 48 bits.
pub fn serving_order(counts: &Vec<u64>) -> (r: Vec<usize>)
    requires
        forall|i: int| 0 <= i < counts@.len() ==> #[trigger] counts@[i] < 0x1_0000_0000_0000,
    ensures
        crate::order::is_order(
            counts@.map_values(|c: u64| c as i64),
            r@,
            0,
            counts@.len() as int,
        ),
{
    let mut keys: Vec<i64> = Vec::new();
    let mut i: usize = 0;
    while i < counts.len()
        invariant
            i <= counts@.len(),
            forall|k: int| 0 <= k < counts@.len() ==> #[trigger] counts@[k] < 0x1_0000_0000_0000,
            keys@ =~= counts@.take(i as int).map_values(|c: u64| c as i64),
        decreases counts@.len() - i,
    {
        keys.push(counts[i] as i64);
        i = i + 1;
    }
    assert(keys@ =~= counts@.map_values(|c: u64| c as i64));
    order_by_key(keys.as_slice())
}

// ------------------------------------------------------------- files of a run

/// What is written about a finished run: whether it went well, its capture, its
/// duration and the wall time of its start.
pub open spec fn run_tree(
    ok: bool,
    capture: Seq<char>,
    duration_s: u64,
    wall_t0: crate::proto::json::JsonView,
) -> crate::proto::json::JsonView {
    crate::proto::json::JsonView::Object(
        map![
            "status"@ => crate::proto::json::JsonView::Text(
                if ok {
                    "ok"@
                } else {
                    "failed"@
                },
            ),
            "capture"@ => crate::proto::json::JsonView::Text(capture),
            "duration_s"@ => crate::proto::json::JsonView::Number(
                crate::text::decimal(duration_s as nat),
            ),
            "wall_t0"@ => wall_t0,
        ],
    )
}

/// The file about a finished run; `None` where the time is out of range.
pub fn run_text(ok: bool, capture: &str, duration_s: u64, wall_t0: &Number) -> (r: Option<String>)
    ensures
        match crate::proto::json::number_tree(*wall_t0) {
            None => r is None,
            Some(t) => r matches Some(s) && s@ == crate::proto::json::pretty_text(
                run_tree(ok, capture@, duration_s, t),
            ),
        },
{
    let t = match number_value(wall_t0) {
        Some(t) => t,
        None => {
            return None;
        },
    };
    let mut v = empty_object();
    let _a = set_member(
        &mut v,
        "status",
        text_value(
            if ok {
                "ok"
            } else {
                "failed"
            },
        ),
    );
    let _b = set_member(&mut v, "capture", text_value(capture));
    let _c = set_member(&mut v, "duration_s", integer_value(duration_s));
    let _d = set_member(&mut v, "wall_t0", t);
    match value_pretty(&v) {
        Ok(s) => Some(s),
        Err(_) => None,
    }
}

/// A line of a run's files: compact text and a line feed.
fn compact_line(v: &serde_json::Value) -> (r: String)
    ensures
        r@ == crate::proto::json::json_text(crate::proto::json::value_view(*v)) + "\n"@,
{
    let mut s = value_text(v);
    s.append("\n");
    s
}

/// A line about the server's sync state at a time: the document that it published,
/// whatever that holds, or null where it is not JSON. `None` where the time is out of
/// range.
pub fn sync_line(t: &Number, snapshot: &[u8]) -> (r: Option<String>)
    ensures
        match crate::proto::json::number_tree(*t) {
            None => r is None,
            Some(n) => r matches Some(s) && s@ == crate::proto::json::json_text(
                crate::proto::json::JsonView::Object(
                    map![
                        "t"@ => n,
                        "sync"@ => (match crate::proto::json::json_of(snapshot@) {
                            Some(v) => v,
                            None => crate::proto::json::JsonView::Null,
                        }),
                    ],
                ),
            ) + "\n"@,
        },
{
    let n = match number_value(t) {
        Some(n) => n,
        None => {
            return None;
        },
    };
    let sync = match parse_json(snapshot) {
        Ok(v) => v,
        Err(_) => null_value(),
    };
    let mut v = empty_object();
    let _a = set_member(&mut v, "t", n);
    let _b = set_member(&mut v, "sync", sync);
    Some(compact_line(&v))
}

/// A line about the server's resources at a time: processor time and memory, null
/// where they are not known. `None` where the time is out of range.
pub fn sample_line(t: &Number, cpu_usec: Option<u64>, mem_bytes: Option<u64>) -> (r: Option<String>)
    ensures
        match crate::proto::json::number_tree(*t) {
            None => r is None,
            Some(n) => r matches Some(s) && s@ == crate::proto::json::json_text(
                crate::proto::json::JsonView::Object(
                    map![
                        "t"@ => n,
                        "cpu_usec"@ => crate::proto::json::integer_or_null(cpu_usec),
                        "mem_bytes"@ => crate::proto::json::integer_or_null(mem_bytes),
                    ],
                ),
            ) + "\n"@,
        },
{
    let n = match number_value(t) {
        Some(n) => n,
        None => {
            return None;
        },
    };
    let mut v = empty_object();
    let _a = set_member(&mut v, "t", n);
    let _b = set_member(&mut v, "cpu_usec", integer_or_null_value(cpu_usec));
    let _c = set_member(&mut v, "mem_bytes", integer_or_null_value(mem_bytes));
    Some(compact_line(&v))
}

/// How many records are of a kind is the number of records with it.
pub proof fn law_kinds_are_counted(v: Seq<Record>, kind: int)
    ensures
        vstd::set_lib::set_int_range(0, v.len() as int).filter(|i: int| v[i].kind == kind).finite(),
        kind_count(v, kind) == vstd::set_lib::set_int_range(0, v.len() as int).filter(
            |i: int| v[i].kind == kind,
        ).len(),
    decreases v.len(),
{
    let n = v.len() as int;
    let all = vstd::set_lib::set_int_range(0, n).filter(|i: int| v[i].kind == kind);
    vstd::set_lib::lemma_int_range(0, n);
    if n > 0 {
        let r = v.drop_last();
        law_kinds_are_counted(r, kind);
        let rest = vstd::set_lib::set_int_range(0, n - 1).filter(|i: int| r[i].kind == kind);
        assert forall|i: int| 0 <= i < n - 1 implies r[i] == v[i] by {}
        if v.last().kind == kind {
            assert(all =~= rest.insert(n - 1));
        } else {
            assert(all =~= rest);
        }
    } else {
        assert(all =~= Set::empty());
    }
}

/// The payloads of two runs of records add up.
pub proof fn law_payloads_add_up(a: Seq<Record>, b: Seq<Record>)
    ensures
        payload_sum(a + b) == payload_sum(a) + payload_sum(b),
    decreases b.len(),
{
    if b.len() == 0 {
        assert(a + b =~= a);
    } else {
        law_payloads_add_up(a, b.drop_last());
        assert((a + b).drop_last() =~= a + b.drop_last());
    }
}

/// No record is later than the latest time, and one has it, where there is any.
pub proof fn law_latest_is_latest(v: Seq<Record>, i: int)
    requires
        0 <= i < v.len(),
    ensures
        v[i].t_nanos <= latest(v),
        exists|k: int| 0 <= k < v.len() && (#[trigger] v[k]).t_nanos == latest(v),
    decreases v.len(),
{
    let r = v.drop_last();
    if r.len() > 0 {
        law_latest_is_latest(r, if i < r.len() {
            i
        } else {
            0
        });
        let k = choose|k: int| 0 <= k < r.len() && (#[trigger] r[k]).t_nanos == latest(r);
        assert(v[k].t_nanos == latest(r));
        if i < r.len() {
            assert(r[i] == v[i]);
        }
    } else {
        assert(latest(r) == 0);
    }
    assert(v[v.len() - 1].t_nanos == v.last().t_nanos);
}

/// A line of a pair reports both receptions, the even one first, each frame with its own
/// counter.
pub proof fn law_pairs_are_reported(v: crate::proto::json::JsonView, line: Seq<u8>)
    requires
        crate::proto::json::json_of(line) == Some(v),
        v.member("sync"@) is Some,
    ensures
        ({
            let s = v.member("sync"@)->0;
            let (et, ot) = (
                crate::proto::json::number_member(s, "et"@),
                crate::proto::json::number_member(s, "ot"@),
            );
            let (em, om) = (
                crate::proto::json::text_member(s, "em"@),
                crate::proto::json::text_member(s, "om"@),
            );
            (et is Some && ot is Some && em is Some && om is Some
                && crate::proto::messages::hex_bytes(em->0) is Some
                && crate::proto::messages::hex_bytes(om->0) is Some) ==> {
                &&& reported_by(line).len() == 2
                &&& reported_by(line)[0].0 == et->0
                &&& reported_by(line)[0].1 == crate::proto::messages::hex_bytes(em->0)->0
                &&& reported_by(line)[1].0 == ot->0
                &&& reported_by(line)[1].1 == crate::proto::messages::hex_bytes(om->0)->0
            }
        }),
{
}

/// The file about a run says whether it went well, and everything else under its own name.
pub proof fn law_run_file_says_what_happened(
    ok: bool,
    capture: Seq<char>,
    duration_s: u64,
    wall_t0: crate::proto::json::JsonView,
)
    ensures
        ({
            let v = run_tree(ok, capture, duration_s, wall_t0);
            &&& crate::proto::json::text_member(v, "capture"@) == Some(capture)
            &&& v.member("wall_t0"@) == Some(wall_t0)
            &&& crate::proto::json::number_member(v, "duration_s"@) == Some(
                crate::text::decimal(duration_s as nat),
            )
            &&& crate::proto::json::text_member(v, "status"@) == Some("ok"@) <==> ok
            &&& crate::proto::json::text_member(v, "status"@) == Some("failed"@) <==> !ok
        }),
{
    reveal_strlit("status");
    reveal_strlit("capture");
    reveal_strlit("duration_s");
    reveal_strlit("wall_t0");
    reveal_strlit("ok");
    reveal_strlit("failed");
    assert("status"@.len() == 6 && "capture"@.len() == 7 && "duration_s"@.len() == 10
        && "wall_t0"@.len() == 7);
    assert("capture"@[0] == 'c' && "wall_t0"@[0] == 'w');
    assert("ok"@.len() == 2 && "failed"@.len() == 6);
}

} // verus!
