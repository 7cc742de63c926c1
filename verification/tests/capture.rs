//! Captures: record streams, their packing and the manifest.

use mlat_bench::bench::fuzz::{copy_row, move_handshake, move_record, moved_name, FuzzFault};
use mlat_bench::bench::generate::client_file_bytes;
use mlat_bench::bench::replay::{
    check_first, check_reply, connection_id, find_client, is_result, is_sent, read_recorded,
    read_reported, run_directory, serving_order, source_frequency, summarize, FeedFault,
};
use mlat_bench::capture::{
    client_file, encode_record, scenario_digest, text_lines, CaptureError, ClientEntry, ClientWriter,
    Ending, Manifest, Record, RecordIter, REC_C2S, REC_CONNECT, REC_DISCONNECT, REC_S2C,
};
use mlat_bench::icao::SimNanos;
use mlat_bench::proto::json::Number;
use mlat_bench::proto::messages::{Compression, ProtoError};
use mlat_bench::reading::Reading;
use mlat_bench::sim::gen::SendRecord;

fn r(x: f64) -> Reading {
    Reading(x.to_bits())
}

fn entry(id: &str) -> ClientEntry {
    ClientEntry {
        id: id.to_string(),
        file: client_file(id),
        clock_type: "dump1090".to_string(),
        compress: "none".to_string(),
        lat: r(47.21),
        lon: r(-1.55),
        alt_m: r(40.0),
    }
}

fn manifest() -> Manifest {
    Manifest::new(
        "x".to_string(),
        7,
        60,
        scenario_digest("[meta]\nname='x'\n"),
        vec![entry("rx-000")],
    )
}

#[test]
fn roundtrip() {
    let mut cw = ClientWriter::new("rx-000");
    cw.record(0, REC_CONNECT, b"{\"version\":3}\n").unwrap();
    cw.record(1_500_000_000, REC_C2S, b"{\"heartbeat\":{}}\n")
        .unwrap();
    let file = cw.finish().unwrap();

    let m = manifest();
    assert_eq!(m.clients.len(), 1);
    assert_eq!(m.clients[0].file, "clients/rx-000.mbc.zst");
    assert!(m.check().is_ok());

    let (recs, end) = RecordIter::open(&file).unwrap().collect_all();
    assert!(end.is_none());
    assert_eq!(recs.len(), 2);
    assert_eq!(recs[0].kind, REC_CONNECT);
    assert_eq!(recs[1].t_nanos, 1_500_000_000);
    assert_eq!(recs[1].payload, b"{\"heartbeat\":{}}\n");
}

#[test]
fn digests_are_of_the_text() {
    // The digest of the empty text.
    assert_eq!(
        scenario_digest(""),
        "e3b0c44298fc1c149afbf4c8996fb92427ae41e4649b934ca495991b7852b855"
    );
    assert_ne!(scenario_digest("a"), scenario_digest("b"));
}

#[test]
fn foreign_manifests_are_refused() {
    let mut m = manifest();
    m.format = "pcap".to_string();
    assert!(m.check().is_err());
    let mut m = manifest();
    m.version = 2;
    assert!(m.check().unwrap_err().contains('2'));
}

#[test]
fn packed_files_are_compressed() {
    let mut cw = ClientWriter::new("rx");
    for i in 0..200u64 {
        cw.record(i, REC_C2S, b"{\"heartbeat\":{}}\n").unwrap();
    }
    let file = cw.finish().unwrap();
    assert!(file.len() < 200 * 17);
    let (recs, _) = RecordIter::open(&file).unwrap().collect_all();
    assert_eq!(recs.len(), 200);
}

#[test]
fn damaged_files_are_told_apart() {
    assert!(matches!(
        RecordIter::open(b"not packed"),
        Err(CaptureError::Damaged | CaptureError::Short | CaptureError::BadMagic)
    ));
    assert!(matches!(
        RecordIter::over(b"WRONG--------------".to_vec(), Ending::Whole),
        Err(CaptureError::BadMagic)
    ));
    assert!(matches!(
        RecordIter::over(Vec::new(), Ending::Whole),
        Err(CaptureError::Short)
    ));
}

#[test]
fn cut_streams_keep_their_complete_records() {
    let mut bytes = mlat_bench::capture::encode_start("rx");
    bytes.extend(encode_record(1, REC_C2S, b"one\n").unwrap());
    let keep = bytes.len();
    bytes.extend(encode_record(2, REC_C2S, b"two\n").unwrap());
    for cut in keep..bytes.len() {
        let it = RecordIter::over(bytes[..cut].to_vec(), Ending::Whole).unwrap();
        let (recs, end) = it.collect_all();
        assert_eq!(recs.len(), 1, "cut at {cut}");
        assert_eq!(recs[0].payload, b"one\n");
        // A cut in the time of a record is an ordinary end.
        assert_eq!(end.is_none(), cut < keep + 8, "cut at {cut}");
    }
    let (recs, end) = RecordIter::over(bytes.clone(), Ending::Short)
        .unwrap()
        .collect_all();
    assert_eq!(recs.len(), 2);
    assert!(end.is_none());
    let mut it = RecordIter::over(bytes, Ending::Damaged).unwrap();
    assert!(it.next().unwrap().is_ok());
    assert!(it.next().unwrap().is_ok());
    assert!(matches!(it.next(), Some(Err(CaptureError::Damaged))));
}

#[test]
fn names_that_are_no_text_are_refused() {
    let mut bytes = mlat_bench::capture::encode_start("ab");
    let n = bytes.len();
    bytes[n - 1] = 0xFF;
    assert!(matches!(
        RecordIter::over(bytes, Ending::Whole),
        Err(CaptureError::NotText)
    ));
}

// -------------------------------------------------------------------- replay

fn rec(t: u64, kind: u8, payload: &[u8]) -> Record {
    Record {
        t_nanos: t,
        kind,
        payload: payload.to_vec(),
    }
}

#[test]
fn replay_starts_with_a_handshake() {
    assert!(matches!(check_first(None), Err(FeedFault::Empty)));
    assert!(matches!(
        check_first(Some(Err(CaptureError::Short))),
        Err(FeedFault::Broken(CaptureError::Short))
    ));
    assert!(matches!(
        check_first(Some(Ok(rec(0, REC_C2S, b"x")))),
        Err(FeedFault::NotConnect(REC_C2S))
    ));
    let first = check_first(Some(Ok(rec(5, REC_CONNECT, b"hello\n")))).unwrap();
    assert_eq!(first.payload, b"hello\n");
}

#[test]
fn the_server_must_choose_the_recorded_compression() {
    let ok = br#"{"compress":"zlib2"}"#;
    assert_eq!(check_reply(ok, "zlib2").unwrap(), Compression::Zlib2);
    assert!(matches!(
        check_reply(ok, "none"),
        Err(FeedFault::Negotiated(..))
    ));
    assert!(matches!(
        check_reply(ok, "lzma"),
        Err(FeedFault::UnknownCompress)
    ));
    assert!(matches!(
        check_reply(br#"{"deny":["no"]}"#, "none"),
        Err(FeedFault::Denied(_))
    ));
    assert!(matches!(
        check_reply(b"junk", "none"),
        Err(FeedFault::BadReply(ProtoError::Json(_)))
    ));
    match check_reply(br#"{ "motd": "hi" }"#, "none") {
        Err(FeedFault::BadReply(ProtoError::BadHandshakeReply(t))) => {
            assert_eq!(t, "{\"motd\":\"hi\"}")
        }
        other => panic!("{other:?}"),
    }
}

#[test]
fn streams_are_summed_up() {
    let v = vec![
        rec(0, REC_CONNECT, b"abc"),
        rec(10, REC_C2S, b"de"),
        rec(20, REC_S2C, b"f"),
        rec(15, REC_DISCONNECT, b""),
    ];
    let s = summarize(&v);
    assert_eq!(s.payload_bytes, 6);
    assert_eq!(s.last_t_nanos, 20);
    assert_eq!(s.counts[REC_C2S as usize], 1);
    assert!(is_sent(&v[1]));
    assert!(!is_sent(&v[2]));
    assert!(is_result(br#"{"result":{}}"#));
    assert!(!is_result(br#"{"heartbeat":{}}"#));
}

#[test]
fn recorded_handshakes_say_what_they_hold() {
    let a = read_recorded(
        br#"{"clock_type":"sbs","compress":["zlib","none"],"lat":47.5,"lon":-1,"alt":"x"}"#,
    );
    assert_eq!(a.clock_type, "sbs");
    assert_eq!(a.compress, "zlib");
    assert_eq!(a.lat.as_deref(), Some("47.5"));
    assert_eq!(a.lon.as_deref(), Some("-1"));
    assert!(a.alt.is_none());
    let b = read_recorded(b"junk");
    assert_eq!((b.clock_type.as_str(), b.compress.as_str()), ("unknown", "unknown"));
}

#[test]
fn names_and_frequencies() {
    assert_eq!(connection_id(7), "conn-007");
    assert_eq!(run_directory(1788, "smoke", false, 42), "runs/1788_smoke_s42");
    assert_eq!(
        run_directory(1788, "smoke", true, 42),
        "runs/1788_smoke_replay_s42"
    );
    assert_eq!(source_frequency("radarcape_gps"), 1_000_000_000);
    assert_eq!(source_frequency("sbs"), 20_000_000);
    assert_eq!(source_frequency("beast"), 12_000_000);
    let c = vec![entry("a"), entry("b")];
    assert_eq!(find_client(&c, "b"), Some(1));
    assert_eq!(find_client(&c, "z"), None);
}

#[test]
fn reported_receptions_are_served_in_order() {
    let v = read_reported(br#"{"sync":{"et":20,"ot":10,"em":"8d01","om":"8d02"}}"#);
    assert_eq!(v.len(), 2);
    assert_eq!(v[0].t, "20");
    assert_eq!(v[1].frame, [0x8D, 0x02]);
    let v = read_reported(br#"{"mlat":{"t":5,"m":"5d"}}"#);
    assert_eq!(v.len(), 1);
    assert!(read_reported(br#"{"mlat":{"t":5,"m":"5"}}"#).is_empty());
    assert!(read_reported(b"junk").is_empty());
    assert_eq!(serving_order(&vec![30, 10, 20, 10]), [1, 3, 2, 0]);
}

// ---------------------------------------------------------------------- fuzz

fn n(s: &str) -> Number {
    Number::from_text(s).unwrap()
}

#[test]
fn handshakes_are_moved() {
    let line = b"{\"user\":\"a\",\"lat\":1.0,\"lon\":2.0,\"alt\":3.0}\n";
    let moved = move_handshake(line, &n("10.5"), &n("20.25"), &n("30")).unwrap();
    let v: serde_json::Value = serde_json::from_slice(&moved).unwrap();
    assert_eq!(v["lat"].as_f64(), Some(10.5));
    assert_eq!(v["lon"].as_f64(), Some(20.25));
    assert_eq!(v["alt"].as_f64(), Some(30.0));
    assert_eq!(v["user"], "a");
    assert_eq!(*moved.last().unwrap(), b'\n');
    assert!(matches!(
        move_handshake(b"junk", &n("1"), &n("1"), &n("1")),
        Err(FuzzFault::NotJson)
    ));
    assert!(matches!(
        move_handshake(b"[1]", &n("1"), &n("1"), &n("1")),
        Err(FuzzFault::NotObject)
    ));
}

#[test]
fn only_handshakes_are_moved() {
    let other = rec(5, REC_C2S, b"{\"lat\":1}");
    assert_eq!(
        move_record(&other, &n("9"), &n("9"), &n("9")).unwrap(),
        b"{\"lat\":1}"
    );
    assert_eq!(moved_name("smoke"), "smoke-fuzzed");
}

#[test]
fn generated_files_open_with_the_handshake() {
    let sent = vec![
        SendRecord {
            t: SimNanos(100),
            bytes: b"a\n".to_vec(),
        },
        SendRecord {
            t: SimNanos(200),
            bytes: b"b\n".to_vec(),
        },
    ];
    let file = client_file_bytes("rx-000", &b"{\"version\":3}\n".to_vec(), &sent).unwrap();
    let again = client_file_bytes("rx-000", &b"{\"version\":3}\n".to_vec(), &sent).unwrap();
    assert_eq!(file, again, "the same stream packs into the same file");
    let (recs, end) = RecordIter::open(&file).unwrap().collect_all();
    assert!(end.is_none());
    assert_eq!(recs.len(), 3);
    assert_eq!(recs[0].kind, REC_CONNECT);
    assert_eq!(recs[0].payload, b"{\"version\":3}\n");
    assert_eq!((recs[2].t_nanos, recs[2].kind), (200, REC_C2S));
}

#[test]
fn packed_text_files_give_their_lines() {
    let pack = |b: &[u8]| zstd::stream::encode_all(b, 3).unwrap();
    let lines = |b: &[u8]| text_lines(&pack(b));
    assert_eq!(lines(b"a\nb\r\n\n\xc3\xa9\r").unwrap(), ["a", "b", "", "\u{e9}\r"]);
    assert!(lines(b"").unwrap().is_empty());
    assert_eq!(lines(b"a\n\xff\n").unwrap_err(), CaptureError::NotText);
    let whole = pack(b"a\nb\n");
    assert_eq!(text_lines(&whole[..whole.len() - 1]).unwrap_err(), CaptureError::Short);
    assert_eq!(text_lines(b"no archive").unwrap_err(), CaptureError::Damaged);
}

#[test]
fn copied_rows_are_compact() {
    assert_eq!(
        copy_row(br#"{ "t_s": 1, "icao": 2, "receivers": [ "a" ] }"#).unwrap(),
        b"{\"icao\":2,\"receivers\":[\"a\"],\"t_s\":1}\n"
    );
    assert!(copy_row(b"{").is_none());
}
