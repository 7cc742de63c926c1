//! The feeder's side of a session.

use mlat_bench::client::session::{
    downlink_is_framed, feeder_handshake, input_clock, next_backoff, parse_alt, parse_sink,
    read_order, read_reply, stats_file_name, Downlink, Order, ResultPos, ResultSink,
    SessionFault, Uplink, BACKOFF_LIMIT_S, BACKOFF_START_S, MLAT_STAMP, UPLINK_LIMIT,
};
use mlat_bench::client::stats::StatsFile;
use mlat_bench::modes::decode::df_of;
use mlat_bench::proto::framing::{FramingError, ZlibFrameEncoder};
use mlat_bench::proto::json::Number;
use mlat_bench::proto::messages::{ClockType, Compression, ProtoError};

/// The metres that an altitude text means.
fn metres(s: &str) -> Option<f64> {
    parse_alt(s).map(|a| {
        let x: f64 = a.number.parse().unwrap();
        if a.feet {
            x * 0.3048
        } else {
            x
        }
    })
}

#[test]
fn alt_suffixes() {
    assert_eq!(metres("65").unwrap(), 65.0);
    assert_eq!(metres("65m").unwrap(), 65.0);
    assert!((metres("100ft").unwrap() - 30.48).abs() < 1e-9);
    assert!(metres("65x").is_none());
}

#[test]
fn clocks_and_sinks_are_named() {
    assert_eq!(input_clock("dump1090"), Some(ClockType::Dump1090));
    assert!(input_clock("sundial").is_none());
    assert!(matches!(
        parse_sink("basestation,listen,30003"),
        Some(ResultSink::SbsListen(_))
    ));
    assert!(matches!(
        parse_sink("beast,listen,30005"),
        Some(ResultSink::BeastListen(_))
    ));
    match parse_sink("beast,connect,localhost:30104") {
        Some(ResultSink::BeastConnect(to)) => assert_eq!(to, "localhost:30104"),
        other => panic!("{other:?}"),
    }
    assert!(parse_sink("tape,listen,1").is_none());
}

#[test]
fn backoff_doubles_up_to_the_limit() {
    let mut s = BACKOFF_START_S;
    let mut seen = vec![s];
    for _ in 0..6 {
        s = next_backoff(s);
        seen.push(s);
    }
    assert_eq!(seen, [5, 10, 20, 40, 60, 60, 60]);
    assert_eq!(next_backoff(BACKOFF_LIMIT_S), BACKOFF_LIMIT_S);
}

#[test]
fn statistics_files_are_named_after_the_server() {
    let a = stats_file_name("stats", "feed.example.org:31090");
    assert!(a.starts_with("stats"), "{a}");
    assert!(!a.contains(':'), "{a}");
    assert_ne!(a, stats_file_name("stats", "feed.example.net:31090"));
}

#[test]
fn feeders_offer_every_compression() {
    let h = feeder_handshake(
        "stn".to_string(),
        None,
        Number::from_text("47.0"),
        Number::from_text("-1.5"),
        Number::from_text("40"),
        ClockType::Beast,
        true,
        true,
        "mlatc".to_string(),
    );
    assert_eq!(h.version, 3);
    assert_eq!(h.return_stats, Some(true));
    let line = String::from_utf8(h.to_line()).unwrap();
    assert!(line.ends_with(",\"heartbeat\":true,\"return_stats\":true}\n"));
    assert!(h.compress.contains(&Compression::Zlib2));
    assert!(h.compress.contains(&Compression::Plain));
    assert_eq!(h.return_results, Some(true));
}

#[test]
fn replies_open_or_end_the_session() {
    let (c, motd) = read_reply(br#"{"compress":"zlib","motd":"hi"}"#).unwrap();
    assert_eq!(c, Compression::Zlib);
    assert_eq!(motd.as_deref(), Some("hi"));
    assert!(matches!(read_reply(b""), Err(SessionFault::Closed)));
    assert!(matches!(
        read_reply(br#"{"deny":["no"]}"#),
        Err(SessionFault::Denied(_))
    ));
    assert!(matches!(
        read_reply(b"junk"),
        Err(SessionFault::BadReply(_))
    ));
}

#[test]
fn plain_uplinks_send_lines() {
    let mut u = Uplink::new(Compression::Plain);
    let mut got: Vec<u8> = Vec::new();
    if let Some(b) = u.send(b"a\n").unwrap() {
        got.extend(b);
    }
    if let Some(b) = u.flush().unwrap() {
        got.extend(b);
    }
    assert_eq!(got, b"a\n");
    let beat = u.heartbeat();
    assert!(beat.is_some(), "a heartbeat on a plain uplink is a line");
}

#[test]
fn framed_uplinks_and_downlinks_meet() {
    let mut u = Uplink::new(Compression::Zlib2);
    let mut d = Downlink::new();
    assert!(u.flush().unwrap().is_none());
    assert!(u.send(b"{\"a\":1}\n").unwrap().is_none());
    assert!(u.send(b"{\"b\":2}\n").unwrap().is_none());
    let frame = u.flush().unwrap().unwrap();
    d.accept_frame(&frame).unwrap();
    assert_eq!(d.take_line().unwrap(), b"{\"a\":1}");
    assert_eq!(d.take_line().unwrap(), b"{\"b\":2}");
    assert!(d.take_line().is_none());
    assert!(downlink_is_framed(Compression::Zlib2));
    assert!(!downlink_is_framed(Compression::Plain));
}

#[test]
fn full_uplinks_close_their_batch() {
    let mut u = Uplink::new(Compression::Zlib2);
    let line = vec![b'x'; UPLINK_LIMIT];
    assert!(u.send(&line).unwrap().is_none());
    let frame = u.send(b"y").unwrap().unwrap();
    let mut d = Downlink::new();
    d.accept_frame(&frame).unwrap();
    assert_eq!(d.take_line().unwrap(), line);
    assert!(u.flush().unwrap().is_some());
}

#[test]
fn damaged_downlink_frames_are_errors() {
    let mut d = Downlink::new();
    assert!(d.accept_frame(&[0, 9, 1]).is_err());
    let mut enc = ZlibFrameEncoder::new();
    let f = enc.encode_frame(b"one\ntwo").unwrap();
    let mut d = Downlink::new();
    d.accept_frame(&f).unwrap();
    assert_eq!(d.take_line().unwrap(), b"one");
    // A downlink that missed the first frame refuses the second.
    let g = enc.encode_frame(b"three\n").unwrap();
    let mut late = Downlink::new();
    assert!(matches!(late.accept_frame(&g), Err(FramingError::Inflate(_))));
    assert!(late.take_line().is_none());
    d.accept_frame(&g).unwrap();
}

#[test]
fn orders_are_read() {
    match read_order(br#"{"start_sending":["3c6444"]}"#).unwrap() {
        Order::Start(l) => assert_eq!(l, ["3c6444"]),
        other => panic!("{other:?}"),
    }
    match read_order(br#"{"stop_sending":["3c6444"]}"#).unwrap() {
        Order::Stop(l) => assert_eq!(l, ["3c6444"]),
        other => panic!("{other:?}"),
    }
    match read_order(br#"{"result":{"addr":"3c6444","lat":47.5,"lon":-1.5,"alt":35000}}"#).unwrap()
    {
        Order::Position(p) => {
            assert_eq!(p.addr, 0x3C6444);
            assert_eq!(p.lat, "47.5");
            assert_eq!(p.alt.as_deref(), Some("35000"));
        }
        other => panic!("{other:?}"),
    }
    assert!(matches!(
        read_order(br#"{"heartbeat":{}}"#).unwrap(),
        Order::Nothing
    ));
    assert!(read_order(b"junk").is_err());
    match read_order(br#"{"stats":{"peer_count":7}}"#).unwrap() {
        Order::Stats(v) => assert_eq!(v["peer_count"], 7),
        other => panic!("{other:?}"),
    }
    assert!(matches!(
        read_order(br#"{"unheard_of":1}"#).unwrap(),
        Order::Nothing
    ));
}

#[test]
fn results_become_lines_and_frames() {
    let line = ResultPos::sbs_line(0x3C6444, 35000, "47.5", "-1.5");
    let p = mlat_bench::proto::sbs::parse_line(line.trim_end()).unwrap();
    assert_eq!(p.icao_hex, "3c6444");
    assert_eq!(p.alt_ft.as_deref(), Some("35000"));
    assert_eq!(p.lat.as_deref(), Some("47.5"));

    let bytes = ResultPos::beast_bytes(0x3C6444, 35000, (1, 2), (3, 4)).unwrap();
    let mut d = mlat_bench::client::beast::BeastDecoder::default();
    let got = d.feed(&bytes);
    assert_eq!(got.len(), 2);
    assert_eq!(got[0].counts_12mhz, MLAT_STAMP);
    assert_eq!(df_of(&got[0].frame), Some(18));
    assert_eq!(got[0].frame[1..4], [0x3C, 0x64, 0x44]);
    assert_ne!(got[0].frame, got[1].frame);
    assert!(ResultPos::beast_bytes(1, 99999, (1, 2), (3, 4)).is_none());
}

fn report(bad: u32, peers: u32) -> serde_json::Value {
    serde_json::from_str(&format!(
        "{{\"bad_sync_timeout\":{bad},\"peer_count\":{peers}}}"
    ))
    .unwrap()
}

#[test]
fn sync_history_lasts_an_hour() {
    let mut s = StatsFile::new();
    s.push(&report(0, 3), 1000);
    s.push(&report(0, 0), 2000);
    s.push(&report(7, 3), 3000);
    assert_eq!(s.counts(), (3, 1, 1), "all, good and bad reports");
    assert_eq!(s.last_bad_sync(), 3000);
    s.push(&report(0, 3), 4600);
    assert_eq!(s.counts(), (4, 2, 1));
    s.push(&report(0, 0), 4601);
    assert_eq!(s.counts(), (4, 1, 1), "the first report is too old");
}

#[test]
fn the_statistics_file_adds_to_the_report() {
    let mut f = StatsFile::new();
    let report: serde_json::Value =
        serde_json::from_str(r#"{"peer_count":3,"bad_sync_timeout":20}"#).unwrap();
    f.push(&report, 1000);
    let num = |s: &str| Number::from_text(s).unwrap();
    let text = f.file_text(&report, 1005, &num("0.0"), &num("100.0")).unwrap();
    let v: serde_json::Value = serde_json::from_str(&text).unwrap();
    assert_eq!(v["peer_count"], 3);
    assert_eq!(v["now"], 1005);
    assert_eq!(v["good_sync_percentage_last_hour"], 0.0);
    assert_eq!(v["bad_sync_percentage_last_hour"], 100.0);
    assert_eq!(v["last_bad_sync"], 1000);
    assert!(text.contains("\n  \"now\": 1005"));
    let none = f.file_text(&serde_json::Value::Null, 1, &num("-1"), &num("-1")).unwrap();
    let v: serde_json::Value = serde_json::from_str(&none).unwrap();
    assert_eq!(v.as_object().unwrap().len(), 4);
    assert!(f.file_text(&report, 1, &num("1e999"), &num("0")).is_none());
}

#[test]
fn bad_replies_say_why() {
    assert!(matches!(
        read_reply(b"junk"),
        Err(SessionFault::BadReply(ProtoError::Json(_)))
    ));
    match read_reply(br#"{ "compress": "lzma" }"#) {
        Err(SessionFault::BadReply(ProtoError::BadHandshakeReply(t))) => {
            assert_eq!(t, "{\"compress\":\"lzma\"}")
        }
        other => panic!("{other:?}"),
    }
}
