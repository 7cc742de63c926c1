//! Wire messages and frames of the feeder protocol.

use mlat_bench::icao::Icao;
use mlat_bench::proto::framing::{FramingError, ZlibFrameDecoder, ZlibFrameEncoder};
use mlat_bench::proto::json::Number;
use mlat_bench::proto::messages::{
    ClientMsg, ClockType, Compression, Handshake, HexMsg, ProtoError, ServerMsg,
};
use mlat_bench::proto::sbs::parse_line;
use mlat_bench::seed::rng_for;
use rand::Rng;

fn number(s: &str) -> Number {
    Number::from_text(s).unwrap()
}

fn json(b: &[u8]) -> serde_json::Value {
    serde_json::from_slice(b).unwrap()
}

// ------------------------------------------------------------------ messages

#[test]
fn handshake_shape() {
    let h = Handshake {
        version: 3,
        user: "mb-rx-000".to_string(),
        uuid: None,
        compress: vec![Compression::Plain],
        lat: Some(number("47.21")),
        lon: Some(number("-1.55")),
        alt: Some(number("40.0")),
        clock_type: ClockType::Dump1090,
        return_results: Some(true),
        return_result_format: None,
        client_version: Some("mlat-bench 0.1.0".to_string()),
        selective_traffic: None,
        heartbeat: None,
        return_stats: None,
    };
    let line = h.to_line();
    assert_eq!(*line.last().unwrap(), b'\n');
    let v = json(&line[..line.len() - 1]);
    assert_eq!(v["version"], 3);
    assert_eq!(
        v["compress"],
        serde_json::Value::Array(vec![serde_json::Value::String("none".to_string())])
    );
    assert_eq!(v["clock_type"], "dump1090");
    assert!(
        v.get("uuid").is_none(),
        "unset optionals must be absent, not null"
    );
    assert_eq!(v["lat"].as_f64(), Some(47.21));
    assert_eq!(v["return_results"], true);
    assert_eq!(v["client_version"], "mlat-bench 0.1.0");
    assert!(v.get("heartbeat").is_none());
}

#[test]
fn handshake_escapes_user_text() {
    let h = Handshake {
        version: 3,
        user: "a\"b\\c\n\u{e9}".to_string(),
        uuid: Some("u-1".to_string()),
        compress: vec![Compression::Zlib2, Compression::Zlib, Compression::Plain],
        lat: None,
        lon: None,
        alt: None,
        clock_type: ClockType::RadarcapeGps,
        return_results: None,
        return_result_format: Some("ecef".to_string()),
        client_version: None,
        selective_traffic: Some(false),
        heartbeat: Some(true),
        return_stats: Some(true),
    };
    let v = json(&h.to_line());
    assert_eq!(v["user"], "a\"b\\c\n\u{e9}");
    assert_eq!(v["uuid"], "u-1");
    assert_eq!(v["compress"][0], "zlib2");
    assert_eq!(v["compress"][2], "none");
    assert_eq!(v["clock_type"], "radarcape_gps");
    assert_eq!(v["return_result_format"], "ecef");
    assert_eq!(v["selective_traffic"], false);
    assert_eq!(v["heartbeat"], true);
}

#[test]
fn client_msg_single_key_objects() {
    let m = ClientMsg::Mlat {
        t: number("12345.678"),
        m: HexMsg("5d3c6444abcdef".to_string()),
    };
    let v = json(&m.to_line());
    assert_eq!(v["mlat"]["m"], "5d3c6444abcdef");

    let s = ClientMsg::Sync {
        et: Number::from_u64(1200000000),
        ot: Number::from_u64(1200600000),
        em: HexMsg("8d".to_string()),
        om: HexMsg("8d".to_string()),
    };
    let line = String::from_utf8(s.to_line()).unwrap();
    // Integer timestamps must serialize without a decimal point.
    assert!(line.contains("\"et\":1200000000"), "{line}");
}

#[test]
fn client_messages_have_exact_texts() {
    let cases: Vec<(ClientMsg, &str)> = vec![
        (
            ClientMsg::seen(&[Icao(0x3C6444), Icao(0xABCDEF)]),
            "{\"seen\":[\"3c6444\",\"abcdef\"]}",
        ),
        (ClientMsg::lost(&[Icao(0x1)]), "{\"lost\":[\"000001\"]}"),
        (ClientMsg::heartbeat_now(), "{\"heartbeat\":{}}"),
        (
            ClientMsg::ClockReset("rx".to_string()),
            "{\"clock_reset\":\"rx\"}",
        ),
        (
            ClientMsg::ClockJump("rx".to_string()),
            "{\"clock_jump\":\"rx\"}",
        ),
        (
            ClientMsg::InputConnected("ok".to_string()),
            "{\"input_connected\":\"ok\"}",
        ),
        (
            ClientMsg::InputDisconnected("gone".to_string()),
            "{\"input_disconnected\":\"gone\"}",
        ),
        (
            ClientMsg::RateReport(vec![("3c6444".to_string(), number("1.5"))]),
            "{\"rate_report\":{\"3c6444\":1.5}}",
        ),
        (
            ClientMsg::Mlat {
                t: Number::from_u64(7),
                m: HexMsg::from_bytes(&[0x5D, 0x3C, 0xFF]),
            },
            "{\"mlat\":{\"t\":7,\"m\":\"5d3cff\"}}",
        ),
    ];
    for (m, want) in cases {
        assert_eq!(m.to_text(), want);
        assert_eq!(m.to_line(), format!("{want}\n").into_bytes());
    }
}

#[test]
fn number_tokens_are_checked() {
    for good in ["0", "-0", "12", "-1.55", "1e5", "2.5E-3", "0.1"] {
        assert_eq!(Number::from_text(good).unwrap().as_text(), good);
    }
    for bad in ["", "-", "01", "1.", ".5", "1e", "+1", "nan", "1 ", "0x10"] {
        assert!(Number::from_text(bad).is_none(), "{bad}");
    }
}

#[test]
fn server_reply_parsing() {
    let ok = br#"{"compress":"none","heartbeat":true,"return_results":true,"motd":"hi"}"#;
    match ServerMsg::parse_handshake_reply(ok).unwrap() {
        ServerMsg::HandshakeAccept {
            compress,
            motd,
            heartbeat,
            ..
        } => {
            assert_eq!(compress, Compression::Plain);
            assert_eq!(motd.as_deref(), Some("hi"));
            assert!(heartbeat);
        }
        other => panic!("expected accept, got {other:?}"),
    }

    let deny = br#"{"deny":["bad position"],"reconnect_in":300}"#;
    assert!(matches!(
        ServerMsg::parse_handshake_reply(deny).unwrap(),
        ServerMsg::Deny(_)
    ));

    let hb = br#"{"heartbeat":{"server_time":1756600000.5}}"#;
    match ServerMsg::parse_line(hb).unwrap() {
        ServerMsg::Heartbeat { server_time } => {
            let t: Option<f64> = server_time.map(|s| s.parse().unwrap());
            assert_eq!(t, Some(1756600000.5))
        }
        other => panic!("{other:?}"),
    }

    let mystery = br#"{"totally_new_field":1}"#;
    assert!(matches!(
        ServerMsg::parse_line(mystery).unwrap(),
        ServerMsg::Unknown(_)
    ));
}

#[test]
fn server_lines_are_told_apart() {
    match ServerMsg::parse_line(br#"{"start_sending":["3c6444",5,"abcdef"]}"#).unwrap() {
        ServerMsg::StartSending(l) => assert_eq!(l, ["3c6444", "abcdef"]),
        other => panic!("{other:?}"),
    }
    match ServerMsg::parse_line(br#"{"stop_sending":[]}"#).unwrap() {
        ServerMsg::StopSending(l) => assert!(l.is_empty()),
        other => panic!("{other:?}"),
    }
    match ServerMsg::parse_line(br#"{"result":{"addr":"3c6444"}}"#).unwrap() {
        ServerMsg::Result(v) => assert_eq!(v["addr"], "3c6444"),
        other => panic!("{other:?}"),
    }
    assert!(matches!(
        ServerMsg::parse_line(b"{\"heartbeat\""),
        Err(ProtoError::Json(_))
    ));
}

#[test]
fn bad_handshake_replies_are_errors() {
    assert!(matches!(
        ServerMsg::parse_handshake_reply(b"nonsense"),
        Err(ProtoError::Json(_))
    ));
    assert!(matches!(
        ServerMsg::parse_handshake_reply(br#"{"heartbeat":true}"#),
        Err(ProtoError::BadHandshakeReply(_))
    ));
    assert!(matches!(
        ServerMsg::parse_handshake_reply(br#"{"compress":"lzma"}"#),
        Err(ProtoError::BadHandshakeReply(_))
    ));
}

#[test]
fn clock_types_have_their_numbers() {
    assert_eq!(ClockType::RadarcapeGps.freq_hz(), 1_000_000_000);
    assert_eq!(ClockType::RadarcapeGps.server_assumed_max_freq_error(), 1_000);
    assert_eq!(ClockType::Beast.server_assumed_max_freq_error(), 5_000);
    assert_eq!(ClockType::Dump1090.server_assumed_max_freq_error(), 100_000);
    assert_eq!(ClockType::RadarcapeGps.server_assumed_jitter_ns(), 15);
    assert_eq!(ClockType::Radarcape12Mhz.server_assumed_jitter_ns(), 83);
    assert_eq!(ClockType::Sbs.server_assumed_jitter_ns(), 500);
    assert_eq!(ClockType::Dump1090.freq_hz(), 12_000_000);
    assert_eq!(ClockType::Sbs.freq_hz(), 20_000_000);
    assert_eq!(ClockType::Radarcape12Mhz.wire_name(), "radarcape_12mhz");
    for c in [Compression::Plain, Compression::Zlib, Compression::Zlib2] {
        assert_eq!(Compression::from_wire(c.wire_name()), Some(c));
    }
    assert_eq!(Compression::from_wire("ZLIB"), None);
}

// ------------------------------------------------------------------- framing

#[test]
fn zlib_roundtrip_single_frame() {
    let mut enc = ZlibFrameEncoder::new();
    let mut dec = ZlibFrameDecoder::new();
    let lines = b"{\"heartbeat\":{}}\n";
    let frame = enc.encode_frame(lines).unwrap();
    assert!(frame.len() >= 2);
    let got = dec.decode_frame(&frame).unwrap();
    assert_eq!(got, lines);
}

#[test]
fn zlib_state_carries_across_frames() {
    // Frame 2 references frame 1's dictionary: a fresh decoder must fail on it or
    // mis-decode it, the same decoder must succeed.
    let mut enc = ZlibFrameEncoder::new();
    let l1 = b"{\"sync\":{\"et\":1,\"ot\":2,\"em\":\"8d\",\"om\":\"8d\"}}\n";
    let l2 = b"{\"sync\":{\"et\":3,\"ot\":4,\"em\":\"8d\",\"om\":\"8d\"}}\n";
    let f1 = enc.encode_frame(l1).unwrap();
    let f2 = enc.encode_frame(l2).unwrap();

    let mut dec = ZlibFrameDecoder::new();
    assert_eq!(dec.decode_frame(&f1).unwrap(), l1);
    assert_eq!(dec.decode_frame(&f2).unwrap(), l2);

    let mut fresh = ZlibFrameDecoder::new();
    let out = fresh.decode_frame(&f2);
    assert!(
        out.is_err() || out.unwrap() != l2,
        "frame 2 must not decode standalone \u{2014} stream state is real"
    );
}

#[test]
fn many_lines_one_frame() {
    let mut enc = ZlibFrameEncoder::new();
    let mut dec = ZlibFrameDecoder::new();
    let mut lines = Vec::new();
    for i in 0..200 {
        lines.extend_from_slice(
            format!("{{\"mlat\":{{\"t\":{i},\"m\":\"5d3c6444a0b1c2\"}}}}\n").as_bytes(),
        );
    }
    let frame = enc.encode_frame(&lines).unwrap();
    assert_eq!(dec.decode_frame(&frame).unwrap(), lines);
}

#[test]
fn frames_carry_their_length_without_the_trailer() {
    let mut enc = ZlibFrameEncoder::default();
    let lines = b"{\"seen\":[\"3c6444\"]}\n";
    let frame = enc.encode_frame(lines).unwrap();
    let n = u16::from_be_bytes([frame[0], frame[1]]) as usize;
    assert_eq!(n + 2, frame.len());
    assert_ne!(&frame[frame.len() - 4..], &[0, 0, 0xFF, 0xFF]);
    assert_ne!(&frame[2..], &lines[..]);
    let mut dec = ZlibFrameDecoder::default();
    assert_eq!(dec.decode_frame(&frame).unwrap(), lines);
}

#[test]
fn empty_frames_round_trip() {
    let mut enc = ZlibFrameEncoder::new();
    let mut dec = ZlibFrameDecoder::new();
    let a = enc.encode_frame(b"").unwrap();
    let b = enc.encode_frame(b"x\n").unwrap();
    assert_eq!(dec.decode_frame(&a).unwrap(), b"");
    assert_eq!(dec.decode_frame(&b).unwrap(), b"x\n");
}

#[test]
fn damaged_frames_are_refused() {
    let mut dec = ZlibFrameDecoder::new();
    assert!(matches!(
        dec.decode_frame(&[1]),
        Err(FramingError::ShortFrame)
    ));
    assert!(matches!(
        dec.decode_frame(&[0, 5, 1, 2]),
        Err(FramingError::LengthHeader { want: 5, got: 2 })
    ));
    assert!(matches!(
        dec.decode_frame(&[0, 3, 0xFF, 0xFF, 0xFF]),
        Err(FramingError::Inflate(_))
    ));
}

#[test]
fn a_refused_frame_leaves_the_decoder_as_it_was() {
    let mut enc = ZlibFrameEncoder::new();
    let a = enc.encode_frame(b"{\"seen\":[\"3c6444\"]}\n").unwrap();
    let b = enc.encode_frame(b"{\"lost\":[\"3c6444\"]}\n").unwrap();
    let mut dec = ZlibFrameDecoder::new();
    dec.decode_frame(&a).unwrap();
    assert!(dec.decode_frame(&[7]).is_err());
    assert!(dec.decode_frame(&b[..b.len() - 1]).is_err());
    assert_eq!(dec.decode_frame(&b).unwrap(), b"{\"lost\":[\"3c6444\"]}\n");
}

#[test]
fn lines_of_32_kib_always_make_a_frame() {
    let mut rng = rng_for(7, "frames");
    let mut enc = ZlibFrameEncoder::new();
    let mut twin = ZlibFrameEncoder::new();
    let mut dec = ZlibFrameDecoder::new();
    let mut frames: Vec<Vec<u8>> = Vec::new();
    let sizes = [
        1usize, 31, 32, 33, 47, 48, 1000, 0x8000, 31_744, 31_745, 32_003, 0x8000, 0, 0x8000,
    ];
    for spread in [256u32, 40, 2, 1] {
        for n in sizes {
            // Noise, with a short repetition now and then.
            let mut lines: Vec<u8> = Vec::new();
            while lines.len() < n {
                let back = rng.gen_range(3..20_000usize);
                if lines.len() > back && rng.gen_range(0..12) == 0 {
                    let at = lines.len() - back;
                    let again = lines[at..at + 3].to_vec();
                    lines.extend(again);
                } else {
                    lines.push(rng.gen_range(0..spread) as u8);
                }
            }
            lines.truncate(n);
            let frame = enc.encode_frame(&lines).unwrap();
            assert!(frame.len() + 2 < lines.len() + 1024, "{spread} {n}: {}", frame.len());
            assert_eq!(dec.decode_frame(&frame).unwrap(), lines);
            // The same lines make the same frames.
            assert_eq!(twin.encode_frame(&lines).unwrap(), frame);
            frames.push(frame);
        }
    }
    // Only the first frame can be read by itself.
    for (i, frame) in frames.iter().enumerate() {
        let mut fresh = ZlibFrameDecoder::new();
        let out = fresh.decode_frame(frame);
        if i == 0 {
            assert!(out.is_ok());
        } else {
            assert!(matches!(out, Err(FramingError::Inflate(_))), "frame {i}");
        }
    }
}

#[test]
fn incompressible_input_is_too_large_for_a_frame() {
    let mut bytes: Vec<u8> = Vec::new();
    let mut x: u32 = 12345;
    for _ in 0..100_000 {
        x = x.wrapping_mul(1664525).wrapping_add(1013904223);
        bytes.push((x >> 24) as u8);
    }
    let mut enc = ZlibFrameEncoder::new();
    match enc.encode_frame(&bytes) {
        Err(FramingError::TooLarge(n)) => assert!(n > 65535),
        other => panic!("{other:?}"),
    }
}

// ----------------------------------------------------------------------- sbs

#[test]
fn parses_msg3() {
    let line = "MSG,3,1,1,3C6444,1,2026/08/31,12:00:00.000,2026/08/31,12:00:00.000,,35000,,,47.2100,-1.5500,,,,,,0";
    let p = parse_line(line).unwrap();
    let f = |s: &Option<String>| s.as_ref().map(|t| t.parse::<f64>().unwrap());
    assert_eq!(p.icao_hex, "3c6444");
    assert_eq!(f(&p.alt_ft), Some(35000.0));
    assert_eq!(f(&p.lat), Some(47.21));
    assert_eq!(f(&p.lon), Some(-1.55));
}

#[test]
fn ignores_junk() {
    assert!(parse_line("SEL,,496,2286,4CA4E5").is_none());
    assert!(parse_line("").is_none());
    assert!(parse_line("MSG,8,1,1,,1").is_none());
}

#[test]
fn unreadable_coordinates_are_absent() {
    let line = "MSG,3,1,1,3C6444,1,,,,,,x,,,,-1.5,,,,,,0";
    let p = parse_line(line).unwrap();
    assert!(p.alt_ft.is_none());
    assert!(p.lat.is_none());
    assert_eq!(p.lon.as_deref(), Some("-1.5"));
}
