use mlat_bench::client::beast::{encode, BeastDecoder, Reception};
use mlat_bench::client::engine::Engine;
use mlat_bench::icao::Icao;
use mlat_bench::modes::frames::{df11, df17_airborne_position, df4};
use mlat_bench::proto::messages::ClientMsg;

const SECOND: u64 = 1_000_000_000;
const EVEN: (u32, u32) = (113596, 109227);
const ODD: (u32, u32) = (96411, 109773);

fn frames() -> Vec<(u64, Vec<u8>)> {
    vec![
        (0x1a_1a_1a_1a_1a_1a, vec![0x1a; 7]),
        (
            12_000_000,
            hex::decode("8d40621d58c382d690c8ac2863a7").unwrap(),
        ),
        (
            0xFFFF_FFFF_FFFF,
            vec![0x20, 0x1a, 0x00, 0x1a, 0x1a, 0x30, 0x99],
        ),
    ]
}

#[test]
fn roundtrip_single_feed() {
    let mut wire = Vec::new();
    for (t, f) in frames() {
        wire.extend(encode(t, 0x1a, &f));
    }
    let mut d = BeastDecoder::default();
    let got = d.feed(&wire);
    let want = frames();
    assert_eq!(got.len(), want.len());
    for (g, (t, f)) in got.iter().zip(&want) {
        assert_eq!(g.counts_12mhz, *t);
        assert_eq!(&g.frame, f);
    }
}

#[test]
fn roundtrip_byte_by_byte() {
    let mut wire = Vec::new();
    for (t, f) in frames() {
        wire.extend(encode(t, 0xA0, &f));
    }
    let mut d = BeastDecoder::default();
    let mut got = Vec::new();
    for b in wire {
        got.extend(d.feed(&[b]));
    }
    assert_eq!(got.len(), frames().len());
}

#[test]
fn resyncs_after_noise() {
    let mut wire = vec![0x00, 0x1a, 0x99, 0x42];
    wire.extend(encode(5, 0xA0, &[0x5d; 7]));
    let mut d = BeastDecoder::default();
    let got = d.feed(&wire);
    assert_eq!(got.len(), 1);
    assert_eq!(got[0].counts_12mhz, 5);
}

#[test]
fn mode_ac_dropped() {
    let mut d = BeastDecoder::default();
    let mut wire = vec![0x1a, 0x31, 0, 0, 0, 0, 0, 1, 0xA0, 0x12, 0x34];
    wire.extend(encode(7, 0xA0, &[0x5d; 7]));
    let got = d.feed(&wire);
    assert_eq!(got.len(), 1);
    assert_eq!(got[0].counts_12mhz, 7);
}

#[test]
fn truncated_message_resyncs_at_the_next_marker() {
    let mut wire = encode(1, 0xA0, &[0x5d; 7]);
    wire.truncate(6);
    wire.extend(encode(2, 0xA0, &[0x5d; 7]));
    let mut d = BeastDecoder::default();
    let got = d.feed(&wire);
    assert_eq!(got.len(), 1);
    assert_eq!(got[0].counts_12mhz, 2);
}

#[test]
fn encoding_doubles_markers_and_drops_high_counter_bits() {
    let wire = encode(0x1_0000_0000_001a, 0x00, &[0x1a, 0, 0, 0, 0, 0, 0]);
    assert_eq!(
        wire,
        vec![0x1a, 0x32, 0, 0, 0, 0, 0, 0x1a, 0x1a, 0, 0x1a, 0x1a, 0, 0, 0, 0, 0, 0]
    );
    assert_eq!(encode(0, 0, &[0; 14])[1], 0x33);
}

fn rx(counts: u64, frame: Vec<u8>) -> Reception {
    Reception {
        counts_12mhz: counts,
        frame,
    }
}

fn engine(n: usize) -> (Engine, u64) {
    let now = 100 * SECOND;
    (Engine::new("t", now, n), now)
}

#[test]
fn silent_until_requested_per_server() {
    let (mut e, now) = engine(2);
    let f = df11(Icao(0xABCDEF), 0).to_vec();
    assert!(e.on_reception(&rx(1000, f.clone()), now).is_empty());
    let msgs = e.tick(now).messages;
    assert_eq!(msgs.len(), 2, "both servers get the seen announcement");
    e.start_sending(1, &["abcdef".into()]);
    let out = e.on_reception(&rx(2000, f), now);
    assert_eq!(out.len(), 1, "only the requesting server gets traffic");
    assert_eq!(out[0].0, 1);
    assert!(matches!(out[0].1, ClientMsg::Mlat { .. }));
}

#[test]
fn ap_recovered_needs_known_aircraft() {
    let (mut e, now) = engine(1);
    let reply = df4(Icao(0x3944F1), 0, 21000).unwrap().to_vec();
    assert!(e.on_reception(&rx(1000, reply.clone()), now).is_empty());
    assert!(
        e.tick(now).messages.is_empty(),
        "unknown DF4 must not create aircraft"
    );
    let squitter = df11(Icao(0x3944F1), 0).to_vec();
    e.on_reception(&rx(2000, squitter), now);
    e.tick(now);
    e.start_sending(0, &["3944f1".into()]);
    let out = e.on_reception(&rx(3000, reply), now);
    assert!(matches!(out[0].1, ClientMsg::Mlat { .. }));
}

#[test]
fn df17_pair_becomes_sync_for_each_requester() {
    let (mut e, now) = engine(2);
    let even = df17_airborne_position(Icao(0x3C6444), 5, 11, 35000, EVEN, false)
        .unwrap()
        .to_vec();
    let odd = df17_airborne_position(Icao(0x3C6444), 5, 11, 35000, ODD, true)
        .unwrap()
        .to_vec();
    e.on_reception(&rx(12_000_000, even.clone()), now);
    e.tick(now);
    e.start_sending(0, &["3c6444".into()]);
    e.start_sending(1, &["3c6444".into()]);
    e.on_reception(&rx(13_000_000, even), now);
    let out = e.on_reception(&rx(16_000_000, odd), now);
    assert_eq!(out.len(), 2, "one sync per requesting server");
    for (_, m) in &out {
        let ClientMsg::Sync { et, ot, .. } = m else {
            panic!("expected sync, got {m:?}");
        };
        assert_eq!(et.as_text(), "13000000");
        assert_eq!(ot.as_text(), "16000000");
    }
}

#[test]
fn pair_too_far_apart_is_no_sync() {
    let (mut e, now) = engine(1);
    let even = df17_airborne_position(Icao(1), 5, 11, 35000, EVEN, false)
        .unwrap()
        .to_vec();
    let odd = df17_airborne_position(Icao(1), 5, 11, 35000, ODD, true)
        .unwrap()
        .to_vec();
    e.on_reception(&rx(0, even.clone()), now);
    e.start_sending(0, &["1".into()]);
    assert!(e.on_reception(&rx(48_000_001, odd.clone()), now).is_empty());
    assert!(e.on_reception(&rx(96_000_001, even), now).len() == 1);
    e.stop_sending(0, &["000001".into()]);
    assert!(e.on_reception(&rx(96_000_002, odd), now).is_empty());
}

#[test]
fn server_reset_touches_only_that_server() {
    let (mut e, now) = engine(2);
    let f = df11(Icao(0xABCDEF), 0).to_vec();
    e.on_reception(&rx(1000, f.clone()), now);
    e.tick(now);
    e.start_sending(0, &["abcdef".into()]);
    e.start_sending(1, &["abcdef".into()]);
    e.server_reset(0);
    let out = e.on_reception(&rx(2000, f), now);
    assert_eq!(out.len(), 1, "reset server no longer requests");
    assert_eq!(out[0].0, 1);
    let again = e.tick(now).messages;
    assert_eq!(again.len(), 1, "announced again to the reset server alone");
    assert_eq!(again[0].0, 0);
}

#[test]
fn backward_counter_is_clock_reset_to_all() {
    let (mut e, now) = engine(3);
    let f = df11(Icao(0xABCDEF), 0).to_vec();
    e.on_reception(&rx(120_000_000, f.clone()), now);
    let out = e.on_reception(&rx(1_000, f), now);
    assert_eq!(out.len(), 3);
    assert!(out
        .iter()
        .all(|(_, m)| matches!(m, ClientMsg::ClockReset(_))));
}

#[test]
fn wrap_is_not_a_reset() {
    let (mut e, now) = engine(1);
    let f = df11(Icao(0xABCDEF), 0).to_vec();
    e.on_reception(&rx(0xFFFF_FFFF_FF00, f.clone()), now);
    assert!(e.on_reception(&rx(0x10, f), now).is_empty());
}

#[test]
fn corrupted_frames_ignored() {
    let (mut e, now) = engine(1);
    let mut f = df11(Icao(0xABCDEF), 0).to_vec();
    f[2] ^= 0xFF;
    e.on_reception(&rx(1000, f), now);
    assert!(e.tick(now).messages.is_empty());
}

#[test]
fn silent_aircraft_are_lost_after_a_minute() {
    let (mut e, now) = engine(1);
    e.on_reception(&rx(1000, df11(Icao(0xABCDEF), 0).to_vec()), now);
    e.tick(now);
    assert!(e.tick(now + 29 * SECOND).messages.is_empty());
    let at_limit = e.tick(now + 60 * SECOND);
    assert!(at_limit.messages.is_empty());
    let rates = at_limit.rates.unwrap();
    assert_eq!(rates.elapsed_ns, 60 * SECOND);
    assert_eq!(rates.counts, vec![(0xABCDEF, 1)]);
    let gone = e.tick(now + 60 * SECOND + 1);
    assert_eq!(gone.messages.len(), 1);
    let ClientMsg::Lost(l) = &gone.messages[0].1 else {
        panic!("expected lost");
    };
    assert_eq!(l, &vec!["abcdef".to_string()]);
    assert!(gone.rates.is_none());
}

#[test]
fn input_reset_forgets_half_pairs() {
    let (mut e, now) = engine(1);
    let even = df17_airborne_position(Icao(1), 5, 11, 35000, EVEN, false)
        .unwrap()
        .to_vec();
    let odd = df17_airborne_position(Icao(1), 5, 11, 35000, ODD, true)
        .unwrap()
        .to_vec();
    e.on_reception(&rx(1000, even), now);
    e.start_sending(0, &["000001".into()]);
    e.input_reset();
    assert!(e.on_reception(&rx(2000, odd), now).is_empty());
}
