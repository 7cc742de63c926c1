//! Clocks, scenarios and client streams of the simulation.

use mlat_bench::icao::{Icao, SimNanos};
use mlat_bench::proto::framing::ZlibFrameDecoder;
use mlat_bench::proto::json::Number;
use mlat_bench::proto::messages::{ClockType, Compression};
use mlat_bench::reading::Reading;
use mlat_bench::seed::rng_for;
use mlat_bench::sim::clock::{ClockModel, ClockSpec};
use mlat_bench::sim::gen::{
    audibility_row, broadcast_frame, client_handshake, frame_lines, happens, is_audible,
    is_on_air, stamp, BroadcastKind, ClientBuilder, Heard, Line,
};
use mlat_bench::sim::scenario::{
    AircraftDraw, AircraftKind, AircraftSpec, DrawnClock, Fault, GenerateSpec, Meta, Network,
    ReceiverDraw, ReceiverSpec, Scenario, Trajectory,
};
use rand::Rng;

fn r(x: f64) -> Reading {
    Reading(x.to_bits())
}

// --------------------------------------------------------------------- clock

fn dump1090(offset_ppm: f64, drift: f64, jitter_ns: f64, start_count: u64) -> ClockSpec {
    ClockSpec::Dump1090 {
        offset_ppm: r(offset_ppm),
        drift_ppm_per_hr: r(drift),
        jitter_ns: r(jitter_ns),
        start_count,
        wander_ppm_sqrt_hr: r(0.0),
        jump_prob_per_min: r(0.0),
    }
}

fn gaussian(rng: &mut rand_chacha::ChaCha12Rng) -> f64 {
    let u1: f64 = rng.gen_range(f64::EPSILON..1.0);
    let u2: f64 = rng.gen_range(0.0..1.0);
    (-2.0 * u1.ln()).sqrt() * (2.0 * std::f64::consts::PI * u2).cos()
}

/// A clock whose phase is calculated here, the counter in the library.
struct Clock {
    model: ClockModel,
    offset: f64,
    drift_per_s: f64,
    jitter_s: f64,
}

impl Clock {
    fn new(spec: &ClockSpec) -> Clock {
        let (offset, drift_per_s, jitter_s) = match spec {
            ClockSpec::Dump1090 {
                offset_ppm,
                drift_ppm_per_hr,
                jitter_ns,
                ..
            } => (
                f64::from_bits(offset_ppm.0) * 1e-6,
                f64::from_bits(drift_ppm_per_hr.0) * 1e-6 / 3600.0,
                f64::from_bits(jitter_ns.0) * 1e-9,
            ),
            ClockSpec::RadarcapeGps { jitter_ns } => {
                (0.0, 0.0, f64::from_bits(jitter_ns.0) * 1e-9)
            }
        };
        Clock {
            model: ClockModel::new(spec),
            offset,
            drift_per_s,
            jitter_s,
        }
    }

    fn count_at(&mut self, t_s: f64, rng: &mut rand_chacha::ChaCha12Rng) -> u64 {
        let jitter = gaussian(rng) * self.jitter_s;
        let phase = t_s * (1.0 + self.offset) + 0.5 * self.drift_per_s * t_s * t_s + jitter;
        let raw = self.model.start_count() as f64 + phase * self.model.freq_hz() as f64;
        assert!(!self.model.is_exhausted());
        self.model.count(raw.round() as i128)
    }
}

#[test]
fn nominal_frequency() {
    let mut c = Clock::new(&dump1090(0.0, 0.0, 0.0, 0));
    let mut rng = rng_for(1, "t");
    assert_eq!(c.count_at(1.0, &mut rng), 12_000_000);
    assert_eq!(c.count_at(10.0, &mut rng), 120_000_000);
}

#[test]
fn offset_accumulates() {
    // +100 ppm: after 100 s the clock is 10 ms (120000 counts) ahead.
    let mut c = Clock::new(&dump1090(100.0, 0.0, 0.0, 0));
    let mut rng = rng_for(1, "t");
    let n = c.count_at(100.0, &mut rng);
    assert_eq!(n, 1_200_120_000);
}

#[test]
fn drift_is_quadratic() {
    // 1 ppm per second: t=100 gives +0.005 s, +60000 counts
    let mut c = Clock::new(&dump1090(0.0, 3600.0, 0.0, 0));
    let mut rng = rng_for(1, "t");
    assert_eq!(c.count_at(100.0, &mut rng), 1_200_060_000);
}

#[test]
fn wraps_at_48_bits() {
    let mut c = Clock::new(&dump1090(0.0, 0.0, 0.0, (1u64 << 48) - 6_000_000));
    let mut rng = rng_for(1, "t");
    let before = c.count_at(0.25, &mut rng);
    let after = c.count_at(1.0, &mut rng);
    assert!(before > after, "counter must wrap: {before} then {after}");
    assert_eq!(after, 6_000_000);
}

#[test]
fn monotonic_under_jitter() {
    let mut c = Clock::new(&dump1090(0.0, 0.0, 500.0, 0));
    let mut rng = rng_for(1, "t");
    let mut prev = 0;
    // Receptions 1 µs apart: jitter (500 ns σ) would reorder freely without the
    // clamp.
    for i in 1..2000 {
        let n = c.count_at(i as f64 * 1e-6, &mut rng);
        assert!(n > prev, "step {i}: {n} <= {prev}");
        prev = n;
    }
}

#[test]
fn negative_counts_wrap_or_stop_at_zero() {
    let mut c = ClockModel::new(&dump1090(0.0, 0.0, 0.0, 0));
    assert_eq!(c.count(-1), (1u64 << 48) - 1);
    let gps = ClockSpec::RadarcapeGps { jitter_ns: r(15.0) };
    let mut g = ClockModel::new(&gps);
    assert_eq!(g.count(-1), 0);
    assert_eq!(g.freq_hz(), 1_000_000_000);
    assert_eq!(ClockModel::wire_clock_type(&gps), "radarcape_gps");
    assert_eq!(gps.clock_type(), ClockType::RadarcapeGps);
}

#[test]
fn the_last_count_steps_to_zero() {
    let top = (1u64 << 48) - 1;
    let mut c = ClockModel::new(&dump1090(0.0, 0.0, 0.0, top));
    assert_eq!(c.count(top as i128), top);
    assert_eq!(c.count(top as i128), 0);
    assert!(!c.is_exhausted());
    assert_eq!(c.count(5), 5);
    // A counter that does not wrap ends.
    let mut g = ClockModel::new(&ClockSpec::RadarcapeGps { jitter_ns: r(15.0) });
    assert_eq!(g.count(i128::MAX), u64::MAX);
    assert!(g.is_exhausted());
}

#[test]
fn a_jump_lets_the_counter_fall_back() {
    let mut c = ClockModel::new(&dump1090(0.0, 0.0, 0.0, 0));
    assert_eq!(c.count(1000), 1000);
    assert_eq!(c.count(400), 1001);
    c.jump();
    assert_eq!(c.count(400), 400);
}

#[test]
fn only_wander_and_jumps_are_hostile() {
    assert!(!dump1090(10.0, 2.0, 500.0, 1).is_hostile());
    let jumping = ClockSpec::Dump1090 {
        offset_ppm: r(0.0),
        drift_ppm_per_hr: r(0.0),
        jitter_ns: r(0.0),
        start_count: 0,
        wander_ppm_sqrt_hr: r(0.0),
        jump_prob_per_min: r(0.1),
    };
    assert!(jumping.is_hostile());
}

// ------------------------------------------------------------------ scenario

fn receiver(id: &str) -> ReceiverSpec {
    ReceiverSpec {
        id: id.to_string(),
        lat: r(47.0),
        lon: r(-1.5),
        alt_m: r(40.0),
        clock: dump1090(0.0, 0.0, 0.0, 0),
        loss_prob: r(0.1),
        max_range_km: None,
        reported_pos_error_m: r(0.0),
        multipath_prob: r(0.0),
        compress: "none".to_string(),
    }
}

fn path() -> Trajectory {
    Trajectory::GreatCircle {
        from_lat: r(47.0),
        from_lon: r(-2.0),
        from_alt_ft: r(30000.0),
        to_lat: r(48.0),
        to_lon: r(-1.0),
        to_alt_ft: r(30000.0),
        gs_kts: r(450.0),
    }
}

fn aircraft(icao: &str) -> AircraftSpec {
    AircraftSpec {
        icao: icao.to_string(),
        kind: AircraftKind::Adsb,
        traj: path(),
        pos_rate_hz: r(2.0),
        df11_rate_hz: r(1.0),
        df4_rate_hz: r(1.0),
        nav_error_m: r(0.0),
    }
}

fn scenario() -> Scenario {
    Scenario {
        meta: Meta {
            name: "x".to_string(),
            seed: 7,
            duration_s: 60,
        },
        network: Network::default(),
        generate: None,
        receivers: vec![receiver("rx-a"), receiver("rx-b")],
        aircraft: vec![aircraft("3c6444"), aircraft("ABCDEF")],
    }
}

#[test]
fn every_scenario_fault_is_found() {
    assert!(scenario().validate().is_ok());

    let mut s = scenario();
    s.receivers.clear();
    assert_eq!(s.validate(), Err(Fault::NoReceivers));

    let mut s = scenario();
    s.aircraft.clear();
    assert_eq!(s.validate(), Err(Fault::NoAircraft));

    let mut s = scenario();
    s.receivers[1].id = "rx-a".to_string();
    assert_eq!(s.validate(), Err(Fault::DuplicateReceiver(1)));
    assert!(s.describe(Fault::DuplicateReceiver(1), "").contains("rx-a"));

    let mut s = scenario();
    s.receivers[0].lat = r(91.0);
    assert_eq!(s.validate(), Err(Fault::Position(0)));
    s.receivers[0].lat = r(f64::NAN);
    assert_eq!(s.validate(), Err(Fault::Position(0)));

    let mut s = scenario();
    s.receivers[1].alt_m = r(-1000.5);
    assert_eq!(s.validate(), Err(Fault::Altitude(1)));

    let mut s = scenario();
    s.receivers[1].compress = "lzma".to_string();
    assert_eq!(s.validate(), Err(Fault::Compress(1)));

    let mut s = scenario();
    for text in ["xyz", "ABC", "+ABCDE", " 3c6444", "3c64440", "003c6444", "3c644g", ""] {
        s.aircraft[0].icao = text.to_string();
        assert_eq!(s.validate(), Err(Fault::Address(0)), "{text}");
    }
    assert_eq!(s.describe(Fault::Address(0), ""), "aircraft icao  not 6 hex digits");

    let mut s = scenario();
    s.aircraft[1].icao = "3C6444".to_string();
    assert!(s.validate().is_ok(), "addresses are compared as written");
    s.aircraft[1].icao = "3c6444".to_string();
    assert_eq!(s.validate(), Err(Fault::DuplicateAircraft(1)));
}

#[test]
fn default_network_is_5_to_40_ms() {
    let n = Network::default();
    assert_eq!(f64::from_bits(n.latency_ms_min.0), 5.0);
    assert_eq!(f64::from_bits(n.latency_ms_max.0), 40.0);
}

#[test]
fn generated_fleets_are_valid_and_numbered() {
    let mut s = scenario();
    s.receivers.clear();
    s.aircraft.clear();
    s.generate = Some(GenerateSpec {
        receivers: 2,
        aircraft_adsb: 1,
        aircraft_modes: 1,
        center_lat: r(47.0),
        center_lon: r(-1.5),
        radius_km: r(100.0),
        gps_fraction: r(0.5),
    });
    let g = s.generate.as_ref().unwrap();
    assert!(g.wants_gps(r(0.4)));
    assert!(!g.wants_gps(r(0.5)));
    let draws = vec![
        ReceiverDraw {
            lat: r(47.1),
            lon: r(-1.4),
            clock: DrawnClock::Gps,
            alt_m: r(50.0),
            loss_prob: r(0.05),
        },
        ReceiverDraw {
            lat: r(47.2),
            lon: r(-1.3),
            clock: DrawnClock::Free {
                offset_ppm: r(5.0),
                drift_ppm_per_hr: r(0.1),
                jitter_ns: r(300.0),
                wander: r(0.0),
            },
            alt_m: r(60.0),
            loss_prob: r(0.06),
        },
    ];
    let adsb = vec![AircraftDraw {
        traj: path(),
        df4_rate_hz: r(1.0),
    }];
    let modes = vec![AircraftDraw {
        traj: path(),
        df4_rate_hz: r(2.0),
    }];
    s.expand_generate(&draws, &adsb, &modes);
    assert!(s.generate.is_none());
    assert!(s.validate().is_ok());
    // The block is gone, so that there is nothing left to expand.
    s.expand_generate(&draws, &adsb, &modes);
    assert_eq!(s.receivers.len(), 2);
    assert_eq!(s.aircraft.len(), 2);
    assert!(matches!(
        s.receivers[0].clock,
        ClockSpec::RadarcapeGps { .. }
    ));
    assert_eq!(s.aircraft[0].kind, AircraftKind::Adsb);
    assert_eq!(s.aircraft[1].kind, AircraftKind::ModesOnly);
    assert_ne!(s.aircraft[0].icao, s.aircraft[1].icao);
    assert!(Icao::from_hex(&s.aircraft[1].icao).is_some());
}

#[test]
fn nothing_is_generated_without_a_block() {
    let mut s = scenario();
    let modes = vec![AircraftDraw {
        traj: path(),
        df4_rate_hz: r(2.0),
    }];
    s.expand_generate(&Vec::new(), &modes, &modes);
    assert_eq!(s.receivers.len(), 2);
    assert_eq!(s.aircraft.len(), 2);
    assert_eq!(s.aircraft[1].icao, "ABCDEF");
}

// ------------------------------------------------------------ client streams

fn squitter(t: f64, odd: bool, count: u64) -> Heard {
    let kind = BroadcastKind::Df17 { odd };
    Heard {
        t: r(t),
        icao: Icao(0x3C6444),
        kind,
        bytes: broadcast_frame(kind, Icao(0x3C6444), 35000, (93000, 51372)).unwrap(),
        count,
        jumped: false,
    }
}

fn texts(lines: &[Line]) -> Vec<String> {
    lines
        .iter()
        .map(|l| String::from_utf8(l.bytes.clone()).unwrap())
        .collect()
}

#[test]
fn pairs_within_two_seconds_become_sync() {
    let mut b = ClientBuilder::new();
    b.hear(&squitter(1.0, false, 12_000_000), r(0.0));
    assert_eq!(b.pending_since(Icao(0x3C6444)), Some(r(1.0)));
    b.hear(&squitter(1.5, true, 18_000_000), r(0.5));
    let s = b.finish(Compression::Plain).unwrap();
    assert_eq!(s.sync_count, 1);
    assert_eq!(s.mlat_count, 0);
    let all = texts(&s.records).concat();
    assert!(all.contains("\"input_connected\""), "{all}");
    assert!(all.contains("{\"seen\":[\"3c6444\"]}"), "{all}");
    assert!(all.contains("{\"sync\":{\"et\":12000000,\"ot\":18000000,"), "{all}");
}

#[test]
fn halves_too_far_apart_do_not_pair() {
    let mut b = ClientBuilder::new();
    b.hear(&squitter(1.0, false, 12_000_000), r(0.0));
    b.hear(&squitter(4.0, true, 48_000_000), r(3.0));
    let s = b.finish(Compression::Plain).unwrap();
    assert_eq!(s.sync_count, 0);
}

#[test]
fn other_formats_become_mlat_and_jumps_are_told() {
    let mut b = ClientBuilder::new();
    let kind = BroadcastKind::Df11;
    let bytes = broadcast_frame(kind, Icao(0xABCDEF), 0, (0, 0)).unwrap();
    b.hear(
        &Heard {
            t: r(31.0),
            icao: Icao(0xABCDEF),
            kind,
            bytes,
            count: 372_000_000,
            jumped: true,
        },
        r(0.0),
    );
    let s = b.finish(Compression::Plain).unwrap();
    assert_eq!(s.mlat_count, 1);
    let all = texts(&s.records).concat();
    assert!(all.contains("\"clock_jump\""), "{all}");
    assert!(all.contains("{\"mlat\":{\"t\":372000000,\"m\":\""), "{all}");
    assert!(all.contains("\"heartbeat\""), "{all}");
}

#[test]
fn an_added_aircraft_leaves_the_lines_of_the_others() {
    let other = |t: f64| {
        let kind = BroadcastKind::Df4;
        Heard {
            t: r(t),
            icao: Icao(0xABCDEF),
            kind,
            bytes: broadcast_frame(kind, Icao(0xABCDEF), 35000, (0, 0)).unwrap(),
            count: 7,
            jumped: false,
        }
    };
    let mut alone = ClientBuilder::new();
    let mut both = ClientBuilder::new();
    both.hear(&other(0.5), r(0.0));
    for b in [&mut alone, &mut both] {
        b.hear(&squitter(1.0, false, 12_000_000), r(0.0));
    }
    both.hear(&other(1.2), r(0.0));
    for b in [&mut alone, &mut both] {
        b.hear(&squitter(1.5, true, 18_000_000), r(0.5));
    }
    let of = |b: ClientBuilder| -> Vec<String> {
        let s = b.finish(Compression::Plain).unwrap();
        let lines = texts(&s.records).into_iter();
        lines.filter(|l| l.to_lowercase().contains("3c6444")).collect()
    };
    let lines = of(alone);
    assert_eq!(lines.len(), 2);
    assert_eq!(of(both), lines);
}

fn line(t: f64, s: &str) -> Line {
    Line {
        t: r(t),
        bytes: s.as_bytes().to_vec(),
    }
}

#[test]
fn framed_lines_decode_to_the_lines() {
    let lines = vec![
        line(0.1, "{\"heartbeat\":{}}\n"),
        line(0.2, "{\"seen\":[\"3c6444\"]}\n"),
        line(5.0, "{\"lost\":[\"3c6444\"]}\n"),
    ];
    let want: Vec<u8> = lines.iter().flat_map(|l| l.bytes.clone()).collect();

    let plain = frame_lines(&lines, Compression::Plain).unwrap();
    assert_eq!(
        plain.iter().flat_map(|l| l.bytes.clone()).collect::<Vec<u8>>(),
        want
    );

    let framed = frame_lines(&lines, Compression::Zlib2).unwrap();
    assert!(framed.len() >= 2, "far lines go in windows of their own");
    let mut dec = ZlibFrameDecoder::new();
    let mut got = Vec::new();
    for f in &framed {
        got.extend(dec.decode_frame(&f.bytes).unwrap());
    }
    assert_eq!(got, want);
}

#[test]
fn records_carry_their_times() {
    let out = stamp(vec![line(0.5, "a\n"), line(1.0, "b\n")], &vec![500, 1000]);
    assert_eq!(out.len(), 2);
    assert_eq!(out[0].t, SimNanos(500));
    assert_eq!(out[1].bytes, b"b\n");
}

#[test]
fn audibility_lists_the_receivers_that_hear() {
    let ids = vec!["a".to_string(), "b".to_string(), "c".to_string()];
    let row = audibility_row(3, Icao(1), &ids, &vec![true, false, true]).unwrap();
    assert_eq!(row.receivers, ["a", "c"]);
    assert_eq!(row.t_s, 3);
    assert!(audibility_row(3, Icao(1), &ids, &vec![false, false, false]).is_none());
}

#[test]
fn reach_is_horizon_and_cap() {
    assert!(is_audible(r(100.0), r(200.0), None));
    assert!(!is_audible(r(201.0), r(200.0), None));
    assert!(!is_audible(r(100.0), r(200.0), Some(r(50.0))));
    assert!(happens(r(0.09), r(0.1)));
    assert!(!happens(r(0.1), r(0.1)));
    assert!(is_on_air(r(59.9), r(60.0)));
    assert!(!is_on_air(r(60.0), r(60.0)));
}

#[test]
fn broadcasts_have_their_formats() {
    let f = broadcast_frame(BroadcastKind::Df4, Icao(0x3944F1), 21000, (0, 0)).unwrap();
    assert_eq!(f.len(), 7);
    assert_eq!(f[0] >> 3, 4);
    let f = broadcast_frame(BroadcastKind::Df17 { odd: true }, Icao(1), 38000, (1, 2)).unwrap();
    assert_eq!(f.len(), 14);
    assert_eq!(f[0] >> 3, 17);
    assert!(broadcast_frame(BroadcastKind::Df4, Icao(1), 60000, (0, 0)).is_none());
}

#[test]
fn client_handshakes_ask_for_one_compression() {
    let h = client_handshake(
        "mb-rx-a".to_string(),
        Compression::Zlib2,
        Number::from_text("47.0"),
        Number::from_text("-1.5"),
        Number::from_text("40"),
        ClockType::Dump1090,
        "mlat-bench 0.1.0".to_string(),
    );
    assert_eq!(h.version, 3);
    assert_eq!(h.compress, [Compression::Zlib2]);
    assert_eq!(h.user, "mb-rx-a");
}
