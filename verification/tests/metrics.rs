//! Scoring: result rows, truth, tallies, reports and their input files.

use std::collections::HashSet;

use mlat_bench::bench::import::{
    import_address, import_scenario, judge_row, read_row, read_sensor, sensor_handshake,
    sensor_user, Importer, Mark, RowUse, Sent,
};
use mlat_bench::bench::replay::{run_text, sample_line, sync_line};
use mlat_bench::bench::scoring::{
    cpu_time, memory_use, read_audibility, read_run, read_sample, scenario_addresses,
};
use mlat_bench::icao::Icao;
use mlat_bench::metrics::report::{render_report, AircraftLine, Report};
use mlat_bench::metrics::rows::parse_results_csv;
use mlat_bench::metrics::score::{
    cpu_between, peak_memory, score, stats, AudibilitySecond, Measured, Miss, ResourceSample,
};
use mlat_bench::metrics::truth::{Place, TruthIndex, TruthPoint};
use mlat_bench::modes::frames::df4;
use mlat_bench::proto::json::Number;
use mlat_bench::reading::Reading;
use mlat_bench::server::receivers::Geodetic;
use mlat_bench::sim::gen::BroadcastKind;
use mlat_bench::sim::scenario::{AircraftKind, AircraftSpec, Trajectory};

fn r(x: f64) -> Reading {
    Reading(x.to_bits())
}

fn f(x: Reading) -> f64 {
    f64::from_bits(x.0)
}

fn tp(t: u64, icao: u32, lat: f64, lon: f64) -> TruthPoint {
    TruthPoint {
        t_s: r(t as f64),
        icao: Icao(icao),
        pos: Geodetic {
            lat_deg: r(lat),
            lon_deg: r(lon),
            alt_m: r(6000.0),
        },
    }
}

fn haversine_m(a: (f64, f64), b: (f64, f64)) -> f64 {
    let (dlat, dlon) = ((b.0 - a.0).to_radians(), (b.1 - a.1).to_radians());
    let h = (dlat / 2.0).sin().powi(2)
        + a.0.to_radians().cos() * b.0.to_radians().cos() * (dlon / 2.0).sin().powi(2);
    2.0 * 6371008.8 * h.sqrt().asin()
}

/// The truth at a time, between the two points around it.
fn pos_at(truth: &TruthIndex, icao: Icao, t: f64) -> Option<(f64, f64)> {
    let (a, b) = truth.bracket(icao, r(t))?;
    let (ta, tb) = (f(a.t_s), f(b.t_s));
    let k = if tb > ta { (t - ta) / (tb - ta) } else { 0.0 };
    let mix = |x: Reading, y: Reading| f(x) + (f(y) - f(x)) * k;
    Some((
        mix(a.pos.lat_deg, b.pos.lat_deg),
        mix(a.pos.lon_deg, b.pos.lon_deg),
    ))
}

#[test]
fn parses_csv_rows() {
    let text =
        "1788000010.5,3944f1,,7700,47.2001,-1.5002,20000,85.2,5,5,\"a,b,c,d,e\",2,0\nbadline\n";
    let rows = parse_results_csv(text);
    assert_eq!(rows.len(), 1);
    assert_eq!(rows[0].icao, Icao(0x3944F1));
    let err: Option<f64> = rows[0].err_est_m.as_ref().map(|s| s.parse().unwrap());
    assert_eq!(err, Some(85.2));
    assert_eq!(rows[0].n_receivers, Some(5));
    assert_eq!(rows[0].lat, "47.2001");
}

#[test]
fn scores_known_geometry() {
    // Truth: straight line lat 47 to 47.001 over 10 s. The result at 5 s sits 0.0005°
    // of latitude off (about 55 m).
    let truth_pts: Vec<TruthPoint> = (0..=10)
        .map(|t| tp(t, 0x3944F1, 47.0 + t as f64 * 1e-4, -1.5))
        .collect();
    let truth = TruthIndex::build(&truth_pts);
    let wall_t0 = 1000.0;
    let measure = |icao: u32, t_wall: f64, lat: f64, lon: f64, est: Option<f64>| {
        let sim_t = t_wall - wall_t0;
        Measured {
            icao: Icao(icao),
            sim_t: r(sim_t),
            miss: pos_at(&truth, Icao(icao), sim_t).map(|p| {
                let err = haversine_m(p, (lat, lon));
                Miss {
                    err_m: r(err),
                    alt_err_m: None,
                    est_ratio: est.map(|e| r(e / err)),
                }
            }),
        }
    };
    let rows = vec![
        measure(0x3944F1, 1005.0, 47.0005 + 0.0005, -1.5, Some(60.0)),
        // Ghost: unknown aircraft.
        measure(0xABCDEF, 1005.0, 47.0, -1.5, None),
    ];
    let aud: Vec<AudibilitySecond> = (0..=10)
        .map(|t| AudibilitySecond {
            t_s: t,
            icao: Icao(0x3944F1),
            n_receivers: 5,
        })
        .collect();
    let targets: HashSet<u32> = [0x3944F1].into_iter().collect();
    let m = score(&truth, &rows, &aud, &targets, &HashSet::new());
    assert_eq!(m.results_matched, 1);
    assert_eq!(m.ghosts_unknown_icao, 1);
    let s = stats(&m.horizontal_error_m).unwrap();
    assert!((f(s.p50) - 55.6).abs() < 3.0, "p50 {}", f(s.p50));
    let ac = &m.per_aircraft[0];
    assert_eq!(ac.icao.to_hex(), "3944f1");
    assert_eq!(ac.results, 1);
    // Time to first fix: first result at 5, trackable from 0.
    let ttff = ac.first_result.map(|t| f(t) - ac.first_trackable_s as f64);
    assert_eq!(ttff, Some(5.0));
}

#[test]
fn the_order_of_results_does_not_matter() {
    let truth = TruthIndex::build(&vec![tp(0, 1, 47.0, 0.0), tp(10, 1, 47.0, 0.0)]);
    let rows: Vec<Measured> = (0..8u32)
        .map(|k| Measured {
            icao: Icao(1 + k % 3),
            sim_t: r((k * 5 % 8) as f64),
            miss: Some(Miss {
                err_m: r((k * 3 % 7) as f64 + 2.0),
                alt_err_m: Some(r(k as f64)),
                est_ratio: Some(r(1.0 / (k + 1) as f64)),
            }),
        })
        .collect();
    let aud: Vec<AudibilitySecond> = (0..10)
        .map(|t| AudibilitySecond {
            t_s: t,
            icao: Icao(1),
            n_receivers: 4,
        })
        .collect();
    let targets: HashSet<u32> = [1].into_iter().collect();
    let known: HashSet<u32> = [2].into_iter().collect();
    let a = score(&truth, &rows, &aud, &targets, &known);
    let mut turned = rows.clone();
    turned.reverse();
    turned.swap(1, 4);
    let b = score(&truth, &turned, &aud, &targets, &known);
    assert_eq!(a.results_matched, 3);
    assert_eq!(a.results_matched, b.results_matched);
    assert_eq!(a.unscored_known_aircraft, b.unscored_known_aircraft);
    assert_eq!(a.ghosts_unknown_icao, b.ghosts_unknown_icao);
    assert_eq!(a.horizontal_error_m, b.horizontal_error_m);
    assert_eq!(a.altitude_error_m, b.altitude_error_m);
    assert_eq!(a.err_estimate_ratio, b.err_estimate_ratio);
    assert_eq!(a.per_aircraft, b.per_aircraft);
    assert_eq!(a.tracked_aircraft_seconds, b.tracked_aircraft_seconds);
}

#[test]
fn results_join_aircraft_by_six_digits() {
    let truth = TruthIndex::build(&vec![tp(0, 1, 47.0, 0.0), tp(10, 1, 47.0, 0.0)]);
    let rows = vec![Measured {
        icao: Icao(1),
        sim_t: r(3.0),
        miss: Some(Miss {
            err_m: r(5.0),
            alt_err_m: None,
            est_ratio: None,
        }),
    }];
    let aud = vec![AudibilitySecond {
        t_s: 3,
        icao: Icao(0x100_0001),
        n_receivers: 4,
    }];
    let targets: HashSet<u32> = [0x100_0001].into_iter().collect();
    let m = score(&truth, &rows, &aud, &targets, &HashSet::new());
    assert_eq!(m.per_aircraft[0].results, 1);
    assert_eq!(m.tracked_aircraft_seconds, 1);
}

#[test]
fn results_are_sorted_into_outcomes() {
    let truth = TruthIndex::build(&vec![tp(0, 1, 47.0, 0.0), tp(10, 1, 47.0, 0.0)]);
    let miss = |err: f64| {
        Some(Miss {
            err_m: r(err),
            alt_err_m: Some(r(10.0)),
            est_ratio: None,
        })
    };
    let m = |icao: u32, t: f64, x: Option<Miss>| Measured {
        icao: Icao(icao),
        sim_t: r(t),
        miss: x,
    };
    let rows = vec![
        m(1, 1.0, miss(100.0)),
        m(1, 2.0, miss(20_000.0)),
        m(1, 50.0, None),
        m(2, 1.0, None),
        m(3, 1.0, None),
    ];
    let none: HashSet<u32> = HashSet::new();
    let known: HashSet<u32> = [3].into_iter().collect();
    let t = score(&truth, &rows, &Vec::new(), &none, &known);
    assert_eq!(t.results_total, 5);
    assert_eq!(t.results_matched, 1);
    assert_eq!(t.ghosts_gross_error, 1);
    assert_eq!(t.ghosts_unknown_icao, 1);
    assert_eq!(t.unscored_known_aircraft, 1);
    assert_eq!(t.altitude_error_m, [r(10.0)]);
}

#[test]
fn coverage_counts_seconds_in_reach() {
    let truth = TruthIndex::build(&vec![tp(0, 1, 47.0, 0.0), tp(10, 1, 47.0, 0.0)]);
    let aud: Vec<AudibilitySecond> = (0..4)
        .map(|t| AudibilitySecond {
            t_s: t,
            icao: Icao(1),
            n_receivers: if t == 3 { 3 } else { 4 },
        })
        .collect();
    let rows = vec![Measured {
        icao: Icao(1),
        sim_t: r(1.5),
        miss: Some(Miss {
            err_m: r(1.0),
            alt_err_m: None,
            est_ratio: None,
        }),
    }];
    let targets: HashSet<u32> = [1].into_iter().collect();
    let t = score(&truth, &rows, &aud, &targets, &HashSet::new());
    assert_eq!(t.trackable_aircraft_seconds, 3);
    assert!(t.tracked_aircraft_seconds <= 3);
    assert!(t.tracked_aircraft_seconds >= 1);
}

#[test]
fn a_second_counts_once_for_an_aircraft() {
    let truth = TruthIndex::build(&vec![tp(0, 0x3944F1, 47.0, 0.0), tp(10, 0x3944F1, 47.0, 0.0)]);
    let aud: Vec<AudibilitySecond> = (0..2)
        .map(|_| AudibilitySecond {
            t_s: 5,
            icao: Icao(0x3944F1),
            n_receivers: 5,
        })
        .collect();
    let rows = vec![Measured {
        icao: Icao(0x3944F1),
        sim_t: r(5.0),
        miss: Some(Miss {
            err_m: r(1.0),
            alt_err_m: None,
            est_ratio: None,
        }),
    }];
    let targets: HashSet<u32> = [0x3944F1].into_iter().collect();
    let t = score(&truth, &rows, &aud, &targets, &HashSet::new());
    assert_eq!(t.trackable_aircraft_seconds, 1);
    assert_eq!(t.tracked_aircraft_seconds, 1);
}

#[test]
fn an_error_that_is_no_number_is_neither_match_nor_ghost() {
    let truth = TruthIndex::build(&vec![tp(0, 1, 47.0, 0.0), tp(10, 1, 47.0, 0.0)]);
    let rows = vec![Measured {
        icao: Icao(1),
        sim_t: r(1.0),
        miss: Some(Miss {
            err_m: r(f64::NAN),
            alt_err_m: None,
            est_ratio: None,
        }),
    }];
    let none: HashSet<u32> = HashSet::new();
    let t = score(&truth, &rows, &Vec::new(), &none, &none);
    assert_eq!(t.results_total, 1);
    assert_eq!(t.results_matched, 0);
    assert_eq!(t.ghosts_gross_error, 0);
    assert!(t.horizontal_error_m.is_empty());
}

#[test]
fn statistics_are_ranks() {
    assert!(stats(&Vec::new()).is_none());
    let v: Vec<Reading> = (1..=100).map(|i| r(i as f64)).collect();
    let s = stats(&v).unwrap();
    assert_eq!(s.n, 100);
    assert_eq!(f(s.max), 100.0);
    assert!(f(s.p50) >= 50.0 && f(s.p50) <= 51.0);
    assert!(f(s.p90) >= 90.0 && f(s.p90) <= 91.0);
}

#[test]
fn truth_brackets_a_time() {
    let truth = TruthIndex::build(&vec![
        tp(10, 1, 2.0, 0.0),
        tp(0, 1, 1.0, 0.0),
        tp(5, 2, 9.0, 0.0),
    ]);
    assert!(truth.known(Icao(1)));
    assert!(!truth.known(Icao(3)));
    assert_eq!(truth.span(Icao(1)), Some((r(0.0), r(10.0))));
    let (a, b) = truth.bracket(Icao(1), r(4.0)).unwrap();
    assert_eq!((a.t_s, b.t_s), (r(0.0), r(10.0)));
    assert!(truth.bracket(Icao(3), r(4.0)).is_none());
    let (a, b) = truth.bracket(Icao(1), r(20.0)).unwrap();
    assert_eq!((a.t_s, b.t_s), (r(10.0), r(10.0)));
    assert_eq!(pos_at(&truth, Icao(1), 5.0).unwrap().0, 1.5);
    // At the time of a point the aircraft is there.
    let (a, _) = truth.bracket(Icao(1), r(10.0)).unwrap();
    assert_eq!((a.t_s, a.pos.lat_deg), (r(10.0), r(2.0)));
}

#[test]
fn truth_ends_with_its_widened_span() {
    let truth = TruthIndex::build(&vec![tp(0, 1, 1.0, 0.0), tp(10, 1, 2.0, 0.0)]);
    let at = |icao: u32, t: f64| truth.pos_at(Icao(icao), r(t), r(-1.0), r(11.0));
    assert!(at(1, -1.1).is_none());
    let (first, last) = truth.bracket(Icao(1), r(4.0)).unwrap();
    assert_eq!(at(1, -1.0), Some(Place::At(first)));
    assert_eq!(at(1, 0.0), Some(Place::At(first)));
    assert_eq!(at(1, 4.0), Some(Place::Between(first, last)));
    assert_eq!(at(1, 10.0), Some(Place::At(last)));
    assert_eq!(at(1, 11.0), Some(Place::At(last)));
    assert_eq!(last.t_s, r(10.0));
    assert!(at(1, 11.1).is_none());
    assert!(at(2, 4.0).is_none());
}

#[test]
fn the_order_of_the_truth_log_does_not_matter() {
    let mut points: Vec<TruthPoint> = (0..6).map(|t| tp(t, t as u32 % 2, t as f64, 0.0)).collect();
    let forward = TruthIndex::build(&points);
    points.reverse();
    let backward = TruthIndex::build(&points);
    for icao in 0..3 {
        assert_eq!(forward.span(Icao(icao)), backward.span(Icao(icao)));
        for t in 0..7 {
            let t = r(t as f64 + 0.5);
            assert_eq!(forward.bracket(Icao(icao), t), backward.bracket(Icao(icao), t));
        }
    }
}

#[test]
fn resources_are_compared_in_order() {
    let s = |t: f64, cpu: Option<u64>, mem: Option<u64>| ResourceSample {
        t_wall: r(t),
        cpu_usec: cpu,
        mem_bytes: mem,
    };
    let a = s(0.0, Some(100), Some(5));
    let b = s(1.0, Some(700), None);
    assert_eq!(cpu_between(&a, &b, r(1.0)), Some(600));
    assert_eq!(cpu_between(&a, &b, r(0.0)), None);
    assert_eq!(cpu_between(&b, &a, r(1.0)).unwrap_or(0), 0);
    assert_eq!(peak_memory(&vec![a, b, s(2.0, None, Some(9))]), Some(9));
    assert_eq!(peak_memory(&Vec::new()), None);
}

#[test]
fn reports_show_dashes_for_what_is_missing() {
    let report = Report {
        results_total: 3,
        results_matched: 2,
        ghosts_unknown_icao: 1,
        ghosts_gross_error: 0,
        p50: "55".to_string(),
        p90: "60".to_string(),
        p99: "61".to_string(),
        max: "62".to_string(),
        mean: "56".to_string(),
        altitude_p50: None,
        altitude_n: 0,
        err_estimate_ratio_p50: None,
        coverage_pct: Some("50.0".to_string()),
        tracked_aircraft_seconds: 5,
        trackable_aircraft_seconds: 10,
        aircraft: vec![AircraftLine {
            icao: "3944f1".to_string(),
            results: 2,
            p50_error_m: Some("55".to_string()),
            coverage_pct: None,
            ttff_s: Some("5.0".to_string()),
            update_rate_per_min: None,
        }],
        cpu_mean_pct: None,
        cpu_max_pct: None,
        mem_max_mb: None,
        samples: 0,
    };
    let text = render_report(&report, "smoke");
    assert!(text.starts_with("# mlat-bench report \u{2014} smoke\n\n**3 results**, 2 matched"));
    assert!(text.contains("| 55 m | 60 m | 61 m | 62 m | 56 m |"));
    assert!(text.contains("| 3944f1 | 2 | 55 m | \u{2014} | 5.0 s | \u{2014} |\n"));
    assert!(text.contains("50.0% of trackable aircraft-seconds tracked (5/10)"));
    assert!(!text.contains("Altitude error"));
}

// --------------------------------------------------------------- input files

#[test]
fn run_files_are_read() {
    let a = read_audibility(br#"{"t_s":3,"icao":3753201,"receivers":["a","b"]}"#).unwrap();
    assert_eq!((a.t_s, a.icao, a.n_receivers), (3, Icao(3753201), 2));
    assert!(read_audibility(br#"{"t_s":3,"icao":1}"#).is_none());
    assert!(read_audibility(b"junk").is_none());
    let s = read_sample(br#"{"t":1.5,"cpu_usec":7,"mem_bytes":null}"#).unwrap();
    assert_eq!((s.t.as_str(), s.cpu_usec, s.mem_bytes), ("1.5", Some(7), None));
    assert!(read_sample(br#"{"cpu_usec":7}"#).is_none());
    assert_eq!(cpu_time("nr 1\nusage_usec 1234\nuser_usec 5\n"), Some(1234));
    assert_eq!(cpu_time("nothing\n"), None);
    assert_eq!(memory_use(" 4096\n"), Some(4096));
    assert_eq!(memory_use("max"), None);
}

#[test]
fn targets_are_the_aircraft_of_a_kind() {
    let craft = |icao: &str, kind: AircraftKind| AircraftSpec {
        icao: icao.to_string(),
        kind,
        traj: Trajectory::GreatCircle {
            from_lat: r(0.0),
            from_lon: r(0.0),
            from_alt_ft: r(0.0),
            to_lat: r(1.0),
            to_lon: r(1.0),
            to_alt_ft: r(0.0),
            gs_kts: r(400.0),
        },
        pos_rate_hz: r(2.0),
        df11_rate_hz: r(1.0),
        df4_rate_hz: r(1.0),
        nav_error_m: r(0.0),
    };
    let v = vec![
        craft("000001", AircraftKind::Adsb),
        craft("000002", AircraftKind::ModesOnly),
    ];
    assert_eq!(
        scenario_addresses(&v, Some(AircraftKind::ModesOnly)),
        [2].into_iter().collect()
    );
    assert_eq!(scenario_addresses(&v, None).len(), 2);
}

// -------------------------------------------------------------------- import

fn fields(v: &[&str]) -> Vec<String> {
    v.iter().map(|s| s.to_string()).collect()
}

#[test]
fn data_set_rows_are_read() {
    let s = read_sensor(&fields(&["12", "47.5", "x", "100"]));
    assert_eq!(s.serial, Some(12));
    assert_eq!(s.lat.as_deref(), Some("47.5"));
    assert!(s.lon.is_none());
    let row = read_row(&fields(&[
        "1",
        "0.5",
        "77",
        "47.0",
        "-1.0",
        "3000.0",
        "3010.0",
        "2",
        "[[12,1000,40],[13,\"x\",1],[14,2000.5,1]]",
    ]));
    assert_eq!(row.aircraft, Some(77));
    let marks: Vec<(u64, &str)> = row.marks.iter().map(|m| (m.serial, m.ns.as_str())).collect();
    assert_eq!(marks, [(12, "1000"), (14, "2000.5")]);
}

#[test]
fn rows_are_used_or_passed_over() {
    let use_of = |t: &str, aircraft: &str, lat: &str, marks: &str| {
        let row = read_row(&fields(&[
            "1", t, aircraft, lat, "-1.0", "3000.0", "3010.0", "2", marks,
        ]));
        judge_row(&row, r(t.parse().unwrap_or(0.0)), r(600.0))
    };
    let two = "[[12,1000,40],[14,2000.5,1]]";
    assert_eq!(use_of("0.5", "77", "47.0", two), RowUse::Used);
    assert_eq!(use_of("600.0", "77", "47.0", two), RowUse::Used);
    assert_eq!(use_of("x", "77", "47.0", two), RowUse::NoTime);
    assert_eq!(use_of("600.5", "x", "", two), RowUse::Past);
    assert_eq!(use_of("0.5", "x", "", two), RowUse::NoAircraft);
    assert_eq!(use_of("0.5", "77", "", "[]"), RowUse::NoTruth);
    assert_eq!(use_of("0.5", "77", "47.0", "[[12,1000,40]]"), RowUse::TooFewMarks);
    assert_eq!(use_of("0.5", "4294967295", "47.0", two), RowUse::NoAddress);
}

#[test]
fn imports_build_the_clients_of_known_sensors() {
    let mut im = Importer::new([12, 13].into_iter().collect());
    assert_eq!(im.is_held_out(77), None);
    assert!(im.decide(77, r(0.1), r(0.3)));
    assert!(!im.decide(78, r(0.5), r(0.3)));
    assert_eq!(im.is_held_out(77), Some(true));
    assert_eq!(im.next_kind(77, true), BroadcastKind::Df4);
    assert_eq!(im.next_kind(78, false), BroadcastKind::Df17 { odd: true });
    assert_eq!(im.next_kind(78, false), BroadcastKind::Df17 { odd: false });
    let icao = import_address(77);
    assert_eq!(icao, Icao(0x10004D));
    let sent = Sent {
        icao,
        t: r(1.0),
        held_out: true,
        odd: false,
    };
    let frame = df4(icao, 0, 10000).unwrap().to_vec();
    let mark = |serial: u64, counts: u64| Mark {
        serial,
        counts,
        gap: r(0.0),
    };
    im.transmit(&sent, &frame, &vec![mark(12, 100), mark(99, 100)]);
    assert_eq!(im.serials(), [12]);
    assert_eq!(im.aircraft(), [(77, true), (78, false)]);
    assert!(im.take_lines(13).is_none());
    let lines = im.take_lines(12).unwrap();
    let all: String = lines
        .iter()
        .map(|l| String::from_utf8(l.bytes.clone()).unwrap())
        .collect();
    assert!(all.contains("{\"seen\":[\"10004d\"]}"), "{all}");
    assert!(all.contains("{\"mlat\":{\"t\":100,"), "{all}");
}

#[test]
fn import_texts_are_exact() {
    assert_eq!(sensor_user(12), "os-12");
    let line = sensor_handshake("os-12", "47.5", "-1.5", "100");
    let v: serde_json::Value = serde_json::from_str(&line).unwrap();
    assert_eq!(v["user"], "os-12");
    assert_eq!(v["compress"][0], "none");
    assert_eq!(v["lat"].as_f64(), Some(47.5));
    let toml = import_scenario(7, 60, &vec![(77, true), (78, false)]);
    assert!(toml.contains("icao = \"10004D\"\nkind = \"modes_only\""), "{toml}");
    assert!(toml.contains("icao = \"10004E\"\nkind = \"adsb\""), "{toml}");
    assert!(toml.contains("seed = 7"), "{toml}");
}

// ------------------------------------------------------------- files of a run

fn num(s: &str) -> Number {
    Number::from_text(s).unwrap()
}

#[test]
fn the_file_about_a_run_is_read_back() {
    let text = run_text(true, "cap/x \"y\"", 120, &num("1788000012.25")).unwrap();
    assert!(text.starts_with("{\n  \"capture\": "));
    assert!(text.contains("\"status\": \"ok\""));
    assert!(text.contains("\"duration_s\": 120"));
    let run = read_run(text.as_bytes()).unwrap();
    assert_eq!(run.wall_t0.as_deref(), Some("1788000012.25"));
    assert_eq!(run.capture.as_deref(), Some("cap/x \"y\""));
    let failed = run_text(false, "c", 1, &num("0")).unwrap();
    assert!(failed.contains("\"status\": \"failed\""));
    assert!(run_text(true, "c", 1, &num("1e999")).is_none());
    let bare = read_run(br#"{"wall_t0":"soon","capture":7}"#).unwrap();
    assert!(bare.wall_t0.is_none() && bare.capture.is_none());
    assert!(read_run(b"[1]").unwrap().wall_t0.is_none());
    assert!(read_run(b"not json").is_none());
}

#[test]
fn sync_snapshots_are_kept_whatever_they_hold() {
    assert_eq!(
        sync_line(&num("10.5"), b"{ \"b\": 1, \"a\": [] }").as_deref(),
        Some("{\"sync\":{\"a\":[],\"b\":1},\"t\":10.5}\n")
    );
    assert_eq!(
        sync_line(&num("10.5"), b"").as_deref(),
        Some("{\"sync\":null,\"t\":10.5}\n")
    );
    assert!(sync_line(&num("1e999"), b"{}").is_none());
}

#[test]
fn samples_are_read_back() {
    let line = sample_line(&num("5.25"), Some(17), None).unwrap();
    assert_eq!(line, "{\"cpu_usec\":17,\"mem_bytes\":null,\"t\":5.25}\n");
    let s = read_sample(line.as_bytes()).unwrap();
    assert_eq!((s.t.as_str(), s.cpu_usec, s.mem_bytes), ("5.25", Some(17), None));
    assert!(sample_line(&num("1e999"), None, None).is_none());
}
