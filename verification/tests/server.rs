//! The server: receivers, shards, groups, clusters, publication, sessions.

use mlat_bench::icao::Icao;
use mlat_bench::modes::frames::{df11, df17_airborne_position, df4};
use mlat_bench::proto::json::Number;
use mlat_bench::proto::messages::Compression;
use mlat_bench::reading::Reading;
use mlat_bench::server::candidate::{
    can_solve, pick_first_arrivals, read_candidate_handshake, Candidate, CellRouter, ClockStar,
};
use mlat_bench::server::cluster::{
    cap_observations, choose_route, detours, elect_reference, is_quarantined, members,
    observations, order_by_time, solvable, solvers, time_arrivals, ClusterCursor, Stamp, Timed, Ways,
};
use mlat_bench::server::gates::{
    is_credible, is_usable, may_convert, retry, take_solve, use_trimmed, Judgement, PairGate,
    SyncWindow, Taken, RESET_AFTER_REJECTS,
};
use mlat_bench::server::grouping::{
    read_locatable, read_sync_pair, Arrival, Groups, Locatable, Report, SyncPoints,
};
use mlat_bench::server::output::{listen_address, shard_count, TwinFilter, RECENT_FIXES};
use mlat_bench::server::pairs::PairTable;
use mlat_bench::server::publish::{
    judge, learning_gain, next_offset, solve_gate, Fix, Gate, Track, Verdict,
};
use mlat_bench::server::receivers::{
    Ecef, Geodetic, ReceiverInfo, Receivers, RxBias, Site,
};
use mlat_bench::server::rows::{csv_row, result_line, sbs_datetime, sbs_line, FixText};
use mlat_bench::server::session::{
    heartbeat_line, process_line, read_handshake, split_lines, welcome_line, Asked, Batch, Refusal,
    Request, BATCH_LIMIT,
};
use mlat_bench::server::shard::{
    Point, Router, ShardLoad, CAP_RATE_PER_WINDOW, SPLIT_AT,
};
use mlat_bench::server::state::{State, Sync};
use mlat_bench::server::status::{sync_report, PeerStatus, SyncEntry};

fn r(x: f64) -> Reading {
    Reading(x.to_bits())
}

fn geo(lat: f64, lon: f64, alt: f64) -> Geodetic {
    Geodetic {
        lat_deg: r(lat),
        lon_deg: r(lon),
        alt_m: r(alt),
    }
}

fn rx_info(user: &str) -> ReceiverInfo {
    ReceiverInfo {
        user: user.to_string(),
        site: Site {
            geo: geo(47.0, -1.5, 40.0),
            ecef: Ecef {
                x: r(0.0),
                y: r(0.0),
                z: r(0.0),
            },
            freq_hz: 12_000_000,
            gps: false,
            jitter_s: r(150e-9),
        },
    }
}

fn state() -> State<u8> {
    State::new(false)
}

fn hex(b: &[u8]) -> String {
    b.iter().map(|x| format!("{x:02x}")).collect()
}

// --------------------------------------------------------------------- state

#[test]
fn slots_are_reused_after_removal() {
    let mut s = state();
    let a = s.add_receiver(rx_info("a"));
    let b = s.add_receiver(rx_info("b"));
    assert_eq!((a.idx, b.idx), (0, 1));
    s.remove_receiver(a);
    assert_eq!(s.live_receivers(), 1);
    let c = s.add_receiver(rx_info("c"));
    assert_eq!(c.idx, a.idx, "freed slot is reused");
    assert_ne!(c.gen, a.gen, "reuse bumps the generation");
    assert_eq!(s.receivers().len(), 2, "no growth on reconnect churn");
}

#[test]
fn same_user_reconnect_replaces_the_old_slot() {
    let mut s = state();
    let a = s.add_receiver(rx_info("stn"));
    let b = s.add_receiver(rx_info("stn"));
    assert_eq!(s.live_receivers(), 1);
    assert_eq!(b.idx, a.idx, "same user takes the same slot back");
    assert_ne!(b.gen, a.gen);
    // The zombie connection's teardown must not free the new slot.
    s.remove_receiver(a);
    assert_eq!(s.live_receivers(), 1);
}

#[test]
fn stale_generation_messages_are_ignored() {
    let mut s = state();
    let a = s.add_receiver(rx_info("a"));
    s.remove_receiver(a);
    let b = s.add_receiver(rx_info("b"));
    assert_eq!(b.idx, a.idx);
    s.clock_reset(a); // stale; must not touch b's pairs
    s.on_mlat(a, "20000f1f10ce93", r(1000.0), r(0.0), 0);
    assert!(s.sweep(0, 0).is_empty());
    let (_, _, solved, rejected) = s.stats();
    assert_eq!(solved + rejected, 0);
    let listed = s.sync_json();
    let keys: Vec<&str> = listed.iter().map(|l| s.receivers().user(l.0)).collect();
    assert_eq!(keys, ["b"], "sync.json lists only live receivers");
}

#[test]
fn live_messages_are_grouped_and_swept() {
    let mut s = state();
    let a = s.add_receiver(rx_info("a"));
    let b = s.add_receiver(rx_info("b"));
    let frame = hex(&df4(Icao(0x3944F1), 0, 21000).unwrap());
    s.on_mlat(a, &frame, r(1.0), r(10.0), 5);
    s.on_mlat(b, &frame, r(1.5), r(10.0), 6);
    assert!(s.sweep(7, 1000).is_empty());
    let g = s.sweep(2000, 1000);
    assert_eq!(g.len(), 1);
    assert_eq!(g[0].icao, Icao(0x3944F1));
    assert!(!g[0].df17);
    let rx: Vec<usize> = g[0].entries.iter().map(|e| e.rx).collect();
    assert_eq!(rx, [0, 1]);
    assert!(s.sweep(4000, 1000).is_empty());
}

fn position_pair() -> (String, String) {
    let even = df17_airborne_position(Icao(0x40621D), 5, 11, 38000, (93000, 51372), false);
    let odd = df17_airborne_position(Icao(0x40621D), 5, 11, 38000, (74158, 50194), true);
    (hex(&even.unwrap()), hex(&odd.unwrap()))
}

#[test]
fn sync_reports_train_with_earlier_reporters() {
    let mut s = state();
    let a = s.add_receiver(rx_info("a"));
    let b = s.add_receiver(rx_info("b"));
    let (em, om) = position_pair();
    let pair = s.sync_pair(a, &em, &om).unwrap();
    assert_eq!(pair.icao, Icao(0x40621D));
    assert_eq!(pair.even, (93000, 51372));
    assert_eq!(pair.alt_ft, Some(38000));
    let sync = |t: f64| {
        Some(Sync {
            te: r(t),
            to: r(t + 0.5),
            t_s: r(t + 0.5),
            claimed: geo(52.26, 3.91, 11582.0),
            at_scaled: r(0.0),
        })
    };
    assert!(s.on_sync(a, &em, &om, sync(1.0), 0).is_empty());
    let steps = s.on_sync(b, &em, &om, sync(2.0), 1);
    let told: Vec<_> = steps.iter().map(|x| (x.a, x.b, x.ta, x.tb)).collect();
    assert_eq!(
        told,
        [
            (1, 0, r(2.0), r(1.0)),
            (0, 1, r(1.0), r(2.0)),
            (1, 0, r(2.5), r(1.5)),
            (0, 1, r(1.5), r(2.5)),
        ]
    );
    assert_eq!(s.stats().1, 2);
    // A pair whose position cannot be decoded changes nothing.
    assert!(s.on_sync(a, &em, &om, None, 2).is_empty());
    assert_eq!(s.stats().1, 2);
    // Bad hex, the wrong order and two aircraft make no pair.
    let other = df17_airborne_position(Icao(0x40621E), 5, 11, 38000, (74158, 50194), true);
    let other = hex(&other.unwrap());
    assert!(s.on_sync(a, "zz", &om, sync(3.0), 2).is_empty());
    assert!(s.on_sync(a, "zz", "zz", sync(3.0), 2).is_empty());
    assert!(s.on_sync(a, &om, &em, sync(3.0), 2).is_empty());
    assert!(s.on_sync(a, &em, &other, sync(3.0), 2).is_empty());
    assert!(s.claimed(Icao(0x40621E)).is_none());
    assert_eq!(s.stats().1, 2);
    assert_eq!(s.claimed(Icao(0x40621D)).unwrap().0, geo(52.26, 3.91, 11582.0));
    // Models entered for the steps make the two peers, and go with the slot.
    assert_eq!(s.receiver_stats(a), Some((0, false)));
    for x in &steps {
        s.put_model(x.a, x.b, 7);
    }
    assert_eq!(s.sync_json(), [(0, vec![1]), (1, vec![0])]);
    assert_eq!(s.receiver_stats(a), Some((1, false)));
    s.clock_reset(b);
    assert!(s.model(0, 1).is_none());
    assert_eq!(s.receiver_stats(b), Some((0, false)));
    s.remove_receiver(a);
    assert_eq!(s.receiver_stats(a), None);
}

#[test]
fn scattered_receivers_are_reported_as_quarantined() {
    let mut s = state();
    let a = s.add_receiver(rx_info("a"));
    for _ in 0..40 {
        s.learn(a.idx, r(0.0), r(1e-4), true);
    }
    let b = s.receivers().bias(a.idx);
    assert_eq!(s.receiver_stats(a), Some((0, is_quarantined(b))));
    assert!(is_quarantined(RxBias {
        bias_s: r(0.0),
        mad_s: r(1e-4),
        n: 30,
    }));
    assert!(!is_quarantined(RxBias {
        bias_s: r(0.0),
        mad_s: r(1e-4),
        n: 29,
    }));
    assert!(!is_quarantined(RxBias {
        bias_s: r(0.0),
        mad_s: r(1e-7),
        n: 30,
    }));
}

#[test]
fn fixes_move_tracks_and_counters() {
    let mut s = state();
    let icao = Icao(0x3944F1);
    let a = s.add_receiver(rx_info("a"));
    s.on_mlat(a, &hex(&df4(icao, 0, 21000).unwrap()), r(1.0), r(10.0), 0);
    let gate = s.begin_solve(icao, 5, r(100.0), r(100.0), r(50.0));
    assert_eq!(
        gate,
        Gate::Solve {
            alt_ft: 21000,
            warm: None
        }
    );
    let v = s.finish_solve(icao, false, 5, Some(fix(47.0)), None, r(50.0));
    assert_eq!(v, Verdict::Publish { learn: true });
    assert_eq!(s.track(icao).last_pos, Some(geo(47.0, -1.5, 6400.0)));
    assert_eq!(s.stats().2, 1);
    let v = s.finish_solve(icao, false, 5, None, None, r(51.0));
    assert_eq!(v, Verdict::Rejected);
    assert_eq!(s.stats().3, 1);
}

// ----------------------------------------------------------------- receivers

#[test]
fn generations_tell_connections_apart() {
    let mut rx = Receivers::new();
    let (a, replaced) = rx.add(rx_info("a"));
    assert!(replaced.is_none());
    assert!(rx.live(a));
    rx.set_bias(
        0,
        RxBias {
            bias_s: r(1e-6),
            mad_s: r(2e-6),
            n: 3,
        },
    );
    let (b, replaced) = rx.add(rx_info("a"));
    assert_eq!(replaced, Some(0));
    assert!(!rx.live(a));
    assert!(rx.live(b));
    assert_eq!(rx.bias(0).n, 0, "a slot starts clean");
    assert!(!rx.remove(a));
    assert!(rx.remove(b));
    assert!(!rx.alive(0));
    assert_eq!(rx.live_receivers(), 0);
}

#[test]
fn pair_tables_forget_both_directions() {
    let mut t: PairTable<u8> = PairTable::new();
    assert_eq!(t.put(0, 1, 5), None);
    assert_eq!(t.put(1, 0, 6), None);
    assert_eq!(t.put(1, 2, 7), None);
    assert_eq!(t.put(0, 1, 8), Some(5));
    assert_eq!(t.get(0, 1), Some(&8));
    assert_eq!(t.peers_of(1), [0, 2]);
    t.forget(0);
    assert_eq!(t.get(0, 1), None);
    assert_eq!(t.get(1, 0), None);
    assert_eq!(t.get(1, 2), Some(&7));
}

// --------------------------------------------------------------------- shard

/// A router of base 8 degrees with the loads of its shards.
struct Shards {
    router: Router,
    loads: Vec<ShardLoad>,
}

impl Shards {
    fn new(n: usize, cap: usize) -> Shards {
        Shards {
            router: Router::new(n, r(8.0), cap),
            loads: vec![
                ShardLoad {
                    receivers: 0,
                    rate: 0
                };
                n
            ],
        }
    }

    fn point(&self, lat: f64, lon: f64) -> Point {
        let size = 8.0 / (1u32 << self.router.point_level()) as f64;
        Point {
            lat: (lat / size).floor() as i64,
            lon: (lon / size).floor() as i64,
        }
    }

    fn shard_for(&mut self, lat: f64, lon: f64) -> usize {
        let p = self.point(lat, lon);
        let s = self.router.shard_for(p, &self.loads);
        self.loads[s].receivers += 1;
        s
    }
}

#[test]
fn neighbor_cells_join_the_same_shard() {
    let mut s = Shards::new(8, 64);
    let a = s.shard_for(47.0, -1.0);
    let b = s.shard_for(47.5, 7.5); // adjacent 8° cell to the east
    assert_eq!(a, b, "a new cell joins its neighbor's shard");
}

#[test]
fn dense_cells_split_and_children_inherit() {
    let mut s = Shards::new(4, 1000);
    let owner = s.shard_for(1.3, 103.8);
    let p = s.point(1.3, 103.8);
    assert_eq!(s.router.leaf_level(p), 0);
    for _ in 0..SPLIT_AT {
        s.shard_for(1.3, 103.8);
    }
    assert_eq!(s.router.leaf_level(p), 1, "crowded cell splits");
    // A feeder elsewhere in the split square maps one level finer and inherits the
    // parent's shard through the ancestor fallback.
    let child_owner = s.shard_for(6.9, 100.1);
    assert_eq!(child_owner, owner);
}

#[test]
fn children_of_a_full_shard_go_home() {
    let mut s = Shards::new(2, 1000);
    assert_eq!(s.shard_for(4.0, 4.0), 0);
    s.loads[0].rate = CAP_RATE_PER_WINDOW;
    assert_eq!(s.shard_for(4.0, 12.0), 1);
    for _ in 0..SPLIT_AT {
        assert_eq!(s.shard_for(4.0, 4.0), 0);
    }
    let p = s.point(4.0, 4.0);
    assert_eq!(s.router.leaf_level(p), 1);
    assert_eq!(s.shard_for(4.0, 4.0), 0, "the split cell's shard, though full");
    assert_eq!(s.shard_for(4.0, 7.0), 0);
}

#[test]
fn overloaded_shard_stops_absorbing_new_cells() {
    let mut s = Shards::new(2, 1000);
    let a = s.shard_for(4.0, 4.0);
    s.loads[a].rate = CAP_RATE_PER_WINDOW;
    let b = s.shard_for(4.0, 12.0); // adjacent cell
    assert_ne!(a, b, "rate gate spills growth to the lighter shard");
    // Feeders in cells the busy shard already owns still land in it.
    let again = s.shard_for(4.5, 4.5);
    assert_eq!(again, a);
}

#[test]
fn mapped_points_keep_their_owner() {
    let mut s = Shards::new(3, 10);
    let p = s.point(47.0, -1.0);
    assert_eq!(s.router.owner_of_point(p), None);
    let a = s.shard_for(47.0, -1.0);
    assert_eq!(s.router.owner_of_point(p), Some(a));
    assert_eq!(s.router.partition_dump(), [(0, 5, -1, a, 1)]);
    let b = s.shard_for(-30.0, 60.0);
    s.shard_for(-30.5, 60.5);
    // In order of level, latitude and longitude.
    assert_eq!(
        s.router.partition_dump(),
        [(0, -4, 7, b, 2), (0, 5, -1, a, 1)]
    );
}

// ------------------------------------------------------------------ grouping

fn arrival(rx: usize, t: f64) -> Arrival {
    Arrival {
        rx,
        t_s: r(t),
        at_scaled: r(0.0),
    }
}

#[test]
fn frames_are_read_for_location() {
    let icao = Icao(0x3944F1);
    let f = read_locatable(&hex(&df4(icao, 0, 21000).unwrap()), false).unwrap();
    assert_eq!((f.icao, f.df17, f.alt_ft), (icao, false, Some(21000)));
    let f = read_locatable(&hex(&df11(icao, 5)), false).unwrap();
    assert_eq!((f.icao, f.alt_ft), (icao, None));
    let (em, _) = position_pair();
    assert!(read_locatable(&em, false).is_none());
    assert!(read_locatable(&em, true).unwrap().df17);
    assert!(read_locatable("zz", true).is_none());
}

#[test]
fn sync_pairs_need_both_halves_of_one_aircraft() {
    let (em, om) = position_pair();
    assert!(read_sync_pair(&em, &om).is_some());
    assert!(read_sync_pair(&om, &em).is_none());
    assert!(read_sync_pair(&em, "8d").is_none());
    let other = df17_airborne_position(Icao(1), 5, 11, 38000, (74158, 50194), true).unwrap();
    assert!(read_sync_pair(&em, &hex(&other)).is_none());
}

#[test]
fn sync_points_expire() {
    let mut p = SyncPoints::new();
    let rep = |rx: usize| Report {
        rx,
        te: r(1.0),
        to: r(2.0),
    };
    assert!(p.report("e", "o", rep(0), 15, 0).is_empty());
    assert_eq!(p.report("e", "o", rep(1), 15, 1).len(), 1);
    assert!(p.report("e", "o", rep(2), 2, 2).is_empty(), "full at two");
    assert_eq!(p.report("e", "o", rep(2), 3, 3).len(), 2);
    p.expire(5_000_000_000);
    assert!(p.report("e", "o", rep(2), 15, 5_000_000_001).is_empty());
}

#[test]
fn groups_collect_equal_frames() {
    let mut g = Groups::new();
    let f = |icao: u32| Locatable {
        icao: Icao(icao),
        df17: false,
        alt_ft: None,
    };
    g.enter("aa", f(1), arrival(0, 1.0), 0);
    g.enter("bb", f(2), arrival(0, 2.0), 500);
    g.enter("aa", f(1), arrival(1, 3.0), 600);
    let ready = g.take_ready(1000, 1000);
    assert_eq!(ready.len(), 1);
    assert_eq!(ready[0].key, "aa");
    assert_eq!(ready[0].entries.len(), 2);
    assert_eq!(g.take_ready(1500, 1000).len(), 1);
}

// ------------------------------------------------------------------- cluster

#[test]
fn members_are_the_receivers_of_a_group() {
    let e = vec![arrival(2, 1.0), arrival(0, 1.1), arrival(2, 1.2), arrival(1, 1.3)];
    let mut m = members(&e);
    m.sort();
    assert_eq!(m, [0, 1, 2]);
    assert_eq!(pick_first_arrivals(&e), [0, 1, 3]);
}

#[test]
fn the_best_supported_receiver_is_the_reference() {
    let usable = vec![
        vec![true, true, false],
        vec![false, true, false],
        vec![false, true, true],
    ];
    assert_eq!(elect_reference(&usable), 1);
}

#[test]
fn routes_prefer_the_smaller_sigma() {
    let s = |t: f64, sigma: f64| Stamp {
        t_s: r(t),
        sigma_s: r(sigma),
    };
    let direct = s(1.0, 1e-7);
    let hops = vec![s(1.1, 3e-7), s(1.2, 2e-7)];
    let got = choose_route(Some(direct), &hops, r(5e-7)).unwrap();
    assert_eq!(got.t_s, r(1.0));
    let got = choose_route(None, &hops, r(5e-7)).unwrap();
    assert_eq!(got.t_s, r(1.2));
    assert!(choose_route(None, &vec![], r(5e-7)).is_none());
}

fn timed(rx: usize, t: f64) -> Timed {
    Timed {
        rx,
        t_s: r(t),
        sigma_s: r(1e-7),
        at_scaled: r(0.0),
    }
}

/// The clusters of times that are in order.
fn clusters(t: &[f64]) -> Vec<(usize, usize)> {
    let mut c = ClusterCursor::new(t.len());
    let mut out = Vec::new();
    while let Some((i, j)) = c.question() {
        if let Some(found) = c.answer(r(t[j] - t[i])) {
            out.push(found);
        }
    }
    if let Some(found) = c.last() {
        out.push(found);
    }
    out
}

#[test]
fn clusters_are_runs_of_near_times() {
    let t = [0.0, 0.001, 0.002, 0.0021, 0.5, 0.5001, 0.5002, 0.5003, 0.5004];
    let got = clusters(&t);
    let spans: Vec<&(usize, usize)> = got.iter().filter(|c| c.1 - c.0 >= 4).collect();
    assert_eq!(spans, [&(0, 4), &(4, 9)]);
    assert!(clusters(&[]).is_empty());
}

#[test]
fn times_are_put_in_order() {
    let s = order_by_time(&vec![timed(0, 2.0), timed(1, 1.0), timed(2, 1.5)]);
    let rx: Vec<usize> = s.iter().map(|x| x.rx).collect();
    assert_eq!(rx, [1, 2, 0]);
}

#[test]
fn quarantined_and_repeated_receivers_are_left_out() {
    let mut rx = Receivers::new();
    for u in ["a", "b", "c"] {
        rx.add(rx_info(u));
    }
    rx.set_bias(
        1,
        RxBias {
            bias_s: r(0.0),
            mad_s: r(5e-6),
            n: 100,
        },
    );
    let c = [timed(0, 1.0), timed(1, 1.1), timed(2, 1.2), timed(0, 1.3)];
    assert_eq!(observations(&c, &rx), [0, 2]);
    assert!(solvable(&c, &rx).is_none());
    for u in ["d", "e"] {
        rx.add(rx_info(u));
    }
    let c = [timed(4, 1.0), timed(1, 1.1), timed(2, 1.2), timed(0, 1.3), timed(3, 1.4)];
    assert_eq!(solvable(&c, &rx).unwrap(), [0, 2, 3, 4]);
}

#[test]
fn groups_of_four_are_read_in_the_reference_clock() {
    let mut rx = Receivers::new();
    for u in ["a", "b", "c", "d"] {
        rx.add(rx_info(u));
    }
    let e = vec![arrival(0, 1.0), arrival(1, 2.0), arrival(2, 3.0), arrival(3, 4.0)];
    assert!(solvers(&e[..3].to_vec()).is_none());
    let who = solvers(&e).unwrap();
    assert_eq!(who, [0, 1, 2, 3]);
    assert_eq!(detours(&who, 2, 0), [1, 3]);
    let s = |t: f64, sigma: f64| Stamp {
        t_s: r(t),
        sigma_s: r(sigma),
    };
    let ways = |last: Vec<Stamp>| {
        vec![
            Ways {
                direct: None,
                hops: vec![],
            },
            Ways {
                direct: Some(s(0.9, 1e-6)),
                hops: vec![],
            },
            Ways {
                direct: Some(s(1.1, 1e-9)),
                hops: vec![],
            },
            Ways {
                direct: None,
                hops: last,
            },
        ]
    };
    let t = time_arrivals(&e, 0, &ways(vec![s(1.05, 2e-6)]), &rx).unwrap();
    let got: Vec<(usize, Reading, Reading)> = t.iter().map(|x| (x.rx, x.t_s, x.sigma_s)).collect();
    // In order of time; never with less uncertainty than the receiver's jitter.
    assert_eq!(
        got,
        [
            (1, r(0.9), r(1e-6)),
            (0, r(1.0), r(150e-9)),
            (3, r(1.05), r(2e-6)),
            (2, r(1.1), r(150e-9)),
        ]
    );
    assert!(time_arrivals(&e, 0, &ways(vec![]), &rx).is_none());
}

#[test]
fn receivers_learn_from_residuals() {
    let mut s = state();
    s.add_receiver(rx_info("a"));
    s.learn(0, r(1e-7), r(2e-7), false);
    s.learn(0, r(2e-7), r(9e-7), true);
    let b = s.receivers().bias(0);
    assert_eq!((b.bias_s, b.mad_s, b.n), (r(2e-7), r(2e-7), 2));
}

#[test]
fn at_most_sixteen_observations_are_kept() {
    let keys: Vec<Reading> = (0..20).map(|i| r((20 - i) as f64)).collect();
    let kept = cap_observations(&keys);
    assert_eq!(kept.len(), 16);
    assert!(!kept.contains(&0));
    assert!(kept.contains(&19));
    assert_eq!(cap_observations(&vec![r(1.0), r(0.5)]).len(), 2);
}

// --------------------------------------------------------------- publication

fn track() -> Track {
    Track {
        last_pos: Some(geo(47.0, -1.5, 6400.0)),
        last_time: r(10.0),
        last_attempt: r(10.0),
        speed_rejects: 0,
    }
}

fn fix(lat: f64) -> Fix {
    Fix {
        pos: geo(lat, -1.5, 6400.0),
        err_m: r(100.0),
        residuals: 5,
        silence: r(10.0),
        silence_share: r(0.5),
        err_share: r(100.0 / 1500.0),
        speed: r(200.0),
    }
}

#[test]
fn clusters_pass_or_are_held_back() {
    let t = track();
    assert_eq!(solve_gate(t, 5, Some(1), r(0.3), r(5.0)), Gate::Backoff);
    assert_eq!(
        solve_gate(t, 4, Some(1), r(1.0), r(5.0)),
        Gate::ZeroRedundancy
    );
    assert_eq!(solve_gate(t, 5, None, r(1.0), r(5.0)), Gate::NoAltitude);
    assert_eq!(
        solve_gate(t, 5, Some(1), r(1.0), r(5.0)),
        Gate::Solve {
            alt_ft: 1,
            warm: t.last_pos
        }
    );
    assert_eq!(
        solve_gate(t, 4, Some(1), r(100.0), r(100.0)),
        Gate::Solve {
            alt_ft: 1,
            warm: None
        }
    );
}

#[test]
fn verdicts_follow_the_rules() {
    let (v, t) = judge(track(), false, 5, Some(fix(47.1)), None, r(20.0));
    assert_eq!(v, Verdict::Publish { learn: true });
    assert_eq!(t.last_pos, Some(geo(47.1, -1.5, 6400.0)));

    let (v, t) = judge(track(), true, 5, Some(fix(47.1)), Some(r(1.0)), r(20.0));
    assert_eq!(
        v,
        Verdict::SelfTruth {
            learn: true,
            score: true
        }
    );
    assert_eq!(t, track(), "broadcast aircraft stay out of the tracks");

    let mut f = fix(47.1);
    f.err_m = r(10000.1);
    assert_eq!(
        judge(track(), false, 5, Some(f), None, r(20.0)).0,
        Verdict::Rejected
    );
    let mut f = fix(47.1);
    f.err_share = r(0.6);
    assert_eq!(
        judge(track(), false, 5, Some(f), None, r(20.0)).0,
        Verdict::Rejected
    );
    let mut f = fix(47.1);
    f.residuals = 4;
    assert_eq!(
        judge(track(), false, 5, Some(f), None, r(20.0)).0,
        Verdict::Publish { learn: false }
    );
}

#[test]
fn five_speed_rejections_open_the_track() {
    let mut t = track();
    let mut f = fix(50.0);
    f.speed = r(500.0);
    for _ in 0..4 {
        let (v, next) = judge(t, false, 5, Some(f), None, r(20.0));
        assert_eq!(v, Verdict::Rejected);
        assert!(next.last_pos.is_some());
        t = next;
    }
    let (v, next) = judge(t, false, 5, Some(f), None, r(20.0));
    assert_eq!(v, Verdict::Rejected);
    assert!(next.last_pos.is_none());
    let (v, _) = judge(next, false, 5, Some(f), None, r(20.0));
    assert_eq!(v, Verdict::Publish { learn: true });
}

#[test]
fn learning_slows_down() {
    let early = f64::from_bits(learning_gain(0).0);
    let late = f64::from_bits(learning_gain(1000).0);
    assert!(early > late, "{early} {late}");
}

#[test]
fn offsets_fall_at_once_and_rise_slowly() {
    assert_eq!(next_offset(None, r(3.0), r(0.0)), r(3.0));
    assert_eq!(next_offset(Some(r(2.0)), r(1.0), r(2.1)), r(1.0));
    assert_eq!(next_offset(Some(r(2.0)), r(9.0), r(2.1)), r(2.1));
}

// --------------------------------------------------------------------- gates

#[test]
fn outliers_in_a_row_reset_the_pair() {
    let mut g = PairGate::new();
    assert_eq!(g.observe(false, r(1.0), r(0.0)), Judgement::Ingest);
    assert_eq!(g.observe(true, r(1e-7), r(0.0)), Judgement::Ingest);
    assert_eq!(g.observations(), 2);
    for _ in 1..RESET_AFTER_REJECTS {
        assert_eq!(g.observe(true, r(0.05), r(4e-9)), Judgement::Reject);
    }
    assert_eq!(g.observe(true, r(0.05), r(4e-9)), Judgement::Reset);
    assert_eq!(g.observations(), 0);
}

#[test]
fn one_good_observation_ends_a_run_of_outliers() {
    let mut g = PairGate::new();
    for _ in 0..20 {
        for _ in 1..RESET_AFTER_REJECTS {
            assert_eq!(g.observe(true, r(0.05), r(4e-9)), Judgement::Reject);
        }
        assert_eq!(g.observe(true, r(0.0), r(4e-9)), Judgement::Ingest);
    }
    assert_eq!(g.observations(), 20);
}

/// A pair model whose sums are kept here, its decisions in the library.
struct PairModel {
    w: f64,
    ma: f64,
    mb: f64,
    caa: f64,
    cab: f64,
    msq: f64,
    gate: PairGate,
}

impl PairModel {
    const LAMBDA: f64 = 0.9967;

    fn new() -> PairModel {
        PairModel {
            w: 0.0,
            ma: 0.0,
            mb: 0.0,
            caa: 0.0,
            cab: 0.0,
            msq: 0.0,
            gate: PairGate::new(),
        }
    }

    fn usable(&self) -> bool {
        is_usable(r(self.w), r(self.caa / self.w.max(1.0)))
    }

    fn predict(&self, t: f64) -> (f64, f64) {
        let beta = if self.caa > 0.0 {
            self.cab / self.caa
        } else {
            1.0
        };
        let da = t - self.ma;
        let infl = (1.0 + 1.0 / self.w + da * da / self.caa.max(1e-12)).sqrt();
        (self.mb + beta * da, self.msq.sqrt() * infl)
    }

    fn push(&mut self, t_from: f64, t_to: f64) {
        let warm = self.usable();
        let miss = t_to - self.predict(t_from).0;
        let limit = 4.0 * self.msq.sqrt();
        match self.gate.observe(warm, r(miss.abs()), r(limit)) {
            Judgement::Reject => return,
            Judgement::Reset => {
                *self = PairModel::new();
                return;
            }
            Judgement::Ingest => {}
        }
        if warm {
            self.msq += (1.0 - Self::LAMBDA) * (miss * miss - self.msq);
        }
        self.w = self.w * Self::LAMBDA + 1.0;
        let da = t_from - self.ma;
        let db = t_to - self.mb;
        self.ma += da / self.w;
        self.mb += db / self.w;
        self.caa = self.caa * Self::LAMBDA + da * (t_from - self.ma);
        self.cab = self.cab * Self::LAMBDA + da * (t_to - self.mb);
    }

    fn convert(&self, t: f64) -> Option<(f64, f64)> {
        if !self.usable() {
            return None;
        }
        let (pred, sigma) = self.predict(t);
        if may_convert(true, r(sigma)) {
            Some((pred, sigma))
        } else {
            None
        }
    }
}

#[test]
fn clocksync_recovers_offset_and_drift() {
    // to-clock runs 10 ppm fast with 0.5 ms offset.
    let mut m = PairModel::new();
    for i in 0..60 {
        let t = i as f64;
        m.push(t, 0.0005 + t * (1.0 + 10e-6));
    }
    let (got, sigma) = m.convert(100.0).unwrap();
    let want = 0.0005 + 100.0 * (1.0 + 10e-6);
    assert!((got - want).abs() < 5e-9, "{got} vs {want}");
    assert!(sigma < 1e-6, "clean data, small sigma: {sigma}");
}

#[test]
fn clocksync_trims_poisoned_observations() {
    // Clean relation + 10% gross outliers once warm: they are refused, conversion
    // stays ns-accurate.
    let mut m = PairModel::new();
    for i in 0..80 {
        let t = i as f64;
        let poison = if i > 20 && i % 10 == 3 { 2e-6 } else { 0.0 };
        m.push(t, 0.0005 + t * (1.0 + 10e-6) + poison);
    }
    let (got, _) = m.convert(80.0).unwrap();
    let want = 0.0005 + 80.0 * (1.0 + 10e-6);
    assert!(
        (got - want).abs() < 100e-9,
        "residual poison: {} ns",
        (got - want).abs() * 1e9
    );
}

#[test]
fn clock_jump_resets() {
    let mut m = PairModel::new();
    for i in 0..40 {
        let t = i as f64;
        m.push(t, t * (1.0 + 5e-6));
    }
    assert!(m.usable());
    // The to-clock jumps 50 ms: every new observation is refused, and after
    // RESET_AFTER_REJECTS the model starts fresh.
    for i in 40..(40 + RESET_AFTER_REJECTS + 1) {
        let t = i as f64;
        m.push(t, 0.050 + t * (1.0 + 5e-6));
    }
    assert!(!m.usable(), "post-jump the pair must relearn, not average");
}

#[test]
fn clocksync_refuses_thin_models() {
    let mut m = PairModel::new();
    m.push(0.0, 0.0);
    m.push(0.1, 0.1);
    assert!(
        m.convert(5.0).is_none(),
        "2 points over 0.1 s is not a model"
    );
}

#[test]
fn thin_models_are_not_usable() {
    assert!(!is_usable(r(2.0), r(0.0025)));
    assert!(!is_usable(r(7.9), r(100.0)));
    assert!(!is_usable(r(100.0), r(1.56)));
    assert!(is_usable(r(8.0), r(1.5625)));
    assert!(may_convert(true, r(2e-6)));
    assert!(!may_convert(true, r(2.1e-6)));
    assert!(!may_convert(false, r(0.0)));
}

#[test]
fn the_best_solve_is_taken() {
    assert!(!retry(Some(r(1e-7)), 6));
    assert!(retry(Some(r(1e-6)), 5));
    assert!(retry(None, 5));
    assert!(!retry(None, 4));
    assert_eq!(
        take_solve(Some(r(1e-6)), &vec![None, Some(r(2e-7)), Some(r(2e-7))]),
        Some(Taken::Without(1))
    );
    assert_eq!(
        take_solve(Some(r(1e-7)), &vec![Some(r(2e-7))]),
        Some(Taken::Full)
    );
    assert_eq!(take_solve(None, &vec![None]), None);
    assert!(is_credible(r(47.0), r(-1.5), r(2.9e-6)));
    assert!(!is_credible(r(47.0), r(-1.5), r(3.1e-6)));
    assert!(!is_credible(r(f64::NAN), r(0.0), r(0.0)));
    assert!(!is_credible(r(0.0), r(f64::NEG_INFINITY), r(0.0)));
}

/// A line fitted to observations: offset, slope, scatter, mean time, spread and count.
#[derive(Clone, Copy)]
struct Line {
    alpha: f64,
    beta: f64,
    sigma: f64,
    mean: f64,
    sxx: f64,
    n: f64,
}

fn line_through(obs: &[(f64, f64)]) -> Line {
    let n = obs.len() as f64;
    let mean = obs.iter().map(|o| o.0).sum::<f64>() / n;
    let mean_to = obs.iter().map(|o| o.1).sum::<f64>() / n;
    let sxx: f64 = obs.iter().map(|o| (o.0 - mean).powi(2)).sum();
    let sxy: f64 = obs.iter().map(|o| (o.0 - mean) * (o.1 - mean_to)).sum();
    let beta = sxy / sxx;
    let alpha = mean_to - beta * mean;
    let sq: f64 = obs.iter().map(|o| (o.1 - (alpha + beta * o.0)).powi(2)).sum();
    Line {
        alpha,
        beta,
        sigma: (sq / n).sqrt(),
        mean,
        sxx,
        n,
    }
}

/// A windowed model: the library keeps the window and decides when and what to fit.
struct WindowedModel {
    window: SyncWindow,
    cached: Option<Line>,
}

impl WindowedModel {
    fn new() -> Self {
        WindowedModel {
            window: SyncWindow::new(),
            cached: None,
        }
    }

    fn push(&mut self, t_from: f64, t_to: f64) {
        self.window.push(r(t_from), r(t_to), r(t_from - 180.0));
    }

    fn convert(&mut self, t: f64) -> Option<(f64, f64)> {
        let (first, last) = self.window.ends()?;
        let f = |x: Reading| f64::from_bits(x.0);
        if !self.window.is_enough(r(f(last) - f(first))) {
            return None;
        }
        if self.window.is_due(self.cached.is_some()) {
            let all: Vec<(f64, f64)> =
                self.window.items().iter().map(|o| (f(o.0), f(o.1))).collect();
            let line = line_through(&all);
            let cut = (3.0 * line.sigma).max(500e-9);
            let kept: Vec<(f64, f64)> = all
                .iter()
                .filter(|o| (o.1 - (line.alpha + line.beta * o.0)).abs() <= cut)
                .copied()
                .collect();
            self.cached = Some(if use_trimmed(kept.len(), all.len()) {
                line_through(&kept)
            } else {
                line
            });
            self.window.fitted();
        }
        let l = self.cached?;
        let sigma = l.sigma * (1.0 + 1.0 / l.n + (t - l.mean).powi(2) / l.sxx).sqrt();
        if may_convert(true, r(sigma)) {
            Some((l.alpha + l.beta * t, sigma))
        } else {
            None
        }
    }
}

#[test]
fn windowed_model_recovers_offset_and_drift() {
    // to-clock runs 10 ppm fast with 0.5 ms offset.
    let mut m = WindowedModel::new();
    for i in 0..40 {
        let t = i as f64;
        m.push(t, 0.0005 + t * (1.0 + 10e-6));
    }
    let (got, sigma) = m.convert(100.0).unwrap();
    let want = 0.0005 + 100.0 * (1.0 + 10e-6);
    assert!((got - want).abs() < 1e-9, "{got} vs {want}");
    assert!(sigma < 1e-9, "perfect data must fit tightly: {sigma}");
}

#[test]
fn windowed_model_trims_poisoned_observations() {
    // Clean linear relation + 10% gross outliers. Untrimmed, the fit is dragged µs
    // off; trimmed, conversion stays ns.
    let mut m = WindowedModel::new();
    for i in 0..50 {
        let t = i as f64;
        let poison = if i % 10 == 3 { 2e-6 } else { 0.0 };
        m.push(t, 0.0005 + t * (1.0 + 10e-6) + poison);
    }
    let (got, sigma) = m.convert(50.0).unwrap();
    let want = 0.0005 + 50.0 * (1.0 + 10e-6);
    assert!(
        (got - want).abs() < 100e-9,
        "residual poison: {} ns",
        (got - want).abs() * 1e9
    );
    assert!(
        sigma < 500e-9,
        "sigma should reflect the clean fit: {sigma}"
    );
}

#[test]
fn windowed_model_refuses_thin_models() {
    let mut m = WindowedModel::new();
    m.push(0.0, 0.0);
    m.push(0.1, 0.1);
    assert!(
        m.convert(5.0).is_none(),
        "2 points over 0.1 s is not a model"
    );
}

#[test]
fn the_sync_report_lists_peers_by_name() {
    let peer = |user: &str, count: u64, ppm: Option<&str>| PeerStatus {
        user: user.to_string(),
        count,
        ppm: ppm.and_then(Number::from_text),
    };
    let entries = vec![
        SyncEntry {
            user: "b".to_string(),
            peers: vec![peer("z", 3, Some("1.5")), peer("a", 12, None)],
        },
        SyncEntry {
            user: "a".to_string(),
            peers: Vec::new(),
        },
    ];
    assert_eq!(
        sync_report(&entries).as_deref(),
        Some(
            "{\"a\":{\"peers\":{}},\"b\":{\"peers\":{\"a\":[12,0.1,null,0,0,0.0,0,0],\
             \"z\":[3,0.1,1.5,0,0,0.0,0,0]}}}"
        )
    );
    assert_eq!(sync_report(&Vec::new()).as_deref(), Some("{}"));
    let odd = vec![SyncEntry {
        user: "b".to_string(),
        peers: vec![peer("z", 3, Some("1e999"))],
    }];
    assert!(sync_report(&odd).is_none());
}

#[test]
fn windows_forget_old_observations() {
    let mut w = SyncWindow::new();
    assert!(w.ends().is_none());
    for i in 0..10 {
        let t = i as f64;
        w.push(r(t), r(t), r(t - 5.0));
    }
    assert_eq!(w.items().len(), 6);
    assert_eq!(w.ends(), Some((r(4.0), r(9.0))));
    assert!(!w.is_enough(r(5.0)), "six observations are too few");
    assert!(w.is_due(true));
    w.fitted();
    assert!(!w.is_due(true));
    assert!(w.is_due(false));
    for i in 0..500 {
        w.push(r(i as f64), r(0.0), r(-1.0));
    }
    assert_eq!(w.items().len(), 400);
    assert!(w.is_enough(r(5.0)));
    assert!(!w.is_enough(r(4.9)));
    assert!(use_trimmed(8, 9));
    assert!(!use_trimmed(9, 9));
    assert!(!use_trimmed(7, 9));
}

// ---------------------------------------------------------------------- rows

fn fix_text() -> FixText {
    FixText {
        icao: Icao(0x3C6444),
        stamp: "1788000010.500".to_string(),
        lat: "47.20010".to_string(),
        lon: "-1.50020".to_string(),
        alt_ft: 20000,
        err_m: "85".to_string(),
        users: vec!["a".to_string(), "b".to_string()],
    }
}

#[test]
fn dates_follow_the_calendar() {
    assert_eq!(
        sbs_datetime(0, 0),
        ("1970/01/01".to_string(), "00:00:00.000".to_string())
    );
    assert_eq!(
        sbs_datetime(951_782_399, 7),
        ("2000/02/28".to_string(), "23:59:59.007".to_string())
    );
    assert_eq!(sbs_datetime(951_782_400, 0).0, "2000/02/29");
    assert_eq!(sbs_datetime(1_788_000_010, 500).0, "2026/08/29");
}

#[test]
fn rows_carry_the_fix() {
    let f = fix_text();
    let csv = csv_row(&f);
    assert!(csv.starts_with("1788000010.500,3c6444,"), "{csv}");
    assert!(csv.contains("47.20010,-1.50020,20000,85"), "{csv}");
    let sbs = sbs_line(&f, 1_788_000_010, 500);
    assert!(sbs.starts_with("MSG,3,"), "{sbs}");
    assert!(sbs.contains("3C6444"), "{sbs}");
    let parsed = mlat_bench::proto::sbs::parse_line(sbs.trim_end()).unwrap();
    assert_eq!(parsed.icao_hex, "3c6444");
    let v: serde_json::Value = serde_json::from_str(&result_line(&f)).unwrap();
    assert_eq!(v["result"]["addr"], "3c6444");
    assert_eq!(v["result"]["alt"].as_f64(), Some(20000.0));
}

// ------------------------------------------------------------------- session

#[test]
fn handshakes_are_admitted_or_refused() {
    let line = br#"{"version":3,"user":"stn","compress":["none","zlib2"],"lat":47.1,"lon":-1.5,"alt":40,"clock_type":"radarcape_gps","return_results":true}
"#;
    let a = read_handshake(line).unwrap();
    assert_eq!(a.compress, Compression::Zlib2);
    assert_eq!(a.lat, "47.1");
    assert_eq!(a.freq_hz, 1_000_000_000);
    assert!(a.gps);
    assert_eq!(a.user, "stn");
    assert!(a.wants_results);
    assert_eq!(
        read_candidate_handshake(line).unwrap().compress,
        Compression::Plain
    );

    assert!(matches!(read_handshake(b""), Err(Refusal::Closed)));
    assert!(matches!(read_handshake(b"{\n"), Err(Refusal::NotJson(_))));
    let e = read_handshake(b"{\"compress\":[\"lzma\"],\"lat\":1,\"lon\":2}\n").unwrap_err();
    assert!(matches!(e, Refusal::NoCompression));
    assert!(e.deny_line().unwrap().contains("no supported compression"));
    let e = read_handshake(b"{\"compress\":[\"none\"],\"lat\":1}\n").unwrap_err();
    assert!(matches!(e, Refusal::NoPosition));
    assert!(e.deny_line().unwrap().contains("missing position"));
    assert!(matches!(
        read_handshake(b"{\"compress\""),
        Err(Refusal::TooLong)
    ));
}

#[test]
fn welcome_lines_are_json() {
    let v: serde_json::Value =
        serde_json::from_str(&welcome_line(Compression::Zlib2, true, "mlatd")).unwrap();
    assert_eq!(v["compress"], "zlib2");
    assert_eq!(v["return_results"], true);
    assert_eq!(v["selective_traffic"], true);
}

#[test]
fn offered_aircraft_are_asked_for_once() {
    let mut asked = Asked::new();
    let o = process_line(br#"{"seen":["3c6444","abcdef"]}"#, &mut asked);
    assert_eq!(
        o.start_sending.as_deref(),
        Some("{\"start_sending\":[\"3c6444\",\"abcdef\"]}\n")
    );
    assert!(matches!(o.request, Request::Nothing));
    let o = process_line(br#"{"seen":["3c6444"]}"#, &mut asked);
    assert!(o.start_sending.is_none());
    let o = process_line(br#"{"rate_report":{"3c6444":1.0,"000001":2.0}}"#, &mut asked);
    assert_eq!(
        o.start_sending.as_deref(),
        Some("{\"start_sending\":[\"000001\"]}\n")
    );
    // The aircraft of a rate report are asked for in ascending order.
    let o = process_line(br#"{"rate_report":{"C00002":1,"b00001":1,"c0":1}}"#, &mut asked);
    assert_eq!(
        o.start_sending.as_deref(),
        Some("{\"start_sending\":[\"c00002\",\"b00001\",\"c0\"]}\n")
    );
}

#[test]
fn requests_are_read() {
    let mut asked = Asked::new();
    let o = process_line(br#"{"mlat":{"t":12.5,"m":"5d"}}"#, &mut asked);
    match o.request {
        Request::Mlat { t, m } => {
            assert_eq!(t, "12.5");
            assert_eq!(m, "5d");
        }
        other => panic!("{other:?}"),
    }
    let o = process_line(br#"{"sync":{"et":1,"ot":2,"em":"8d","om":"8e"}}"#, &mut asked);
    match o.request {
        Request::Sync { et, ot, em, om } => {
            assert_eq!((et.as_str(), ot.as_str()), ("1", "2"));
            assert_eq!((em.as_str(), om.as_str()), ("8d", "8e"));
        }
        other => panic!("{other:?}"),
    }
    for line in [
        &br#"{"clock_reset":"x"}"#[..],
        &br#"{"clock_jump":"x"}"#[..],
    ] {
        let o = process_line(line, &mut asked);
        assert!(matches!(o.request, Request::ClockReset), "{:?}", o.request);
    }
    let o = process_line(br#"{"input_disconnected":"x"}"#, &mut asked);
    assert!(matches!(o.request, Request::Nothing));
    let o = process_line(b"not json", &mut asked);
    assert!(matches!(o.request, Request::Nothing));
}

#[test]
fn batches_close_at_the_limit() {
    let mut b = Batch::new();
    assert!(b.push(b"abc\n").is_none());
    assert_eq!(b.flush().unwrap(), b"abc\n");
    assert!(b.flush().is_none());
    let big = vec![b'x'; BATCH_LIMIT + 1];
    assert_eq!(b.push(&big).unwrap(), big);
    assert!(b.flush().is_none());
    let lines = split_lines(b"a\nbb\n\nc");
    assert!(lines.contains(&b"bb".to_vec()));
}

// -------------------------------------------------------- output, candidates

#[test]
fn twins_are_dropped() {
    let mut f = TwinFilter::new();
    // A fix outside the territory of its shard is dropped and not remembered.
    assert!(!f.let_through(Some(1), 0, 1, 10));
    assert!(!f.let_through(None, 0, 1, 10));
    assert!(f.let_through(Some(0), 0, 1, 10));
    assert!(!f.let_through(Some(0), 0, 1, 10));
    assert!(f.let_through(Some(0), 0, 1, 11));
    assert!(f.let_through(Some(1), 1, 2, 10));
    for i in 0..RECENT_FIXES as u32 {
        f.let_through(Some(0), 0, 100 + i, 0);
    }
    assert!(f.let_through(Some(0), 0, 1, 10), "old fixes are forgotten");
}

#[test]
fn addresses_and_shards_have_defaults() {
    assert_eq!(listen_address(Some("1.2.3.4:5"), "0.0.0.0:40147"), "1.2.3.4:5");
    assert_eq!(listen_address(None, "0.0.0.0:40147"), "0.0.0.0:40147");
    assert_eq!(shard_count(3, Some(8)), 3);
    assert!(shard_count(0, Some(8)) >= 1);
    assert!(shard_count(0, None) >= 1);
}

#[test]
fn a_gps_receiver_becomes_the_hub() {
    let mut s = ClockStar::new();
    assert_eq!(s.reference(), None);
    assert_eq!(s.join(false), 0);
    assert_eq!(s.reference(), Some(0));
    assert_eq!(s.join(true), 1);
    assert_eq!(s.reference(), Some(1));
    assert_eq!(s.join(true), 2);
    assert_eq!(s.reference(), Some(1));
    assert!(can_solve(4, true));
    assert!(!can_solve(3, true));
    assert!(!can_solve(4, false));
}

#[test]
fn cells_of_the_candidate_stay() {
    let mut c = CellRouter::new(2);
    let a = c.shard_for((5, 5), &[0, 0]);
    let b = c.shard_for((50, 50), &[1, 0]);
    assert_ne!(a, b, "a far cell starts on the lighter shard");
    assert_eq!(c.shard_for((5, 6), &[9, 1]), b, "a new cell goes to the lighter");
    assert_eq!(c.shard_for((5, 5), &[9, 1]), a);
}

#[test]
fn the_candidate_trains_groups_and_counts() {
    let mut c: Candidate<u8> = Candidate::new();
    assert_eq!(c.reference(), None);
    assert_eq!(c.add_receiver(false), 0);
    assert_eq!(c.add_receiver(true), 1);
    assert_eq!(c.reference(), Some(1));

    let (em, om) = position_pair();
    let report = |rx: usize, t: f64| {
        Some(Report {
            rx,
            te: r(t),
            to: r(t + 0.5),
        })
    };
    assert!(c.on_sync(&em, &om, report(0, 1.0), 0).is_empty());
    let steps = c.on_sync(&em, &om, report(1, 2.0), 1);
    let told: Vec<_> = steps.iter().map(|x| (x.a, x.b, x.ta, x.tb)).collect();
    assert_eq!(
        told,
        [
            (1, 0, r(2.0), r(1.0)),
            (0, 1, r(1.0), r(2.0)),
            (1, 0, r(2.5), r(1.5)),
            (0, 1, r(1.5), r(2.5)),
        ]
    );
    // A receiver does not train against itself.
    let again = c.on_sync(&em, &om, report(0, 3.0), 2);
    assert_eq!(again.iter().map(|x| (x.a, x.b)).collect::<Vec<_>>(), [(0, 1), (1, 0), (0, 1), (1, 0)]);
    assert!(c.on_sync(&em, &om, None, 2).is_empty());
    // Frames that make no pair train nothing.
    assert!(c.on_sync("zz", &om, report(1, 4.0), 3).is_empty());
    assert!(c.on_sync(&om, &em, report(1, 4.0), 3).is_empty());
    assert_eq!(c.altitude(Icao(0x40621D)), Some(38000));

    assert_eq!(c.put_model(0, 1, 7), None);
    assert_eq!(c.put_model(0, 1, 8), Some(7));
    assert_eq!(c.model(0, 1), Some(&8));
    assert_eq!((c.peers(0), c.peers(1)), (vec![1], vec![]));
    c.clock_reset(1);
    assert_eq!(c.model(0, 1), None);

    let frame = hex(&df4(Icao(0x3944F1), 0, 21000).unwrap());
    c.on_mlat(0, &frame, r(1.0), r(10.0), 5);
    c.on_mlat(1, &frame, r(1.5), r(10.0), 6);
    assert_eq!(c.altitude(Icao(0x3944F1)), Some(21000));
    assert!(c.sweep(7, 1000).is_empty());
    let g = c.sweep(2000, 1000);
    assert_eq!(g.len(), 1);
    assert_eq!(g[0].entries.len(), 2);
    c.count(true);
    c.count(false);
    c.count(false);
    assert_eq!(c.stats(), (2, 4, 1, 2));
}

#[test]
fn heartbeats_tell_the_time() {
    assert_eq!(
        heartbeat_line("1788000010.500"),
        "{\"heartbeat\":{\"server_time\":1788000010.500}}\n"
    );
}
