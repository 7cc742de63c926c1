//! Scenarios: what flies, who listens, and the sanity checks on both.

use vstd::prelude::*;
use vstd::string::StringExecFns;

use crate::icao::Icao;
use crate::proto::messages::Compression;
use crate::reading::Reading;
use crate::sim::clock::ClockSpec;
use crate::text::{chars_of, hex_digit_value, hex_of, padded_of, same_text, uppercase};

verus! {

#[derive(Debug)]
pub struct Meta {
    pub name: String,
    pub seed: u64,
    pub duration_s: u64,
}

/// Network between clients and server. Latency of a client is fixed, drawn from
/// the range; jitter is drawn for each message.
#[derive(Debug, Clone, Copy, PartialEq, Eq, Structural)]
pub struct Network {
    pub latency_ms_min: Reading,
    pub latency_ms_max: Reading,
    pub jitter_ms: Reading,
}

impl Default for Network {
    fn default() -> (r: Self)
        ensures
            r.latency_ms_min == Reading(0x4014_0000_0000_0000),
            r.latency_ms_max == Reading(0x4044_0000_0000_0000),
            r.jitter_ms == Reading(0),
    {
        // 5 to 40 ms.
        Network {
            latency_ms_min: Reading(0x4014_0000_0000_0000),
            latency_ms_max: Reading(0x4044_0000_0000_0000),
            jitter_ms: Reading(0),
        }
    }
}

/// Procedural scale block: expands into concrete receivers and aircraft.
#[derive(Debug, Clone, Copy, PartialEq, Eq, Structural)]
pub struct GenerateSpec {
    pub receivers: u32,
    pub aircraft_adsb: u32,
    pub aircraft_modes: u32,
    pub center_lat: Reading,
    pub center_lon: Reading,
    pub radius_km: Reading,
    /// Fraction of the generated receivers with GPS clocks.
    pub gps_fraction: Reading,
}

impl GenerateSpec {
    /// Whether a draw from the unit interval makes a receiver one with a GPS clock.
    pub fn wants_gps(&self, unit: Reading) -> (r: bool)
        ensures
            r == unit.below(self.gps_fraction),
    {
        unit.lt(self.gps_fraction)
    }
}

#[derive(Debug)]
pub struct ReceiverSpec {
    pub id: String,
    pub lat: Reading,
    pub lon: Reading,
    pub alt_m: Reading,
    pub clock: ClockSpec,
    /// Loss probability of a message.
    pub loss_prob: Reading,
    /// Range cap on top of the radio horizon.
    pub max_range_km: Option<Reading>,
    /// Error of the position that the receiver reports.
    pub reported_pos_error_m: Reading,
    /// Probability of a multipath delay of a reception.
    pub multipath_prob: Reading,
    /// Compression that this client pins in its handshake.
    pub compress: String,
}

/// The compression of a client that names none.
pub fn default_compress() -> (r: String)
    ensures
        r@ == "none"@,
        crate::proto::messages::compress_named(r@) is Some,
{
    "none".to_owned()
}

#[derive(Debug, Clone, Copy, PartialEq, Eq, Structural)]
pub enum AircraftKind {
    /// Emits DF17 positions: a sync source, and directly trackable.
    Adsb,
    /// Emits only DF11 and DF4, so the server must multilaterate it.
    ModesOnly,
}

/// The path of an aircraft.
#[derive(Debug, Clone, Copy, PartialEq, Eq, Structural)]
pub enum Trajectory {
    /// A great-circle leg at constant ground speed; altitude changes linearly along
    /// the leg.
    GreatCircle {
        from_lat: Reading,
        from_lon: Reading,
        from_alt_ft: Reading,
        to_lat: Reading,
        to_lon: Reading,
        to_alt_ft: Reading,
        gs_kts: Reading,
    },
}

#[derive(Debug)]
pub struct AircraftSpec {
    /// Address, 6 hexadecimal digits.
    pub icao: String,
    pub kind: AircraftKind,
    pub traj: Trajectory,
    /// DF17 rate.
    pub pos_rate_hz: Reading,
    /// DF11 rate.
    pub df11_rate_hz: Reading,
    /// DF4 rate.
    pub df4_rate_hz: Reading,
    /// Error of the positions that the aircraft broadcasts.
    pub nav_error_m: Reading,
}

#[derive(Debug)]
pub struct Scenario {
    pub meta: Meta,
    pub network: Network,
    pub generate: Option<GenerateSpec>,
    pub receivers: Vec<ReceiverSpec>,
    pub aircraft: Vec<AircraftSpec>,
}

// ---------------------------------------------------------------- validation

/// What is wrong with a scenario, by the place of the first offending entry.
#[derive(Debug, Clone, Copy, PartialEq, Eq, Structural)]
pub enum Fault {
    NoReceivers,
    NoAircraft,
    DuplicateReceiver(usize),
    Position(usize),
    Altitude(usize),
    Compress(usize),
    Address(usize),
    DuplicateAircraft(usize),
}

/// 90.
pub const LAT_MAX: u64 = 0x4056_8000_0000_0000;

/// -90.
pub const LAT_MIN: u64 = 0xC056_8000_0000_0000;

/// 180.
pub const LON_MAX: u64 = 0x4066_8000_0000_0000;

/// -180.
pub const LON_MIN: u64 = 0xC066_8000_0000_0000;

/// 10000.
pub const ALT_MAX: u64 = 0x40C3_8800_0000_0000;

/// -1000.
pub const ALT_MIN: u64 = 0xC08F_4000_0000_0000;

/// A reading lies between two bounds, either of them allowed.
pub open spec fn within(x: Reading, lo: u64, hi: u64) -> bool {
    Reading(lo).at_most(x) && x.at_most(Reading(hi))
}

fn is_within(x: Reading, lo: u64, hi: u64) -> (r: bool)
    ensures
        r == within(x, lo, hi),
{
    Reading(lo).le(x) && x.le(Reading(hi))
}

/// An earlier receiver has the same id.
pub open spec fn id_taken(rs: Seq<ReceiverSpec>, i: int) -> bool {
    exists|j: int| 0 <= j < i && #[trigger] rs[j].id@ == rs[i].id@
}

/// What is wrong with a receiver.
pub open spec fn receiver_fault(rs: Seq<ReceiverSpec>, i: int) -> Option<Fault> {
    let r = rs[i];
    if id_taken(rs, i) {
        Some(Fault::DuplicateReceiver(i as usize))
    } else if !within(r.lat, LAT_MIN, LAT_MAX) || !within(r.lon, LON_MIN, LON_MAX) {
        Some(Fault::Position(i as usize))
    } else if !within(r.alt_m, ALT_MIN, ALT_MAX) {
        Some(Fault::Altitude(i as usize))
    } else if crate::proto::messages::compress_named(r.compress@) is None {
        Some(Fault::Compress(i as usize))
    } else {
        None
    }
}

/// An earlier aircraft has the same address text.
pub open spec fn address_taken(a: Seq<AircraftSpec>, i: int) -> bool {
    exists|j: int| 0 <= j < i && #[trigger] a[j].icao@ == a[i].icao@
}

/// The text of an address: exactly six hexadecimal digits.
pub open spec fn is_address(s: Seq<char>) -> bool {
    s.len() == 6 && crate::text::all_hex(s)
}

fn reads_as_address(s: &str) -> (r: bool)
    ensures
        r == is_address(s@),
{
    let chars = chars_of(s);
    if chars.len() != 6 {
        return false;
    }
    let mut i: usize = 0;
    while i < chars.len()
        invariant
            i <= chars@.len(),
            chars@ == s@,
            forall|k: int| 0 <= k < i ==> crate::text::hex_digit(#[trigger] s@[k]) is Some,
        decreases chars@.len() - i,
    {
        if hex_digit_value(chars[i]).is_none() {
            assert(crate::text::hex_digit(s@[i as int]) is None);
            return false;
        }
        i = i + 1;
    }
    true
}

/// What is wrong with an aircraft.
pub open spec fn aircraft_fault(a: Seq<AircraftSpec>, i: int) -> Option<Fault> {
    if !is_address(a[i].icao@) {
        Some(Fault::Address(i as usize))
    } else if address_taken(a, i) {
        Some(Fault::DuplicateAircraft(i as usize))
    } else {
        None
    }
}

/// The first receiver with a fault, from `i` on.
pub open spec fn first_receiver_fault(rs: Seq<ReceiverSpec>, i: int) -> Option<Fault>
    decreases rs.len() - i,
{
    if i >= rs.len() {
        None
    } else {
        match receiver_fault(rs, i) {
            Some(f) => Some(f),
            None => first_receiver_fault(rs, i + 1),
        }
    }
}

/// The first aircraft with a fault, from `i` on.
pub open spec fn first_aircraft_fault(a: Seq<AircraftSpec>, i: int) -> Option<Fault>
    decreases a.len() - i,
{
    if i >= a.len() {
        None
    } else {
        match aircraft_fault(a, i) {
            Some(f) => Some(f),
            None => first_aircraft_fault(a, i + 1),
        }
    }
}

/// What is wrong with a scenario: receivers are looked at before aircraft.
pub open spec fn scenario_fault(rs: Seq<ReceiverSpec>, a: Seq<AircraftSpec>) -> Option<Fault> {
    if rs.len() == 0 {
        Some(Fault::NoReceivers)
    } else if a.len() == 0 {
        Some(Fault::NoAircraft)
    } else {
        match first_receiver_fault(rs, 0) {
            Some(f) => Some(f),
            None => first_aircraft_fault(a, 0),
        }
    }
}

fn is_id_taken(rs: &Vec<ReceiverSpec>, i: usize) -> (r: bool)
    requires
        i < rs@.len(),
    ensures
        r == id_taken(rs@, i as int),
{
    let mut j: usize = 0;
    while j < i
        invariant
            j <= i < rs@.len(),
            forall|k: int| 0 <= k < j ==> #[trigger] rs@[k].id@ != rs@[i as int].id@,
        decreases i - j,
    {
        if same_text(rs[j].id.as_str(), rs[i].id.as_str()) {
            assert(rs@[j as int].id@ == rs@[i as int].id@);
            return true;
        }
        j = j + 1;
    }
    false
}

fn is_address_taken(a: &Vec<AircraftSpec>, i: usize) -> (r: bool)
    requires
        i < a@.len(),
    ensures
        r == address_taken(a@, i as int),
{
    let mut j: usize = 0;
    while j < i
        invariant
            j <= i < a@.len(),
            forall|k: int| 0 <= k < j ==> #[trigger] a@[k].icao@ != a@[i as int].icao@,
        decreases i - j,
    {
        if same_text(a[j].icao.as_str(), a[i].icao.as_str()) {
            assert(a@[j as int].icao@ == a@[i as int].icao@);
            return true;
        }
        j = j + 1;
    }
    false
}

fn check_receiver(rs: &Vec<ReceiverSpec>, i: usize) -> (r: Option<Fault>)
    requires
        i < rs@.len(),
    ensures
        r == receiver_fault(rs@, i as int),
{
    if is_id_taken(rs, i) {
        Some(Fault::DuplicateReceiver(i))
    } else if !is_within(rs[i].lat, LAT_MIN, LAT_MAX) || !is_within(rs[i].lon, LON_MIN, LON_MAX) {
        Some(Fault::Position(i))
    } else if !is_within(rs[i].alt_m, ALT_MIN, ALT_MAX) {
        Some(Fault::Altitude(i))
    } else if Compression::from_wire(rs[i].compress.as_str()).is_none() {
        Some(Fault::Compress(i))
    } else {
        None
    }
}

fn check_aircraft(a: &Vec<AircraftSpec>, i: usize) -> (r: Option<Fault>)
    requires
        i < a@.len(),
    ensures
        r == aircraft_fault(a@, i as int),
{
    if !reads_as_address(a[i].icao.as_str()) {
        Some(Fault::Address(i))
    } else if is_address_taken(a, i) {
        Some(Fault::DuplicateAircraft(i))
    } else {
        None
    }
}

impl Scenario {
    /// Sanity checks that catch authoring mistakes before an expensive run does.
    pub fn validate(&self) -> (r: Result<(), Fault>)
        ensures
            match scenario_fault(self.receivers@, self.aircraft@) {
                Some(f) => r == Err::<(), Fault>(f),
                None => r is Ok,
            },
    {
        if self.receivers.len() == 0 {
            return Err(Fault::NoReceivers);
        }
        if self.aircraft.len() == 0 {
            return Err(Fault::NoAircraft);
        }
        let mut i: usize = 0;
        while i < self.receivers.len()
            invariant
                i <= self.receivers@.len(),
                self.receivers@.len() > 0,
                self.aircraft@.len() > 0,
                first_receiver_fault(self.receivers@, 0) == first_receiver_fault(
                    self.receivers@,
                    i as int,
                ),
            decreases self.receivers@.len() - i,
        {
            if let Some(f) = check_receiver(&self.receivers, i) {
                return Err(f);
            }
            i = i + 1;
        }
        let mut j: usize = 0;
        while j < self.aircraft.len()
            invariant
                j <= self.aircraft@.len(),
                self.receivers@.len() > 0,
                self.aircraft@.len() > 0,
                first_receiver_fault(self.receivers@, 0) is None,
                first_aircraft_fault(self.aircraft@, 0) == first_aircraft_fault(
                    self.aircraft@,
                    j as int,
                ),
            decreases self.aircraft@.len() - j,
        {
            if let Some(f) = check_aircraft(&self.aircraft, j) {
                return Err(f);
            }
            j = j + 1;
        }
        Ok(())
    }

    /// The message of a fault. `altitude` is the offending altitude as it is shown.
    pub open spec fn fault_text(&self, f: Fault, altitude: Seq<char>) -> Seq<char> {
        match f {
            Fault::NoReceivers => "no receivers"@,
            Fault::NoAircraft => "no aircraft"@,
            Fault::DuplicateReceiver(i) => "duplicate receiver id "@ + self.receivers@[i as int].id@,
            Fault::Position(i) => "receiver "@ + self.receivers@[i as int].id@
                + " position out of range"@,
            Fault::Altitude(i) => "receiver "@ + self.receivers@[i as int].id@ + " altitude "@
                + altitude + " outside the oracle's accepted -1000..10000 m"@,
            Fault::Compress(i) => "receiver "@ + self.receivers@[i as int].id@
                + ": unknown compress "@ + self.receivers@[i as int].compress@,
            Fault::Address(i) => "aircraft icao "@ + self.aircraft@[i as int].icao@
                + " not 6 hex digits"@,
            Fault::DuplicateAircraft(i) => "duplicate aircraft icao "@
                + self.aircraft@[i as int].icao@,
        }
    }

    /// A fault speaks of an entry that the scenario has.
    pub open spec fn has_place(&self, f: Fault) -> bool {
        match f {
            Fault::DuplicateReceiver(i) => i < self.receivers@.len(),
            Fault::Position(i) => i < self.receivers@.len(),
            Fault::Altitude(i) => i < self.receivers@.len(),
            Fault::Compress(i) => i < self.receivers@.len(),
            Fault::Address(i) => i < self.aircraft@.len(),
            Fault::DuplicateAircraft(i) => i < self.aircraft@.len(),
            _ => true,
        }
    }

    /// The message of a fault, for the author of the scenario.
    pub fn describe(&self, f: Fault, altitude: &str) -> (r: String)
        requires
            self.has_place(f),
        ensures
            r@ == self.fault_text(f, altitude@),
    {
        match f {
            Fault::NoReceivers => "no receivers".to_owned(),
            Fault::NoAircraft => "no aircraft".to_owned(),
            Fault::DuplicateReceiver(i) => {
                let mut out = "duplicate receiver id ".to_owned();
                out.append(self.receivers[i].id.as_str());
                out
            },
            Fault::Position(i) => {
                let mut out = "receiver ".to_owned();
                out.append(self.receivers[i].id.as_str());
                out.append(" position out of range");
                out
            },
            Fault::Altitude(i) => {
                let mut out = "receiver ".to_owned();
                out.append(self.receivers[i].id.as_str());
                out.append(" altitude ");
                out.append(altitude);
                out.append(" outside the oracle's accepted -1000..10000 m");
                out
            },
            Fault::Compress(i) => {
                let mut out = "receiver ".to_owned();
                out.append(self.receivers[i].id.as_str());
                out.append(": unknown compress ");
                out.append(self.receivers[i].compress.as_str());
                out
            },
            Fault::Address(i) => {
                let mut out = "aircraft icao ".to_owned();
                out.append(self.aircraft[i].icao.as_str());
                out.append(" not 6 hex digits");
                out
            },
            Fault::DuplicateAircraft(i) => {
                let mut out = "duplicate aircraft icao ".to_owned();
                out.append(self.aircraft[i].icao.as_str());
                out
            },
        }
    }
}

proof fn lemma_receiver_faults(rs: Seq<ReceiverSpec>, i: int)
    requires
        0 <= i,
    ensures
        first_receiver_fault(rs, i) is None <==> (forall|k: int|
            i <= k < rs.len() ==> (#[trigger] receiver_fault(rs, k)) is None),
    decreases rs.len() - i,
{
    if i < rs.len() {
        lemma_receiver_faults(rs, i + 1);
        assert(receiver_fault(rs, i) is None ==> (forall|k: int|
            i + 1 <= k < rs.len() ==> (#[trigger] receiver_fault(rs, k)) is None) ==> (forall|
            k: int,
        |
            i <= k < rs.len() ==> (#[trigger] receiver_fault(rs, k)) is None));
    }
}

proof fn lemma_aircraft_faults(a: Seq<AircraftSpec>, i: int)
    requires
        0 <= i,
    ensures
        first_aircraft_fault(a, i) is None <==> (forall|k: int|
            i <= k < a.len() ==> (#[trigger] aircraft_fault(a, k)) is None),
    decreases a.len() - i,
{
    if i < a.len() {
        lemma_aircraft_faults(a, i + 1);
        assert(aircraft_fault(a, i) is None ==> (forall|k: int|
            i + 1 <= k < a.len() ==> (#[trigger] aircraft_fault(a, k)) is None) ==> (forall|k: int|
            i <= k < a.len() ==> (#[trigger] aircraft_fault(a, k)) is None));
    }
}

/// A scenario passes exactly where it has receivers and aircraft, no id and no
/// address occurs twice, every receiver stands on the map at an accepted altitude
/// and names a compression, and every address is six hexadecimal digits.
pub proof fn law_valid_scenarios(rs: Seq<ReceiverSpec>, a: Seq<AircraftSpec>)
    ensures
        scenario_fault(rs, a) is None <==> {
            &&& rs.len() > 0
            &&& a.len() > 0
            &&& forall|i: int, j: int|
                0 <= i < j < rs.len() ==> #[trigger] rs[i].id@ != #[trigger] rs[j].id@
            &&& forall|i: int|
                0 <= i < rs.len() ==> within((#[trigger] rs[i]).lat, LAT_MIN, LAT_MAX) && within(
                    rs[i].lon,
                    LON_MIN,
                    LON_MAX,
                ) && within(rs[i].alt_m, ALT_MIN, ALT_MAX)
                    && crate::proto::messages::compress_named(rs[i].compress@) is Some
            &&& forall|i: int|
                0 <= i < a.len() ==> is_address((#[trigger] a[i]).icao@)
            &&& forall|i: int, j: int|
                0 <= i < j < a.len() ==> #[trigger] a[i].icao@ != #[trigger] a[j].icao@
        },
{
    lemma_receiver_faults(rs, 0);
    lemma_aircraft_faults(a, 0);
    if scenario_fault(rs, a) is None {
        assert forall|i: int, j: int| 0 <= i < j < rs.len() implies #[trigger] rs[i].id@
            != #[trigger] rs[j].id@ by {
            assert(receiver_fault(rs, j) is None);
        }
        assert forall|i: int| 0 <= i < rs.len() implies within(
            (#[trigger] rs[i]).lat,
            LAT_MIN,
            LAT_MAX,
        ) && within(rs[i].lon, LON_MIN, LON_MAX) && within(rs[i].alt_m, ALT_MIN, ALT_MAX)
            && crate::proto::messages::compress_named(rs[i].compress@) is Some by {
            assert(receiver_fault(rs, i) is None);
        }
        assert forall|i: int| 0 <= i < a.len() implies is_address((#[trigger] a[i]).icao@) by {
            assert(aircraft_fault(a, i) is None);
        }
        assert forall|i: int, j: int| 0 <= i < j < a.len() implies #[trigger] a[i].icao@
            != #[trigger] a[j].icao@ by {
            assert(aircraft_fault(a, j) is None);
        }
    }
}

// ----------------------------------------------------------------- expansion

/// The clock of a generated receiver.
#[derive(Debug, Clone, Copy, PartialEq, Eq, Structural)]
pub enum DrawnClock {
    Gps,
    Free { offset_ppm: Reading, drift_ppm_per_hr: Reading, jitter_ns: Reading, wander: Reading },
}

/// What was drawn for a generated receiver.
#[derive(Debug, Clone, Copy, PartialEq, Eq, Structural)]
pub struct ReceiverDraw {
    pub lat: Reading,
    pub lon: Reading,
    pub clock: DrawnClock,
    pub alt_m: Reading,
    pub loss_prob: Reading,
}

/// What was drawn for a generated aircraft.
#[derive(Debug, Clone, Copy, PartialEq, Eq, Structural)]
pub struct AircraftDraw {
    pub traj: Trajectory,
    pub df4_rate_hz: Reading,
}

/// 15.
pub const GPS_JITTER: u64 = 0x402E_0000_0000_0000;

/// 1.
pub const ONE: u64 = 0x3FF0_0000_0000_0000;

/// 2.
pub const TWO: u64 = 0x4000_0000_0000_0000;

/// 4.
pub const FOUR: u64 = 0x4010_0000_0000_0000;

/// The width of a hexadecimal number that is filled up to five digits.
pub open spec fn hex_width(n: int) -> nat {
    if n < 0x10_0000 {
        5
    } else if n < 0x100_0000 {
        6
    } else if n < 0x1000_0000 {
        7
    } else {
        8
    }
}

/// The address of a generated aircraft: a letter and a number in upper-case
/// hexadecimal of at least five digits.
pub open spec fn generated_address(letter: char, n: int) -> Seq<char> {
    seq![letter] + crate::text::uppered(crate::text::hex_digits(n, hex_width(n)))
}

/// A receiver is the `i`-th generated one.
pub open spec fn is_generated_receiver(r: ReceiverSpec, i: int, d: ReceiverDraw) -> bool {
    &&& r.id@ == "gen-"@ + crate::text::padded(i, 3)
    &&& r.lat == d.lat
    &&& r.lon == d.lon
    &&& r.alt_m == d.alt_m
    &&& r.clock == (match d.clock {
        DrawnClock::Gps => ClockSpec::RadarcapeGps { jitter_ns: Reading(GPS_JITTER) },
        DrawnClock::Free { offset_ppm, drift_ppm_per_hr, jitter_ns, wander } => ClockSpec::Dump1090 {
            offset_ppm,
            drift_ppm_per_hr,
            jitter_ns,
            start_count: 0,
            wander_ppm_sqrt_hr: wander,
            jump_prob_per_min: Reading(0),
        },
    })
    &&& r.loss_prob == d.loss_prob
    &&& r.max_range_km is None
    &&& r.reported_pos_error_m == Reading(0)
    &&& r.multipath_prob == Reading(0)
    &&& r.compress@ == "none"@
}

/// An aircraft is the generated one of a kind and number.
pub open spec fn is_generated_aircraft(
    a: AircraftSpec,
    kind: AircraftKind,
    letter: char,
    n: int,
    d: AircraftDraw,
) -> bool {
    &&& a.icao@ == generated_address(letter, n)
    &&& a.kind == kind
    &&& a.traj == d.traj
    &&& a.pos_rate_hz == Reading(TWO)
    &&& a.df11_rate_hz == Reading(ONE)
    &&& a.df4_rate_hz == (if kind == AircraftKind::Adsb {
        Reading(FOUR)
    } else {
        d.df4_rate_hz
    })
    &&& a.nav_error_m == Reading(0)
}

fn address_of(letter: char, n: u32) -> (r: String)
    ensures
        r@ == generated_address(letter, n as int),
{
    let width: u8 = if n < 0x10_0000 {
        5
    } else if n < 0x100_0000 {
        6
    } else if n < 0x1000_0000 {
        7
    } else {
        8
    };
    let digits = hex_of(n, width);
    let upper = uppercase(digits.as_str());
    let mut out = String::new();
    out.push(letter);
    out.append(upper.as_str());
    assert(out@ =~= generated_address(letter, n as int));
    out
}

fn generated_receiver(i: usize, d: &ReceiverDraw) -> (r: ReceiverSpec)
    requires
        i <= i64::MAX,
    ensures
        is_generated_receiver(r, i as int, *d),
{
    let mut id = "gen-".to_owned();
    let number = padded_of(i as i64, 3);
    id.append(number.as_str());
    ReceiverSpec {
        id,
        lat: d.lat,
        lon: d.lon,
        alt_m: d.alt_m,
        clock: match d.clock {
            DrawnClock::Gps => ClockSpec::RadarcapeGps { jitter_ns: Reading(GPS_JITTER) },
            DrawnClock::Free { offset_ppm, drift_ppm_per_hr, jitter_ns, wander } => ClockSpec::Dump1090 {
                offset_ppm,
                drift_ppm_per_hr,
                jitter_ns,
                start_count: 0,
                wander_ppm_sqrt_hr: wander,
                jump_prob_per_min: Reading(0),
            },
        },
        loss_prob: d.loss_prob,
        max_range_km: None,
        reported_pos_error_m: Reading(0),
        multipath_prob: Reading(0),
        compress: default_compress(),
    }
}

fn generated_aircraft(kind: AircraftKind, letter: char, n: u32, d: &AircraftDraw) -> (r:
    AircraftSpec)
    ensures
        is_generated_aircraft(r, kind, letter, n as int, *d),
{
    AircraftSpec {
        icao: address_of(letter, n),
        kind,
        traj: d.traj,
        pos_rate_hz: Reading(TWO),
        df11_rate_hz: Reading(ONE),
        df4_rate_hz: if kind == AircraftKind::Adsb {
            Reading(FOUR)
        } else {
            d.df4_rate_hz
        },
        nav_error_m: Reading(0),
    }
}

impl Scenario {
    /// Expands the generated block into concrete entries, as many as it asks for, and
    /// takes it away, so that a further call changes nothing. Explicit entries are kept
    /// and come first; what was drawn for the generated ones is handed in. Without a
    /// block nothing changes.
    pub fn expand_generate(
        &mut self,
        receivers: &Vec<ReceiverDraw>,
        adsb: &Vec<AircraftDraw>,
        modes: &Vec<AircraftDraw>,
    )
        requires
            old(self).generate matches Some(g) ==> {
                &&& receivers@.len() == g.receivers
                &&& adsb@.len() == g.aircraft_adsb
                &&& modes@.len() == g.aircraft_modes
                &&& g.aircraft_adsb <= u32::MAX - 0x1_0000
                &&& g.aircraft_modes <= u32::MAX - 0x2_0000
            },
        ensures
            old(self).generate is None ==> *final(self) == *old(self),
            final(self).meta == old(self).meta,
            final(self).network == old(self).network,
            final(self).generate is None,
            old(self).generate matches Some(g) ==> ({
                let rs = final(self).receivers@;
                let n = old(self).receivers@.len() as int;
                &&& rs.len() == n + g.receivers
                &&& rs.take(n) == old(self).receivers@
                &&& forall|i: int|
                    0 <= i < g.receivers ==> is_generated_receiver(
                        rs[n + i],
                        i,
                        #[trigger] receivers@[i],
                    )
            }),
            old(self).generate matches Some(g) ==> ({
                let a = final(self).aircraft@;
                let n = old(self).aircraft@.len() as int;
                let m = n + g.aircraft_adsb;
                &&& a.len() == m + g.aircraft_modes
                &&& a.take(n) == old(self).aircraft@
                &&& forall|i: int|
                    0 <= i < g.aircraft_adsb ==> is_generated_aircraft(
                        a[n + i],
                        AircraftKind::Adsb,
                        'A',
                        0x1_0000 + i,
                        #[trigger] adsb@[i],
                    )
                &&& forall|i: int|
                    0 <= i < g.aircraft_modes ==> is_generated_aircraft(
                        a[m + i],
                        AircraftKind::ModesOnly,
                        'B',
                        0x2_0000 + i,
                        #[trigger] modes@[i],
                    )
            }),
    {
        if self.generate.is_none() {
            return;
        }
        self.generate = None;
        let mut i: usize = 0;
        let ghost n = old(self).receivers@.len() as int;
        while i < receivers.len()
            invariant
                receivers@.len() <= u32::MAX,
                n == old(self).receivers@.len(),
                i <= receivers@.len(),
                self.meta == old(self).meta,
                self.network == old(self).network,
                self.generate is None,
                self.aircraft == old(self).aircraft,
                self.receivers@.len() == n + i,
                self.receivers@.take(n) =~= old(self).receivers@,
                forall|k: int|
                    0 <= k < i ==> is_generated_receiver(
                        self.receivers@[n + k],
                        k,
                        #[trigger] receivers@[k],
                    ),
            decreases receivers@.len() - i,
        {
            let r = generated_receiver(i, &receivers[i]);
            self.receivers.push(r);
            i = i + 1;
        }
        let ghost rs = self.receivers;
        let ghost an = old(self).aircraft@.len() as int;
        let mut j: usize = 0;
        while j < adsb.len()
            invariant
                adsb@.len() <= u32::MAX - 0x1_0000,
                an == old(self).aircraft@.len(),
                j <= adsb@.len(),
                self.meta == old(self).meta,
                self.network == old(self).network,
                self.generate is None,
                self.receivers == rs,
                self.aircraft@.len() == an + j,
                self.aircraft@.take(an) =~= old(self).aircraft@,
                forall|k: int|
                    0 <= k < j ==> is_generated_aircraft(
                        self.aircraft@[an + k],
                        AircraftKind::Adsb,
                        'A',
                        0x1_0000 + k,
                        #[trigger] adsb@[k],
                    ),
            decreases adsb@.len() - j,
        {
            let a = generated_aircraft(AircraftKind::Adsb, 'A', 0x1_0000 + j as u32, &adsb[j]);
            self.aircraft.push(a);
            j = j + 1;
        }
        let ghost am = an + adsb@.len();
        let mut l: usize = 0;
        while l < modes.len()
            invariant
                modes@.len() <= u32::MAX - 0x2_0000,
                an == old(self).aircraft@.len(),
                am == an + adsb@.len(),
                l <= modes@.len(),
                self.meta == old(self).meta,
                self.network == old(self).network,
                self.generate is None,
                self.receivers == rs,
                self.aircraft@.len() == am + l,
                self.aircraft@.take(an) =~= old(self).aircraft@,
                forall|k: int|
                    0 <= k < adsb@.len() ==> is_generated_aircraft(
                        self.aircraft@[an + k],
                        AircraftKind::Adsb,
                        'A',
                        0x1_0000 + k,
                        #[trigger] adsb@[k],
                    ),
                forall|k: int|
                    0 <= k < l ==> is_generated_aircraft(
                        self.aircraft@[am + k],
                        AircraftKind::ModesOnly,
                        'B',
                        0x2_0000 + k,
                        #[trigger] modes@[k],
                    ),
            decreases modes@.len() - l,
        {
            let a = generated_aircraft(AircraftKind::ModesOnly, 'B', 0x2_0000 + l as u32, &modes[l]);
            self.aircraft.push(a);
            l = l + 1;
        }
    }
}

/// Upper-case hexadecimal digits write the same number.
proof fn lemma_upper_hex(s: Seq<char>)
    requires
        crate::text::all_hex(s),
    ensures
        crate::text::all_hex(crate::text::uppered(s)),
        crate::text::hex_number(crate::text::uppered(s)) == crate::text::hex_number(s),
    decreases s.len(),
{
    let u = crate::text::uppered(s);
    assert forall|i: int| 0 <= i < u.len() implies crate::text::hex_digit(
        #[trigger] u[i],
    ) is Some by {
        lemma_upper_digit(s[i]);
        assert(crate::text::hex_digit(s[i]) is Some);
    }
    if s.len() > 0 {
        assert(crate::text::all_hex(s.drop_last())) by {
            assert forall|i: int| 0 <= i < s.drop_last().len() implies crate::text::hex_digit(
                #[trigger] s.drop_last()[i],
            ) is Some by {
                assert(s.drop_last()[i] == s[i]);
            }
        }
        lemma_upper_hex(s.drop_last());
        assert(u.drop_last() =~= crate::text::uppered(s.drop_last()));
        lemma_upper_digit(s.last());
        assert(u.last() == crate::text::upper(s.last()));
    }
}

proof fn lemma_upper_digit(c: char)
    ensures
        crate::text::hex_digit(c) is Some ==> crate::text::hex_digit(crate::text::upper(c))
            == crate::text::hex_digit(c),
{
}

/// A digit in front of a hexadecimal number adds its value at its place.
proof fn lemma_leading_digit(c: char, s: Seq<char>)
    requires
        crate::text::hex_digit(c) is Some,
        crate::text::all_hex(s),
    ensures
        crate::text::all_hex(seq![c] + s),
        crate::text::hex_number(seq![c] + s) == crate::text::hex_digit(c)->0
            * vstd::arithmetic::power::pow(16, s.len()) + crate::text::hex_number(s),
    decreases s.len(),
{
    let t = seq![c] + s;
    assert forall|i: int| 0 <= i < t.len() implies crate::text::hex_digit(
        #[trigger] t[i],
    ) is Some by {
        if i > 0 {
            assert(t[i] == s[i - 1]);
        }
    }
    if s.len() == 0 {
        assert(t.drop_last() =~= seq![]);
        vstd::arithmetic::power::lemma_pow0(16);
        assert(t.last() == c);
        reveal_with_fuel(crate::text::hex_number, 2);
    } else {
        let d = s.drop_last();
        assert(crate::text::all_hex(d)) by {
            assert forall|i: int| 0 <= i < d.len() implies crate::text::hex_digit(
                #[trigger] d[i],
            ) is Some by {
                assert(d[i] == s[i]);
            }
        }
        lemma_leading_digit(c, d);
        assert(t.drop_last() =~= seq![c] + d);
        assert(t.last() == s.last());
        let v = crate::text::hex_digit(c)->0;
        let p = vstd::arithmetic::power::pow(16, d.len());
        assert(vstd::arithmetic::power::pow(16, s.len()) == 16 * p) by {
            reveal(vstd::arithmetic::power::pow);
        }
        assert(16 * (v * p) == v * (16 * p)) by (nonlinear_arith);
    }
}

proof fn lemma_hex_number_bound(s: Seq<char>)
    requires
        crate::text::all_hex(s),
    ensures
        0 <= crate::text::hex_number(s) < vstd::arithmetic::power::pow(16, s.len()),
    decreases s.len(),
{
    reveal(vstd::arithmetic::power::pow);
    if s.len() > 0 {
        let d = s.drop_last();
        assert forall|i: int| 0 <= i < d.len() implies crate::text::hex_digit(
            #[trigger] d[i],
        ) is Some by {
            assert(d[i] == s[i]);
        }
        lemma_hex_number_bound(d);
        assert(crate::text::hex_digit(s[s.len() - 1]) is Some);
    }
}

/// The address text of an aircraft in a valid scenario names an address.
pub proof fn law_address_text_reads(s: Seq<char>)
    requires
        is_address(s),
    ensures
        crate::icao::icao_from_hex(s) == Some(Icao(crate::text::hex_number(s) as u32)),
        0 <= crate::text::hex_number(s) < 0x100_0000,
{
    lemma_hex_number_bound(s);
    assert(vstd::arithmetic::power::pow(16, 6) == 0x100_0000) by {
        reveal_with_fuel(vstd::arithmetic::power::pow, 7);
    }
    assert(crate::text::hex_digit(s[0]) is Some);
    assert(crate::text::hex_digit(s[5]) is Some);
    assert(s[5] == s.last());
    assert(crate::text::trimmed(s) == s);
}

/// The addresses of generated aircraft are addresses of six digits, with the number of
/// the aircraft in their low 20 bits.
pub proof fn law_generated_addresses(adsb: bool, n: int)
    requires
        0 <= n < 0x10_0000,
    ensures
        is_address(
            generated_address(
                if adsb {
                    'A'
                } else {
                    'B'
                },
                n,
            ),
        ),
        crate::icao::icao_from_hex(
            generated_address(
                if adsb {
                    'A'
                } else {
                    'B'
                },
                n,
            ),
        ) == Some(
            Icao(
                (n + if adsb {
                    0xA0_0000
                } else {
                    0xB0_0000int
                }) as u32,
            ),
        ),
{
    let letter = if adsb {
        'A'
    } else {
        'B'
    };
    let digits = crate::text::hex_digits(n, 5);
    crate::text::lemma_hex_digits(n, 5);
    assert(vstd::arithmetic::power::pow(16, 5) == 0x10_0000) by {
        reveal_with_fuel(vstd::arithmetic::power::pow, 6);
    }
    lemma_upper_hex(digits);
    let u = crate::text::uppered(digits);
    lemma_leading_digit(letter, u);
    let t = generated_address(letter, n);
    assert(crate::text::hex_digit(t[0]) is Some);
    assert(crate::text::hex_digit(t[5]) is Some);
    assert(t[5] == t.last());
    assert(crate::text::trimmed(t) == t);
    assert(u.len() == 5);
    let v = crate::text::hex_digit(letter)->0;
    if adsb {
        assert(v == 10);
        assert(v * 0x10_0000 == 10485760) by (nonlinear_arith)
            requires
                v == 10,
        ;
    } else {
        assert(v == 11);
        assert(v * 0x10_0000 == 11534336) by (nonlinear_arith)
            requires
                v == 11,
        ;
    }
    assert(n % 0x10_0000 == n);
    assert(crate::text::hex_number(t) == v * 0x10_0000 + n);
    assert(crate::text::parse_hex(t) == Some(v * 0x10_0000 + n));
}

} // verus!
