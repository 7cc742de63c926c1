//! The report of a run, in Markdown.

use vstd::prelude::*;
use vstd::string::StringExecFns;

use crate::text::decimal_of;

verus! {

/// The line of an aircraft. Numbers stand as they are shown, without their units.
#[derive(Debug)]
pub struct AircraftLine {
    pub icao: String,
    pub results: u64,
    pub p50_error_m: Option<String>,
    pub coverage_pct: Option<String>,
    pub ttff_s: Option<String>,
    pub update_rate_per_min: Option<String>,
}

/// What a report shows. Numbers stand as they are shown, without their units.
#[derive(Debug)]
pub struct Report {
    pub results_total: u64,
    pub results_matched: u64,
    pub ghosts_unknown_icao: u64,
    pub ghosts_gross_error: u64,
    pub p50: String,
    pub p90: String,
    pub p99: String,
    pub max: String,
    pub mean: String,
    pub altitude_p50: Option<String>,
    pub altitude_n: u64,
    pub err_estimate_ratio_p50: Option<String>,
    pub coverage_pct: Option<String>,
    pub tracked_aircraft_seconds: u64,
    pub trackable_aircraft_seconds: u64,
    pub aircraft: Vec<AircraftLine>,
    pub cpu_mean_pct: Option<String>,
    pub cpu_max_pct: Option<String>,
    pub mem_max_mb: Option<String>,
    pub samples: u64,
}

/// A number with its unit, or a dash.
pub open spec fn shown(v: Option<String>, unit: Seq<char>) -> Seq<char> {
    match v {
        Some(s) => s@ + unit,
        None => "—"@,
    }
}

/// A row of the aircraft table.
pub open spec fn aircraft_row(a: AircraftLine) -> Seq<char> {
    "| "@ + a.icao@ + " | "@ + crate::text::decimal(a.results as nat) + " | "@ + shown(
        a.p50_error_m,
        " m"@,
    ) + " | "@ + shown(a.coverage_pct, "%"@) + " | "@ + shown(a.ttff_s, " s"@) + " | "@ + shown(
        a.update_rate_per_min,
        ""@,
    ) + " |\n"@
}

/// The rows of the aircraft table.
pub open spec fn aircraft_rows(v: Seq<AircraftLine>) -> Seq<char>
    decreases v.len(),
{
    if v.len() == 0 {
        seq![]
    } else {
        aircraft_rows(v.drop_last()) + aircraft_row(v.last())
    }
}

/// Title and result counts.
pub open spec fn head_text(m: Report, run_name: Seq<char>) -> Seq<char> {
    "# mlat-bench report — "@ + run_name + "\n\n**"@ + crate::text::decimal(m.results_total as nat)
        + " results**, "@ + crate::text::decimal(m.results_matched as nat)
        + " matched to truth, "@ + crate::text::decimal(m.ghosts_unknown_icao as nat)
        + " ghosts (unknown icao) + "@ + crate::text::decimal(m.ghosts_gross_error as nat)
        + " gross (>10 km)\n\n"@
}

/// The error table and the notes under it.
pub open spec fn error_text(m: Report) -> Seq<char> {
    "## Horizontal error\n\n| p50 | p90 | p99 | max | mean |\n|---|---|---|---|---|\n| "@ + m.p50@
        + " m | "@ + m.p90@ + " m | "@ + m.p99@ + " m | "@ + m.max@ + " m | "@ + m.mean@
        + " m |\n\n"@ + (match m.altitude_p50 {
        Some(a) => "Altitude error: p50 "@ + a@ + " m (n="@ + crate::text::decimal(
            m.altitude_n as nat,
        ) + ")\n\n"@,
        None => seq![],
    }) + (match m.err_estimate_ratio_p50 {
        Some(r) => "Oracle self-estimate ÷ real error, p50: "@ + r@ + " (<1 = overconfident)\n\n"@,
        None => seq![],
    })
}

/// The coverage section, where anything was trackable.
pub open spec fn coverage_text(m: Report) -> Seq<char> {
    match m.coverage_pct {
        Some(c) => "## Coverage\n\n"@ + c@ + "% of trackable aircraft-seconds tracked ("@
            + crate::text::decimal(m.tracked_aircraft_seconds as nat) + "/"@ + crate::text::decimal(
            m.trackable_aircraft_seconds as nat,
        ) + ")\n\n"@,
        None => seq![],
    }
}

/// The aircraft table and the server's resources.
pub open spec fn tail_text(m: Report) -> Seq<char> {
    "## Per aircraft (MLAT targets)\n\n| icao | results | p50 err | coverage | TTFF | rate/min |\n|---|---|---|---|---|---|\n"@
        + aircraft_rows(m.aircraft@) + "\n## Oracle resources\n\nCPU mean "@ + shown(
        m.cpu_mean_pct,
        "%"@,
    ) + " / max "@ + shown(m.cpu_max_pct, "%"@) + ", RSS max "@ + shown(m.mem_max_mb, " MB"@)
        + " ("@ + crate::text::decimal(m.samples as nat) + " samples)\n"@
}

fn put(out: &mut String, s: &str)
    ensures
        final(out)@ == old(out)@ + s@,
{
    out.append(s);
}

fn put_count(out: &mut String, n: u64)
    ensures
        final(out)@ == old(out)@ + crate::text::decimal(n as nat),
{
    let d = decimal_of(n);
    out.append(d.as_str());
}

fn put_shown(out: &mut String, v: &Option<String>, unit: &str)
    ensures
        final(out)@ == old(out)@ + shown(*v, unit@),
{
    match v {
        Some(s) => {
            put(out, s.as_str());
            put(out, unit);
            assert(out@ =~= old(out)@ + (s@ + unit@));
        },
        None => put(out, "—"),
    }
}

fn row_of(a: &AircraftLine) -> (r: String)
    ensures
        r@ == aircraft_row(*a),
{
    let mut out = "| ".to_owned();
    put(&mut out, a.icao.as_str());
    put(&mut out, " | ");
    put_count(&mut out, a.results);
    put(&mut out, " | ");
    put_shown(&mut out, &a.p50_error_m, " m");
    put(&mut out, " | ");
    put_shown(&mut out, &a.coverage_pct, "%");
    put(&mut out, " | ");
    put_shown(&mut out, &a.ttff_s, " s");
    put(&mut out, " | ");
    put_shown(&mut out, &a.update_rate_per_min, "");
    put(&mut out, " |\n");
    out
}

fn head(m: &Report, run_name: &str) -> (r: String)
    ensures
        r@ == head_text(*m, run_name@),
{
    let mut out = "# mlat-bench report — ".to_owned();
    put(&mut out, run_name);
    put(&mut out, "\n\n**");
    put_count(&mut out, m.results_total);
    put(&mut out, " results**, ");
    put_count(&mut out, m.results_matched);
    put(&mut out, " matched to truth, ");
    put_count(&mut out, m.ghosts_unknown_icao);
    put(&mut out, " ghosts (unknown icao) + ");
    put_count(&mut out, m.ghosts_gross_error);
    put(&mut out, " gross (>10 km)\n\n");
    out
}

fn errors(m: &Report) -> (r: String)
    ensures
        r@ == error_text(*m),
{
    let mut out = "## Horizontal error\n\n| p50 | p90 | p99 | max | mean |\n|---|---|---|---|---|\n| ".to_owned();
    put(&mut out, m.p50.as_str());
    put(&mut out, " m | ");
    put(&mut out, m.p90.as_str());
    put(&mut out, " m | ");
    put(&mut out, m.p99.as_str());
    put(&mut out, " m | ");
    put(&mut out, m.max.as_str());
    put(&mut out, " m | ");
    put(&mut out, m.mean.as_str());
    put(&mut out, " m |\n\n");
    let ghost start = out@;
    if let Some(a) = &m.altitude_p50 {
        let mut part = "Altitude error: p50 ".to_owned();
        put(&mut part, a.as_str());
        put(&mut part, " m (n=");
        put_count(&mut part, m.altitude_n);
        put(&mut part, ")\n\n");
        put(&mut out, part.as_str());
    } else {
        assert(out@ =~= start + Seq::<char>::empty());
    }
    let ghost middle = out@;
    if let Some(r) = &m.err_estimate_ratio_p50 {
        let mut part = "Oracle self-estimate ÷ real error, p50: ".to_owned();
        put(&mut part, r.as_str());
        put(&mut part, " (<1 = overconfident)\n\n");
        put(&mut out, part.as_str());
    } else {
        assert(out@ =~= middle + Seq::<char>::empty());
    }
    out
}

fn coverage(m: &Report) -> (r: String)
    ensures
        r@ == coverage_text(*m),
{
    match &m.coverage_pct {
        Some(c) => {
            let mut out = "## Coverage\n\n".to_owned();
            put(&mut out, c.as_str());
            put(&mut out, "% of trackable aircraft-seconds tracked (");
            put_count(&mut out, m.tracked_aircraft_seconds);
            put(&mut out, "/");
            put_count(&mut out, m.trackable_aircraft_seconds);
            put(&mut out, ")\n\n");
            out
        },
        None => {
            let out = String::new();
            assert(out@ =~= Seq::<char>::empty());
            out
        },
    }
}

fn rows(v: &Vec<AircraftLine>) -> (r: String)
    ensures
        r@ == aircraft_rows(v@),
{
    let mut out = String::new();
    let mut i: usize = 0;
    assert(out@ =~= aircraft_rows(v@.take(0)));
    while i < v.len()
        invariant
            i <= v@.len(),
            out@ == aircraft_rows(v@.take(i as int)),
        decreases v@.len() - i,
    {
        proof {
            assert(v@.take(i + 1).drop_last() =~= v@.take(i as int));
        }
        let row = row_of(&v[i]);
        put(&mut out, row.as_str());
        i = i + 1;
    }
    assert(v@.take(v@.len() as int) =~= v@);
    out
}

fn tail(m: &Report) -> (r: String)
    ensures
        r@ == tail_text(*m),
{
    let mut out = "## Per aircraft (MLAT targets)\n\n| icao | results | p50 err | coverage | TTFF | rate/min |\n|---|---|---|---|---|---|\n".to_owned();
    let table = rows(&m.aircraft);
    put(&mut out, table.as_str());
    put(&mut out, "\n## Oracle resources\n\nCPU mean ");
    put_shown(&mut out, &m.cpu_mean_pct, "%");
    put(&mut out, " / max ");
    put_shown(&mut out, &m.cpu_max_pct, "%");
    put(&mut out, ", RSS max ");
    put_shown(&mut out, &m.mem_max_mb, " MB");
    put(&mut out, " (");
    put_count(&mut out, m.samples);
    put(&mut out, " samples)\n");
    out
}

/// The report of a run.
pub fn render_report(m: &Report, run_name: &str) -> (r: String)
    ensures
        r@ == head_text(*m, run_name@) + error_text(*m) + coverage_text(*m) + tail_text(*m),
{
    let mut out = head(m, run_name);
    let e = errors(m);
    put(&mut out, e.as_str());
    let c = coverage(m);
    put(&mut out, c.as_str());
    let t = tail(m);
    put(&mut out, t.as_str());
    out
}

} // verus!
