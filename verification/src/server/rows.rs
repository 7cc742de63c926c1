//! Output rows: results CSV, SBS lines and result messages. Measured values
//! enter as the decimal text they are printed with.

use vstd::prelude::*;
use vstd::string::StringExecFns;

use crate::icao::Icao;
use crate::text::{decimal_of, padded_of, signed_decimal_of, uppercase};

verus! {

pub open spec fn is_leap(y: int) -> bool {
    (y % 4 == 0 && y % 100 != 0) || y % 400 == 0
}

pub open spec fn year_len(y: int) -> int {
    if is_leap(y) {
        366
    } else {
        365
    }
}

/// Days of month `m`, counted from 0 for January.
pub open spec fn month_len(y: int, m: int) -> int {
    if m == 1 {
        if is_leap(y) {
            29
        } else {
            28
        }
    } else if m == 3 || m == 5 || m == 8 || m == 10 {
        30
    } else {
        31
    }
}

/// The year that contains day `rem` counted from the start of year `y`, and the
/// day within that year.
pub open spec fn year_at(y: int, rem: int) -> (int, int)
    decreases rem,
{
    if rem < year_len(y) {
        (y, rem)
    } else {
        year_at(y + 1, rem - year_len(y))
    }
}

/// The month of year `y` that contains day `rem` counted from the start of month
/// `m`, and the day within that month.
pub open spec fn month_at(y: int, m: int, rem: int) -> (int, int)
    decreases 11 - m,
{
    if m >= 11 || rem < month_len(y, m) {
        (m, rem)
    } else {
        month_at(y, m + 1, rem - month_len(y, m))
    }
}

/// The calendar date of a day counted from 1 January 1970: year, month from 1,
/// day from 1.
pub open spec fn civil(days: int) -> (int, int, int) {
    let y = year_at(1970, days);
    let m = month_at(y.0, 0, y.1);
    (y.0, m.0 + 1, m.1 + 1)
}

/// Days from 1 January 1970 to the start of a year.
pub open spec fn days_before_year(y: int) -> int
    decreases y - 1970,
{
    if y <= 1970 {
        0
    } else {
        days_before_year(y - 1) + year_len(y - 1)
    }
}

/// Days of year `y` before month `m`, counted from 0.
pub open spec fn days_before_month(y: int, m: int) -> int
    decreases m,
{
    if m <= 0 {
        0
    } else {
        days_before_month(y, m - 1) + month_len(y, m - 1)
    }
}

proof fn lemma_year_at(y: int, rem: int)
    requires
        0 <= rem,
        1970 <= y,
    ensures
        ({
            let r = year_at(y, rem);
            &&& y <= r.0
            &&& 0 <= r.1 < year_len(r.0)
            &&& days_before_year(r.0) + r.1 == days_before_year(y) + rem
        }),
    decreases rem,
{
    if rem >= year_len(y) {
        lemma_year_at(y + 1, rem - year_len(y));
    }
}

proof fn lemma_month_at(y: int, m: int, rem: int)
    requires
        0 <= m <= 11,
        0 <= rem,
        days_before_month(y, m) + rem < year_len(y),
    ensures
        ({
            let r = month_at(y, m, rem);
            &&& m <= r.0 <= 11
            &&& 0 <= r.1 < month_len(y, r.0)
            &&& days_before_month(y, r.0) + r.1 == days_before_month(y, m) + rem
        }),
    decreases 11 - m,
{
    lemma_months(y);
    if m < 11 && rem >= month_len(y, m) {
        lemma_month_at(y, m + 1, rem - month_len(y, m));
    }
}

proof fn lemma_months(y: int)
    ensures
        days_before_month(y, 11) == year_len(y) - 31,
{
    reveal_with_fuel(days_before_month, 12);
}

/// The date is a date of the calendar, and counting its days from 1970 gives the
/// day back.
pub proof fn law_calendar(days: int)
    requires
        0 <= days,
    ensures
        ({
            let c = civil(days);
            &&& 1970 <= c.0
            &&& 1 <= c.1 <= 12
            &&& 1 <= c.2 <= month_len(c.0, c.1 - 1)
            &&& days_before_year(c.0) + days_before_month(c.0, c.1 - 1) + c.2 - 1 == days
        }),
{
    lemma_year_at(1970, days);
    let y = year_at(1970, days);
    lemma_month_at(y.0, 0, y.1);
}

/// Days since the epoch, rounding towards it.
pub open spec fn whole_days(secs: int) -> int {
    if secs >= 0 {
        secs / 86400
    } else {
        -((-secs) / 86400)
    }
}

/// The date as `yyyy/mm/dd`.
pub open spec fn date_text(secs: int) -> Seq<char> {
    let c = civil(whole_days(secs));
    crate::text::padded(c.0, 4) + "/"@ + crate::text::padded(c.1, 2) + "/"@ + crate::text::padded(
        c.2,
        2,
    )
}

/// The time of day as `hh:mm:ss.mmm`.
pub open spec fn time_text(secs: int, millis: int) -> Seq<char> {
    let tod = secs % 86400;
    crate::text::padded(tod / 3600, 2) + ":"@ + crate::text::padded(tod / 60 % 60, 2) + ":"@
        + crate::text::padded(tod % 60, 2) + "."@ + crate::text::padded(millis, 3)
}

fn leap(y: i64) -> (r: bool)
    requires
        0 <= y,
    ensures
        r == is_leap(y as int),
{
    (y % 4 == 0 && y % 100 != 0) || y % 400 == 0
}

fn days_of(y: i64) -> (r: i64)
    requires
        0 <= y,
    ensures
        r == year_len(y as int),
{
    if leap(y) {
        366
    } else {
        365
    }
}

fn days_of_month(y: i64, m: i64) -> (r: i64)
    requires
        0 <= y,
    ensures
        r == month_len(y as int, m as int),
{
    if m == 1 {
        if leap(y) {
            29
        } else {
            28
        }
    } else if m == 3 || m == 5 || m == 8 || m == 10 {
        30
    } else {
        31
    }
}

fn civil_of(days: i64) -> (r: (i64, i64, i64))
    requires
        -0x1_0000_0000_0000 <= days <= 0x1_0000_0000_0000,
    ensures
        (r.0 as int, r.1 as int, r.2 as int) == civil(days as int),
{
    let mut y: i64 = 1970;
    let mut rem: i64 = days;
    while rem >= days_of(y)
        invariant
            1970 <= y,
            y + rem <= 1970 + 0x1_0000_0000_0000,
            rem <= 0x1_0000_0000_0000,
            -0x1_0000_0000_0000 <= rem,
            year_at(1970, days as int) == year_at(y as int, rem as int),
        decreases rem,
    {
        rem = rem - days_of(y);
        y = y + 1;
    }
    let mut m: i64 = 0;
    while m < 11 && rem >= days_of_month(y, m)
        invariant
            1970 <= y,
            0 <= m <= 11,
            -0x1_0000_0000_0000 <= rem < 0x1_0000_0000_0000,
            month_at(y as int, 0, year_at(1970, days as int).1) == month_at(
                y as int,
                m as int,
                rem as int,
            ),
        decreases 11 - m,
    {
        rem = rem - days_of_month(y, m);
        m = m + 1;
    }
    (y, m + 1, rem + 1)
}

/// SBS rows carry date and time strings: UTC of a unix time, given as whole
/// seconds and thousandths.
pub fn sbs_datetime(secs: i64, millis: i64) -> (r: (String, String))
    ensures
        r.0@ == date_text(secs as int),
        r.1@ == time_text(secs as int, millis as int),
{
    let days: i64 = if secs >= 0 {
        secs / 86400
    } else {
        let m: u64 = (-(secs + 1)) as u64 + 1;
        -((m / 86400) as i64)
    };
    let tod: i64 = if secs >= 0 {
        secs % 86400
    } else {
        let m: u64 = (-(secs + 1)) as u64;
        86399 - (m % 86400) as i64
    };
    proof {
        if secs < 0 {
            let m = -(secs + 1);
            vstd::arithmetic::div_mod::lemma_fundamental_div_mod(m, 86400);
            let q = m / 86400;
            assert(secs as int == -86400 * q - m % 86400 - 1);
            vstd::arithmetic::div_mod::lemma_fundamental_div_mod_converse(
                secs as int,
                86400,
                -q - 1,
                86399 - m % 86400,
            );
        }
    }
    assert(tod as int == secs as int % 86400);
    let (y, m, d) = civil_of(days);
    let mut date = padded_of(y, 4);
    date.append("/");
    date.append(padded_of(m, 2).as_str());
    date.append("/");
    date.append(padded_of(d, 2).as_str());
    let mut time = padded_of(tod / 3600, 2);
    time.append(":");
    time.append(padded_of(tod / 60 % 60, 2).as_str());
    time.append(":");
    time.append(padded_of(tod % 60, 2).as_str());
    time.append(".");
    time.append(padded_of(millis, 3).as_str());
    (date, time)
}

/// User names separated by commas.
pub open spec fn joined_users(users: Seq<Seq<char>>) -> Seq<char>
    decreases users.len(),
{
    if users.len() == 0 {
        seq![]
    } else if users.len() == 1 {
        users[0]
    } else {
        joined_users(users.drop_last()) + ","@ + users.last()
    }
}

fn join_users(users: &Vec<String>) -> (r: String)
    ensures
        r@ == joined_users(crate::text::texts(users@)),
{
    let mut out = String::new();
    let ghost all = crate::text::texts(users@);
    let mut i: usize = 0;
    while i < users.len()
        invariant
            all == crate::text::texts(users@),
            i <= all.len(),
            out@ == joined_users(all.take(i as int)),
        decreases all.len() - i,
    {
        assert(all.take(i + 1).drop_last() =~= all.take(i as int));
        assert(all.take(i + 1).last() == users@[i as int]@);
        let ghost before = out@;
        if i > 0 {
            out.append(",");
        }
        out.append(users[i].as_str());
        assert(out@ =~= joined_users(all.take(i + 1)));
        i = i + 1;
    }
    assert(all.take(all.len() as int) =~= all);
    out
}

/// An accepted fix, with its measured values as text.
#[derive(Debug)]
pub struct FixText {
    pub icao: Icao,
    /// Unix time with three decimals.
    pub stamp: String,
    /// Degrees with five decimals.
    pub lat: String,
    pub lon: String,
    pub alt_ft: i32,
    /// Estimated error in meters with one decimal.
    pub err_m: String,
    /// The receivers of the solve.
    pub users: Vec<String>,
}

/// The fix as a results CSV row: time, address, empty callsign and squawk,
/// position, altitude, error, stations twice, the station list, and the degrees
/// of freedom.
pub open spec fn csv_text(f: FixText) -> Seq<char> {
    let n = f.users@.len();
    f.stamp@ + ","@ + crate::text::hex_digits(f.icao.0 as int % 0x100_0000, 6) + ",,,"@ + f.lat@
        + ","@ + f.lon@ + ","@ + crate::text::signed_decimal(f.alt_ft as int) + ","@ + f.err_m@
        + ","@ + crate::text::decimal(n) + ","@ + crate::text::decimal(n) + ",\""@ + joined_users(
        crate::text::texts(f.users@),
    ) + "\","@ + crate::text::decimal(
        (if n > 4 {
            n - 4
        } else {
            0
        }) as nat,
    ) + ",\n"@
}

/// The fix as a results CSV row; see `csv_text`.
pub fn csv_row(f: &FixText) -> (r: String)
    ensures
        r@ == csv_text(*f),
{
    let n: u64 = f.users.len() as u64;
    let dof: u64 = if n > 4 {
        n - 4
    } else {
        0
    };
    let mut out = f.stamp.clone();
    out.append(",");
    out.append(f.icao.to_hex().as_str());
    out.append(",,,");
    out.append(f.lat.as_str());
    out.append(",");
    out.append(f.lon.as_str());
    out.append(",");
    out.append(signed_decimal_of(f.alt_ft as i64).as_str());
    out.append(",");
    out.append(f.err_m.as_str());
    out.append(",");
    out.append(decimal_of(n).as_str());
    out.append(",");
    out.append(decimal_of(n).as_str());
    out.append(",\"");
    out.append(join_users(&f.users).as_str());
    out.append("\",");
    out.append(decimal_of(dof).as_str());
    out.append(",\n");
    out
}

/// The fix as an SBS position line.
pub open spec fn sbs_text(f: FixText, date: Seq<char>, time: Seq<char>) -> Seq<char> {
    "MSG,3,1,1,"@ + crate::text::uppered(
        crate::text::hex_digits(f.icao.0 as int % 0x100_0000, 6),
    ) + ",1,"@ + date + ","@ + time + ","@ + date + ","@ + time + ",,"@
        + crate::text::signed_decimal(f.alt_ft as int) + ",,,"@ + f.lat@ + ","@ + f.lon@
        + ",,,,,,0\r\n"@
}

/// The fix as an SBS position line, at a unix time in whole seconds and
/// thousandths.
pub fn sbs_line(f: &FixText, secs: i64, millis: i64) -> (r: String)
    ensures
        r@ == sbs_text(
            *f,
            date_text(secs as int),
            time_text(secs as int, millis as int),
        ),
{
    let (date, time) = sbs_datetime(secs, millis);
    let mut out = String::new();
    out.append("MSG,3,1,1,");
    out.append(uppercase(f.icao.to_hex().as_str()).as_str());
    out.append(",1,");
    out.append(date.as_str());
    out.append(",");
    out.append(time.as_str());
    out.append(",");
    out.append(date.as_str());
    out.append(",");
    out.append(time.as_str());
    out.append(",,");
    out.append(signed_decimal_of(f.alt_ft as i64).as_str());
    out.append(",,,");
    out.append(f.lat.as_str());
    out.append(",");
    out.append(f.lon.as_str());
    out.append(",,,,,,0\r\n");
    assert(out@ =~= sbs_text(
        *f,
        date_text(secs as int),
        time_text(secs as int, millis as int),
    ));
    out
}

/// The fix as a result message to the feeders.
pub open spec fn result_text(f: FixText) -> Seq<char> {
    "{\"result\":{\"@\":"@ + f.stamp@ + ",\"addr\":\""@ + crate::text::hex_digits(
        f.icao.0 as int % 0x100_0000,
        6,
    ) + "\",\"lat\":"@ + f.lat@ + ",\"lon\":"@ + f.lon@ + ",\"alt\":"@
        + crate::text::signed_decimal(f.alt_ft as int)
        + ",\"callsign\":null,\"squawk\":null,\"hdop\":0.0,\"vdop\":0.0,\"tdop\":0.0,\"gdop\":0.0,\"nstations\":"@
        + crate::text::decimal(f.users@.len()) + "}}\n"@
}

/// The fix as a result message to the feeders; see `result_text`.
pub fn result_line(f: &FixText) -> (r: String)
    ensures
        r@ == result_text(*f),
{
    let mut out = String::new();
    out.append("{\"result\":{\"@\":");
    out.append(f.stamp.as_str());
    out.append(",\"addr\":\"");
    out.append(f.icao.to_hex().as_str());
    out.append("\",\"lat\":");
    out.append(f.lat.as_str());
    out.append(",\"lon\":");
    out.append(f.lon.as_str());
    out.append(",\"alt\":");
    out.append(signed_decimal_of(f.alt_ft as i64).as_str());
    out.append(
        ",\"callsign\":null,\"squawk\":null,\"hdop\":0.0,\"vdop\":0.0,\"tdop\":0.0,\"gdop\":0.0,\"nstations\":",
    );
    out.append(decimal_of(f.users.len() as u64).as_str());
    out.append("}}\n");
    assert(out@ =~= result_text(*f));
    out
}

/// A published fix, fanned out to files, SBS consumers and subscribed clients.
#[derive(Debug)]
pub struct Published {
    pub sbs_line: String,
    pub result_line: String,
}

// ----------------------------------------------------------- reading rows back

/// The measured values of a fix stand as numbers that can be fields.
pub open spec fn has_fields(f: FixText) -> bool {
    &&& crate::text::is_double(f.stamp@) && crate::text::is_field(f.stamp@)
    &&& crate::text::is_double(f.lat@) && crate::text::is_field(f.lat@)
    &&& crate::text::is_double(f.lon@) && crate::text::is_field(f.lon@)
    &&& crate::text::is_double(f.err_m@) && crate::text::is_field(f.err_m@)
}

/// What stands behind the station counts of a row.
spec fn row_rest(f: FixText) -> Seq<char> {
    let n = f.users@.len();
    "\""@ + joined_users(crate::text::texts(f.users@)) + "\","@ + crate::text::decimal(
        (if n > 4 {
            n - 4
        } else {
            0
        }) as nat,
    ) + ","@
}

spec fn row_fields(f: FixText) -> Seq<Seq<char>> {
    let n = f.users@.len();
    seq![
        f.stamp@,
        crate::text::hex_digits(f.icao.0 as int % 0x100_0000, 6),
        seq![],
        seq![],
        f.lat@,
        f.lon@,
        crate::text::signed_decimal(f.alt_ft as int),
        f.err_m@,
        crate::text::decimal(n),
        crate::text::decimal(n),
    ]
}

#[verifier::rlimit(60)]
proof fn lemma_row_layout(f: FixText)
    ensures
        csv_text(f) == crate::text::ten_fields(row_fields(f), row_rest(f)).push('\n'),
{
    reveal_strlit(",");
    reveal_strlit(",,,");
    reveal_strlit(",\"");
    reveal_strlit("\"");
    reveal_strlit("\",");
    reveal_strlit(",\n");
    let w = row_fields(f);
    let r9 = crate::text::with_field(w[9], row_rest(f));
    let r8 = crate::text::with_field(w[8], r9);
    let r7 = crate::text::with_field(w[7], r8);
    let r6 = crate::text::with_field(w[6], r7);
    let r5 = crate::text::with_field(w[5], r6);
    let r4 = crate::text::with_field(w[4], r5);
    assert(csv_text(f) =~= f.stamp@ + ","@ + w[1] + ",,,"@ + r4.push('\n'));
    assert(csv_text(f) =~= crate::text::ten_fields(w, row_rest(f)).push('\n'));
}

/// A result row reads back as the fix that it was written for: its time, its aircraft, its
/// position, altitude and error, and how many receivers it has.
pub proof fn law_result_rows_read_back(f: FixText)
    requires
        has_fields(f),
        f.users@.len() <= u32::MAX,
    ensures
        csv_text(f).last() == '\n',
        crate::metrics::rows::row_in(csv_text(f).drop_last()) == Some(
            crate::metrics::rows::RowView {
                t_wall: f.stamp@,
                icao: Icao((f.icao.0 % 0x100_0000) as u32),
                lat: f.lat@,
                lon: f.lon@,
                alt_ft: Some(crate::text::signed_decimal(f.alt_ft as int)),
                err_est_m: Some(f.err_m@),
                n_receivers: Some(f.users@.len() as u32),
                distinct_receivers: Some(f.users@.len() as u32),
            },
        ),
{
    let w = row_fields(f);
    let line = crate::text::ten_fields(w, row_rest(f));
    let n = f.users@.len();
    lemma_row_layout(f);
    assert(csv_text(f).drop_last() =~= line);
    crate::text::lemma_hex_digits(f.icao.0 as int % 0x100_0000, 6);
    crate::text::lemma_hex_field(w[1]);
    crate::text::lemma_signed_field(f.alt_ft as int);
    crate::text::lemma_decimal_field(n);
    crate::text::law_decimal_reads_back(n);
    crate::text::lemma_field_stays(w[8]);
    crate::text::lemma_field_stays(f.err_m@);
    crate::icao::law_hex_round_trip(f.icao);
    assert forall|i: int| 0 <= i < 10 implies crate::text::is_field(#[trigger] w[i]) by {
        assert(i == 0 || i == 1 || i == 2 || i == 3 || i == 4 || i == 5 || i == 6 || i == 7 || i == 8
            || i == 9);
    }
    crate::text::lemma_ten_fields(w, row_rest(f));
    let p = crate::text::pieces(line, ',');
    assert(p[0] == w[0] && p[1] == w[1] && p[4] == w[4] && p[5] == w[5] && p[6] == w[6] && p[7]
        == w[7] && p[8] == w[8] && p[9] == w[9]);
}

#[verifier::rlimit(60)]
proof fn lemma_sbs_layout(f: FixText, date: Seq<char>, time: Seq<char>)
    ensures
        sbs_text(f, date, time) == crate::text::ten_fields(
            crate::proto::sbs::position_start(
                crate::text::uppered(crate::text::hex_digits(f.icao.0 as int % 0x100_0000, 6)),
                date,
                time,
            ),
            crate::proto::sbs::position_rest(
                crate::text::signed_decimal(f.alt_ft as int),
                f.lat@,
                f.lon@,
            ),
        ) + "\r\n"@,
{
    reveal_strlit("MSG,3,1,1,");
    reveal_strlit(",1,");
    reveal_strlit(",");
    reveal_strlit(",,");
    reveal_strlit(",,,");
    reveal_strlit(",,,,,,0\r\n");
    reveal_strlit("MSG");
    reveal_strlit("3");
    reveal_strlit("1");
    reveal_strlit(",,,,,0");
    reveal_strlit("\r\n");
    let hex = crate::text::uppered(crate::text::hex_digits(f.icao.0 as int % 0x100_0000, 6));
    let rest = crate::proto::sbs::position_rest(
        crate::text::signed_decimal(f.alt_ft as int),
        f.lat@,
        f.lon@,
    );
    assert(sbs_text(f, date, time) =~= "MSG,3,1,1,"@ + hex + ",1,"@ + date + ","@ + time + ","@
        + date + ","@ + time + ","@ + rest + "\r\n"@);
    assert(sbs_text(f, date, time) =~= crate::text::ten_fields(
        crate::proto::sbs::position_start(hex, date, time),
        rest,
    ) + "\r\n"@);
}

/// An SBS line reads back as the fix that it was written for: its aircraft, altitude and
/// position.
pub proof fn law_sbs_lines_read_back(f: FixText, secs: int, millis: int)
    requires
        has_fields(f),
    ensures
        crate::proto::sbs::sbs_line(sbs_text(f, date_text(secs), time_text(secs, millis))) == Some(
            crate::proto::sbs::SbsView {
                icao_hex: crate::text::hex_digits(f.icao.0 as int % 0x100_0000, 6),
                alt_ft: Some(crate::text::signed_decimal(f.alt_ft as int)),
                lat: Some(f.lat@),
                lon: Some(f.lon@),
            },
        ),
{
    let (date, time) = (date_text(secs), time_text(secs, millis));
    let n = f.icao.0 as int % 0x100_0000;
    let hex = crate::text::uppered(crate::text::hex_digits(n, 6));
    lemma_sbs_layout(f, date, time);
    lemma_times_are_fields(secs, millis);
    crate::text::law_case_of_digits(n, 6);
    crate::text::lemma_hex_digits(n, 6);
    crate::text::lemma_hex_field(hex);
    crate::text::lemma_signed_field(f.alt_ft as int);
    crate::proto::sbs::law_position_lines_are_read(
        hex,
        date,
        time,
        crate::text::signed_decimal(f.alt_ft as int),
        f.lat@,
        f.lon@,
    );
}

proof fn lemma_times_are_fields(secs: int, millis: int)
    ensures
        crate::text::is_field(date_text(secs)),
        crate::text::is_field(time_text(secs, millis)),
{
    reveal_strlit("/");
    reveal_strlit(":");
    reveal_strlit(".");
    let c = civil(whole_days(secs));
    let (y, m, d) = (
        crate::text::padded(c.0, 4),
        crate::text::padded(c.1, 2),
        crate::text::padded(c.2, 2),
    );
    crate::text::lemma_padded_field(c.0, 4);
    crate::text::lemma_padded_field(c.1, 2);
    crate::text::lemma_padded_field(c.2, 2);
    crate::text::lemma_field_add(y, "/"@);
    crate::text::lemma_field_add(y + "/"@, m);
    crate::text::lemma_field_add(y + "/"@ + m, "/"@);
    crate::text::lemma_field_add(y + "/"@ + m + "/"@, d);
    let tod = secs % 86400;
    let (h, n, s, x) = (
        crate::text::padded(tod / 3600, 2),
        crate::text::padded(tod / 60 % 60, 2),
        crate::text::padded(tod % 60, 2),
        crate::text::padded(millis, 3),
    );
    crate::text::lemma_padded_field(tod / 3600, 2);
    crate::text::lemma_padded_field(tod / 60 % 60, 2);
    crate::text::lemma_padded_field(tod % 60, 2);
    crate::text::lemma_padded_field(millis, 3);
    crate::text::lemma_field_add(h, ":"@);
    crate::text::lemma_field_add(h + ":"@, n);
    crate::text::lemma_field_add(h + ":"@ + n, ":"@);
    crate::text::lemma_field_add(h + ":"@ + n + ":"@, s);
    crate::text::lemma_field_add(h + ":"@ + n + ":"@ + s, "."@);
    crate::text::lemma_field_add(h + ":"@ + n + ":"@ + s + "."@, x);
}

/// The hour, the minute and the second of any day stand in the time text, in that order.
pub proof fn law_time_text_is_a_clock(day: int, h: int, m: int, s: int, millis: int)
    requires
        0 <= h < 24,
        0 <= m < 60,
        0 <= s < 60,
    ensures
        time_text(86400 * day + 3600 * h + 60 * m + s, millis) == crate::text::padded(h, 2) + ":"@
            + crate::text::padded(m, 2) + ":"@ + crate::text::padded(s, 2) + "."@
            + crate::text::padded(millis, 3),
{
    let tod = 3600 * h + 60 * m + s;
    assert((86400 * day + tod) % 86400 == tod);
    assert(tod / 3600 == h);
    assert(tod / 60 == 60 * h + m);
    assert((60 * h + m) % 60 == m);
    assert(tod % 60 == s);
}

/// Days before a year: 365 for each since 1970, and one more for each fourth year but for full
/// centuries that 400 does not divide.
pub proof fn law_leap_years(y: int)
    requires
        1970 <= y,
    ensures
        days_before_year(y) == 365 * (y - 1970) + (y - 1) / 4 - (y - 1) / 100 + (y - 1) / 400 - 477,
    decreases y,
{
    if y > 1970 {
        law_leap_years(y - 1);
        let x = y - 1;
        assert(x / 4 - (x - 1) / 4 == if x % 4 == 0 {
            1int
        } else {
            0
        });
        assert(x / 100 - (x - 1) / 100 == if x % 100 == 0 {
            1int
        } else {
            0
        });
        assert(x / 400 - (x - 1) / 400 == if x % 400 == 0 {
            1int
        } else {
            0
        });
        assert(x % 100 == 0 ==> x % 4 == 0);
        assert(x % 400 == 0 ==> x % 100 == 0);
    }
}

/// Days before a month, from March on: five months have 153, of 31 and 30 days in turn, and
/// what comes before March has 59, or 60 in a leap year.
pub proof fn law_month_lengths(y: int, m: int)
    requires
        2 <= m <= 11,
    ensures
        days_before_month(y, m) == (153 * (m - 2) + 2) / 5 + 59 + year_len(y) - 365,
        days_before_month(y, 1) == 31,
        month_len(y, 11) == 31,
    decreases m,
{
    reveal_with_fuel(days_before_month, 3);
    if m > 2 {
        law_month_lengths(y, m - 1);
        assert(m == 3 || m == 4 || m == 5 || m == 6 || m == 7 || m == 8 || m == 9 || m == 10 || m
            == 11);
    }
}

} // verus!
