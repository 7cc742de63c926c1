//! The rows of a server's result table.

use vstd::prelude::*;

use crate::icao::Icao;
use crate::text::{
    check_double, chars_of, find_double, lines_of, parse_u64, split_on, string_of, trim,
};

verus! {

/// One row of a result table. Columns: time, address, callsign, squawk, latitude,
/// longitude, altitude, error estimate, receivers, distinct receivers, and more that
/// stay unread. A number stands as its text.
#[derive(Debug)]
pub struct CsvRow {
    pub t_wall: String,
    pub icao: Icao,
    pub lat: String,
    pub lon: String,
    pub alt_ft: Option<String>,
    pub err_est_m: Option<String>,
    pub n_receivers: Option<u32>,
    pub distinct_receivers: Option<u32>,
}

/// What a row says.
pub ghost struct RowView {
    pub t_wall: Seq<char>,
    pub icao: Icao,
    pub lat: Seq<char>,
    pub lon: Seq<char>,
    pub alt_ft: Option<Seq<char>>,
    pub err_est_m: Option<Seq<char>>,
    pub n_receivers: Option<u32>,
    pub distinct_receivers: Option<u32>,
}

impl View for CsvRow {
    type V = RowView;

    open spec fn view(&self) -> RowView {
        RowView {
            t_wall: self.t_wall@,
            icao: self.icao,
            lat: self.lat@,
            lon: self.lon@,
            alt_ft: crate::proto::messages::text_view(self.alt_ft),
            err_est_m: crate::proto::messages::text_view(self.err_est_m),
            n_receivers: self.n_receivers,
            distinct_receivers: self.distinct_receivers,
        }
    }
}

/// The count in a field, white space around it ignored.
pub open spec fn count_in(s: Seq<char>) -> Option<u32> {
    match crate::text::parse_decimal(crate::text::trimmed(s)) {
        Some(n) => if n <= u32::MAX {
            Some(n as u32)
        } else {
            None
        },
        None => None,
    }
}

/// What a line says; `None` where it has too few fields, or no time, address or
/// position.
pub open spec fn row_in(line: Seq<char>) -> Option<RowView> {
    let f = crate::text::pieces(line, ',');
    if f.len() < 10 || !crate::text::is_double(f[0]) || crate::icao::icao_from_hex(f[1]) is None
        || !crate::text::is_double(f[4]) || !crate::text::is_double(f[5]) {
        None
    } else {
        Some(
            RowView {
                t_wall: f[0],
                icao: crate::icao::icao_from_hex(f[1])->0,
                lat: f[4],
                lon: f[5],
                alt_ft: crate::text::double_in(f[6]),
                err_est_m: crate::text::double_in(f[7]),
                n_receivers: count_in(f[8]),
                distinct_receivers: count_in(f[9]),
            },
        )
    }
}

/// The rows of a run of lines, in order.
pub open spec fn rows_in(lines: Seq<Seq<char>>) -> Seq<RowView>
    decreases lines.len(),
{
    if lines.len() == 0 {
        seq![]
    } else {
        let rest = rows_in(lines.drop_last());
        match row_in(lines.last()) {
            Some(r) => rest.push(r),
            None => rest,
        }
    }
}

/// The views of a run of rows.
pub open spec fn row_views(v: Seq<CsvRow>) -> Seq<RowView> {
    v.map_values(|r: CsvRow| r@)
}

fn find_count(s: &[char]) -> (r: Option<u32>)
    ensures
        r == count_in(s@),
{
    let t = trim(s);
    match parse_u64(t.as_slice()) {
        Some(n) => if n <= 0xFFFF_FFFF {
            Some(n as u32)
        } else {
            None
        },
        None => None,
    }
}

fn parse_row(line: &[char]) -> (r: Option<CsvRow>)
    ensures
        match r {
            Some(row) => row_in(line@) == Some(row@),
            None => row_in(line@) is None,
        },
{
    let f = split_on(line, ',');
    let ghost rows = crate::text::char_rows(f@);
    assert(rows.len() == f@.len());
    if f.len() < 10 {
        return None;
    }
    assert(forall|i: int| 0 <= i < 10 ==> rows[i] == (#[trigger] f@[i])@);
    let address = string_of(f[1].as_slice());
    match Icao::from_hex(address.as_str()) {
        None => None,
        Some(icao) => if check_double(f[0].as_slice()) && check_double(f[4].as_slice())
            && check_double(f[5].as_slice()) {
            Some(
                CsvRow {
                    t_wall: string_of(f[0].as_slice()),
                    icao,
                    lat: string_of(f[4].as_slice()),
                    lon: string_of(f[5].as_slice()),
                    alt_ft: find_double(f[6].as_slice()),
                    err_est_m: find_double(f[7].as_slice()),
                    n_receivers: find_count(f[8].as_slice()),
                    distinct_receivers: find_count(f[9].as_slice()),
                },
            )
        } else {
            None
        },
    }
}

/// Reads a result table. Lines that are no rows are passed over.
pub fn parse_results_csv(text: &str) -> (r: Vec<CsvRow>)
    ensures
        row_views(r@) == rows_in(crate::text::lines(text@)),
{
    let chars = chars_of(text);
    let lines = lines_of(chars.as_slice());
    let ghost ls = crate::text::lines(text@);
    assert(ls.len() == lines@.len());
    let mut out: Vec<CsvRow> = Vec::new();
    let mut i: usize = 0;
    while i < lines.len()
        invariant
            ls == crate::text::char_rows(lines@),
            i <= lines@.len(),
            row_views(out@) =~= rows_in(ls.take(i as int)),
        decreases lines@.len() - i,
    {
        proof {
            assert(ls.take(i + 1).drop_last() =~= ls.take(i as int));
            assert(ls.take(i + 1).last() == lines@[i as int]@);
        }
        if let Some(row) = parse_row(lines[i].as_slice()) {
            let ghost prev = out@;
            let ghost added = row@;
            out.push(row);
            assert(row_views(out@) =~= row_views(prev).push(added));
        }
        i = i + 1;
    }
    assert(ls.take(lines@.len() as int) =~= ls);
    out
}

} // verus!
