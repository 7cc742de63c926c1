//! Minimal SBS/BaseStation "MSG" line reader: enough to score a server's
//! BaseStation output.

use vstd::prelude::*;

use crate::text::{chars_of, find_double, lowercase, split_on, string_of, trim, trim_end};

verus! {

/// One MSG line. A number stands as its text; fields that are not scored stay
/// unread.
#[derive(Debug)]
pub struct SbsPosition {
    pub icao_hex: String,
    pub alt_ft: Option<String>,
    pub lat: Option<String>,
    pub lon: Option<String>,
}

/// What an SBS line says.
pub ghost struct SbsView {
    pub icao_hex: Seq<char>,
    pub alt_ft: Option<Seq<char>>,
    pub lat: Option<Seq<char>>,
    pub lon: Option<Seq<char>>,
}

impl View for SbsPosition {
    type V = SbsView;

    open spec fn view(&self) -> SbsView {
        SbsView {
            icao_hex: self.icao_hex@,
            alt_ft: crate::proto::messages::text_view(self.alt_ft),
            lat: crate::proto::messages::text_view(self.lat),
            lon: crate::proto::messages::text_view(self.lon),
        }
    }
}

/// The number in a field, if the line has that field and it holds one.
pub open spec fn number_field(f: Seq<Seq<char>>, i: int) -> Option<Seq<char>> {
    if i < f.len() {
        crate::text::double_in(f[i])
    } else {
        None
    }
}

/// What a line says; `None` for a line that is no MSG line or names no aircraft.
/// Tolerant by design: the format is folklore.
pub open spec fn sbs_line(line: Seq<char>) -> Option<SbsView> {
    let f = crate::text::pieces(crate::text::trimmed_end(line), ',');
    if f[0] != "MSG"@ || f.len() < 5 {
        None
    } else {
        let icao_hex = crate::text::in_lower_case(crate::text::trimmed(f[4]));
        if icao_hex.len() == 0 {
            None
        } else {
            Some(
                SbsView {
                    icao_hex,
                    alt_ft: number_field(f, 11),
                    lat: number_field(f, 14),
                    lon: number_field(f, 15),
                },
            )
        }
    }
}

fn field(f: &Vec<Vec<char>>, i: usize) -> (r: Option<String>)
    ensures
        crate::proto::messages::text_view(r) == number_field(crate::text::char_rows(f@), i as int),
{
    assert(crate::text::char_rows(f@).len() == f@.len());
    if i < f.len() {
        find_double(f[i].as_slice())
    } else {
        None
    }
}

/// Reads one line; see `sbs_line`.
pub fn parse_line(line: &str) -> (r: Option<SbsPosition>)
    ensures
        match r {
            Some(p) => sbs_line(line@) == Some(p@),
            None => sbs_line(line@) is None,
        },
{
    let chars = chars_of(line);
    let text = trim_end(chars.as_slice());
    let f = split_on(text.as_slice(), ',');
    let ghost rows = crate::text::char_rows(f@);
    assert(rows.len() == f@.len());
    assert(rows[0] == f@[0]@);
    let tag = string_of(f[0].as_slice());
    if !crate::text::same_text(tag.as_str(), "MSG") || f.len() < 5 {
        return None;
    }
    let id = string_of(trim(f[4].as_slice()).as_slice());
    let icao_hex = lowercase(id.as_str());
    if icao_hex.as_str().is_empty() {
        return None;
    }
    Some(SbsPosition { icao_hex, alt_ft: field(&f, 11), lat: field(&f, 14), lon: field(&f, 15) })
}

/// What stands behind the times of a position line.
pub open spec fn position_rest(alt: Seq<char>, lat: Seq<char>, lon: Seq<char>) -> Seq<char> {
    crate::text::with_field(
        seq![],
        crate::text::with_field(
            alt,
            crate::text::with_field(
                seq![],
                crate::text::with_field(
                    seq![],
                    crate::text::with_field(lat, crate::text::with_field(lon, ",,,,,0"@)),
                ),
            ),
        ),
    )
}

proof fn lemma_position_rest(alt: Seq<char>, lat: Seq<char>, lon: Seq<char>)
    requires
        crate::text::is_field(alt),
        crate::text::is_field(lat),
        crate::text::is_field(lon),
    ensures
        ({
            let p = crate::text::pieces(position_rest(alt, lat, lon), ',');
            &&& p.len() >= 6
            &&& p[1] == alt
            &&& p[4] == lat
            &&& p[5] == lon
        }),
{
    let none: Seq<char> = seq![];
    let end = ",,,,,0"@;
    let r5 = crate::text::with_field(lon, end);
    let r4 = crate::text::with_field(lat, r5);
    let r3 = crate::text::with_field(none, r4);
    let r2 = crate::text::with_field(none, r3);
    let r1 = crate::text::with_field(alt, r2);
    crate::text::lemma_first_field(lon, end);
    crate::text::lemma_first_field(lat, r5);
    crate::text::lemma_first_field(none, r4);
    crate::text::lemma_first_field(none, r3);
    crate::text::lemma_first_field(alt, r2);
    crate::text::lemma_first_field(none, r1);
}

/// The fields of a position line up to its times.
pub open spec fn position_start(hex: Seq<char>, date: Seq<char>, time: Seq<char>) -> Seq<Seq<char>> {
    seq!["MSG"@, "3"@, "1"@, "1"@, hex, "1"@, date, time, date, time]
}

/// A position line is read for what stands in it: the aircraft, its altitude and its position.
pub proof fn law_position_lines_are_read(
    hex: Seq<char>,
    date: Seq<char>,
    time: Seq<char>,
    alt: Seq<char>,
    lat: Seq<char>,
    lon: Seq<char>,
)
    requires
        crate::text::is_field(hex),
        crate::text::is_field(date),
        crate::text::is_field(time),
        crate::text::is_field(alt) && crate::text::is_double(alt),
        crate::text::is_field(lat) && crate::text::is_double(lat),
        crate::text::is_field(lon) && crate::text::is_double(lon),
        crate::text::in_lower_case(hex).len() > 0,
    ensures
        sbs_line(
            crate::text::ten_fields(
                position_start(hex, date, time),
                position_rest(alt, lat, lon),
            ) + "\r\n"@,
        ) == Some(
            SbsView {
                icao_hex: crate::text::in_lower_case(hex),
                alt_ft: Some(alt),
                lat: Some(lat),
                lon: Some(lon),
            },
        ),
{
    let w = position_start(hex, date, time);
    let rest = position_rest(alt, lat, lon);
    let t = crate::text::ten_fields(w, rest);
    let line = t + "\r\n"@;
    reveal_strlit("MSG");
    reveal_strlit("3");
    reveal_strlit("1");
    reveal_strlit(",,,,,0");
    reveal_strlit("\r\n");
    assert forall|i: int| 0 <= i < 10 implies crate::text::is_field(#[trigger] w[i]) by {
        assert(i == 0 || i == 1 || i == 2 || i == 3 || i == 4 || i == 5 || i == 6 || i == 7 || i == 8
            || i == 9);
    }
    crate::text::lemma_ten_fields(w, rest);
    lemma_position_rest(alt, lat, lon);
    crate::text::lemma_field_stays(hex);
    crate::text::lemma_field_stays(alt);
    crate::text::lemma_field_stays(lat);
    crate::text::lemma_field_stays(lon);
    lemma_last_of_rest(alt, lat, lon);
    lemma_last_of_fields(w, rest);
    assert(crate::text::trimmed_end(line) == t) by {
        assert(line.drop_last().drop_last() =~= t);
        assert(line.last() == '\n');
        assert(line.drop_last().last() == '\r');
        assert(!crate::text::is_space('0'));
        reveal_with_fuel(crate::text::trimmed_end, 3);
    }
    let p = crate::text::pieces(t, ',');
    let q = crate::text::pieces(rest, ',');
    assert(p =~= w + q);
    assert(p[0] == w[0] && p[4] == w[4] && p[11] == q[1] && p[14] == q[4] && p[15] == q[5]);
}

proof fn lemma_last_of_rest(alt: Seq<char>, lat: Seq<char>, lon: Seq<char>)
    ensures
        position_rest(alt, lat, lon).len() > 0,
        position_rest(alt, lat, lon).last() == '0',
{
    reveal_strlit(",,,,,0");
    lemma_last_behind(lon, ",,,,,0"@);
    let r5 = crate::text::with_field(lon, ",,,,,0"@);
    lemma_last_behind(lat, r5);
    let r4 = crate::text::with_field(lat, r5);
    lemma_last_behind(seq![], r4);
    let r3 = crate::text::with_field(seq![], r4);
    lemma_last_behind(seq![], r3);
    let r2 = crate::text::with_field(seq![], r3);
    lemma_last_behind(alt, r2);
    lemma_last_behind(seq![], crate::text::with_field(alt, r2));
}

proof fn lemma_last_of_fields(f: Seq<Seq<char>>, rest: Seq<char>)
    requires
        rest.len() > 0,
    ensures
        crate::text::ten_fields(f, rest).len() > 0,
        crate::text::ten_fields(f, rest).last() == rest.last(),
{
    let r9 = crate::text::with_field(f[9], rest);
    let r8 = crate::text::with_field(f[8], r9);
    let r7 = crate::text::with_field(f[7], r8);
    let r6 = crate::text::with_field(f[6], r7);
    let r5 = crate::text::with_field(f[5], r6);
    let r4 = crate::text::with_field(f[4], r5);
    let r3 = crate::text::with_field(f[3], r4);
    let r2 = crate::text::with_field(f[2], r3);
    lemma_last_behind(f[9], rest);
    lemma_last_behind(f[8], r9);
    lemma_last_behind(f[7], r8);
    lemma_last_behind(f[6], r7);
    lemma_last_behind(f[5], r6);
    lemma_last_behind(f[4], r5);
    lemma_last_behind(f[3], r4);
    lemma_last_behind(f[2], r3);
    lemma_last_behind(f[1], r2);
    lemma_last_behind(f[0], crate::text::with_field(f[1], r2));
}

proof fn lemma_last_behind(a: Seq<char>, b: Seq<char>)
    requires
        b.len() > 0,
    ensures
        crate::text::with_field(a, b).len() > 0,
        crate::text::with_field(a, b).last() == b.last(),
{
}

} // verus!
