//! What scoring reads of a finished run.

use std::collections::HashSet;
use vstd::prelude::*;

use crate::icao::Icao;
use crate::metrics::score::AudibilitySecond;
use crate::proto::json::{member, member_number, member_text, parse_json};
use crate::sim::scenario::{AircraftKind, AircraftSpec};
use crate::text::{chars_of, lines_of, parse_u64, starts_with, string_of, trim, words_of};

verus! {

/// A member of an object that is a counting number.
pub open spec fn integer_member(v: crate::proto::json::JsonView, key: Seq<char>) -> Option<u64> {
    match crate::proto::json::number_member(v, key) {
        Some(t) => match crate::text::parse_decimal(t) {
            Some(n) => if n <= u64::MAX {
                Some(n as u64)
            } else {
                None
            },
            None => None,
        },
        None => None,
    }
}

fn member_integer(v: &serde_json::Value, key: &str) -> (r: Option<u64>)
    ensures
        r == integer_member(crate::proto::json::value_view(*v), key@),
{
    match member_number(v, key) {
        Some(t) => {
            let c = chars_of(t.as_str());
            parse_u64(c.as_slice())
        },
        None => None,
    }
}

/// A row of the audibility file: second, address, and how many receivers hear.
pub open spec fn audibility_in(v: crate::proto::json::JsonView) -> Option<(u64, u64, nat)> {
    match (integer_member(v, "t_s"@), integer_member(v, "icao"@), v.member("receivers"@)) {
        (Some(t), Some(a), Some(crate::proto::json::JsonView::Array(r))) => Some((t, a, r.len())),
        _ => None,
    }
}

/// Reads a row of the audibility file; `None` where a member is missing. The address
/// keeps its low 32 bits.
pub fn read_audibility(line: &[u8]) -> (r: Option<AudibilitySecond>)
    ensures
        match crate::proto::json::json_of(line@) {
            None => r is None,
            Some(v) => match audibility_in(v) {
                None => r is None,
                Some(row) => r matches Some(a) && a.t_s == row.0 && a.icao.0 == row.1
                    % 0x1_0000_0000 && a.n_receivers == row.2,
            },
        },
{
    let v = match parse_json(line) {
        Ok(v) => v,
        Err(_) => {
            return None;
        },
    };
    match (member_integer(&v, "t_s"), member_integer(&v, "icao"), member(&v, "receivers")) {
        (Some(t_s), Some(a), Some(m)) => match m.as_array() {
            Some(items) => {
                let ghost views = items@.map_values(
                    |x: serde_json::Value| crate::proto::json::value_view(x),
                );
                assert(views.len() == items@.len());
                Some(
                    AudibilitySecond {
                        t_s,
                        icao: Icao((a % 0x1_0000_0000) as u32),
                        n_receivers: items.len(),
                    },
                )
            },
            None => None,
        },
        _ => None,
    }
}

/// What scoring reads of the file about a run. The time is there as its token.
#[derive(Debug)]
pub struct RunText {
    /// The wall time of the scenario's start.
    pub wall_t0: Option<String>,
    /// Where the capture is.
    pub capture: Option<String>,
}

/// Reads the file about a run; `None` where it is not JSON.
pub fn read_run(text: &[u8]) -> (r: Option<RunText>)
    ensures
        match crate::proto::json::json_of(text@) {
            None => r is None,
            Some(v) => r matches Some(s) && crate::proto::messages::text_view(s.wall_t0)
                == crate::proto::json::number_member(v, "wall_t0"@)
                && crate::proto::messages::text_view(s.capture)
                == crate::proto::json::text_member(v, "capture"@),
        },
{
    match parse_json(text) {
        Ok(v) => Some(
            RunText { wall_t0: member_number(&v, "wall_t0"), capture: member_text(&v, "capture") },
        ),
        Err(_) => None,
    }
}

/// A sample of the resources file: time, as its token, processor time and memory.
#[derive(Debug)]
pub struct SampleText {
    pub t: String,
    pub cpu_usec: Option<u64>,
    pub mem_bytes: Option<u64>,
}

/// Reads a line of the resources file; `None` without a time.
pub fn read_sample(line: &[u8]) -> (r: Option<SampleText>)
    ensures
        match crate::proto::json::json_of(line@) {
            None => r is None,
            Some(v) => match crate::proto::json::number_member(v, "t"@) {
                None => r is None,
                Some(t) => r matches Some(s) && s.t@ == t && s.cpu_usec == integer_member(
                    v,
                    "cpu_usec"@,
                ) && s.mem_bytes == integer_member(v, "mem_bytes"@),
            },
        },
{
    let v = match parse_json(line) {
        Ok(v) => v,
        Err(_) => {
            return None;
        },
    };
    match member_number(&v, "t") {
        Some(t) => Some(
            SampleText {
                t,
                cpu_usec: member_integer(&v, "cpu_usec"),
                mem_bytes: member_integer(&v, "mem_bytes"),
            },
        ),
        None => None,
    }
}

/// The first line that starts with a word.
pub open spec fn line_starting(lines: Seq<Seq<char>>, p: Seq<char>) -> Option<Seq<char>>
    decreases lines.len(),
{
    if lines.len() == 0 {
        None
    } else if lines[0].len() >= p.len() && lines[0].take(p.len() as int) == p {
        Some(lines[0])
    } else {
        line_starting(lines.drop_first(), p)
    }
}

/// A counting number, white space around it ignored.
pub open spec fn integer_text(s: Seq<char>) -> Option<u64> {
    match crate::text::parse_decimal(s) {
        Some(n) => if n <= u64::MAX {
            Some(n as u64)
        } else {
            None
        },
        None => None,
    }
}

/// The processor time in a control group's statistics: the second word of the first
/// line about it.
pub open spec fn cpu_time_in(text: Seq<char>) -> Option<u64> {
    match line_starting(crate::text::lines(text), "usage_usec"@) {
        Some(l) => if crate::text::words(l).len() >= 2 {
            integer_text(crate::text::words(l)[1])
        } else {
            None
        },
        None => None,
    }
}

/// Reads the processor time out of a control group's statistics.
pub fn cpu_time(text: &str) -> (r: Option<u64>)
    ensures
        r == cpu_time_in(text@),
{
    let chars = chars_of(text);
    let lines = lines_of(chars.as_slice());
    let ghost ls = crate::text::lines(text@);
    assert(ls.len() == lines@.len());
    assert(ls.skip(0) =~= ls);
    let mut i: usize = 0;
    while i < lines.len()
        invariant
            ls == crate::text::char_rows(lines@),
            ls == crate::text::lines(text@),
            i <= lines@.len(),
            line_starting(ls, "usage_usec"@) == line_starting(ls.skip(i as int), "usage_usec"@),
        decreases lines@.len() - i,
    {
        let line = string_of(lines[i].as_slice());
        assert(ls.skip(i as int)[0] == line@);
        assert(ls.skip(i as int).drop_first() =~= ls.skip(i + 1));
        if starts_with(line.as_str(), "usage_usec") {
            let w = words_of(lines[i].as_slice());
            let ghost ws = crate::text::words(line@);
            assert(ws.len() == w@.len());
            return if w.len() >= 2 {
                assert(ws[1] == w@[1]@);
                parse_u64(w[1].as_slice())
            } else {
                None
            };
        }
        i = i + 1;
    }
    None
}

/// Reads the memory use out of a control group's file.
pub fn memory_use(text: &str) -> (r: Option<u64>)
    ensures
        r == integer_text(crate::text::trimmed(text@)),
{
    let chars = chars_of(text);
    let t = trim(chars.as_slice());
    parse_u64(t.as_slice())
}

/// The addresses of the aircraft of a kind; `None` stands for every kind.
pub open spec fn addresses(a: Seq<AircraftSpec>, kind: Option<AircraftKind>) -> Set<u32>
    decreases a.len(),
{
    if a.len() == 0 {
        Set::empty()
    } else {
        let rest = addresses(a.drop_last(), kind);
        let x = a.last();
        match crate::icao::icao_from_hex(x.icao@) {
            Some(i) => if kind is None || kind == Some(x.kind) {
                rest.insert(i.0)
            } else {
                rest
            },
            None => rest,
        }
    }
}

/// The addresses of the aircraft of a kind, or of every kind. Those that emit no
/// positions are the ones that a server has to find.
pub fn scenario_addresses(a: &Vec<AircraftSpec>, kind: Option<AircraftKind>) -> (r: HashSet<u32>)
    ensures
        r@ == addresses(a@, kind),
{
    broadcast use vstd::std_specs::hash::group_hash_axioms;

    let mut out: HashSet<u32> = HashSet::new();
    let mut i: usize = 0;
    assert(out@ =~= addresses(a@.take(0), kind));
    while i < a.len()
        invariant
            i <= a@.len(),
            out@ == addresses(a@.take(i as int), kind),
        decreases a@.len() - i,
    {
        broadcast use vstd::std_specs::hash::group_hash_axioms;

        proof {
            assert(a@.take(i + 1).drop_last() =~= a@.take(i as int));
            assert(a@.take(i + 1).last() == a@[i as int]);
        }
        let counts: bool = match kind {
            None => true,
            Some(k) => k == a[i].kind,
        };
        if let Some(icao) = Icao::from_hex(a[i].icao.as_str()) {
            if counts {
                out.insert(icao.0);
            }
        }
        i = i + 1;
    }
    assert(a@.take(a@.len() as int) =~= a@);
    out
}

/// An address is listed where an aircraft of the kind has it, or any aircraft where no kind is
/// asked for.
pub proof fn law_addresses_of_a_kind(a: Seq<AircraftSpec>, kind: Option<AircraftKind>, x: u32)
    ensures
        addresses(a, kind).contains(x) <==> exists|i: int|
            0 <= i < a.len() && crate::icao::icao_from_hex((#[trigger] a[i]).icao@) == Some(
                crate::icao::Icao(x),
            ) && (kind is None || kind == Some(a[i].kind)),
    decreases a.len(),
{
    if a.len() > 0 {
        let r = a.drop_last();
        law_addresses_of_a_kind(r, kind, x);
        if addresses(r, kind).contains(x) {
            let i = choose|i: int|
                0 <= i < r.len() && crate::icao::icao_from_hex((#[trigger] r[i]).icao@) == Some(
                    crate::icao::Icao(x),
                ) && (kind is None || kind == Some(r[i].kind));
            assert(a[i] == r[i]);
        }
        if addresses(a, kind).contains(x) && !addresses(r, kind).contains(x) {
            assert(crate::icao::icao_from_hex(a[a.len() - 1].icao@) == Some(crate::icao::Icao(x)));
        }
        if exists|i: int|
            0 <= i < a.len() && crate::icao::icao_from_hex((#[trigger] a[i]).icao@) == Some(
                crate::icao::Icao(x),
            ) && (kind is None || kind == Some(a[i].kind)) {
            let i = choose|i: int|
                0 <= i < a.len() && crate::icao::icao_from_hex((#[trigger] a[i]).icao@) == Some(
                    crate::icao::Icao(x),
                ) && (kind is None || kind == Some(a[i].kind));
            if i < r.len() {
                assert(r[i] == a[i]);
            }
        }
    }
}

/// The line that is found starts with the word, and no line before it does.
pub proof fn law_first_line_is_found(lines: Seq<Seq<char>>, p: Seq<char>, k: int)
    requires
        0 <= k < lines.len(),
        lines[k].len() >= p.len(),
        lines[k].take(p.len() as int) == p,
        forall|i: int|
            0 <= i < k ==> (#[trigger] lines[i]).len() < p.len() || lines[i].take(p.len() as int)
                != p,
    ensures
        line_starting(lines, p) == Some(lines[k]),
    decreases lines.len(),
{
    if k > 0 {
        let r = lines.drop_first();
        assert(lines[0].len() < p.len() || lines[0].take(p.len() as int) != p);
        assert(r[k - 1] == lines[k]);
        assert forall|i: int| 0 <= i < k - 1 implies (#[trigger] r[i]).len() < p.len() || r[i].take(
            p.len() as int,
        ) != p by {
            assert(r[i] == lines[i + 1]);
        }
        law_first_line_is_found(r, p, k - 1);
    }
}

} // verus!
