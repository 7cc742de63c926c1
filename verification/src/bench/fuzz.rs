//! Moving receivers in a capture that is to be shared.
//!
//! Receiver coordinates identify homes. A copy of a capture with moved receivers
//! still replays: everything but the coordinates is copied unchanged.

use vstd::prelude::*;
use vstd::string::StringExecFns;

use crate::capture::{Record, REC_CONNECT};
use crate::proto::json::{number_value, parse_json, set_member, value_text, Number};

verus! {

/// Why a recorded handshake cannot be moved.
#[derive(Debug, Clone, Copy, PartialEq, Eq, Structural)]
pub enum FuzzFault {
    /// The handshake is not JSON.
    NotJson,
    /// The handshake is no object.
    NotObject,
    /// A coordinate does not read as a number.
    BadNumber,
}

/// An object with other coordinates.
pub open spec fn moved(
    m: Map<Seq<char>, crate::proto::json::JsonView>,
    lat: crate::proto::json::JsonView,
    lon: crate::proto::json::JsonView,
    alt: crate::proto::json::JsonView,
) -> crate::proto::json::JsonView {
    crate::proto::json::JsonView::Object(
        m.insert("lat"@, lat).insert("lon"@, lon).insert("alt"@, alt),
    )
}

/// A recorded handshake line with other coordinates; the rest of the object stays
/// as it is.
pub fn move_handshake(line: &[u8], lat: &Number, lon: &Number, alt: &Number) -> (r: Result<
    Vec<u8>,
    FuzzFault,
>)
    ensures
        match crate::proto::json::json_of(line@) {
            None => r == Err::<Vec<u8>, FuzzFault>(FuzzFault::NotJson),
            Some(crate::proto::json::JsonView::Object(m)) => match (
                crate::proto::json::number_tree(*lat),
                crate::proto::json::number_tree(*lon),
                crate::proto::json::number_tree(*alt),
            ) {
                (Some(a), Some(b), Some(c)) => r matches Ok(out) && out@
                    == crate::proto::messages::line_bytes(
                    crate::proto::json::json_text(moved(m, a, b, c)),
                ),
                _ => r == Err::<Vec<u8>, FuzzFault>(FuzzFault::BadNumber),
            },
            Some(_) => r == Err::<Vec<u8>, FuzzFault>(FuzzFault::NotObject),
        },
{
    let mut v = match parse_json(line) {
        Ok(v) => v,
        Err(_) => {
            return Err(FuzzFault::NotJson);
        },
    };
    if !v.is_object() {
        return Err(FuzzFault::NotObject);
    }
    match (number_value(lat), number_value(lon), number_value(alt)) {
        (Some(a), Some(b), Some(c)) => {
            let _lat = set_member(&mut v, "lat", a);
            let _lon = set_member(&mut v, "lon", b);
            let _alt = set_member(&mut v, "alt", c);
            let text = value_text(&v);
            let mut out: Vec<u8> = Vec::new();
            out.extend_from_slice(text.as_str().as_bytes());
            out.push(10);
            assert(out@ =~= crate::proto::messages::line_bytes(text@));
            Ok(out)
        },
        _ => Err(FuzzFault::BadNumber),
    }
}

/// The payload of a record in the moved capture: that of a connection is moved, any
/// other is copied.
pub fn move_record(rec: &Record, lat: &Number, lon: &Number, alt: &Number) -> (r: Result<
    Vec<u8>,
    FuzzFault,
>)
    ensures
        rec.kind != REC_CONNECT ==> (r matches Ok(p) && p@ == rec.payload@),
        rec.kind == REC_CONNECT ==> match crate::proto::json::json_of(rec.payload@) {
            None => r == Err::<Vec<u8>, FuzzFault>(FuzzFault::NotJson),
            Some(crate::proto::json::JsonView::Object(m)) => match (
                crate::proto::json::number_tree(*lat),
                crate::proto::json::number_tree(*lon),
                crate::proto::json::number_tree(*alt),
            ) {
                (Some(a), Some(b), Some(c)) => r matches Ok(out) && out@
                    == crate::proto::messages::line_bytes(
                    crate::proto::json::json_text(moved(m, a, b, c)),
                ),
                _ => r == Err::<Vec<u8>, FuzzFault>(FuzzFault::BadNumber),
            },
            Some(_) => r == Err::<Vec<u8>, FuzzFault>(FuzzFault::NotObject),
        },
{
    if rec.kind == REC_CONNECT {
        return move_handshake(rec.payload.as_slice(), lat, lon, alt);
    }
    let mut out: Vec<u8> = Vec::new();
    out.extend_from_slice(rec.payload.as_slice());
    assert(out@ =~= rec.payload@);
    Ok(out)
}

/// The name of a moved capture.
pub fn moved_name(name: &str) -> (r: String)
    ensures
        r@ == name@ + "-fuzzed"@,
{
    let mut out = name.to_owned();
    out.append("-fuzzed");
    out
}

/// Moving a handshake changes its three coordinates and nothing else.
pub proof fn law_moving_keeps_the_rest(
    m: Map<Seq<char>, crate::proto::json::JsonView>,
    lat: crate::proto::json::JsonView,
    lon: crate::proto::json::JsonView,
    alt: crate::proto::json::JsonView,
    key: Seq<char>,
)
    ensures
        key != "lat"@ && key != "lon"@ && key != "alt"@ ==> moved(m, lat, lon, alt).member(key)
            == crate::proto::json::JsonView::Object(m).member(key),
        moved(m, lat, lon, alt).member("lat"@) == Some(lat),
        moved(m, lat, lon, alt).member("lon"@) == Some(lon),
        moved(m, lat, lon, alt).member("alt"@) == Some(alt),
{
    reveal_strlit("lat");
    reveal_strlit("lon");
    reveal_strlit("alt");
    assert("lat"@[1] != "lon"@[1]);
    assert("lat"@[0] != "alt"@[0]);
    assert("lon"@[0] != "alt"@[0]);
}

/// A row of a file of JSON lines as it is copied: compact, and ended by a line feed.
/// `None` where the row is not JSON.
pub fn copy_row(line: &[u8]) -> (r: Option<Vec<u8>>)
    ensures
        match crate::proto::json::json_of(line@) {
            None => r is None,
            Some(v) => r matches Some(b) && b@ == crate::proto::messages::line_bytes(
                crate::proto::json::json_text(v),
            ),
        },
{
    match parse_json(line) {
        Err(_) => None,
        Ok(v) => {
            let text = value_text(&v);
            let mut out: Vec<u8> = Vec::new();
            out.extend_from_slice(text.as_str().as_bytes());
            out.push(10);
            assert(out@ =~= crate::proto::messages::line_bytes(text@));
            Some(out)
        },
    }
}

} // verus!
