//! Compact Position Reporting: which zone an even and an odd position lie in.
//!
//! A position is sent as its place within a zone, 17 bits for each axis; even and odd
//! positions use grids of different spacing. The pair tells the zone apart. The
//! angles themselves, and the number of longitude zones at a latitude, are calculated
//! in floating point outside.

use vstd::prelude::*;

verus! {

/// 2^17: places within a zone.
pub const PLACES: u32 = 0x2_0000;

/// The index that tells even and odd zones apart: the difference of the places in
/// units of a zone, rounded. `n` is the number of even zones; there is one odd zone
/// less.
pub open spec fn zone_index(even: int, odd: int, n: int) -> int {
    ((n - 1) * even - n * odd + 0x1_0000) / 0x2_0000
}

/// The latitude zones of an even and an odd position.
#[derive(Debug, Clone, Copy, PartialEq, Eq, Structural)]
pub struct LatZones {
    pub even: u32,
    pub odd: u32,
}

/// The latitude zones of a pair: there are 60 even and 59 odd ones.
pub fn lat_zones(even_lat: u32, odd_lat: u32) -> (r: LatZones)
    requires
        even_lat < PLACES,
        odd_lat < PLACES,
    ensures
        r.even == zone_index(even_lat as int, odd_lat as int, 60) % 60,
        r.odd == zone_index(even_lat as int, odd_lat as int, 60) % 59,
{
    // Sixty-four zones more keep the division on positive numbers.
    let v: i64 = 59 * even_lat as i64 - 60 * odd_lat as i64 + 0x1_0000 + 64 * 0x2_0000;
    let j: i64 = v / 0x2_0000 - 64;
    proof {
        let w = 59 * even_lat - 60 * odd_lat + 0x1_0000;
        assert((w + 64 * 0x2_0000) / 0x2_0000 == w / 0x2_0000 + 64);
        assert(j == zone_index(even_lat as int, odd_lat as int, 60));
        assert((j + 120) % 60 == j as int % 60);
        assert((j + 118) % 59 == j as int % 59);
    }
    LatZones { even: ((j + 120) as u32) % 60, odd: ((j + 118) as u32) % 59 }
}

/// Longitude zones of an encoding, where the latitude has `nl` of them: one less for
/// odd positions, but never none.
pub open spec fn lon_zone_count(nl: int, odd: bool) -> int {
    if odd {
        if nl > 1 {
            nl - 1
        } else {
            1
        }
    } else {
        if nl > 0 {
            nl
        } else {
            1
        }
    }
}

/// Longitude zones of an encoding; see `lon_zone_count`.
pub fn lon_zones(nl: u32, odd: bool) -> (r: u32)
    ensures
        r == lon_zone_count(nl as int, odd),
        r > 0,
{
    if odd {
        if nl > 1 {
            nl - 1
        } else {
            1
        }
    } else if nl > 0 {
        nl
    } else {
        1
    }
}

/// The longitude zone of the newer position of a pair, at a latitude with `nl` zones.
pub fn lon_zone(even_lon: u32, odd_lon: u32, nl: u32, recent_odd: bool) -> (r: u32)
    requires
        even_lon < PLACES,
        odd_lon < PLACES,
        1 <= nl <= 59,
    ensures
        r == zone_index(even_lon as int, odd_lon as int, nl as int) % lon_zone_count(
            nl as int,
            recent_odd,
        ),
        r < lon_zone_count(nl as int, recent_odd),
{
    assert(0 <= (nl - 1) * even_lon <= 58 * 0x2_0000) by (nonlinear_arith)
        requires
            1 <= nl <= 59,
            0 <= even_lon < 0x2_0000,
    ;
    assert(0 <= nl * odd_lon <= 59 * 0x2_0000) by (nonlinear_arith)
        requires
            1 <= nl <= 59,
            0 <= odd_lon < 0x2_0000,
    ;
    let v: i64 = (nl as i64 - 1) * even_lon as i64 - nl as i64 * odd_lon as i64 + 0x1_0000 + 64
        * 0x2_0000;
    let m: i64 = v / 0x2_0000 - 64;
    let ni: u32 = lon_zones(nl, recent_odd);
    proof {
        let w = (nl - 1) * even_lon - nl * odd_lon + 0x1_0000;
        assert((w + 64 * 0x2_0000) / 0x2_0000 == w / 0x2_0000 + 64);
        assert(-60 <= m <= 60);
        vstd::arithmetic::div_mod::lemma_mod_multiples_vanish(64, m as int, ni as int);
        assert(64 * ni + m == ni * 64 + m) by (nonlinear_arith);
        vstd::arithmetic::div_mod::lemma_mod_bound(m as int, ni as int);
    }
    let shifted: i64 = 64 * ni as i64 + m;
    (shifted as u32) % ni
}

/// The two places of one position differ by less than half a zone, on the common
/// scale: rounding moves each by at most half a place.
pub open spec fn agree(even_zone: int, even: int, odd_zone: int, odd: int, n: int) -> bool {
    let d = (n - 1) * (even_zone * 0x2_0000 + even) - n * (odd_zone * 0x2_0000 + odd);
    -0x1_0000 <= d < 0x1_0000
}

proof fn lemma_zone_index(even_zone: int, even: int, odd_zone: int, odd: int, n: int)
    requires
        agree(even_zone, even, odd_zone, odd, n),
    ensures
        zone_index(even, odd, n) == n * odd_zone - (n - 1) * even_zone,
{
    let d = (n - 1) * (even_zone * 0x2_0000 + even) - n * (odd_zone * 0x2_0000 + odd);
    let k = n * odd_zone - (n - 1) * even_zone;
    assert((n - 1) * even - n * odd == d + 0x2_0000 * k) by (nonlinear_arith)
        requires
            d == (n - 1) * (even_zone * 0x2_0000 + even) - n * (odd_zone * 0x2_0000 + odd),
            k == n * odd_zone - (n - 1) * even_zone,
    ;
    assert((d + 0x1_0000 + 0x2_0000 * k) / 0x2_0000 == k);
}

/// A pair tells its zones: where an even and an odd position are roundings of one
/// place, the index gives both zones back.
pub proof fn law_pair_tells_the_zones(
    even_zone: int,
    even: int,
    odd_zone: int,
    odd: int,
    n: int,
)
    requires
        n >= 2,
        agree(even_zone, even, odd_zone, odd, n),
        0 <= even_zone < n,
        0 <= odd_zone < n - 1,
    ensures
        zone_index(even, odd, n) % n == even_zone,
        zone_index(even, odd, n) % (n - 1) == odd_zone,
{
    lemma_zone_index(even_zone, even, odd_zone, odd, n);
    let k = n * odd_zone - (n - 1) * even_zone;
    assert(k == n * (odd_zone - even_zone) + even_zone) by (nonlinear_arith)
        requires
            k == n * odd_zone - (n - 1) * even_zone,
    ;
    assert(k == (n - 1) * (odd_zone - even_zone) + odd_zone) by (nonlinear_arith)
        requires
            k == n * odd_zone - (n - 1) * even_zone,
    ;
    vstd::arithmetic::div_mod::lemma_mod_multiples_vanish(odd_zone - even_zone, even_zone, n);
    vstd::arithmetic::div_mod::lemma_mod_multiples_vanish(odd_zone - even_zone, odd_zone, n - 1);
    vstd::arithmetic::div_mod::lemma_small_mod(even_zone as nat, n as nat);
    vstd::arithmetic::div_mod::lemma_small_mod(odd_zone as nat, (n - 1) as nat);
}

} // verus!
