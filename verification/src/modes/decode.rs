//! Frame decoding, the inverse of `frames`, for the server and for tooling:
//! DF17 airborne position, DF11, and DF4 with Q-bit altitudes.

use vstd::prelude::*;

use crate::icao::Icao;
use crate::modes::alt::{ac12_decode, ac13_decode};
use crate::modes::crc::crc24;

verus! {

/// A decoded DF17 airborne position message.
#[derive(Debug, Clone, Copy, PartialEq, Eq, Structural)]
pub struct Df17Airborne {
    pub icao: Icao,
    pub odd: bool,
    pub cpr_lat: u32,
    pub cpr_lon: u32,
    pub alt_ft: Option<i32>,
}

/// The number that the bytes of `f` from `i` to `j` write, most significant first.
pub open spec fn be_number(f: Seq<u8>, i: int, j: int) -> int
    decreases j - i,
{
    if i >= j {
        0
    } else {
        256 * be_number(f, i, j - 1) + f[j - 1] as int
    }
}

/// The downlink format: the top five bits of the first byte.
pub open spec fn df_spec(f: Seq<u8>) -> Option<u8> {
    if f.len() == 7 || f.len() == 14 {
        Some((f[0] / 8) as u8)
    } else {
        None
    }
}

/// What a DF17 airborne position frame says: `None` where the length, the
/// format, the parity or the type code is not that of one.
pub open spec fn df17_content(f: Seq<u8>) -> Option<Df17Airborne> {
    let me = be_number(f, 4, 11);
    let tc = me / 0x8_0000_0000_0000;
    if f.len() != 14 || f[0] / 8 != 17 || crate::modes::crc::crc24_of(f) != 0 || tc < 9 || tc > 18 {
        None
    } else {
        Some(
            Df17Airborne {
                icao: Icao(be_number(f, 1, 4) as u32),
                odd: me / 0x4_0000_0000 % 2 == 1,
                cpr_lat: (me / 0x2_0000 % 0x2_0000) as u32,
                cpr_lon: (me % 0x2_0000) as u32,
                alt_ft: crate::modes::alt::ac12_altitude(me / 0x10_0000_0000 % 4096),
            },
        )
    }
}

/// What a DF11 frame says.
pub open spec fn df11_content(f: Seq<u8>) -> Option<Icao> {
    if f.len() != 7 || f[0] / 8 != 11 {
        None
    } else {
        Some(Icao(be_number(f, 1, 4) as u32))
    }
}

/// What a DF4 frame says: its address is parity XOR CRC, its altitude AC13.
pub open spec fn df4_content(f: Seq<u8>) -> Option<(Icao, Option<i32>)> {
    if f.len() != 7 || f[0] / 8 != 4 {
        None
    } else {
        Some(
            (
                Icao(
                    (crate::modes::crc::crc24_of(f.take(4)) ^ (be_number(f, 4, 7) as u32))
                        & 0xFF_FFFF,
                ),
                crate::modes::alt::ac13_altitude(be_number(f, 2, 4) % 8192),
            ),
        )
    }
}

/// Downlink format of a raw frame, if length is plausible.
pub fn df_of(f: &[u8]) -> (r: Option<u8>)
    ensures
        r == df_spec(f@),
{
    if f.len() == 7 || f.len() == 14 {
        Some(f[0] / 8)
    } else {
        None
    }
}

/// Parse a 14-byte DF17 airborne position frame (TC 9 to 18). Verifies CRC.
pub fn parse_df17_airborne(f: &[u8]) -> (r: Option<Df17Airborne>)
    ensures
        r == df17_content(f@),
{
    if f.len() != 14 || f[0] / 8 != 17 {
        return None;
    }
    if crc24(f) != 0 {
        return None;
    }
    proof {
        reveal_with_fuel(be_number, 8);
    }
    let icao = Icao(f[1] as u32 * 0x1_0000 + f[2] as u32 * 256 + f[3] as u32);
    let me: u64 = f[4] as u64 * 0x1_0000_0000_0000 + f[5] as u64 * 0x100_0000_0000 + f[6] as u64
        * 0x1_0000_0000 + f[7] as u64 * 0x100_0000 + f[8] as u64 * 0x1_0000 + f[9] as u64 * 256
        + f[10] as u64;
    assert(me as int == be_number(f@, 4, 11));
    let tc: u64 = me / 0x8_0000_0000_0000;
    if tc < 9 || tc > 18 {
        return None;
    }
    Some(
        Df17Airborne {
            icao,
            odd: me / 0x4_0000_0000 % 2 == 1,
            cpr_lat: (me / 0x2_0000 % 0x2_0000) as u32,
            cpr_lon: (me % 0x2_0000) as u32,
            alt_ft: ac12_decode((me / 0x10_0000_0000 % 4096) as u16),
        },
    )
}

/// Parse a 7-byte DF11: recover the address (PI = CRC for II=0 squitters).
pub fn parse_df11(f: &[u8]) -> (r: Option<Icao>)
    ensures
        r == df11_content(f@),
{
    if f.len() != 7 || f[0] / 8 != 11 {
        return None;
    }
    proof {
        reveal_with_fuel(be_number, 4);
    }
    Some(Icao(f[1] as u32 * 0x1_0000 + f[2] as u32 * 256 + f[3] as u32))
}

/// Parse a 7-byte DF4 altitude reply: address recovered from AP XOR CRC,
/// altitude from AC13 (Q-bit path).
pub fn parse_df4(f: &[u8]) -> (r: Option<(Icao, Option<i32>)>)
    ensures
        r == df4_content(f@),
{
    if f.len() != 7 || f[0] / 8 != 4 {
        return None;
    }
    proof {
        reveal_with_fuel(be_number, 4);
    }
    let ap: u32 = f[4] as u32 * 0x1_0000 + f[5] as u32 * 256 + f[6] as u32;
    let head = vstd::slice::slice_subrange(f, 0, 4);
    assert(head@ =~= f@.take(4));
    let icao = Icao((crc24(head) ^ ap) & 0xFF_FFFF);
    let ac: u16 = (f[2] as u16 * 256 + f[3] as u16) % 8192;
    Some((icao, ac13_decode(ac)))
}

} // verus!
