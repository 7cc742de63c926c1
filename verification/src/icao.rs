//! Aircraft addresses and simulation time.

use vstd::prelude::*;

use crate::text::{chars_of, hex_char_of, parse_hex_u32, trim};

verus! {

/// 24-bit ICAO aircraft address.
#[derive(Debug, Clone, Copy, PartialEq, Eq, Structural, Hash, PartialOrd, Ord)]
pub struct Icao(pub u32);

impl Icao {
    /// The address fits the 24 bits that go on the air.
    pub open spec fn valid(self) -> bool {
        self.0 <= 0xFF_FFFF
    }

    /// Render as the 6-hex-digit form used everywhere in the ADS-B world.
    pub fn to_hex(self) -> (r: String)
        ensures
            r@ == crate::text::hex_digits(self.0 as int % 0x100_0000, 6),
    {
        let mut out = String::new();
        let v: u32 = self.0 % 0x100_0000;
        proof {
            reveal_with_fuel(crate::text::hex_digits, 7);
        }
        out.push(hex_char_of((v / 0x10_0000 % 16) as u8));
        out.push(hex_char_of((v / 0x1_0000 % 16) as u8));
        out.push(hex_char_of((v / 0x1000 % 16) as u8));
        out.push(hex_char_of((v / 0x100 % 16) as u8));
        out.push(hex_char_of((v / 0x10 % 16) as u8));
        out.push(hex_char_of((v % 16) as u8));
        out
    }

    /// Read the hexadecimal form: white space around it is ignored, digits may
    /// have either case, and the value must fit 24 bits.
    pub fn from_hex(s: &str) -> (r: Option<Self>)
        ensures
            r == icao_from_hex(s@),
    {
        let chars = chars_of(s);
        let t = trim(chars.as_slice());
        match parse_hex_u32(t.as_slice()) {
            Some(v) => if v <= 0xFF_FFFF {
                Some(Icao(v))
            } else {
                None
            },
            None => None,
        }
    }
}

/// What `Icao::from_hex` reads in a text.
pub open spec fn icao_from_hex(s: Seq<char>) -> Option<Icao> {
    match crate::text::parse_hex(crate::text::trimmed(s)) {
        Some(v) => if v <= 0xFF_FFFF {
            Some(Icao(v as u32))
        } else {
            None
        },
        None => None,
    }
}

/// Reading what `to_hex` writes gives the low 24 bits of the address back, so
/// a valid address survives the round trip.
pub proof fn law_hex_round_trip(icao: Icao)
    ensures
        icao_from_hex(crate::text::hex_digits(icao.0 as int % 0x100_0000, 6)) == Some(
            Icao((icao.0 % 0x100_0000) as u32),
        ),
        icao.valid() ==> icao_from_hex(crate::text::hex_digits(icao.0 as int % 0x100_0000, 6))
            == Some(icao),
{
    let n = icao.0 as int % 0x100_0000;
    let t = crate::text::hex_digits(n, 6);
    crate::text::lemma_hex_digits(n, 6);
    assert(vstd::arithmetic::power::pow(16, 6) == 0x100_0000) by {
        reveal_with_fuel(vstd::arithmetic::power::pow, 7);
    }
    assert(crate::text::hex_digit(t[0]) is Some);
    assert(crate::text::hex_digit(t[5]) is Some);
    assert(crate::text::trimmed(t) == t);
}

/// Simulation time: nanoseconds since the scenario epoch.
#[derive(Debug, Clone, Copy, PartialEq, Eq, Structural, Hash, PartialOrd, Ord)]
pub struct SimNanos(pub u64);

} // verus!
