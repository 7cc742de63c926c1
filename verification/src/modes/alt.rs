//! Altitude field encoding. 25-ft (Q=1) paths only; the 100-ft Gillham encoding
//! is read as no altitude.

use vstd::prelude::*;

verus! {

/// The 25-ft step count of an altitude: (alt_ft + 1000) / 25, rounded down.
pub open spec fn alt_steps(alt_ft: int) -> int {
    (alt_ft + 1000) / 25
}

/// The step count fits the eleven bits of the altitude fields.
pub open spec fn encodable(alt_ft: int) -> bool {
    0 <= alt_steps(alt_ft) <= 2047
}

/// N laid out as N[10:4], Q=1, N[3:0].
pub open spec fn ac12_field(n: int) -> int {
    n / 16 * 32 + 16 + n % 16
}

/// N laid out as N[10:5], M=0, N[4], Q=1, N[3:0].
pub open spec fn ac13_field(n: int) -> int {
    n / 32 * 128 + n / 16 % 2 * 32 + 16 + n % 16
}

/// The altitude that an AC12 field carries, where its Q bit is set.
pub open spec fn ac12_altitude(field: int) -> Option<i32> {
    if field / 16 % 2 == 0 {
        None
    } else {
        Some((25 * (field / 32 % 128 * 16 + field % 16) - 1000) as i32)
    }
}

/// The altitude that an AC13 field carries, where M is clear and Q is set.
pub open spec fn ac13_altitude(field: int) -> Option<i32> {
    if field / 64 % 2 != 0 || field / 16 % 2 == 0 {
        None
    } else {
        Some((25 * (field / 128 % 64 * 32 + field / 32 % 2 * 16 + field % 16) - 1000) as i32)
    }
}

/// The step count of an altitude, where it fits the altitude fields.
fn steps_of(alt_ft: i32) -> (r: Option<u16>)
    requires
        alt_ft + 1000 <= i32::MAX,
    ensures
        r is Some <==> encodable(alt_ft as int),
        r matches Some(n) ==> n == alt_steps(alt_ft as int),
{
    let shifted: i32 = alt_ft + 1000;
    if shifted < 0 || shifted / 25 > 2047 {
        None
    } else {
        Some((shifted / 25) as u16)
    }
}

/// AC12: the 12-bit altitude field of DF17 airborne position (TC 9 to 18).
/// Returns None outside the encodable range.
pub fn ac12(alt_ft: i32) -> (r: Option<u16>)
    requires
        alt_ft + 1000 <= i32::MAX,
    ensures
        r is Some <==> encodable(alt_ft as int),
        r matches Some(f) ==> f as int == ac12_field(alt_steps(alt_ft as int)) && f < 4096,
{
    match steps_of(alt_ft) {
        Some(m) => Some(m / 16 * 32 + 16 + m % 16),
        None => None,
    }
}

/// AC13: the 13-bit altitude field of DF0/DF4/DF16/DF20 replies.
/// Returns None outside the encodable range.
pub fn ac13(alt_ft: i32) -> (r: Option<u16>)
    requires
        alt_ft + 1000 <= i32::MAX,
    ensures
        r is Some <==> encodable(alt_ft as int),
        r matches Some(f) ==> f as int == ac13_field(alt_steps(alt_ft as int)) && f < 8192,
{
    match steps_of(alt_ft) {
        Some(m) => Some(m / 32 * 128 + m / 16 % 2 * 32 + 16 + m % 16),
        None => None,
    }
}

/// Decode AC12 (Q-bit path only; Gillham returns None).
pub fn ac12_decode(field: u16) -> (r: Option<i32>)
    ensures
        r == ac12_altitude(field as int),
{
    if field / 16 % 2 == 0 {
        return None;
    }
    let n: u16 = field / 32 % 128 * 16 + field % 16;
    Some(25 * n as i32 - 1000)
}

/// Decode AC13 (M=0, Q=1 path only).
pub fn ac13_decode(field: u16) -> (r: Option<i32>)
    ensures
        r == ac13_altitude(field as int),
{
    if field / 64 % 2 != 0 || field / 16 % 2 == 0 {
        return None;
    }
    let n: u16 = field / 128 % 64 * 32 + field / 32 % 2 * 16 + field % 16;
    Some(25 * n as i32 - 1000)
}

/// Decoding an encoded altitude gives its 25-ft step back, in both fields; an
/// altitude that is a multiple of 25 ft comes back unchanged. What is encoded lies
/// between -1000 ft and the top of the last step.
pub proof fn law_altitude_round_trip(alt_ft: i32)
    requires
        encodable(alt_ft as int),
    ensures
        ac12_altitude(ac12_field(alt_steps(alt_ft as int))) == Some(
            (25 * alt_steps(alt_ft as int) - 1000) as i32,
        ),
        ac13_altitude(ac13_field(alt_steps(alt_ft as int))) == Some(
            (25 * alt_steps(alt_ft as int) - 1000) as i32,
        ),
        (alt_ft + 1000) % 25 == 0 ==> 25 * alt_steps(alt_ft as int) - 1000 == alt_ft,
        -1000 <= alt_ft < 50_200,
{
    lemma_steps(alt_steps(alt_ft as int));
}

proof fn lemma_steps(n: int)
    requires
        0 <= n <= 2047,
    ensures
        ac12_altitude(ac12_field(n)) == Some((25 * n - 1000) as i32),
        ac13_altitude(ac13_field(n)) == Some((25 * n - 1000) as i32),
{
    let a = n / 32;
    let b = n / 16 % 2;
    let c = n % 16;
    assert(n == 32 * a + 16 * b + c);
    lemma_fields(n, a, b, c);
}

/// The layouts, written over the parts N[10:5], N[4] and N[3:0].
proof fn lemma_fields(n: int, a: int, b: int, c: int)
    requires
        n == 32 * a + 16 * b + c,
        0 <= a < 64,
        0 <= b < 2,
        0 <= c < 16,
    ensures
        ac12_altitude(ac12_field(n)) == Some((25 * n - 1000) as i32),
        ac13_altitude(ac13_field(n)) == Some((25 * n - 1000) as i32),
{
    assert(n / 16 == 2 * a + b);
    assert(n % 16 == c);
    let f = ac12_field(n);
    assert(f == 32 * (2 * a + b) + 16 + c);
    assert(f / 16 == 2 * (2 * a + b) + 1);
    assert(f / 32 == 2 * a + b);
    assert(n / 32 == a);
    let g = ac13_field(n);
    assert(g == 128 * a + 32 * b + 16 + c);
    assert(g / 16 == 8 * a + 2 * b + 1);
    assert(g / 32 == 4 * a + b);
    assert(g / 64 == 2 * a);
    assert(g / 128 == a);
}

/// What is encoded of an altitude is at most 25 feet below it and never above it.
pub proof fn law_altitude_rounds_down(alt_ft: int)
    ensures
        25 * alt_steps(alt_ft) - 1000 <= alt_ft < 25 * alt_steps(alt_ft) - 1000 + 25,
        encodable(alt_ft) <==> -1000 <= alt_ft < 50_200,
{
}

} // verus!
