//! Downlink frame builders. Each returns the complete on-air bytes, parity
//! included.

use vstd::prelude::*;

use crate::icao::Icao;
use crate::modes::alt::{ac12, ac13};
use crate::modes::crc::crc24;

verus! {

/// The 56-bit ME field of an airborne position: TC(5) SS(2)=0 SAF(1)=0 ALT12
/// T(1)=0 F(1) LAT17 LON17.
pub open spec fn airborne_me(tc: int, alt12: int, odd: bool, lat: int, lon: int) -> int {
    tc * 0x8_0000_0000_0000 + alt12 * 0x10_0000_0000 + (if odd {
        0x4_0000_0000int
    } else {
        0
    }) + lat * 0x2_0000 + lon
}

/// First byte, address and ME field of an extended squitter: what its parity covers.
pub open spec fn squitter_head(first: int, icao: Icao, me: int) -> Seq<u8> {
    seq![
        first as u8,
        (icao.0 / 0x1_0000 % 256) as u8,
        (icao.0 / 256 % 256) as u8,
        (icao.0 % 256) as u8,
        (me / 0x1_0000_0000_0000 % 256) as u8,
        (me / 0x100_0000_0000 % 256) as u8,
        (me / 0x1_0000_0000 % 256) as u8,
        (me / 0x100_0000 % 256) as u8,
        (me / 0x1_0000 % 256) as u8,
        (me / 256 % 256) as u8,
        (me % 256) as u8,
    ]
}

/// Format, capability, address and ME field of a DF17.
pub open spec fn df17_head(icao: Icao, ca: u8, me: int) -> Seq<u8> {
    squitter_head(136 + ca % 8, icao, me)
}

/// A head followed by its CRC.
pub open spec fn with_parity(head: Seq<u8>) -> Seq<u8> {
    head + crate::modes::crc::be24(crate::modes::crc::crc24_of(head) as int)
}

/// Format, capability and address of a DF11.
pub open spec fn df11_head(icao: Icao, ca: u8) -> Seq<u8> {
    seq![
        (88 + ca % 8) as u8,
        (icao.0 / 0x1_0000 % 256) as u8,
        (icao.0 / 256 % 256) as u8,
        (icao.0 % 256) as u8,
    ]
}

/// Format, flight status, DR=0, UM=0 and AC13 of a DF4.
pub open spec fn df4_head(fs: u8, field: int) -> Seq<u8> {
    seq![(32 + fs % 8) as u8, 0u8, (field / 256) as u8, (field % 256) as u8]
}

/// A DF4: its parity is the CRC of the head XOR the address.
pub open spec fn df4_frame(icao: Icao, fs: u8, field: int) -> Seq<u8> {
    df4_head(fs, field) + crate::modes::crc::be24(
        (crate::modes::crc::crc24_of(df4_head(fs, field)) ^ icao.0) as int,
    )
}

fn airborne_position(first: u8, icao: Icao, tc: u8, alt_ft: i32, cpr: (u32, u32), odd: bool) -> (r:
    Option<[u8; 14]>)
    requires
        9 <= tc <= 18,
        alt_ft + 1000 <= i32::MAX,
        cpr.0 < 0x2_0000,
        cpr.1 < 0x2_0000,
    ensures
        r is Some <==> crate::modes::alt::encodable(alt_ft as int),
        r matches Some(f) ==> f@ == with_parity(
            squitter_head(
                first as int,
                icao,
                airborne_me(
                    tc as int,
                    crate::modes::alt::ac12_field(crate::modes::alt::alt_steps(alt_ft as int)),
                    odd,
                    cpr.0 as int,
                    cpr.1 as int,
                ),
            ),
        ),
{
    let alt12: u64 = match ac12(alt_ft) {
        Some(a) => a as u64,
        None => {
            return None;
        },
    };
    let format: u64 = if odd {
        0x4_0000_0000
    } else {
        0
    };
    let me: u64 = tc as u64 * 0x8_0000_0000_0000 + alt12 * 0x10_0000_0000 + format + cpr.0 as u64
        * 0x2_0000 + cpr.1 as u64;
    let head: [u8; 11] = [
        first,
        (icao.0 / 0x1_0000 % 256) as u8,
        (icao.0 / 256 % 256) as u8,
        (icao.0 % 256) as u8,
        (me / 0x1_0000_0000_0000 % 256) as u8,
        (me / 0x100_0000_0000 % 256) as u8,
        (me / 0x1_0000_0000 % 256) as u8,
        (me / 0x100_0000 % 256) as u8,
        (me / 0x1_0000 % 256) as u8,
        (me / 256 % 256) as u8,
        (me % 256) as u8,
    ];
    let p: u32 = crc24(head.as_slice());
    let f: [u8; 14] = [
        head[0],
        head[1],
        head[2],
        head[3],
        head[4],
        head[5],
        head[6],
        head[7],
        head[8],
        head[9],
        head[10],
        (p / 0x1_0000 % 256) as u8,
        (p / 256 % 256) as u8,
        (p % 256) as u8,
    ];
    proof {
        let want = squitter_head(first as int, icao, me as int);
        assert(head@ =~= want);
        assert(f@ =~= with_parity(want));
    }
    Some(f)
}

/// DF17 extended squitter, airborne position (TC 9 to 18), barometric altitude.
/// `cpr` is the 17-bit encoded latitude and longitude, `odd` the CPR format
/// flag. None if the altitude cannot be encoded.
pub fn df17_airborne_position(
    icao: Icao,
    ca: u8,
    tc: u8,
    alt_ft: i32,
    cpr: (u32, u32),
    odd: bool,
) -> (r: Option<[u8; 14]>)
    requires
        9 <= tc <= 18,
        alt_ft + 1000 <= i32::MAX,
        cpr.0 < 0x2_0000,
        cpr.1 < 0x2_0000,
    ensures
        r is Some <==> crate::modes::alt::encodable(alt_ft as int),
        r matches Some(f) ==> f@ == with_parity(
            df17_head(
                icao,
                ca,
                airborne_me(
                    tc as int,
                    crate::modes::alt::ac12_field(crate::modes::alt::alt_steps(alt_ft as int)),
                    odd,
                    cpr.0 as int,
                    cpr.1 as int,
                ),
            ),
        ),
{
    airborne_position(136 + ca % 8, icao, tc, alt_ft, cpr, odd)
}

/// DF18 airborne position (control field 2, type code 18): the form in which a
/// computed position is handed on.
pub fn df18_airborne_position(icao: Icao, alt_ft: i32, cpr: (u32, u32), odd: bool) -> (r: Option<
    [u8; 14],
>)
    requires
        alt_ft + 1000 <= i32::MAX,
        cpr.0 < 0x2_0000,
        cpr.1 < 0x2_0000,
    ensures
        r is Some <==> crate::modes::alt::encodable(alt_ft as int),
        r matches Some(f) ==> f@ == df18_frame(icao, alt_ft, cpr, odd),
{
    airborne_position(146, icao, 18, alt_ft, cpr, odd)
}

/// A DF18 position frame.
pub open spec fn df18_frame(icao: Icao, alt_ft: i32, cpr: (u32, u32), odd: bool) -> Seq<u8> {
    with_parity(
        squitter_head(
            146,
            icao,
            airborne_me(
                18,
                crate::modes::alt::ac12_field(crate::modes::alt::alt_steps(alt_ft as int)),
                odd,
                cpr.0 as int,
                cpr.1 as int,
            ),
        ),
    )
}

/// DF11 all-call reply / acquisition squitter, 7 bytes. Spontaneous squitters
/// use II=0, so PI is the bare CRC and any receiver can recover the address.
pub fn df11(icao: Icao, ca: u8) -> (r: [u8; 7])
    ensures
        r@ == with_parity(df11_head(icao, ca)),
{
    let head: [u8; 4] = [
        88 + ca % 8,
        (icao.0 / 0x1_0000 % 256) as u8,
        (icao.0 / 256 % 256) as u8,
        (icao.0 % 256) as u8,
    ];
    let p: u32 = crc24(head.as_slice());
    let f: [u8; 7] = [
        head[0],
        head[1],
        head[2],
        head[3],
        (p / 0x1_0000 % 256) as u8,
        (p / 256 % 256) as u8,
        (p % 256) as u8,
    ];
    proof {
        assert(head@ =~= df11_head(icao, ca));
        assert(f@ =~= with_parity(df11_head(icao, ca)));
    }
    f
}

/// DF4 surveillance altitude reply, 7 bytes. AP = parity XOR address, so the
/// receiver recovers the address. fs: flight status (0 = airborne). None if the
/// altitude cannot be encoded.
pub fn df4(icao: Icao, fs: u8, alt_ft: i32) -> (r: Option<[u8; 7]>)
    requires
        alt_ft + 1000 <= i32::MAX,
    ensures
        r is Some <==> crate::modes::alt::encodable(alt_ft as int),
        r matches Some(f) ==> f@ == df4_frame(
            icao,
            fs,
            crate::modes::alt::ac13_field(crate::modes::alt::alt_steps(alt_ft as int)),
        ),
{
    let field: u16 = match ac13(alt_ft) {
        Some(a) => a,
        None => {
            return None;
        },
    };
    let head: [u8; 4] = [32 + fs % 8, 0, (field / 256) as u8, (field % 256) as u8];
    let ap: u32 = crc24(head.as_slice()) ^ icao.0;
    let f: [u8; 7] = [
        head[0],
        head[1],
        head[2],
        head[3],
        (ap / 0x1_0000 % 256) as u8,
        (ap / 256 % 256) as u8,
        (ap % 256) as u8,
    ];
    proof {
        assert(head@ =~= df4_head(fs, field as int));
        assert(f@ =~= df4_frame(icao, fs, field as int));
    }
    Some(f)
}

/// Three bytes write the low 24 bits of a number.
proof fn lemma_low24(n: int)
    requires
        0 <= n,
    ensures
        (n / 0x1_0000 % 256) * 0x1_0000 + (n / 256 % 256) * 256 + n % 256 == n % 0x100_0000,
{
    let a = n / 256;
    let b = n / 0x1_0000;
    let c = n / 0x100_0000;
    assert(b == a / 256);
    assert(c == b / 256);
    assert(n == 256 * a + n % 256);
    assert(a == 256 * b + a % 256);
    assert(b == 256 * c + b % 256);
    assert(n == 0x100_0000 * c + n % 0x100_0000);
}

/// A three-byte number, written out.
proof fn lemma_three_bytes(f: Seq<u8>, i: int)
    ensures
        crate::modes::decode::be_number(f, i, i + 3) == f[i] * 0x1_0000 + f[i + 1] * 256 + f[i + 2],
{
    reveal_with_fuel(crate::modes::decode::be_number, 4);
}

/// A two-byte number, written out.
proof fn lemma_two_bytes(f: Seq<u8>, i: int)
    ensures
        crate::modes::decode::be_number(f, i, i + 2) == f[i] * 256 + f[i + 1],
{
    reveal_with_fuel(crate::modes::decode::be_number, 3);
}

proof fn lemma_df17_me(icao: Icao, ca: u8, me: int)
    requires
        0 <= me < 0x100_0000_0000_0000,
    ensures
        crate::modes::decode::be_number(with_parity(df17_head(icao, ca, me)), 4, 11) == me,
        crate::modes::decode::be_number(with_parity(df17_head(icao, ca, me)), 1, 4)
            == icao.0 as int % 0x100_0000,
{
    let f = with_parity(df17_head(icao, ca, me));
    lemma_low24(icao.0 as int);
    lemma_three_bytes(f, 1);
    let m1 = me / 256;
    let m2 = me / 0x1_0000;
    let m3 = me / 0x100_0000;
    let m4 = me / 0x1_0000_0000;
    let m5 = me / 0x100_0000_0000;
    let m6 = me / 0x1_0000_0000_0000;
    assert(m2 == m1 / 256);
    assert(m3 == m2 / 256);
    assert(m4 == m3 / 256);
    assert(m5 == m4 / 256);
    assert(m6 == m5 / 256);
    assert(f[4] as int == m6);
    assert(m5 == 256 * m6 + f[5]);
    assert(m4 == 256 * m5 + f[6]);
    assert(m3 == 256 * m4 + f[7]);
    assert(m2 == 256 * m3 + f[8]);
    assert(m1 == 256 * m2 + f[9]);
    assert(me == 256 * m1 + f[10]);
    reveal_with_fuel(crate::modes::decode::be_number, 8);
}

#[verifier::rlimit(40)]
proof fn lemma_me_fields(tc: int, alt12: int, odd: bool, lat: int, lon: int)
    requires
        9 <= tc <= 18,
        0 <= alt12 < 4096,
        0 <= lat < 0x2_0000,
        0 <= lon < 0x2_0000,
    ensures
        ({
            let me = airborne_me(tc, alt12, odd, lat, lon);
            &&& 0 <= me < 0x100_0000_0000_0000
            &&& me / 0x8_0000_0000_0000 == tc
            &&& me / 0x10_0000_0000 % 4096 == alt12
            &&& (me / 0x4_0000_0000 % 2 == 1) == odd
            &&& me / 0x2_0000 % 0x2_0000 == lat
            &&& me % 0x2_0000 == lon
        }),
{
    let me = airborne_me(tc, alt12, odd, lat, lon);
    let o = if odd {
        1int
    } else {
        0
    };
    assert(me / 0x2_0000 == tc * 0x4_0000_0000 + alt12 * 0x8_0000 + o * 0x2_0000 + lat);
    assert(me / 0x4_0000_0000 == tc * 0x2_0000 + alt12 * 4 + o);
    assert(me / 0x10_0000_0000 == tc * 0x8000 + alt12);
}

/// Decoding a DF17 airborne position frame gives back the address, the CPR
/// pair, the format flag and the altitude on its 25-ft step, and the frame's
/// CRC remainder is zero.
pub proof fn law_df17_round_trip(
    icao: Icao,
    ca: u8,
    tc: u8,
    alt_ft: i32,
    cpr: (u32, u32),
    odd: bool,
)
    requires
        9 <= tc <= 18,
        crate::modes::alt::encodable(alt_ft as int),
        cpr.0 < 0x2_0000,
        cpr.1 < 0x2_0000,
    ensures
        ({
            let n = crate::modes::alt::alt_steps(alt_ft as int);
            let f = with_parity(
                df17_head(
                    icao,
                    ca,
                    airborne_me(
                        tc as int,
                        crate::modes::alt::ac12_field(n),
                        odd,
                        cpr.0 as int,
                        cpr.1 as int,
                    ),
                ),
            );
            &&& crate::modes::crc::crc24_of(f) == 0
            &&& crate::modes::decode::df17_content(f) == Some(
                crate::modes::decode::Df17Airborne {
                    icao: Icao((icao.0 % 0x100_0000) as u32),
                    odd,
                    cpr_lat: cpr.0,
                    cpr_lon: cpr.1,
                    alt_ft: Some((25 * n - 1000) as i32),
                },
            )
        }),
{
    let n = crate::modes::alt::alt_steps(alt_ft as int);
    let field = crate::modes::alt::ac12_field(n);
    let me = airborne_me(tc as int, field, odd, cpr.0 as int, cpr.1 as int);
    let head = df17_head(icao, ca, me);
    crate::modes::crc::law_parity_closes(head);
    crate::modes::alt::law_altitude_round_trip(alt_ft);
    assert(0 <= field < 4096);
    lemma_me_fields(tc as int, field, odd, cpr.0 as int, cpr.1 as int);
    lemma_df17_me(icao, ca, me);
    assert(with_parity(head)[0] == head[0]);
}

/// Decoding a DF11 gives the low 24 bits of the address back.
pub proof fn law_df11_round_trip(icao: Icao, ca: u8)
    ensures
        crate::modes::decode::df11_content(with_parity(df11_head(icao, ca))) == Some(
            Icao((icao.0 % 0x100_0000) as u32),
        ),
{
    let f = with_parity(df11_head(icao, ca));
    lemma_low24(icao.0 as int);
    lemma_three_bytes(f, 1);
}

proof fn lemma_address_xor(c: u32, icao: u32, ap: u32)
    by (bit_vector)
    requires
        c <= 0xFF_FFFF,
        ap == (c ^ icao) % 0x100_0000,
    ensures
        (c ^ ap) & 0xFF_FFFF == icao % 0x100_0000,
{
}

proof fn lemma_df4_content(icao: Icao, fs: u8, field: int)
    requires
        0 <= field < 8192,
    ensures
        crate::modes::decode::df4_content(df4_frame(icao, fs, field)) == Some(
            (Icao((icao.0 % 0x100_0000) as u32), crate::modes::alt::ac13_altitude(field)),
        ),
{
    let head = df4_head(fs, field);
    let f = df4_frame(icao, fs, field);
    let c = crate::modes::crc::crc24_of(head);
    crate::modes::crc::lemma_crc24_bound(head);
    let ap = c ^ icao.0;
    lemma_low24(ap as int);
    lemma_three_bytes(f, 4);
    lemma_two_bytes(f, 2);
    assert(crate::modes::decode::be_number(f, 4, 7) == ap as int % 0x100_0000);
    lemma_address_xor(c, icao.0, (ap % 0x100_0000) as u32);
    assert(f.take(4) =~= head);
    assert(crate::modes::decode::be_number(f, 2, 4) == field);
}

/// Decoding a DF4 gives back the low 24 bits of the address and the altitude on
/// its 25-ft step.
pub proof fn law_df4_round_trip(icao: Icao, fs: u8, alt_ft: i32)
    requires
        crate::modes::alt::encodable(alt_ft as int),
    ensures
        ({
            let n = crate::modes::alt::alt_steps(alt_ft as int);
            crate::modes::decode::df4_content(
                df4_frame(icao, fs, crate::modes::alt::ac13_field(n)),
            ) == Some((Icao((icao.0 % 0x100_0000) as u32), Some((25 * n - 1000) as i32)))
        }),
{
    let n = crate::modes::alt::alt_steps(alt_ft as int);
    let field = crate::modes::alt::ac13_field(n);
    assert(0 <= field < 8192);
    lemma_df4_content(icao, fs, field);
    crate::modes::alt::law_altitude_round_trip(alt_ft);
}

proof fn lemma_df18_me(icao: Icao, me: int)
    requires
        0 <= me < 0x100_0000_0000_0000,
    ensures
        crate::modes::decode::be_number(with_parity(squitter_head(146, icao, me)), 4, 11) == me,
        crate::modes::decode::be_number(with_parity(squitter_head(146, icao, me)), 1, 4)
            == icao.0 as int % 0x100_0000,
{
    let f = with_parity(squitter_head(146, icao, me));
    let g = with_parity(df17_head(icao, 0, me));
    lemma_df17_me(icao, 0, me);
    lemma_same_number(f, g, 4, 11);
    lemma_same_number(f, g, 1, 4);
}

/// The same bytes write the same number.
proof fn lemma_same_number(f: Seq<u8>, g: Seq<u8>, i: int, j: int)
    requires
        forall|k: int| i <= k < j ==> #[trigger] f[k] == g[k],
    ensures
        crate::modes::decode::be_number(f, i, j) == crate::modes::decode::be_number(g, i, j),
    decreases j - i,
{
    if i < j {
        lemma_same_number(f, g, i, j - 1);
        assert(f[j - 1] == g[j - 1]);
    }
}

/// A computed position is handed on as what it is: an extended squitter of format 18 under the
/// aircraft's address, with a parity that closes, and its ME field is that of a position with
/// the altitude's step, the parity flag and the places.
pub proof fn law_df18_carries_the_position(icao: Icao, alt_ft: i32, cpr: (u32, u32), odd: bool)
    requires
        crate::modes::alt::encodable(alt_ft as int),
        cpr.0 < 0x2_0000,
        cpr.1 < 0x2_0000,
    ensures
        ({
            let f = df18_frame(icao, alt_ft, cpr, odd);
            let me = crate::modes::decode::be_number(f, 4, 11);
            &&& f.len() == 14
            &&& f[0] / 8 == 18
            &&& crate::modes::crc::crc24_of(f) == 0
            &&& crate::modes::decode::be_number(f, 1, 4) == icao.0 % 0x100_0000
            &&& me / 0x8_0000_0000_0000 == 18
            &&& (me / 0x4_0000_0000 % 2 == 1) == odd
            &&& me / 0x2_0000 % 0x2_0000 == cpr.0
            &&& me % 0x2_0000 == cpr.1
            &&& crate::modes::alt::ac12_altitude(me / 0x10_0000_0000 % 4096) == Some(
                (25 * crate::modes::alt::alt_steps(alt_ft as int) - 1000) as i32,
            )
        }),
{
    let n = crate::modes::alt::alt_steps(alt_ft as int);
    let field = crate::modes::alt::ac12_field(n);
    let me = airborne_me(18, field, odd, cpr.0 as int, cpr.1 as int);
    let head = squitter_head(146, icao, me);
    let f = df18_frame(icao, alt_ft, cpr, odd);
    crate::modes::crc::law_parity_closes(head);
    crate::modes::alt::law_altitude_round_trip(alt_ft);
    assert(0 <= field < 4096);
    lemma_me_fields(18, field, odd, cpr.0 as int, cpr.1 as int);
    lemma_df18_me(icao, me);
    assert(f[0] == head[0]);
}

} // verus!
