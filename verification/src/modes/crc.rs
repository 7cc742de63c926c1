//! Mode S CRC-24.

use vstd::prelude::*;

verus! {

/// Mode S CRC-24 generator polynomial, without its leading term.
pub const CRC24_POLY: u32 = 0xFFF409;

/// One step of the parity register: multiplication by x modulo the generator.
pub open spec fn crc_shift(c: u32) -> u32 {
    if c & 0x80_0000 != 0 {
        ((c << 1) ^ CRC24_POLY) & 0xFF_FFFF
    } else {
        (c << 1) & 0xFF_FFFF
    }
}

/// `n` steps of the parity register.
pub open spec fn crc_shifts(c: u32, n: nat) -> u32
    decreases n,
{
    if n == 0 {
        c
    } else {
        crc_shift(crc_shifts(c, (n - 1) as nat))
    }
}

/// The parity register after one more byte.
pub open spec fn crc_byte(c: u32, b: u8) -> u32 {
    crc_shifts(c ^ ((b as u32) << 16), 8)
}

/// The CRC-24 of a byte string, most significant bit first.
pub open spec fn crc24_of(data: Seq<u8>) -> u32
    decreases data.len(),
{
    if data.len() == 0 {
        0
    } else {
        crc_byte(crc24_of(data.drop_last()), data.last())
    }
}

/// The three bytes of a 24-bit number, most significant first.
pub open spec fn be24(n: int) -> Seq<u8> {
    seq![(n / 0x1_0000 % 256) as u8, (n / 256 % 256) as u8, (n % 256) as u8]
}

/// Eight register steps written out.
pub open spec fn crc_shift8(c: u32) -> u32 {
    crc_shift(crc_shift(crc_shift(crc_shift(crc_shift(crc_shift(crc_shift(crc_shift(c))))))))
}

proof fn lemma_shift8(c: u32)
    ensures
        crc_shifts(c, 8) == crc_shift8(c),
{
    reveal_with_fuel(crc_shifts, 9);
}

/// Facts about one register step and about eight of them.
proof fn lemma_register(c: u32, d: u32, b: u8)
    by (bit_vector)
    ensures
        crc_shift(c) <= 0xFF_FFFF,
        c <= 0xFFFF ==> crc_shift8(c) == c << 8,
        c <= 0xFF_FFFF ==> c ^ ((b as u32) << 16) <= 0xFF_FFFF,
        c <= 0xFF_FFFF && d <= 0xFF_FFFF && crc_shift(c) == crc_shift(d) ==> c == d,
{
}

proof fn lemma_shift8_injective(c: u32, d: u32)
    requires
        c <= 0xFF_FFFF,
        d <= 0xFF_FFFF,
        crc_shift8(c) == crc_shift8(d),
    ensures
        c == d,
{
    let c1 = crc_shift(c);
    let c2 = crc_shift(c1);
    let c3 = crc_shift(c2);
    let c4 = crc_shift(c3);
    let c5 = crc_shift(c4);
    let c6 = crc_shift(c5);
    let c7 = crc_shift(c6);
    let d1 = crc_shift(d);
    let d2 = crc_shift(d1);
    let d3 = crc_shift(d2);
    let d4 = crc_shift(d3);
    let d5 = crc_shift(d4);
    let d6 = crc_shift(d5);
    let d7 = crc_shift(d6);
    lemma_register(c, d, 0);
    lemma_register(c1, d1, 0);
    lemma_register(c2, d2, 0);
    lemma_register(c3, d3, 0);
    lemma_register(c4, d4, 0);
    lemma_register(c5, d5, 0);
    lemma_register(c6, d6, 0);
    lemma_register(c7, d7, 0);
    lemma_register(d, d, 0);
    lemma_register(d1, d1, 0);
    lemma_register(d2, d2, 0);
    lemma_register(d3, d3, 0);
    lemma_register(d4, d4, 0);
    lemma_register(d5, d5, 0);
    lemma_register(d6, d6, 0);
}

/// The CRC fits 24 bits.
pub proof fn lemma_crc24_bound(data: Seq<u8>)
    ensures
        crc24_of(data) <= 0xFF_FFFF,
{
    if data.len() > 0 {
        let x = crc24_of(data.drop_last()) ^ ((data.last() as u32) << 16);
        lemma_register(crc_shifts(x, 7), 0, 0);
    }
}

/// CRC-24 over `data`, MSB-first, as used by all Mode S downlink formats.
pub fn crc24(data: &[u8]) -> (r: u32)
    ensures
        r == crc24_of(data@),
        r <= 0xFF_FFFF,
{
    let mut crc: u32 = 0;
    let mut i: usize = 0;
    assert(0u32 & 0xFF_FFFF == 0) by (bit_vector);
    while i < data.len()
        invariant
            i <= data.len(),
            crc & 0xFF_FFFF == crc24_of(data@.take(i as int)),
        decreases data.len() - i,
    {
        let b: u8 = data[i];
        let ghost c0 = crc24_of(data@.take(i as int));
        let ghost x0 = c0 ^ ((b as u32) << 16);
        let before: u32 = crc;
        crc = crc ^ ((b as u32) << 16);
        proof {
            lemma_crc24_bound(data@.take(i as int));
            assert((before ^ ((b as u32) << 16)) & 0xFF_FFFF == (before & 0xFF_FFFF) ^ ((b as u32)
                << 16)) by (bit_vector);
        }
        let mut k: u32 = 0;
        while k < 8
            invariant
                k <= 8,
                crc & 0xFF_FFFF == crc_shifts(x0, k as nat),
            decreases 8 - k,
        {
            let shifted: u32 = crc << 1;
            let next: u32 = if shifted & 0x100_0000 != 0 {
                shifted ^ CRC24_POLY
            } else {
                shifted
            };
            proof {
                assert(shifted == crc << 1 && next == (if shifted & 0x100_0000 != 0 {
                    shifted ^ CRC24_POLY
                } else {
                    shifted
                }) ==> next & 0xFF_FFFF == crc_shift(crc & 0xFF_FFFF)) by (bit_vector);
            }
            crc = next;
            k = k + 1;
        }
        proof {
            assert(data@.take(i + 1).drop_last() =~= data@.take(i as int));
        }
        i = i + 1;
    }
    assert(data@.take(data.len() as int) =~= data@);
    proof {
        lemma_crc24_bound(data@);
    }
    crc & 0xFF_FFFF
}

/// Bit facts that carry the parity bytes through the register.
proof fn lemma_parity_bytes(p: u32, b0: u8, b1: u8, b2: u8)
    by (bit_vector)
    requires
        p <= 0xFF_FFFF,
        b0 == p / 0x1_0000 % 256,
        b1 == p / 256 % 256,
        b2 == p % 256,
    ensures
        p ^ ((b0 as u32) << 16) == p & 0xFFFF,
        p & 0xFFFF <= 0xFFFF,
        ((p & 0xFFFF) << 8) ^ ((b1 as u32) << 16) == (p & 0xFF) << 8,
        (p & 0xFF) << 8 <= 0xFFFF,
        (((p & 0xFF) << 8) << 8) ^ ((b2 as u32) << 16) == 0,
        0u32 << 8 == 0,
{
}

/// A message followed by its own parity has remainder zero.
pub proof fn law_parity_closes(data: Seq<u8>)
    ensures
        crc24_of(data + be24(crc24_of(data) as int)) == 0,
{
    let p = crc24_of(data);
    lemma_crc24_bound(data);
    let t = be24(p as int);
    let d1 = data.push(t[0]);
    let d2 = d1.push(t[1]);
    let d3 = d2.push(t[2]);
    assert(data + t =~= d3);
    assert(d3.drop_last() =~= d2);
    assert(d2.drop_last() =~= d1);
    assert(d1.drop_last() =~= data);
    lemma_parity_bytes(p, t[0], t[1], t[2]);
    let x1 = p & 0xFFFF;
    let x2 = (p & 0xFF) << 8;
    lemma_shift8(x1);
    lemma_shift8(x2);
    lemma_shift8(0);
    lemma_register(x1, 0, 0);
    lemma_register(x2, 0, 0);
    lemma_register(0, 0, 0);
    assert(crc24_of(d1) == x1 << 8);
    assert(crc24_of(d2) == x2 << 8);
    assert(crc24_of(d3) == 0);
}

/// Changing one byte of a message, in any way, changes its CRC; so a frame
/// whose remainder is zero stops having remainder zero.
pub proof fn law_byte_error_detected(data: Seq<u8>, i: int, b: u8)
    requires
        0 <= i < data.len(),
        b != data[i],
    ensures
        crc24_of(data.update(i, b)) != crc24_of(data),
    decreases data.len(),
{
    let other = data.update(i, b);
    let last = data.len() - 1;
    lemma_crc24_bound(data.drop_last());
    lemma_crc24_bound(other.drop_last());
    let c = crc24_of(data.drop_last());
    let d = crc24_of(other.drop_last());
    if i < last {
        law_byte_error_detected(data.drop_last(), i, b);
        assert(other.drop_last() =~= data.drop_last().update(i, b));
    } else {
        assert(other.drop_last() =~= data.drop_last());
    }
    let x = data.last();
    let y = other.last();
    lemma_register(c, 0, x);
    lemma_register(d, 0, y);
    lemma_shift8(c ^ ((x as u32) << 16));
    lemma_shift8(d ^ ((y as u32) << 16));
    assert((c != d && x == y) || (c == d && x != y) ==> c ^ ((x as u32) << 16) != d ^ ((y as u32)
        << 16)) by (bit_vector);
    if crc24_of(other) == crc24_of(data) {
        lemma_shift8_injective(c ^ ((x as u32) << 16), d ^ ((y as u32) << 16));
    }
}

} // verus!
