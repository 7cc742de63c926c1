use mlat_bench::icao::Icao;
use mlat_bench::modes::alt::{ac12, ac12_decode, ac13, ac13_decode};
use mlat_bench::modes::crc::crc24;
use mlat_bench::modes::decode::{df_of, parse_df11, parse_df17_airborne, parse_df4};
use mlat_bench::modes::frames::{df11, df17_airborne_position, df4};

/// The CPR encoding of 47.2 N, 1.5 W.
const EVEN: (u32, u32) = (113596, 109227);
const ODD: (u32, u32) = (96411, 109773);

/// The canonical even/odd pair of the 1090 MHz literature.
const CANONICAL_EVEN: (u32, u32) = (93000, 51372);
const CANONICAL_ODD: (u32, u32) = (74158, 50194);

fn canonical() -> Vec<u8> {
    hex::decode("8d40621d58c382d690c8ac2863a7").unwrap()
}

#[test]
fn icao_hex() {
    assert_eq!(Icao(0x3C6444).to_hex(), "3c6444");
    assert_eq!(Icao::from_hex("3C6444"), Some(Icao(0x3C6444)));
    assert_eq!(Icao::from_hex("1000000"), None);
}

#[test]
fn icao_hex_tolerates_space_and_sign() {
    assert_eq!(Icao::from_hex("  3c6444\r\n"), Some(Icao(0x3C6444)));
    assert_eq!(Icao::from_hex("+3c6444"), Some(Icao(0x3C6444)));
    assert_eq!(Icao::from_hex("-3c6444"), None);
    assert_eq!(Icao::from_hex(""), None);
    assert_eq!(Icao::from_hex("+"), None);
    assert_eq!(Icao::from_hex("00000000000abc"), Some(Icao(0xABC)));
    assert_eq!(Icao::from_hex("\u{2003}abc\u{3000}"), Some(Icao(0xABC)));
    assert_eq!(Icao(0xFF00_0001).to_hex(), "000001");
}

#[test]
fn ac12_golden_38000() {
    assert_eq!(ac12(38000), Some(0xC38));
}

#[test]
fn ac12_edges() {
    assert_eq!(ac12(-1000), Some(0x010));
    assert!(ac12(50175).is_some());
    assert_eq!(ac12(50200), None);
    assert_eq!(ac12(-1025), None);
}

#[test]
fn no_altitude_below_the_floor_is_encoded() {
    assert_eq!(ac12(-1001), None);
    assert_eq!(ac12(-1024), None);
    assert_eq!(ac13(-1001), None);
    assert_eq!(ac13(i32::MIN), None);
    assert_eq!(ac12(-976), Some(0x010));
    assert_eq!(ac12(50199), ac12(50175));
}

#[test]
fn ac13_layout() {
    assert_eq!(ac13(38000), Some(0x1838));
}

#[test]
fn altitude_fields_round_trip() {
    let mut alt = -1000;
    while alt <= 50175 {
        assert_eq!(ac12_decode(ac12(alt).unwrap()), Some(alt));
        assert_eq!(ac13_decode(ac13(alt).unwrap()), Some(alt));
        alt += 25;
    }
    assert_eq!(ac12_decode(0xC28), None);
    assert_eq!(ac13_decode(0x1878), None);
    assert_eq!(ac13_decode(0x1828), None);
}

#[test]
fn crc24_canonical_df17() {
    let frame = hex::decode("8D40621D58C382D690C8AC2863A7").unwrap();
    assert_eq!(frame.len(), 14);
    assert_eq!(crc24(&frame), 0, "valid DF17 must have zero remainder");
    let parity = ((frame[11] as u32) << 16) | ((frame[12] as u32) << 8) | frame[13] as u32;
    assert_eq!(crc24(&frame[..11]), parity);
}

#[test]
fn crc_detects_every_single_byte_error_of_the_canonical_frame() {
    for i in 0..14 {
        for flip in 1..=255u8 {
            let mut f = canonical();
            f[i] ^= flip;
            assert_ne!(crc24(&f), 0);
        }
    }
    assert_eq!(crc24(&[]), 0);
}

#[test]
fn df17_roundtrip() {
    let f = df17_airborne_position(Icao(0x3C6444), 5, 11, 35000, ODD, true).unwrap();
    let d = parse_df17_airborne(&f).unwrap();
    assert_eq!(d.icao, Icao(0x3C6444));
    assert!(d.odd);
    assert_eq!(d.alt_ft, Some(35000));
    assert_eq!((d.cpr_lat, d.cpr_lon), ODD);
}

#[test]
fn df17_golden_frame() {
    let d = parse_df17_airborne(&canonical()).unwrap();
    assert_eq!(d.icao, Icao(0x40621D));
    assert!(!d.odd);
    assert_eq!((d.cpr_lat, d.cpr_lon), (93000, 51372));
    assert_eq!(d.alt_ft, Some(38000));
}

#[test]
fn df4_df11_roundtrip() {
    let f = df4(Icao(0x3944F1), 0, 21000).unwrap();
    assert_eq!(parse_df4(&f), Some((Icao(0x3944F1), Some(21000))));
    let f = df11(Icao(0x3944F1), 5);
    assert_eq!(parse_df11(&f), Some(Icao(0x3944F1)));
}

#[test]
fn corrupted_df17_rejected() {
    let mut f = canonical();
    f[5] ^= 0x40;
    assert!(parse_df17_airborne(&f).is_none());
}

#[test]
fn golden_frame_even() {
    let f = df17_airborne_position(Icao(0x40621D), 5, 11, 38000, CANONICAL_EVEN, false).unwrap();
    assert_eq!(hex::encode(f), "8d40621d58c382d690c8ac2863a7");
}

#[test]
fn golden_frame_odd() {
    let f = df17_airborne_position(Icao(0x40621D), 5, 11, 38000, CANONICAL_ODD, true).unwrap();
    assert_eq!(hex::encode(f), "8d40621d58c386435cc412692ad6");
}

#[test]
fn df17_zero_remainder() {
    let f = df17_airborne_position(Icao(0x3C6444), 5, 11, 35000, EVEN, false).unwrap();
    assert_eq!(crc24(&f), 0, "a valid DF17 has zero CRC remainder");
}

#[test]
fn df11_address_recoverable() {
    let f = df11(Icao(0x3C6444), 5);
    let pi = ((f[4] as u32) << 16) | ((f[5] as u32) << 8) | f[6] as u32;
    assert_eq!(crc24(&f[..4]), pi);
    assert_eq!(f[0] >> 3, 11);
}

#[test]
fn df4_address_recoverable() {
    let f = df4(Icao(0x3C6444), 0, 35000).unwrap();
    let ap = ((f[4] as u32) << 16) | ((f[5] as u32) << 8) | f[6] as u32;
    assert_eq!(crc24(&f[..4]) ^ ap, 0x3C6444);
    assert_eq!(f[0] >> 3, 4);
}

#[test]
fn unencodable_altitudes_make_no_frame() {
    assert!(df17_airborne_position(Icao(1), 5, 11, 60000, EVEN, false).is_none());
    assert!(df4(Icao(1), 0, -2000).is_none());
}

#[test]
fn formats_and_type_codes_are_told_apart() {
    assert_eq!(df_of(&canonical()), Some(17));
    assert_eq!(df_of(&df11(Icao(1), 0)), Some(11));
    assert_eq!(df_of(&[0x5d; 6]), None);
    assert_eq!(parse_df11(&df4(Icao(1), 0, 0).unwrap()), None);
    assert_eq!(parse_df4(&df11(Icao(1), 0)), None);
    // A valid frame of a type code outside 9 to 18 is no airborne position.
    let mut head = canonical()[..11].to_vec();
    head[4] = 4 << 3;
    let p = crc24(&head);
    head.extend_from_slice(&p.to_be_bytes()[1..]);
    assert_eq!(crc24(&head), 0);
    assert!(parse_df17_airborne(&head).is_none());
}
