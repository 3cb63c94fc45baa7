use aprs_parser::AprsGridLocator;
use aprs_parser::Callsign;
use aprs_parser::UNITS_PER_DEGREE;

fn degrees(units: i64) -> f64 {
    units as f64 / UNITS_PER_DEGREE as f64
}

#[test]
fn decode_4char_grid() {
    let data = b"IO91]";
    let to = Callsign::new_no_ssid("APRS");
    let g = AprsGridLocator::decode(data, to).unwrap();
    assert_eq!(g.grid, b"IO91");
    assert_eq!(g.comment, b"");
}

#[test]
fn decode_6char_grid() {
    let data = b"IO91SX]comment here";
    let to = Callsign::new_no_ssid("APRS");
    let g = AprsGridLocator::decode(data, to).unwrap();
    assert_eq!(g.grid, b"IO91SX");
    assert_eq!(g.comment, b"comment here");
}

#[test]
fn decode_invalid_no_bracket() {
    let data = b"IO91SX";
    let to = Callsign::new_no_ssid("APRS");
    assert!(AprsGridLocator::decode(data, to).is_err());
}

#[test]
fn decode_invalid_length() {
    let data = b"IO9]";
    let to = Callsign::new_no_ssid("APRS");
    assert!(AprsGridLocator::decode(data, to).is_err());
}

#[test]
fn to_position_4char() {
    let g = AprsGridLocator {
        to: Callsign::new_no_ssid("APRS"),
        grid: b"JO22".to_vec(),
        comment: vec![],
    };
    let (lat, lon) = g.to_position().unwrap();
    // JO22 center: lon = 9*20 + 2*2 + 1 - 180 = 5, lat = 14*10 + 2 + 0.5 - 90 = 52.5
    assert!((degrees(lat.units()) - 52.5).abs() <= 0.1);
    assert!((degrees(lon.units()) - 5.0).abs() <= 0.1);
}

#[test]
fn to_position_6char() {
    let g = AprsGridLocator {
        to: Callsign::new_no_ssid("APRS"),
        grid: b"FN31pr".to_vec(),
        comment: vec![],
    };
    let (lat, lon) = g.to_position().unwrap();
    // FN31pr: approximate NYC area
    let lat = degrees(lat.units());
    let lon = degrees(lon.units());
    assert!(lat > 41.0 && lat < 42.0);
    assert!(lon > -73.0 && lon < -72.0);
}

#[test]
fn grid_encode_decode_roundtrip() {
    let g = AprsGridLocator {
        to: Callsign::new_no_ssid("APRS"),
        grid: b"IO91SX".to_vec(),
        comment: b"Hello".to_vec(),
    };
    let mut buf = vec![];
    g.encode(&mut buf).unwrap();
    assert_eq!(buf, b"[IO91SX]Hello");

    // Decode back (skip the leading '[')
    let g2 = AprsGridLocator::decode(&buf[1..], Callsign::new_no_ssid("APRS")).unwrap();
    assert_eq!(g.grid, g2.grid);
    assert_eq!(g.comment, g2.comment);
}

#[test]
fn to_position_exact_centre() {
    // JO22: the centre lies exactly at 52.5 N, 5 E
    let g = AprsGridLocator {
        to: Callsign::new_no_ssid("APRS"),
        grid: b"JO22".to_vec(),
        comment: vec![],
    };
    let (lat, lon) = g.to_position().unwrap();
    assert_eq!(lat.units(), 52 * UNITS_PER_DEGREE + UNITS_PER_DEGREE / 2);
    assert_eq!(lon.units(), 5 * UNITS_PER_DEGREE);
    // FN31pr: 41 + 17/24 + 1/48 N, -72 - 1/24 + 15/12 + ... exact in units
    let g = AprsGridLocator {
        to: Callsign::new_no_ssid("APRS"),
        grid: b"FN31pr".to_vec(),
        comment: vec![],
    };
    let (lat, lon) = g.to_position().unwrap();
    assert_eq!(lat.units(), 41 * UNITS_PER_DEGREE + 17 * (UNITS_PER_DEGREE / 24) + UNITS_PER_DEGREE / 48);
    assert_eq!(lon.units(), -74 * UNITS_PER_DEGREE + 15 * (UNITS_PER_DEGREE / 12) + UNITS_PER_DEGREE / 24);
}

#[test]
fn to_position_out_of_range() {
    // field Z lies beyond the poles and the antimeridian
    let g = AprsGridLocator {
        to: Callsign::new_no_ssid("APRS"),
        grid: b"ZZ99".to_vec(),
        comment: vec![],
    };
    assert!(g.to_position().is_none());
    let g = AprsGridLocator {
        to: Callsign::new_no_ssid("APRS"),
        grid: b"IO9".to_vec(),
        comment: vec![],
    };
    assert!(g.to_position().is_none());
}

#[test]
fn decode_invalid_characters() {
    let to = Callsign::new_no_ssid("APRS");
    assert!(AprsGridLocator::decode(b"io91]", to.clone()).is_err());
    assert!(AprsGridLocator::decode(b"IOA1]", to.clone()).is_err());
    assert!(AprsGridLocator::decode(b"IO91S1]", to.clone()).is_err());
    let err = AprsGridLocator::decode(b"IO9]x", to).unwrap_err();
    assert_eq!(err, aprs_parser::DecodeError::InvalidGridLocator(b"IO9]x".to_vec()));
}

#[test]
fn decode_comment_with_bracket() {
    let to = Callsign::new_no_ssid("APRS");
    let g = AprsGridLocator::decode(b"IO91sx]a]b", to).unwrap();
    assert_eq!(g.grid, b"IO91sx");
    assert_eq!(g.comment, b"a]b");
}
