use aprs_parser::AprsAltitude;
use aprs_parser::AprsCompressedCs;
use aprs_parser::AprsCompressionType;
use aprs_parser::AprsCourseSpeed;
use aprs_parser::AprsCst;
use aprs_parser::Dao;
use aprs_parser::DecodeError;
use aprs_parser::Latitude;
use aprs_parser::Longitude;
use aprs_parser::Position;
use aprs_parser::Precision;
use aprs_parser::UNITS_PER_DEGREE;

const HUNDREDTH_MINUTE: i64 = UNITS_PER_DEGREE / 6000;

#[test]
fn decode_uncompressed_position() {
    let (rest, p) = Position::decode(b"4903.50N/07201.75W-Test comment").unwrap();
    assert_eq!(rest, b"Test comment");
    assert_eq!(p.latitude.units(), (49 * 6000 + 350) * HUNDREDTH_MINUTE);
    assert_eq!(p.longitude.units(), -(72 * 6000 + 175) * HUNDREDTH_MINUTE);
    assert_eq!(p.precision, Precision::HundredthMinute);
    assert_eq!(p.symbol_table, '/');
    assert_eq!(p.symbol_code, '-');
    assert_eq!(p.cst, AprsCst::Uncompressed);
    assert_eq!(p.altitude, None);
    assert_eq!(p.dao, None);
}

#[test]
fn decode_ambiguous_position() {
    let (_, p) = Position::decode(b"4903.  N/07201.  W-").unwrap();
    assert_eq!(p.precision, Precision::OneMinute);
    assert_eq!(p.latitude.units(), (49 * 6000 + 300) * HUNDREDTH_MINUTE);
    let (lo, hi) = p.latitude_bounds();
    assert_eq!(lo, p.latitude.units());
    assert_eq!(hi, p.latitude.units() + UNITS_PER_DEGREE / 60);
    let (lo, hi) = p.longitude_bounds();
    assert_eq!(hi, p.longitude.units());
    assert_eq!(lo, p.longitude.units() - UNITS_PER_DEGREE / 60);
}

#[test]
fn decode_position_errors() {
    assert_eq!(Position::decode(b""), Err(DecodeError::InvalidPosition(vec![])));
    assert_eq!(
        Position::decode(b"4903.50N/07201"),
        Err(DecodeError::InvalidPosition(b"4903.50N/07201".to_vec()))
    );
    assert_eq!(
        Position::decode(b"4903.50X/07201.75W-"),
        Err(DecodeError::InvalidLatitude(b"4903.50X".to_vec()))
    );
    assert_eq!(
        Position::decode(b"4903.50N/07260.75W-"),
        Err(DecodeError::InvalidLongitude(b"07260.75W".to_vec()))
    );
    assert_eq!(
        Position::decode(b"/5L!!<*e7"),
        Err(DecodeError::InvalidPosition(b"/5L!!<*e7".to_vec()))
    );
}

#[test]
fn decode_altitude_and_dao() {
    let (_, p) = Position::decode(b"4903.50N/07201.75W-PHG/A=001234!w5X!").unwrap();
    assert_eq!(p.altitude, Some(AprsAltitude::Feet(1234)));
    assert_eq!(p.dao, None);
    let (_, p) = Position::decode(b"4903.50N/07201.75W-/A=001234!w57!").unwrap();
    assert_eq!(p.altitude, Some(AprsAltitude::Feet(1234)));
    assert_eq!(
        p.dao,
        Some(Dao::HumanReadable {
            lat_digit: 5,
            lon_digit: 7
        })
    );
    // The DAO digits move the position away from zero by thousandths of a minute.
    assert_eq!(
        p.latitude.units(),
        (49 * 6000 + 350) * HUNDREDTH_MINUTE + 5 * 190_463
    );
    assert_eq!(
        p.longitude.units(),
        -(72 * 6000 + 175) * HUNDREDTH_MINUTE - 7 * 190_463
    );
}

#[test]
fn dao_in_comment_forms() {
    assert_eq!(
        Position::dao_in_comment(b"xx!W5!!yy"),
        Some(Dao::Base91 {
            lat_offset: 20,
            lon_offset: 0
        })
    );
    assert_eq!(Position::dao_in_comment(b"!W5!"), None);
    assert_eq!(Position::dao_in_comment(b"!1ab!"), None);
    assert_eq!(
        Dao::Base91 {
            lat_offset: 2,
            lon_offset: 3
        }
        .offsets_units(),
        (2 * 20_930, 3 * 20_930)
    );
}

#[test]
fn altitude_in_comment_forms() {
    assert_eq!(
        Position::altitude_in_comment(b"/A=000100 rest"),
        Some(AprsAltitude::Feet(100))
    );
    assert_eq!(Position::altitude_in_comment(b"/A=x"), None);
    assert_eq!(Position::altitude_in_comment(b"no altitude"), None);
    assert_eq!(Position::altitude_in_comment(b"\xff/A=000100"), None);
}

#[test]
fn decode_compressed_position() {
    let (rest, p) = Position::decode(b"/5L!!<*e7>7P[comment").unwrap();
    assert_eq!(rest, b"comment");
    assert_eq!(p.symbol_table, '/');
    assert_eq!(p.symbol_code, '>');
    // `5L!!` counts 20 * 91^3 + 43 * 91^2 steps south from the pole.
    let lat_steps: i64 = 20 * 753_571 + 43 * 8_281;
    assert_eq!(p.latitude.units(), 90 * UNITS_PER_DEGREE - lat_steps * 30_000);
    let lon_steps: i64 = 27 * 753_571 + 9 * 8_281 + 68 * 91 + 22;
    assert_eq!(p.longitude.units(), -180 * UNITS_PER_DEGREE + lon_steps * 60_000);
    match p.cst {
        AprsCst::CompressedSome { cs, t } => {
            assert_eq!(
                cs,
                AprsCompressedCs::CourseSpeed(AprsCourseSpeed {
                    course: 22,
                    speed: 47
                })
            );
            assert_eq!(t, AprsCompressionType::from_byte(b'[' - 33));
        }
        _ => panic!("expected a course and speed"),
    }
    assert_eq!(p.altitude, None);
}

#[test]
fn compressed_position_roundtrip() {
    let t = AprsCompressionType::from_byte(b'[' - 33);
    let p = Position {
        latitude: Latitude::new(90 * UNITS_PER_DEGREE - 1_000_000 * 30_000).unwrap(),
        longitude: Longitude::new(-180 * UNITS_PER_DEGREE + 2_000_000 * 60_000).unwrap(),
        precision: Precision::HundredthMinute,
        symbol_table: '/',
        symbol_code: '>',
        cst: AprsCst::CompressedSome {
            cs: AprsCompressedCs::RadioRange(20),
            t,
        },
        altitude: None,
        dao: None,
    };
    let mut buf = b"".to_vec();
    p.encode_compressed(&mut buf).unwrap();
    assert_eq!(buf.len(), 13);
    buf.extend_from_slice(b"rest");
    let (rest, q) = Position::decode(&buf).unwrap();
    assert_eq!(rest, b"rest");
    assert_eq!(q, p);
}

#[test]
fn compressed_position_rounds_to_step() {
    let p = Position {
        latitude: Latitude::new(10_000).unwrap(),
        longitude: Longitude::new(-29_000).unwrap(),
        precision: Precision::HundredthMinute,
        symbol_table: '\\',
        symbol_code: 'k',
        cst: AprsCst::CompressedNone,
        altitude: None,
        dao: None,
    };
    let mut buf = Vec::new();
    p.encode_compressed(&mut buf).unwrap();
    assert_eq!(&buf[10..], b" sT");
    let (_, q) = Position::decode(&buf).unwrap();
    assert_eq!(q.cst, AprsCst::CompressedNone);
    let dlat = q.latitude.units() - p.latitude.units();
    assert!(-15_000 <= dlat && dlat < 15_000);
    let dlon = q.longitude.units() - p.longitude.units();
    assert!(-30_000 < dlon && dlon <= 30_000);
}

#[test]
fn compressed_altitude() {
    let t = AprsCompressionType::from_byte(0b0001_0000);
    let p = Position {
        latitude: Latitude::new(0).unwrap(),
        longitude: Longitude::new(0).unwrap(),
        precision: Precision::HundredthMinute,
        symbol_table: '/',
        symbol_code: 'O',
        cst: AprsCst::CompressedSome {
            cs: AprsCompressedCs::Altitude(3000),
            t,
        },
        altitude: Some(AprsAltitude::Compressed(3000)),
        dao: None,
    };
    let mut buf = Vec::new();
    p.encode_compressed(&mut buf).unwrap();
    let (_, q) = Position::decode(&buf).unwrap();
    assert_eq!(q.cst, p.cst);
    assert_eq!(q.altitude, Some(AprsAltitude::Compressed(3000)));
}

#[test]
fn uncompressed_position_encode() {
    let (_, p) = Position::decode(b"4903.50N/07201.75W-").unwrap();
    let mut buf = Vec::new();
    p.encode_uncompressed(&mut buf).unwrap();
    assert_eq!(buf, b"4903.50N/07201.75W-");
    let (_, p) = Position::decode(b"4903.  N/07201.  W-").unwrap();
    let mut buf = Vec::new();
    p.encode_uncompressed(&mut buf).unwrap();
    assert_eq!(buf, b"4903.  N/07201.  W-");
}
