//! The position at the head of a position report: uncompressed
//! (`DDMM.hhN/DDDMM.hhW_`) or compressed (`/YYYYXXXX_cst`), with the
//! altitude and the `!DAO!` precision extension found in the comment.

use vstd::prelude::*;
use vstd::utf8::{encode_scalar, valid_utf8};
use crate::compressed::{
    lemma_compression_type_of_byte, lemma_cs_reencode, lemma_cs_roundtrip, spec_parse_cs,
    AprsAltitude, AprsCompressedCs, AprsCompressionType,
};
use crate::error::{DecodeError, DecodeErrorView, EncodeError};
use crate::components::lonlat::{
    compressed_lat_text, compressed_lon_text, kept_units, lat_text, lemma_compressed_lat_reencode,
    lemma_compressed_lat_roundtrip, lemma_compressed_lon_reencode, lemma_compressed_lon_roundtrip,
    lemma_lat_reencode, lemma_lat_roundtrip, lemma_lon_reencode, lemma_lon_roundtrip, lon_places,
    lon_text, spec_parse_compressed_lat, spec_parse_compressed_lon,
    spec_parse_lat, spec_parse_lon, Latitude, Longitude, Precision, UNITS_PER_COMPRESSED_LAT_STEP,
    UNITS_PER_COMPRESSED_LON_STEP, UNITS_PER_DEGREE, UNITS_PER_HUNDREDTH_MINUTE, places_hundredths,
};
use crate::text::{
    copy_range, digit, is_digit, is_lower, is_upper, lower_letter, parse_u32, parse_unsigned_in,
    push_char, upper_letter, utf8_valid,
};

verus! {

/// What follows the symbol code of a position: the compressed course/speed
/// (or range, or altitude) with the compression type, a compressed position
/// without them, or nothing for an uncompressed position.
#[derive(PartialEq, Eq, Debug, Clone, Copy, Structural)]
pub enum AprsCst {
    CompressedSome { cs: AprsCompressedCs, t: AprsCompressionType },
    CompressedNone,
    Uncompressed,
}

/// DAO precision extension parsed from `!DAO!` in the comment field.
///
/// When present, DAO refines the latitude and longitude beyond the standard
/// hundredth-of-a-minute precision:
/// - **HumanReadable** (`!wXY!`): adds a third decimal digit to the minutes,
///   giving thousandths-of-a-minute precision (~1.85m).
/// - **Base91** (`!WXY!`): adds sub-hundredth precision via base-91 encoding,
///   giving approximately 0.2m precision.
#[derive(PartialEq, Eq, Debug, Clone, Copy, Structural)]
pub enum Dao {
    /// Base-91 encoded extra precision (uppercase letter prefix, e.g. `!W__!`)
    Base91 { lat_offset: u8, lon_offset: u8 },
    /// Human-readable extra digit (lowercase letter prefix, e.g. `!w__!`)
    HumanReadable { lat_digit: u8, lon_digit: u8 },
}

/// Units in a thousandth of a minute (one human-readable DAO digit).
pub const UNITS_PER_DAO_DIGIT: i64 = 190_463;

/// Units in a 91st of a hundredth of a minute (one base-91 DAO step).
pub const UNITS_PER_DAO_STEP: i64 = 20_930;

impl Dao {
    /// The latitude and longitude adjustments, in units, that this extension
    /// adds to the base position.
    pub open spec fn spec_offsets(self) -> (int, int) {
        match self {
            Dao::HumanReadable { lat_digit, lon_digit } => (
                lat_digit * UNITS_PER_DAO_DIGIT,
                lon_digit * UNITS_PER_DAO_DIGIT,
            ),
            Dao::Base91 { lat_offset, lon_offset } => (
                lat_offset * UNITS_PER_DAO_STEP,
                lon_offset * UNITS_PER_DAO_STEP,
            ),
        }
    }

    /// Returns the latitude and longitude adjustments, in units of
    /// `1 / UNITS_PER_DEGREE` degree, that this DAO extension adds to the base
    /// position. The adjustment is never negative: it says how far into the
    /// current hundredth-of-a-minute cell the true position lies.
    pub fn offsets_units(&self) -> (r: (i64, i64))
        ensures
            r.0 == self.spec_offsets().0,
            r.1 == self.spec_offsets().1,
            0 <= r.0 <= 255 * UNITS_PER_DAO_DIGIT,
            0 <= r.1 <= 255 * UNITS_PER_DAO_DIGIT,
    {
        match self {
            Dao::HumanReadable { lat_digit, lon_digit } => (
                *lat_digit as i64 * UNITS_PER_DAO_DIGIT,
                *lon_digit as i64 * UNITS_PER_DAO_DIGIT,
            ),
            Dao::Base91 { lat_offset, lon_offset } => (
                *lat_offset as i64 * UNITS_PER_DAO_STEP,
                *lon_offset as i64 * UNITS_PER_DAO_STEP,
            ),
        }
    }
}

/// The DAO extension whose `!` stands at `s[i]`, when `s[i..i + 5]` is one.
pub open spec fn spec_dao_at(s: Seq<u8>, i: int) -> Option<Dao> {
    if s[i] == 0x21 && s[i + 4] == 0x21 {
        let p = s[i + 1];
        let d1 = s[i + 2];
        let d2 = s[i + 3];
        if is_upper(p) {
            if 0x21 <= d1 <= 0x7B && 0x21 <= d2 <= 0x7B {
                Some(Dao::Base91 { lat_offset: (d1 - 33) as u8, lon_offset: (d2 - 33) as u8 })
            } else {
                None
            }
        } else if is_lower(p) {
            if is_digit(d1) && is_digit(d2) {
                Some(Dao::HumanReadable { lat_digit: (d1 - 0x30) as u8, lon_digit: (d2 - 0x30) as u8 })
            } else {
                None
            }
        } else {
            None
        }
    } else {
        None
    }
}

/// The first DAO extension in `s` that starts at `i` or later, where a start
/// `j` counts only when `j + 4 < s.len()`.
pub open spec fn spec_dao_from(s: Seq<u8>, i: int) -> Option<Dao>
    decreases s.len() - i,
{
    if i < 0 || i + 4 >= s.len() {
        None
    } else if spec_dao_at(s, i) is Some {
        spec_dao_at(s, i)
    } else {
        spec_dao_from(s, i + 1)
    }
}

/// Index of the first `/A=` in `s`.
pub open spec fn find_altitude_tag(s: Seq<u8>) -> Option<int>
    decreases s.len(),
{
    if s.len() < 3 {
        None
    } else if s[0] == 0x2F && s[1] == 0x41 && s[2] == 0x3D {
        Some(0)
    } else {
        match find_altitude_tag(s.drop_first()) {
            Some(i) => Some(i + 1),
            None => None,
        }
    }
}

/// The number of ASCII digits at the start of `s`.
pub open spec fn leading_digits(s: Seq<u8>) -> nat
    decreases s.len(),
{
    if s.len() > 0 && is_digit(s[0]) {
        1 + leading_digits(s.drop_first())
    } else {
        0
    }
}

/// The altitude written as `/A=` and a number of feet in the comment `c`,
/// which must be UTF-8 text.
pub open spec fn spec_altitude_in_comment(c: Seq<u8>) -> Option<AprsAltitude> {
    if !valid_utf8(c) {
        None
    } else {
        match find_altitude_tag(c) {
            None => None,
            Some(i) => {
                let rest = c.skip(i + 3);
                match parse_u32(rest.take(leading_digits(rest) as int)) {
                    Some(v) => Some(AprsAltitude::Feet(v)),
                    None => None,
                }
            },
        }
    }
}

/// `u` moved by `adj` away from zero, kept as it was when the result would
/// leave `-limit..=limit`.
pub open spec fn adjusted(u: int, adj: int, limit: int) -> int {
    let v = if u >= 0 {
        u + adj
    } else {
        u - adj
    };
    if -limit <= v <= limit {
        v
    } else {
        u
    }
}

/// `char::is_numeric` on the byte `c` read as a Latin-1 character: the ASCII
/// digits, `²`, `³`, `¹`, `¼`, `½` and `¾`.
pub open spec fn is_numeric_byte(c: u8) -> bool {
    is_digit(c) || c == 0xB2 || c == 0xB3 || c == 0xB9 || c == 0xBC || c == 0xBD || c == 0xBE
}

/// The course/speed part of a compressed position `b` (at least 13 bytes).
pub open spec fn spec_compressed_cst(b: Seq<u8>) -> Result<AprsCst, DecodeErrorView> {
    if b[10] == 0x20 {
        Ok(AprsCst::CompressedNone)
    } else if b[12] < 33 {
        Err(DecodeErrorView::InvalidPosition(b))
    } else {
        let t = AprsCompressionType::spec_from_byte((b[12] - 33) as u8);
        match spec_parse_cs(b[10], b[11], t) {
            Some(cs) => Ok(AprsCst::CompressedSome { cs, t }),
            None => Err(DecodeErrorView::InvalidCourseSpeed(seq![b[10], b[11]])),
        }
    }
}

/// The altitude carried by the course/speed part, if it carries one.
pub open spec fn cst_altitude(cst: AprsCst) -> Option<AprsAltitude> {
    match cst {
        AprsCst::CompressedSome { cs: AprsCompressedCs::Altitude(n), .. } => Some(
            AprsAltitude::Compressed(n),
        ),
        _ => None,
    }
}

/// The position of an uncompressed head `b`, from its latitude `lat` at
/// precision `p` and its longitude `lon`, refined by a DAO extension in the
/// comment that follows.
pub open spec fn uncompressed_position(b: Seq<u8>, lat: int, p: Precision, lon: int) -> Position {
    let comment = b.skip(19);
    let dao = spec_dao_from(comment, 0);
    let lat2 = match dao {
        Some(d) => adjusted(lat, d.spec_offsets().0, 90 * UNITS_PER_DEGREE),
        None => lat,
    };
    let lon2 = match dao {
        Some(d) => adjusted(lon, d.spec_offsets().1, 180 * UNITS_PER_DEGREE),
        None => lon,
    };
    Position {
        latitude: Latitude::from_units(lat2),
        longitude: Longitude::from_units(lon2),
        precision: p,
        symbol_table: b[8] as char,
        symbol_code: b[18] as char,
        cst: AprsCst::Uncompressed,
        altitude: spec_altitude_in_comment(comment),
        dao,
    }
}

/// What an uncompressed head `b` (19 bytes or more) decodes to.
pub open spec fn spec_decode_uncompressed(b: Seq<u8>) -> Result<(int, Position), DecodeErrorView> {
    match spec_parse_lat(b.subrange(0, 8)) {
        None => Err(DecodeErrorView::InvalidLatitude(b.subrange(0, 8))),
        Some((lat, p)) => match spec_parse_lon(b.subrange(9, 18), p) {
            None => Err(DecodeErrorView::InvalidLongitude(b.subrange(9, 18))),
            Some(lon) => Ok((19, uncompressed_position(b, lat, p, lon))),
        },
    }
}

/// What a compressed head `b` (13 bytes or more) decodes to.
pub open spec fn spec_decode_compressed(b: Seq<u8>) -> Result<(int, Position), DecodeErrorView> {
    match spec_parse_compressed_lat(b.subrange(1, 5)) {
        None => Err(DecodeErrorView::InvalidLatitude(b.subrange(1, 5))),
        Some(lat) => match spec_parse_compressed_lon(b.subrange(5, 9)) {
            None => Err(DecodeErrorView::InvalidLongitude(b.subrange(5, 9))),
            Some(lon) => match spec_compressed_cst(b) {
                Err(e) => Err(e),
                Ok(cst) => Ok(
                    (
                        13,
                        Position {
                            latitude: Latitude::from_units(lat),
                            longitude: Longitude::from_units(lon),
                            precision: Precision::HundredthMinute,
                            symbol_table: b[0] as char,
                            symbol_code: b[9] as char,
                            cst,
                            altitude: cst_altitude(cst),
                            dao: None,
                        },
                    ),
                ),
            },
        },
    }
}

/// What the head of `b` decodes to: the length of the position part and the
/// position, or the error. A head that starts with a numeric character is
/// uncompressed, any other is compressed.
pub open spec fn spec_position_decode(b: Seq<u8>) -> Result<(int, Position), DecodeErrorView> {
    if b.len() == 0 {
        Err(DecodeErrorView::InvalidPosition(b))
    } else if is_numeric_byte(b[0]) {
        if b.len() < 19 {
            Err(DecodeErrorView::InvalidPosition(b))
        } else {
            spec_decode_uncompressed(b)
        }
    } else if b.len() < 13 {
        Err(DecodeErrorView::InvalidPosition(b))
    } else {
        spec_decode_compressed(b)
    }
}

#[derive(PartialEq, Eq, Debug, Clone, Copy, Structural)]
pub struct Position {
    pub latitude: Latitude,
    pub longitude: Longitude,
    pub precision: Precision,
    pub symbol_table: char,
    pub symbol_code: char,
    pub cst: AprsCst,
    pub altitude: Option<AprsAltitude>,
    pub dao: Option<Dao>,
}

impl Position {
    /// The uncompressed text: latitude, symbol table, longitude, symbol code.
    pub open spec fn spec_encode_uncompressed(&self) -> Seq<u8> {
        lat_text(self.latitude@, self.precision.spec_blanks()) + encode_scalar(
            self.symbol_table as u32,
        ) + lon_text(self.longitude@, self.precision.spec_blanks()) + encode_scalar(
            self.symbol_code as u32,
        )
    }

    /// The compressed text: symbol table, latitude, longitude, symbol code,
    /// then the course/speed part (` sT` when there is none).
    pub open spec fn spec_encode_compressed(&self) -> Seq<u8> {
        encode_scalar(self.symbol_table as u32) + compressed_lat_text(self.latitude@)
            + compressed_lon_text(self.longitude@) + encode_scalar(self.symbol_code as u32)
            + match self.cst {
            AprsCst::CompressedSome { cs, t } => cs.spec_encode(t),
            AprsCst::CompressedNone => seq![0x20u8, 0x73u8, 0x54u8],
            AprsCst::Uncompressed => Seq::empty(),
        }
    }

    pub fn encode_uncompressed(&self, buf: &mut Vec<u8>) -> (r: Result<(), EncodeError>)
        ensures
            r is Ok,
            final(buf)@ == old(buf)@ + self.spec_encode_uncompressed(),
    {
        let ghost start = buf@;
        self.latitude.encode_uncompressed(buf, self.precision);
        push_char(buf, self.symbol_table);
        self.longitude.encode_uncompressed(buf, self.precision);
        push_char(buf, self.symbol_code);
        assert(buf@ =~= start + self.spec_encode_uncompressed());
        Ok(())
    }

    pub fn encode_compressed(&self, buf: &mut Vec<u8>) -> (r: Result<(), EncodeError>)
        requires
            !(self.cst is Uncompressed),
        ensures
            r is Ok,
            final(buf)@ == old(buf)@ + self.spec_encode_compressed(),
    {
        let ghost start = buf@;
        push_char(buf, self.symbol_table);
        self.latitude.encode_compressed(buf);
        self.longitude.encode_compressed(buf);
        push_char(buf, self.symbol_code);
        match self.cst {
            AprsCst::CompressedSome { cs, t } => cs.encode(buf, t),
            AprsCst::CompressedNone => {
                buf.push(0x20);
                buf.push(0x73);
                buf.push(0x54);
            },
            AprsCst::Uncompressed => {},
        }
        assert(buf@ =~= start + self.spec_encode_compressed());
        Ok(())
    }

    /// Latitudes in APRS aren't perfectly precise - they have a configurable
    /// level of ambiguity. This is stored in the `precision` field on the
    /// `Position` struct. This method returns the range, in units, of what
    /// the actual latitude value might be.
    pub fn latitude_bounds(&self) -> (r: (i64, i64))
        ensures
            (r.0 as int, r.1 as int) == self.precision.spec_range(self.latitude@),
    {
        self.precision.range(self.latitude.units())
    }

    /// Longitudes in APRS aren't perfectly precise - they have a configurable
    /// level of ambiguity. This is stored in the `precision` field on the
    /// `Position` struct. This method returns the range, in units, of what
    /// the actual longitude value might be.
    pub fn longitude_bounds(&self) -> (r: (i64, i64))
        ensures
            (r.0 as int, r.1 as int) == self.precision.spec_range(self.longitude@),
    {
        self.precision.range(self.longitude.units())
    }

    /// Parse `!DAO!` pattern from comment data.
    pub fn dao_in_comment(data: &[u8]) -> (r: Option<Dao>)
        ensures
            r == spec_dao_from(data@, 0),
    {
        let mut i: usize = 0;
        while i < data.len() && data.len() - i > 4
            invariant
                i <= data.len(),
                spec_dao_from(data@, 0) == spec_dao_from(data@, i as int),
            decreases data.len() - i,
        {
            if data[i] == 0x21 && data[i + 4] == 0x21 {
                let prefix = data[i + 1];
                let d1 = data[i + 2];
                let d2 = data[i + 3];
                if upper_letter(prefix) {
                    if d1 >= 0x21 && d1 <= 0x7B && d2 >= 0x21 && d2 <= 0x7B {
                        let d = Dao::Base91 { lat_offset: d1 - 33, lon_offset: d2 - 33 };
                        assert(spec_dao_at(data@, i as int) == Some(d));
                        assert(spec_dao_from(data@, i as int) == Some(d));
                        return Some(d);
                    }
                } else if lower_letter(prefix) {
                    if digit(d1) && digit(d2) {
                        let d = Dao::HumanReadable { lat_digit: d1 - 0x30, lon_digit: d2 - 0x30 };
                        assert(spec_dao_at(data@, i as int) == Some(d));
                        assert(spec_dao_from(data@, i as int) == Some(d));
                        return Some(d);
                    }
                }
            }
            i = i + 1;
        }
        None
    }

    /// this function assumes we are getting the head of a byte list
    /// representing a compressed or uncompressed position
    ///
    /// all position representations interleave the symbol table and code
    /// so we stuff it all in here; the bytes after the position come back
    /// with it
    pub fn decode(b: &[u8]) -> (r: Result<(Vec<u8>, Position), DecodeError>)
        ensures
            match r {
                Ok((rest, p)) => spec_position_decode(b@) matches Ok((n, q)) && q == p && rest@
                    == b@.skip(n),
                Err(e) => spec_position_decode(b@) == Err::<(int, Position), DecodeErrorView>(e@),
            },
    {
        assert(b@.subrange(0, b@.len() as int) =~= b@);
        if b.len() == 0 {
            return Err(DecodeError::InvalidPosition(copy_range(b, 0, b.len())));
        }
        let c = b[0];
        let is_uncompressed_position = digit(c) || c == 0xB2 || c == 0xB3 || c == 0xB9 || c
            == 0xBC || c == 0xBD || c == 0xBE;
        if is_uncompressed_position {
            if b.len() < 19 {
                return Err(DecodeError::InvalidPosition(copy_range(b, 0, b.len())));
            }
            Self::decode_uncompressed(b)
        } else {
            if b.len() < 13 {
                return Err(DecodeError::InvalidPosition(copy_range(b, 0, b.len())));
            }
            Self::decode_compressed(b)
        }
    }

    fn decode_uncompressed(b: &[u8]) -> (r: Result<(Vec<u8>, Position), DecodeError>)
        requires
            b@.len() >= 19,
        ensures
            match r {
                Ok((rest, p)) => spec_decode_uncompressed(b@) matches Ok((n, q)) && q == p
                    && rest@ == b@.skip(n),
                Err(e) => spec_decode_uncompressed(b@) == Err::<(int, Position), DecodeErrorView>(
                    e@,
                ),
            },
    {
        let (latitude, precision) = match Latitude::parse_uncompressed(&b[0..8]) {
            Ok(x) => x,
            Err(e) => return Err(e),
        };
        let longitude = match Longitude::parse_uncompressed(&b[9..18], precision) {
            Ok(x) => x,
            Err(e) => return Err(e),
        };
        let symbol_table = b[8] as char;
        let symbol_code = b[18] as char;

        // search the comment field for an altitude (e.g. '/A=aaaaaa')
        let comment = &b[19..b.len()];
        assert(comment@ =~= b@.skip(19));
        let altitude = Self::altitude_in_comment(comment);
        let dao = Self::dao_in_comment(comment);

        // Apply DAO precision offsets to refine lat/lon: the offsets
        // always point away from zero, in the direction of the base
        // coordinate's sign
        let latitude = Self::refine_latitude(latitude, dao);
        let longitude = Self::refine_longitude(longitude, dao);
        let p = Position {
            latitude,
            longitude,
            precision,
            symbol_table,
            symbol_code,
            cst: AprsCst::Uncompressed,
            altitude,
            dao,
        };
        assert(b@.subrange(19, b@.len() as int) =~= b@.skip(19));
        Ok((copy_range(b, 19, b.len()), p))
    }

    fn refine_latitude(latitude: Latitude, dao: Option<Dao>) -> (r: Latitude)
        ensures
            r == Latitude::from_units(
                match dao {
                    Some(d) => adjusted(latitude@, d.spec_offsets().0, 90 * UNITS_PER_DEGREE),
                    None => latitude@,
                },
            ),
    {
        proof {
            Latitude::lemma_units(latitude);
        }
        match dao {
            Some(d) => {
                let (adj, _) = d.offsets_units();
                let u = latitude.units();
                let v: i64 = if u >= 0 {
                    u + adj
                } else {
                    u - adj
                };
                assert(v == (if latitude@ >= 0 {
                    latitude@ + d.spec_offsets().0
                } else {
                    latitude@ - d.spec_offsets().0
                }));
                match Latitude::new(v) {
                    Some(l) => {
                        proof {
                            Latitude::lemma_units(l);
                        }
                        assert(adjusted(latitude@, d.spec_offsets().0, 90 * UNITS_PER_DEGREE) == v);
                        l
                    },
                    None => {
                        assert(adjusted(latitude@, d.spec_offsets().0, 90 * UNITS_PER_DEGREE) == latitude@);
                        latitude
                    },
                }
            },
            None => latitude,
        }
    }

    fn refine_longitude(longitude: Longitude, dao: Option<Dao>) -> (r: Longitude)
        ensures
            r == Longitude::from_units(
                match dao {
                    Some(d) => adjusted(longitude@, d.spec_offsets().1, 180 * UNITS_PER_DEGREE),
                    None => longitude@,
                },
            ),
    {
        proof {
            Longitude::lemma_units(longitude);
        }
        match dao {
            Some(d) => {
                let (_, adj) = d.offsets_units();
                let u = longitude.units();
                let v: i64 = if u >= 0 {
                    u + adj
                } else {
                    u - adj
                };
                assert(v == (if longitude@ >= 0 {
                    longitude@ + d.spec_offsets().1
                } else {
                    longitude@ - d.spec_offsets().1
                }));
                match Longitude::new(v) {
                    Some(l) => {
                        proof {
                            Longitude::lemma_units(l);
                        }
                        assert(adjusted(longitude@, d.spec_offsets().1, 180 * UNITS_PER_DEGREE) == v);
                        l
                    },
                    None => {
                        assert(adjusted(longitude@, d.spec_offsets().1, 180 * UNITS_PER_DEGREE) == longitude@);
                        longitude
                    },
                }
            },
            None => longitude,
        }
    }

    fn decode_compressed(b: &[u8]) -> (r: Result<(Vec<u8>, Position), DecodeError>)
        requires
            b@.len() >= 13,
        ensures
            match r {
                Ok((rest, p)) => spec_decode_compressed(b@) matches Ok((n, q)) && q == p && rest@
                    == b@.skip(n),
                Err(e) => spec_decode_compressed(b@) == Err::<(int, Position), DecodeErrorView>(
                    e@,
                ),
            },
    {
        assert(b@.subrange(0, b@.len() as int) =~= b@);
        let symbol_table = b[0] as char;
        let symbol_code = b[9] as char;
        let latitude = match Latitude::parse_compressed(&b[1..5]) {
            Ok(x) => x,
            Err(e) => return Err(e),
        };
        let longitude = match Longitude::parse_compressed(&b[5..9]) {
            Ok(x) => x,
            Err(e) => return Err(e),
        };
        proof {
            Latitude::lemma_units(latitude);
            Longitude::lemma_units(longitude);
        }

        // From the APRS spec - if the c value is a space,
        // the csT doesn't matter
        let cst = if b[10] == 0x20 {
            AprsCst::CompressedNone
        } else {
            if b[12] < 33 {
                return Err(DecodeError::InvalidPosition(copy_range(b, 0, b.len())));
            }
            let t = AprsCompressionType::from_byte(b[12] - 33);
            match AprsCompressedCs::parse(b[10], b[11], t) {
                Ok(cs) => AprsCst::CompressedSome { cs, t },
                Err(e) => return Err(e),
            }
        };

        // get the altitude value
        let altitude: Option<AprsAltitude> = match cst {
            AprsCst::CompressedSome { cs: AprsCompressedCs::Altitude(n), .. } => Some(
                AprsAltitude::Compressed(n),
            ),
            _ => None,
        };
        let p = Position {
            latitude,
            longitude,
            precision: Precision::HundredthMinute,
            symbol_table,
            symbol_code,
            cst,
            altitude,
            dao: None,
        };
        assert(b@.subrange(13, b@.len() as int) =~= b@.skip(13));
        Ok((copy_range(b, 13, b.len()), p))
    }

    pub fn altitude_in_comment(data: &[u8]) -> (r: Option<AprsAltitude>)
        ensures
            r == spec_altitude_in_comment(data@),
    {
        if !utf8_valid(data) {
            return None;
        }
        match find_altitude_tag_in(data) {
            None => None,
            Some(i) => {
                let start = i + 3;
                let end = count_leading_digits(data, start);
                assert(data@.skip(start as int).take((end - start) as int) =~= data@.subrange(
                    start as int,
                    end as int,
                ));
                match parse_unsigned_in(data, start, end, 0xFFFF_FFFF) {
                    Some(v) => Some(AprsAltitude::Feet(v as u32)),
                    None => None,
                }
            },
        }
    }
}

fn find_altitude_tag_in(data: &[u8]) -> (r: Option<usize>)
    ensures
        match r {
            Some(i) => find_altitude_tag(data@) == Some(i as int) && i + 3 <= data.len(),
            None => find_altitude_tag(data@) is None,
        },
{
    let n = data.len();
    let mut i: usize = 0;
    assert(data@.skip(0) =~= data@);
    while i < n && n - i >= 3 && !(data[i] == 0x2F && data[i + 1] == 0x41 && data[i + 2] == 0x3D)
        invariant
            i <= n,
            n == data@.len(),
            find_altitude_tag(data@) == (match find_altitude_tag(data@.skip(i as int)) {
                Some(j) => Some(j + i),
                None => None,
            }),
        decreases n - i,
    {
        assert(data@.skip(i as int).drop_first() =~= data@.skip(i + 1));
        i = i + 1;
    }
    if i >= n || n - i < 3 {
        assert(data@.skip(i as int).len() < 3);
        return None;
    }
    assert(data@.skip(i as int)[0] == data@[i as int]);
    assert(data@.skip(i as int)[1] == data@[i + 1]);
    assert(data@.skip(i as int)[2] == data@[i + 2]);
    Some(i)
}

/// End of the run of ASCII digits that starts at `start`.
fn count_leading_digits(data: &[u8], start: usize) -> (end: usize)
    requires
        start <= data@.len(),
    ensures
        start <= end <= data@.len(),
        leading_digits(data@.skip(start as int)) == end - start,
{
    let n = data.len();
    let mut end: usize = start;
    while end < n && digit(data[end])
        invariant
            start <= end <= n,
            n == data@.len(),
            leading_digits(data@.skip(start as int)) == (end - start) + leading_digits(
                data@.skip(end as int),
            ),
        decreases n - end,
    {
        assert(data@.skip(end as int).drop_first() =~= data@.skip(end + 1));
        end = end + 1;
    }
    assert(leading_digits(data@.skip(end as int)) == 0) by {
        if end < n {
            assert(data@.skip(end as int)[0] == data@[end as int]);
        }
    }
    end
}


/// An ASCII character is encoded as its one byte.
proof fn lemma_ascii_scalar(c: char)
    requires
        (c as u32) < 0x80,
    ensures
        encode_scalar(c as u32) == seq![(c as u32) as u8],
        ((c as u32) as u8) as char == c,
{
    let x = c as u32;
    assert(x & 0x7F == x) by (bit_vector)
        requires
            x < 0x80,
    ;
}

impl Position {
    /// The positions that `encode_compressed` writes in a form that `decode`
    /// reads back: ASCII symbols, a symbol table that is not numeric (it
    /// would read as an uncompressed position), and a course/speed part that
    /// is present and reads back.
    pub open spec fn compressed_encodable(&self) -> bool {
        &&& (self.symbol_table as u32) < 0x80
        &&& !is_numeric_byte((self.symbol_table as u32) as u8)
        &&& (self.symbol_code as u32) < 0x80
        &&& match self.cst {
            AprsCst::CompressedSome { cs, t } => cs.encodable(t),
            AprsCst::CompressedNone => true,
            AprsCst::Uncompressed => false,
        }
    }
}

/// Decoding the compressed text of a position, followed by any comment,
/// takes its 13 bytes and gives back the same symbols and course/speed
/// part, the altitude that part carries, hundredth-minute precision, no DAO
/// extension, and the latitude and longitude moved to the nearest
/// compressed step (less than half a step away, unchanged when they lie on
/// a step).
#[verifier::rlimit(40)]
pub proof fn lemma_compressed_position_roundtrip(p: Position, rest: Seq<u8>)
    requires
        p.compressed_encodable(),
        -90 * UNITS_PER_DEGREE <= p.latitude@ <= 90 * UNITS_PER_DEGREE,
        -180 * UNITS_PER_DEGREE <= p.longitude@ <= 180 * UNITS_PER_DEGREE,
    ensures
        spec_position_decode(p.spec_encode_compressed() + rest) matches Ok((n, q)) && n == 13
            && q.symbol_table == p.symbol_table && q.symbol_code == p.symbol_code && q.cst == p.cst
            && q.altitude == cst_altitude(p.cst) && q.precision == Precision::HundredthMinute
            && q.dao is None && -UNITS_PER_COMPRESSED_LAT_STEP / 2 <= q.latitude@ - p.latitude@
            < UNITS_PER_COMPRESSED_LAT_STEP / 2 && ((90 * UNITS_PER_DEGREE - p.latitude@) % (
        UNITS_PER_COMPRESSED_LAT_STEP as int) == 0 ==> q.latitude == p.latitude)
            && -UNITS_PER_COMPRESSED_LON_STEP / 2 < q.longitude@ - p.longitude@
            <= UNITS_PER_COMPRESSED_LON_STEP / 2 && ((180 * UNITS_PER_DEGREE + p.longitude@) % (
        UNITS_PER_COMPRESSED_LON_STEP as int) == 0 ==> q.longitude == p.longitude),
{
    lemma_ascii_scalar(p.symbol_table);
    lemma_ascii_scalar(p.symbol_code);
    lemma_compressed_lat_roundtrip(p.latitude@);
    lemma_compressed_lon_roundtrip(p.longitude@);
    let lt = compressed_lat_text(p.latitude@);
    let ln = compressed_lon_text(p.longitude@);
    let cst_text = match p.cst {
        AprsCst::CompressedSome { cs, t } => cs.spec_encode(t),
        AprsCst::CompressedNone => seq![0x20u8, 0x73u8, 0x54u8],
        AprsCst::Uncompressed => Seq::empty(),
    };
    let b = p.spec_encode_compressed() + rest;
    let st = (p.symbol_table as u32) as u8;
    let sc = (p.symbol_code as u32) as u8;
    assert(b =~= seq![st] + lt + ln + seq![sc] + cst_text + rest);
    assert(b.subrange(1, 5) =~= lt);
    assert(b.subrange(5, 9) =~= ln);
    assert(b[0] == st);
    assert(b[9] == sc);
    assert(b[10] == cst_text[0] && b[11] == cst_text[1] && b[12] == cst_text[2]);
    if let AprsCst::CompressedSome { cs, t } = p.cst {
        lemma_cs_roundtrip(cs, t);
    }
    let w = spec_parse_compressed_lat(lt).unwrap();
    let v = spec_parse_compressed_lon(ln).unwrap();
    Latitude::lemma_from_units(w);
    Longitude::lemma_from_units(v);
    Latitude::lemma_units(p.latitude);
    Longitude::lemma_units(p.longitude);
}


impl Position {
    /// The positions that `encode_uncompressed` writes in a form that
    /// `decode` reads back: ASCII symbols.
    pub open spec fn uncompressed_encodable(&self) -> bool {
        &&& (self.symbol_table as u32) < 0x80
        &&& (self.symbol_code as u32) < 0x80
    }
}

/// Decoding the uncompressed text of a position followed by a comment `c`
/// takes its 19 bytes and gives back the same precision and symbols; the
/// latitude and longitude rounded to the nearest hundredth of a minute with
/// the blanked places read as zero (`kept_units`), then moved by the DAO
/// extension that `c` holds, if any; and the altitude that `c` holds.
#[verifier::rlimit(40)]
pub proof fn lemma_uncompressed_position_roundtrip(p: Position, c: Seq<u8>)
    requires
        p.uncompressed_encodable(),
        -90 * UNITS_PER_DEGREE <= p.latitude@ <= 90 * UNITS_PER_DEGREE,
        -180 * UNITS_PER_DEGREE <= p.longitude@ <= 180 * UNITS_PER_DEGREE,
    ensures
        ({
            let k = p.precision.spec_blanks();
            let lat = kept_units(p.latitude@, k);
            let lon = kept_units(p.longitude@, k);
            spec_position_decode(p.spec_encode_uncompressed() + c) matches Ok((n, q)) && n == 19
                && q.precision == p.precision && q.symbol_table == p.symbol_table && q.symbol_code
                == p.symbol_code && q.cst is Uncompressed && q.altitude == spec_altitude_in_comment(
                c,
            ) && q.dao == spec_dao_from(c, 0) && q.latitude@ == match q.dao {
                Some(d) => adjusted(lat, d.spec_offsets().0, 90 * UNITS_PER_DEGREE),
                None => lat,
            } && q.longitude@ == match q.dao {
                Some(d) => adjusted(lon, d.spec_offsets().1, 180 * UNITS_PER_DEGREE),
                None => lon,
            }
        }),
{
    let k = p.precision.spec_blanks();
    lemma_ascii_scalar(p.symbol_table);
    lemma_ascii_scalar(p.symbol_code);
    lemma_lat_roundtrip(p.latitude@, k);
    lemma_lon_roundtrip(p.longitude@, p.precision);
    let lt = lat_text(p.latitude@, k);
    let ln = lon_text(p.longitude@, k);
    let b = p.spec_encode_uncompressed() + c;
    let st = (p.symbol_table as u32) as u8;
    let sc = (p.symbol_code as u32) as u8;
    assert(b =~= lt + seq![st] + ln + seq![sc] + c);
    assert(b.subrange(0, 8) =~= lt);
    assert(b.subrange(9, 18) =~= ln);
    assert(b.skip(19) =~= c);
    assert(b[8] == st && b[18] == sc);
    assert(is_numeric_byte(b[0]));
    let lat = kept_units(p.latitude@, k);
    let lon = kept_units(p.longitude@, k);
    assert(Precision::spec_from_blanks(k) == p.precision);
    let q = uncompressed_position(b, lat, p.precision, lon);
    let dao = spec_dao_from(c, 0);
    let lat2 = match dao {
        Some(d) => adjusted(lat, d.spec_offsets().0, 90 * UNITS_PER_DEGREE),
        None => lat,
    };
    let lon2 = match dao {
        Some(d) => adjusted(lon, d.spec_offsets().1, 180 * UNITS_PER_DEGREE),
        None => lon,
    };
    assert(-90 * UNITS_PER_DEGREE <= lat2 <= 90 * UNITS_PER_DEGREE);
    assert(-180 * UNITS_PER_DEGREE <= lon2 <= 180 * UNITS_PER_DEGREE);
    Latitude::lemma_from_units(lat2);
    Longitude::lemma_from_units(lon2);
}


/// True when re-encoding gives back the head of a position report `b` and
/// the comment after it byte for byte: it decodes and its symbols are ASCII;
/// compressed, with ` sT` after a space in place of a course and a
/// compression type below 64 otherwise; uncompressed, with no DAO extension
/// in the comment, no zero marked south or west, and blanks in every
/// blanked longitude place.
pub open spec fn canonical_position(b: Seq<u8>) -> bool {
    &&& spec_position_decode(b) is Ok
    &&& if is_numeric_byte(b[0]) {
        let (u, p) = spec_parse_lat(b.subrange(0, 8)).unwrap();
        let v = spec_parse_lon(b.subrange(9, 18), p).unwrap();
        &&& b[8] < 0x80 && b[18] < 0x80
        &&& spec_dao_from(b.skip(19), 0) is None
        &&& (b[7] == 0x53 ==> u != 0)
        &&& (b[17] == 0x57 ==> v != 0)
        &&& forall|i: int|
            7 - p.spec_blanks() <= i < 7 ==> #[trigger] lon_places(b.subrange(9, 18))[i] == 0x20
    } else {
        &&& b[0] < 0x80 && b[9] < 0x80
        &&& (b[10] == 0x20 ==> b[11] == 0x73 && b[12] == 0x54)
        &&& (b[10] != 0x20 ==> b[12] - 33 < 64)
    }
}

/// The encoding of `p` in the form it holds.
pub open spec fn position_text(p: Position) -> Seq<u8> {
    if p.cst is Uncompressed {
        p.spec_encode_uncompressed()
    } else {
        p.spec_encode_compressed()
    }
}

/// An ASCII byte read as a character is encoded as itself.
proof fn lemma_ascii_byte(x: u8)
    requires
        x < 0x80,
    ensures
        encode_scalar((x as char) as u32) == seq![x],
{
    lemma_ascii_scalar(x as char);
}

/// `lemma_position_reencode` for an uncompressed head.
#[verifier::rlimit(40)]
proof fn lemma_uncompressed_reencode(b: Seq<u8>)
    requires
        canonical_position(b),
        is_numeric_byte(b[0]),
    ensures
        spec_position_decode(b) matches Ok((n, q)) && position_text(q) + b.skip(n) == b,
{
    let lb = b.subrange(0, 8);
    let gb = b.subrange(9, 18);
    let (u, p) = spec_parse_lat(lb).unwrap();
    let v = spec_parse_lon(gb, p).unwrap();
    lemma_lat_reencode(lb);
    lemma_lon_reencode(gb, p);
    lemma_ascii_byte(b[8]);
    lemma_ascii_byte(b[18]);
    Latitude::lemma_from_units(u);
    Longitude::lemma_from_units(v);
    let q = uncompressed_position(b, u, p, v);
    assert(q.latitude@ == u && q.longitude@ == v);
    assert(position_text(q) + b.skip(19) =~= lb + seq![b[8]] + gb + seq![b[18]] + b.skip(19));
    assert(lb + seq![b[8]] + gb + seq![b[18]] + b.skip(19) =~= b);
}

/// `lemma_position_reencode` for a compressed head.
#[verifier::rlimit(40)]
proof fn lemma_compressed_reencode(b: Seq<u8>)
    requires
        canonical_position(b),
        !is_numeric_byte(b[0]),
    ensures
        spec_position_decode(b) matches Ok((n, q)) && position_text(q) + b.skip(n) == b,
{
    let lb = b.subrange(1, 5);
    let gb = b.subrange(5, 9);
    let u = spec_parse_compressed_lat(lb).unwrap();
    let v = spec_parse_compressed_lon(gb).unwrap();
    lemma_compressed_lat_reencode(lb);
    lemma_compressed_lon_reencode(gb);
    lemma_ascii_byte(b[0]);
    lemma_ascii_byte(b[9]);
    Latitude::lemma_from_units(u);
    Longitude::lemma_from_units(v);
    let cst = spec_compressed_cst(b)->Ok_0;
    let cst_text = match cst {
        AprsCst::CompressedSome { cs, t } => cs.spec_encode(t),
        AprsCst::CompressedNone => seq![0x20u8, 0x73u8, 0x54u8],
        AprsCst::Uncompressed => Seq::empty(),
    };
    if b[10] != 0x20 {
        let t = AprsCompressionType::spec_from_byte((b[12] - 33) as u8);
        lemma_cs_reencode(b[10], b[11], t);
        lemma_compression_type_of_byte((b[12] - 33) as u8);
    }
    assert(cst_text =~= b.subrange(10, 13));
    let q = spec_decode_compressed(b)->Ok_0.1;
    assert(q.latitude@ == u && q.longitude@ == v);
    assert(position_text(q) + b.skip(13) =~= seq![b[0]] + lb + gb + seq![b[9]] + cst_text
        + b.skip(13));
    assert(seq![b[0]] + lb + gb + seq![b[9]] + b.subrange(10, 13) + b.skip(13) =~= b);
}

/// Decoding a canonical position head and encoding the position gives the
/// text back, with the comment after it.
pub proof fn lemma_position_reencode(b: Seq<u8>)
    requires
        canonical_position(b),
    ensures
        spec_position_decode(b) matches Ok((n, q)) && position_text(q) + b.skip(n) == b,
{
    if is_numeric_byte(b[0]) {
        lemma_uncompressed_reencode(b);
    } else {
        lemma_compressed_reencode(b);
    }
}


/// A human-readable DAO digit is a thousandth of a minute, and a base-91
/// DAO step a 91st of a hundredth of a minute, in whole units.
pub proof fn lemma_dao_units()
    ensures
        UNITS_PER_DAO_DIGIT * 60000 == UNITS_PER_DEGREE,
        UNITS_PER_DAO_STEP * 91 * 6000 == UNITS_PER_DEGREE,
{
}


/// `|x|`.
pub open spec fn magnitude(x: int) -> int {
    if x < 0 {
        -x
    } else {
        x
    }
}

/// A DAO extension refines an uncompressed position away from zero: each
/// coordinate keeps its side of the equator or meridian and grows in size by
/// the extension's offset, unless that would take it past 90 or 180 degrees,
/// when it stays as written; without an extension it stays as written.
pub proof fn lemma_dao_moves_away_from_zero(b: Seq<u8>)
    requires
        spec_position_decode(b) is Ok,
        is_numeric_byte(b[0]),
    ensures
        ({
            let (u, p) = spec_parse_lat(b.subrange(0, 8)).unwrap();
            let v = spec_parse_lon(b.subrange(9, 18), p).unwrap();
            let q = spec_position_decode(b)->Ok_0.1;
            &&& q.dao == spec_dao_from(b.skip(19), 0)
            &&& q.dao is None ==> q.latitude@ == u && q.longitude@ == v
            &&& q.dao matches Some(d) ==> if magnitude(u) + d.spec_offsets().0 <= 90 * UNITS_PER_DEGREE {
                magnitude(q.latitude@) == magnitude(u) + d.spec_offsets().0 && (q.latitude@ >= 0
                    <==> u >= 0)
            } else {
                q.latitude@ == u
            }
            &&& q.dao matches Some(d) ==> if magnitude(v) + d.spec_offsets().1 <= 180
                * UNITS_PER_DEGREE {
                magnitude(q.longitude@) == magnitude(v) + d.spec_offsets().1 && (q.longitude@ >= 0
                    <==> v >= 0)
            } else {
                q.longitude@ == v
            }
        }),
{
    let (u, p) = spec_parse_lat(b.subrange(0, 8)).unwrap();
    let v = spec_parse_lon(b.subrange(9, 18), p).unwrap();
    let dao = spec_dao_from(b.skip(19), 0);
    let lat2 = match dao {
        Some(d) => adjusted(u, d.spec_offsets().0, 90 * UNITS_PER_DEGREE),
        None => u,
    };
    let lon2 = match dao {
        Some(d) => adjusted(v, d.spec_offsets().1, 180 * UNITS_PER_DEGREE),
        None => v,
    };
    if let Some(d) = dao {
        let o = d.spec_offsets();
        assert(o.0 >= 0 && o.1 >= 0);
    }
    let dl = lon_places(b.subrange(9, 18));
    let h = places_hundredths(dl);
    assert forall|i: int| 0 <= i < 7 implies 0x30 <= #[trigger] dl[i] <= 0x39 || dl[i] == 0x20 by {
        assert(is_digit(dl[i]) || dl[i] == 0x20);
    }
    assert(0 <= h <= 180 * 6000);
    assert(h * UNITS_PER_HUNDREDTH_MINUTE <= 180 * UNITS_PER_DEGREE) by (nonlinear_arith)
        requires
            0 <= h <= 180 * 6000,
    ;
    assert(-180 * UNITS_PER_DEGREE <= v <= 180 * UNITS_PER_DEGREE);
    assert(-90 * UNITS_PER_DEGREE <= lat2 <= 90 * UNITS_PER_DEGREE);
    assert(-180 * UNITS_PER_DEGREE <= lon2 <= 180 * UNITS_PER_DEGREE);
    Latitude::lemma_from_units(lat2);
    Longitude::lemma_from_units(lon2);
}


/// Where no DAO extension starts before `j`, the search from the start of
/// `s` comes to `j`.
proof fn lemma_dao_search_reaches(s: Seq<u8>, i: int, j: int)
    requires
        0 <= i <= j,
        j + 4 < s.len(),
        forall|k: int| 0 <= k < j ==> (#[trigger] spec_dao_at(s, k)) is None,
    ensures
        spec_dao_from(s, i) == spec_dao_from(s, j),
    decreases j - i,
{
    if i < j {
        lemma_dao_search_reaches(s, i + 1, j);
    }
}

/// A `!DAO!` extension is found wherever it stands in the comment, from its
/// very first byte on: five bytes `!`, a lower-case letter, two digits and
/// `!` give the two digits, and `!`, an upper-case letter, two base-91
/// characters and `!` give the characters less 33, whenever no extension
/// starts earlier.
pub proof fn lemma_dao_found_anywhere(s: Seq<u8>, j: int)
    requires
        0 <= j,
        j + 4 < s.len(),
        s[j] == 0x21 && s[j + 4] == 0x21,
        forall|k: int| 0 <= k < j ==> (#[trigger] spec_dao_at(s, k)) is None,
    ensures
        0x61 <= s[j + 1] <= 0x7A && 0x30 <= s[j + 2] <= 0x39 && 0x30 <= s[j + 3] <= 0x39
            ==> spec_dao_from(s, 0) == Some(
            Dao::HumanReadable {
                lat_digit: (s[j + 2] - 0x30) as u8,
                lon_digit: (s[j + 3] - 0x30) as u8,
            },
        ),
        0x41 <= s[j + 1] <= 0x5A && 0x21 <= s[j + 2] <= 0x7B && 0x21 <= s[j + 3] <= 0x7B
            ==> spec_dao_from(s, 0) == Some(
            Dao::Base91 { lat_offset: (s[j + 2] - 33) as u8, lon_offset: (s[j + 3] - 33) as u8 },
        ),
{
    lemma_dao_search_reaches(s, 0, j);
}

} // verus!
