//! The course/speed, radio range or altitude bytes of a compressed position,
//! and the compression type byte that follows them.

use vstd::prelude::*;
use crate::error::DecodeError;

verus! {

/// Whether the GPS fix was current when the position was sent.
#[derive(PartialEq, Eq, Debug, Clone, Copy, Structural)]
pub enum GpsFix {
    Old,
    Current,
}

/// The NMEA sentence the position came from.
#[derive(PartialEq, Eq, Debug, Clone, Copy, Structural)]
pub enum NmeaSource {
    Other,
    Gll,
    Gga,
    Rmc,
}

/// What produced the compressed position.
#[derive(PartialEq, Eq, Debug, Clone, Copy, Structural)]
pub enum Origin {
    Compressed,
    TncBText,
    Software,
    Tbd,
    Kpc3,
    Pico,
    Other,
    Digipeater,
}

/// The compression type byte of a compressed position, less 33: bit 5 is the
/// fix, bits 3 and 4 the NMEA source, bits 0 to 2 the origin.
#[derive(PartialEq, Eq, Debug, Clone, Copy, Structural)]
pub struct AprsCompressionType {
    pub gps_fix: GpsFix,
    pub nmea_source: NmeaSource,
    pub origin: Origin,
}

impl AprsCompressionType {
    /// The type that the value `t` (the byte less 33) encodes; bits 6 and 7 are ignored.
    pub open spec fn spec_from_byte(t: u8) -> AprsCompressionType {
        AprsCompressionType {
            gps_fix: if (t / 32) % 2 == 1 {
                GpsFix::Current
            } else {
                GpsFix::Old
            },
            nmea_source: match (t / 8) % 4 {
                0 => NmeaSource::Other,
                1 => NmeaSource::Gll,
                2 => NmeaSource::Gga,
                _ => NmeaSource::Rmc,
            },
            origin: match t % 8 {
                0 => Origin::Compressed,
                1 => Origin::TncBText,
                2 => Origin::Software,
                3 => Origin::Tbd,
                4 => Origin::Kpc3,
                5 => Origin::Pico,
                6 => Origin::Other,
                _ => Origin::Digipeater,
            },
        }
    }

    /// The value (the byte less 33) that encodes this type.
    pub open spec fn spec_to_byte(self) -> u8 {
        ((if self.gps_fix == GpsFix::Current {
            32int
        } else {
            0
        }) + 8 * match self.nmea_source {
            NmeaSource::Other => 0int,
            NmeaSource::Gll => 1,
            NmeaSource::Gga => 2,
            NmeaSource::Rmc => 3,
        } + match self.origin {
            Origin::Compressed => 0int,
            Origin::TncBText => 1,
            Origin::Software => 2,
            Origin::Tbd => 3,
            Origin::Kpc3 => 4,
            Origin::Pico => 5,
            Origin::Other => 6,
            Origin::Digipeater => 7,
        }) as u8
    }

    pub fn from_byte(t: u8) -> (r: AprsCompressionType)
        ensures
            r == Self::spec_from_byte(t),
    {
        AprsCompressionType {
            gps_fix: if (t / 32) % 2 == 1 {
                GpsFix::Current
            } else {
                GpsFix::Old
            },
            nmea_source: match (t / 8) % 4 {
                0 => NmeaSource::Other,
                1 => NmeaSource::Gll,
                2 => NmeaSource::Gga,
                _ => NmeaSource::Rmc,
            },
            origin: match t % 8 {
                0 => Origin::Compressed,
                1 => Origin::TncBText,
                2 => Origin::Software,
                3 => Origin::Tbd,
                4 => Origin::Kpc3,
                5 => Origin::Pico,
                6 => Origin::Other,
                _ => Origin::Digipeater,
            },
        }
    }

    pub fn to_byte(&self) -> (r: u8)
        ensures
            r == self.spec_to_byte(),
            r < 64,
    {
        let f: u8 = match self.gps_fix {
            GpsFix::Current => 32,
            GpsFix::Old => 0,
        };
        let n: u8 = match self.nmea_source {
            NmeaSource::Other => 0,
            NmeaSource::Gll => 1,
            NmeaSource::Gga => 2,
            NmeaSource::Rmc => 3,
        };
        let o: u8 = match self.origin {
            Origin::Compressed => 0,
            Origin::TncBText => 1,
            Origin::Software => 2,
            Origin::Tbd => 3,
            Origin::Kpc3 => 4,
            Origin::Pico => 5,
            Origin::Other => 6,
            Origin::Digipeater => 7,
        };
        f + 8 * n + o
    }
}

/// Course and speed in compressed steps: the course is `4 * course` degrees,
/// the speed `1.08^speed - 1` knots.
#[derive(PartialEq, Eq, Debug, Clone, Copy, Structural)]
pub struct AprsCourseSpeed {
    pub course: u8,
    pub speed: u8,
}

/// An altitude: in feet, or in compressed steps of `1.002^n` feet.
#[derive(PartialEq, Eq, Debug, Clone, Copy, Structural)]
pub enum AprsAltitude {
    Feet(u32),
    Compressed(u16),
}

/// The two bytes after the symbol code of a compressed position.
#[derive(PartialEq, Eq, Debug, Clone, Copy, Structural)]
pub enum AprsCompressedCs {
    CourseSpeed(AprsCourseSpeed),
    /// The radio range, `2 * 1.08^s` miles.
    RadioRange(u8),
    /// The altitude, `1.002^n` feet.
    Altitude(u16),
}

/// What the bytes `c` and `s` mean under the compression type `t`: a radio
/// range when `c` is `{`, an altitude when the source is GGA, otherwise a
/// course and a speed. Both bytes lie in `!`..=`{`.
pub open spec fn spec_parse_cs(c: u8, s: u8, t: AprsCompressionType) -> Option<AprsCompressedCs> {
    if c < 33 || c > 123 || s < 33 || s > 123 {
        None
    } else if c == 123 {
        Some(AprsCompressedCs::RadioRange((s - 33) as u8))
    } else if t.nmea_source == NmeaSource::Gga {
        Some(AprsCompressedCs::Altitude(((c - 33) * 91 + (s - 33)) as u16))
    } else {
        Some(AprsCompressedCs::CourseSpeed(AprsCourseSpeed { course: (c - 33) as u8, speed: (s - 33) as u8 }))
    }
}

/// A byte value, wrapped into `u8`.
pub open spec fn wrap(v: int) -> u8 {
    (v % 256) as u8
}

impl AprsCompressedCs {
    /// The two bytes and the compression type byte that encode this value.
    pub open spec fn spec_encode(self, t: AprsCompressionType) -> Seq<u8> {
        let (c, s) = match self {
            AprsCompressedCs::CourseSpeed(cs) => (wrap(cs.course + 33), wrap(cs.speed + 33)),
            AprsCompressedCs::RadioRange(r) => (123u8, wrap(r + 33)),
            AprsCompressedCs::Altitude(n) => (wrap(n / 91 + 33), wrap(n % 91 + 33)),
        };
        seq![c, s, (t.spec_to_byte() + 33) as u8]
    }

    pub fn parse(c: u8, s: u8, t: AprsCompressionType) -> (r: Result<AprsCompressedCs, DecodeError>)
        ensures
            match r {
                Ok(v) => spec_parse_cs(c, s, t) == Some(v),
                Err(e) => spec_parse_cs(c, s, t) is None && e@
                    == crate::error::DecodeErrorView::InvalidCourseSpeed(seq![c, s]),
            },
    {
        if c < 33 || c > 123 || s < 33 || s > 123 {
            let v: Vec<u8> = vec![c, s];
            assert(v@ =~= seq![c, s]);
            Err(DecodeError::InvalidCourseSpeed(v))
        } else if c == 123 {
            Ok(AprsCompressedCs::RadioRange(s - 33))
        } else if t.nmea_source == NmeaSource::Gga {
            Ok(AprsCompressedCs::Altitude((c - 33) as u16 * 91 + (s - 33) as u16))
        } else {
            Ok(AprsCompressedCs::CourseSpeed(AprsCourseSpeed { course: c - 33, speed: s - 33 }))
        }
    }

    /// Appends the two bytes and the compression type byte.
    pub fn encode(&self, buf: &mut Vec<u8>, t: AprsCompressionType)
        ensures
            final(buf)@ == old(buf)@ + self.spec_encode(t),
    {
        let ghost start = buf@;
        let (c, s): (u8, u8) = match self {
            AprsCompressedCs::CourseSpeed(cs) => (
                ((cs.course as u16 + 33) % 256) as u8,
                ((cs.speed as u16 + 33) % 256) as u8,
            ),
            AprsCompressedCs::RadioRange(r) => (123, ((*r as u16 + 33) % 256) as u8),
            AprsCompressedCs::Altitude(n) => (
                ((*n as u32 / 91 + 33) % 256) as u8,
                ((*n as u32 % 91 + 33) % 256) as u8,
            ),
        };
        buf.push(c);
        buf.push(s);
        buf.push(t.to_byte() + 33);
        assert(buf@ =~= start + self.spec_encode(t));
    }
}


/// The type read from the value that `to_byte` gives is the type itself.
pub proof fn lemma_compression_type_roundtrip(t: AprsCompressionType)
    ensures
        t.spec_to_byte() < 64,
        AprsCompressionType::spec_from_byte(t.spec_to_byte()) == t,
{
}

impl AprsCompressedCs {
    /// The values that `encode` writes in a form that `parse` reads back
    /// under the type `t`: a course below 90 steps (a course byte of `{`
    /// reads as a radio range) and a speed up to 90 steps when the source is
    /// not GGA, a radio range up to 90 steps, and an altitude below 8190 steps
    /// when the source is GGA.
    pub open spec fn encodable(self, t: AprsCompressionType) -> bool {
        match self {
            AprsCompressedCs::CourseSpeed(cs) => cs.course < 90 && cs.speed <= 90
                && t.nmea_source != NmeaSource::Gga,
            AprsCompressedCs::RadioRange(r) => r <= 90,
            AprsCompressedCs::Altitude(n) => n < 8190 && t.nmea_source == NmeaSource::Gga,
        }
    }
}

/// Parsing the bytes that `encode` writes, under the type read from its
/// third byte, gives back the value and the type.
pub proof fn lemma_cs_roundtrip(cs: AprsCompressedCs, t: AprsCompressionType)
    requires
        cs.encodable(t),
    ensures
        ({
            let e = cs.spec_encode(t);
            &&& e[0] != 0x20
            &&& e[2] >= 33
            &&& AprsCompressionType::spec_from_byte((e[2] - 33) as u8) == t
            &&& spec_parse_cs(e[0], e[1], t) == Some(cs)
        }),
{
    lemma_compression_type_roundtrip(t);
    if let AprsCompressedCs::Altitude(n) = cs {
        assert(n / 91 * 91 + n % 91 == n);
    }
}


/// A type value below 64 is written back as itself.
pub proof fn lemma_compression_type_of_byte(x: u8)
    requires
        x < 64,
    ensures
        AprsCompressionType::spec_from_byte(x).spec_to_byte() == x,
{
    let t = AprsCompressionType::spec_from_byte(x);
    vstd::arithmetic::div_mod::lemma_fundamental_div_mod(x as int, 8);
    vstd::arithmetic::div_mod::lemma_fundamental_div_mod(x as int / 8, 4);
    vstd::arithmetic::div_mod::lemma_div_denominator(x as int, 8, 4);
    assert(x as int / 32 < 2);
}

/// The bytes that parse as a course/speed part are written back as
/// themselves.
pub proof fn lemma_cs_reencode(c: u8, s: u8, t: AprsCompressionType)
    requires
        spec_parse_cs(c, s, t) is Some,
    ensures
        ({
            let e = spec_parse_cs(c, s, t).unwrap().spec_encode(t);
            e[0] == c && e[1] == s
        }),
{
    if c != 123 && t.nmea_source == NmeaSource::Gga {
        let n = (c - 33) * 91 + (s - 33);
        vstd::arithmetic::div_mod::lemma_fundamental_div_mod_converse_div(n, 91, c - 33, s - 33);
        vstd::arithmetic::div_mod::lemma_fundamental_div_mod_converse_mod(n, 91, c - 33, s - 33);
    }
}

} // verus!
