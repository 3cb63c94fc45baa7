//! Latitudes and longitudes, held exactly as integer multiples of
//! `1 / UNITS_PER_DEGREE` of a degree. That unit divides every step that the
//! APRS encodings can express: a hundredth of a minute (`1 / 6000` degree),
//! a thousandth of a minute, a 91st of a hundredth of a minute, and the
//! compressed steps `1 / 380926` and `1 / 190463` of a degree.

use vstd::prelude::*;
use crate::error::DecodeError;
use crate::text::{copy_range, is_digit};

verus! {

/// Units in one degree.
pub const UNITS_PER_DEGREE: i64 = 11_427_780_000;

/// Units in a hundredth of a minute of arc.
pub const UNITS_PER_HUNDREDTH_MINUTE: i64 = 1_904_630;

/// Units in one step of a compressed latitude (`1 / 380926` degree).
pub const UNITS_PER_COMPRESSED_LAT_STEP: i64 = 30_000;

/// Units in one step of a compressed longitude (`1 / 190463` degree).
pub const UNITS_PER_COMPRESSED_LON_STEP: i64 = 60_000;

/// How many of the trailing digits of an uncompressed position are blanked
/// out to hide the exact position.
#[derive(PartialEq, Eq, Debug, Clone, Copy, Structural)]
pub enum Precision {
    TenDegree,
    OneDegree,
    TenMinute,
    OneMinute,
    TenthMinute,
    HundredthMinute,
}

impl Precision {
    /// Number of trailing digit places that are blank at this precision.
    pub open spec fn spec_blanks(self) -> int {
        match self {
            Precision::TenDegree => 5,
            Precision::OneDegree => 4,
            Precision::TenMinute => 3,
            Precision::OneMinute => 2,
            Precision::TenthMinute => 1,
            Precision::HundredthMinute => 0,
        }
    }

    /// The precision at which `k` trailing digit places are blank.
    pub open spec fn spec_from_blanks(k: int) -> Precision {
        if k >= 5 {
            Precision::TenDegree
        } else if k == 4 {
            Precision::OneDegree
        } else if k == 3 {
            Precision::TenMinute
        } else if k == 2 {
            Precision::OneMinute
        } else if k == 1 {
            Precision::TenthMinute
        } else {
            Precision::HundredthMinute
        }
    }

    pub fn blanks(&self) -> (r: usize)
        ensures
            r == self.spec_blanks(),
    {
        match self {
            Precision::TenDegree => 5,
            Precision::OneDegree => 4,
            Precision::TenMinute => 3,
            Precision::OneMinute => 2,
            Precision::TenthMinute => 1,
            Precision::HundredthMinute => 0,
        }
    }

    /// The size, in units, of the smallest place that this precision keeps.
    pub open spec fn spec_width(self) -> int {
        match self {
            Precision::TenDegree => 10 * UNITS_PER_DEGREE,
            Precision::OneDegree => UNITS_PER_DEGREE as int,
            Precision::TenMinute => (UNITS_PER_DEGREE / 6) as int,
            Precision::OneMinute => (UNITS_PER_DEGREE / 60) as int,
            Precision::TenthMinute => (UNITS_PER_DEGREE / 600) as int,
            Precision::HundredthMinute => (UNITS_PER_DEGREE / 6000) as int,
        }
    }

    pub fn width(&self) -> (r: i64)
        ensures
            r == self.spec_width(),
            0 < r <= 10 * UNITS_PER_DEGREE,
    {
        match self {
            Precision::TenDegree => 10 * UNITS_PER_DEGREE,
            Precision::OneDegree => UNITS_PER_DEGREE,
            Precision::TenMinute => UNITS_PER_DEGREE / 6,
            Precision::OneMinute => UNITS_PER_DEGREE / 60,
            Precision::TenthMinute => UNITS_PER_DEGREE / 600,
            Precision::HundredthMinute => UNITS_PER_DEGREE / 6000,
        }
    }

    /// The values, in units, that a coordinate written as `value` at this
    /// precision may stand for: the blanked places read as zero, so the
    /// true magnitude lies up to one kept place beyond `|value|`.
    pub open spec fn spec_range(self, value: int) -> (int, int) {
        if value >= 0 {
            (value, value + self.spec_width())
        } else {
            (value - self.spec_width(), value)
        }
    }

    pub fn range(&self, value: i64) -> (r: (i64, i64))
        requires
            -180 * UNITS_PER_DEGREE <= value <= 180 * UNITS_PER_DEGREE,
        ensures
            (r.0 as int, r.1 as int) == self.spec_range(value as int),
    {
        let w = self.width();
        if value >= 0 {
            (value, value + w)
        } else {
            (value - w, value)
        }
    }

    fn from_blanks(k: usize) -> (r: Precision)
        ensures
            r == Self::spec_from_blanks(k as int),
    {
        if k >= 5 {
            Precision::TenDegree
        } else if k == 4 {
            Precision::OneDegree
        } else if k == 3 {
            Precision::TenMinute
        } else if k == 2 {
            Precision::OneMinute
        } else if k == 1 {
            Precision::TenthMinute
        } else {
            Precision::HundredthMinute
        }
    }
}

impl Default for Precision {
    fn default() -> (r: Precision)
        ensures
            r == Precision::HundredthMinute,
    {
        Precision::HundredthMinute
    }
}

/// The value of a digit place: a digit, or a blank that counts as zero.
pub open spec fn place_value(c: u8) -> int {
    if c == 0x20 {
        0
    } else {
        c - 0x30
    }
}

/// The number of blanks at the end of `d`.
pub open spec fn trailing_blanks(d: Seq<u8>) -> nat
    decreases d.len(),
{
    if d.len() > 0 && d.last() == 0x20 {
        1 + trailing_blanks(d.drop_last())
    } else {
        0
    }
}

/// True when the places `d[from..]` hold digits or blanks.
pub open spec fn digits_or_blanks(d: Seq<u8>, from: int) -> bool {
    forall|i: int| from <= i < d.len() ==> #[trigger] is_digit(d[i]) || d[i] == 0x20
}

/// True when the places `d[..to]` hold digits.
pub open spec fn digits_before(d: Seq<u8>, to: int) -> bool {
    forall|i: int| 0 <= i < to ==> #[trigger] is_digit(d[i])
}

/// The six digit places of an uncompressed latitude `DDMM.hh?`.
pub open spec fn lat_places(b: Seq<u8>) -> Seq<u8> {
    seq![b[0], b[1], b[2], b[3], b[5], b[6]]
}

/// The seven digit places of an uncompressed longitude `DDDMM.hh?`.
pub open spec fn lon_places(b: Seq<u8>) -> Seq<u8> {
    seq![b[0], b[1], b[2], b[3], b[4], b[6], b[7]]
}

/// Hundredths of a minute written by the degree, minute and hundredth places
/// `d`, where the degree takes the first `d.len() - 4` places.
pub open spec fn places_hundredths(d: Seq<u8>) -> int {
    let n = d.len() as int;
    let deg = if n == 7 {
        place_value(d[0]) * 100 + place_value(d[1]) * 10 + place_value(d[2])
    } else {
        place_value(d[0]) * 10 + place_value(d[1])
    };
    let min = place_value(d[n - 4]) * 10 + place_value(d[n - 3]);
    let hh = place_value(d[n - 2]) * 10 + place_value(d[n - 1]);
    deg * 6000 + min * 100 + hh
}

/// The minutes written by the places `d`.
pub open spec fn places_minutes(d: Seq<u8>) -> int {
    let n = d.len() as int;
    place_value(d[n - 4]) * 10 + place_value(d[n - 3])
}

/// What an uncompressed latitude `b` (`DDMM.hhN` or `DDMM.hhS`, with blanks
/// for ambiguity) decodes to: its units and its precision.
pub open spec fn spec_parse_lat(b: Seq<u8>) -> Option<(int, Precision)> {
    if b.len() != 8 || b[4] != 0x2E || !(b[7] == 0x4E || b[7] == 0x53) {
        None
    } else {
        let d = lat_places(b);
        let k = trailing_blanks(d);
        let h = places_hundredths(d);
        if k <= 5 && digits_before(d, 6 - k) && places_minutes(d) <= 59 && h <= 90 * 6000 {
            Some(
                (
                    if b[7] == 0x4E {
                        h * UNITS_PER_HUNDREDTH_MINUTE
                    } else {
                        -h * UNITS_PER_HUNDREDTH_MINUTE
                    },
                    Precision::spec_from_blanks(k as int),
                ),
            )
        } else {
            None
        }
    }
}

/// What an uncompressed longitude `b` (`DDDMM.hhE` or `DDDMM.hhW`) decodes to
/// at the precision `p` of its latitude: the blanked places may hold digits
/// or blanks, the others must hold digits.
pub open spec fn spec_parse_lon(b: Seq<u8>, p: Precision) -> Option<int> {
    if b.len() != 9 || b[5] != 0x2E || !(b[8] == 0x45 || b[8] == 0x57) {
        None
    } else {
        let d = lon_places(b);
        let k = p.spec_blanks();
        let h = places_hundredths(d);
        if digits_before(d, 7 - k) && digits_or_blanks(d, 7 - k) && places_minutes(d) <= 59 && h
            <= 180 * 6000 {
            Some(
                if b[8] == 0x45 {
                    h * UNITS_PER_HUNDREDTH_MINUTE
                } else {
                    -h * UNITS_PER_HUNDREDTH_MINUTE
                },
            )
        } else {
            None
        }
    }
}

/// True when `c` is a base-91 digit (`!` to `{`).
pub open spec fn is_base91(c: u8) -> bool {
    33 <= c <= 123
}

/// The value of four base-91 digits, most significant first.
pub open spec fn base91_value(b: Seq<u8>) -> int {
    (b[0] - 33) * 753571 + (b[1] - 33) * 8281 + (b[2] - 33) * 91 + (b[3] - 33)
}

/// The four base-91 digits of `v`, for `0 <= v < 91^4`.
pub open spec fn base91_digits(v: int) -> Seq<u8> {
    seq![
        (v / 753571 + 33) as u8,
        ((v / 8281) % 91 + 33) as u8,
        ((v / 91) % 91 + 33) as u8,
        (v % 91 + 33) as u8,
    ]
}

/// What a compressed latitude `b` (four base-91 digits) decodes to, in units.
pub open spec fn spec_parse_compressed_lat(b: Seq<u8>) -> Option<int> {
    if b.len() == 4 && is_base91(b[0]) && is_base91(b[1]) && is_base91(b[2]) && is_base91(b[3]) {
        let u = 90 * UNITS_PER_DEGREE - base91_value(b) * UNITS_PER_COMPRESSED_LAT_STEP;
        if -90 * UNITS_PER_DEGREE <= u {
            Some(u)
        } else {
            None
        }
    } else {
        None
    }
}

/// What a compressed longitude `b` (four base-91 digits) decodes to, in units.
pub open spec fn spec_parse_compressed_lon(b: Seq<u8>) -> Option<int> {
    if b.len() == 4 && is_base91(b[0]) && is_base91(b[1]) && is_base91(b[2]) && is_base91(b[3]) {
        let u = -180 * UNITS_PER_DEGREE + base91_value(b) * UNITS_PER_COMPRESSED_LON_STEP;
        if u <= 180 * UNITS_PER_DEGREE {
            Some(u)
        } else {
            None
        }
    } else {
        None
    }
}

/// The ASCII digit of `n`.
pub open spec fn digit_char(n: int) -> u8 {
    (n + 0x30) as u8
}

/// The place `c` at index `i` of `n` places, blanked when it is among the
/// last `k`.
pub open spec fn blank_if(c: u8, i: int, n: int, k: int) -> u8 {
    if i >= n - k {
        0x20
    } else {
        c
    }
}

/// `|u|` rounded to the nearest hundredth of a minute (halves round up).
pub open spec fn rounded_hundredths(u: int) -> int {
    let a = if u < 0 {
        -u
    } else {
        u
    };
    (a + UNITS_PER_HUNDREDTH_MINUTE / 2) / (UNITS_PER_HUNDREDTH_MINUTE as int)
}

/// The uncompressed text of a latitude of `u` units with `k` blank places.
pub open spec fn lat_text(u: int, k: int) -> Seq<u8> {
    let h = rounded_hundredths(u);
    let deg = h / 6000;
    let min = (h / 100) % 60;
    let hh = h % 100;
    seq![
        blank_if(digit_char(deg / 10), 0, 6, k),
        blank_if(digit_char(deg % 10), 1, 6, k),
        blank_if(digit_char(min / 10), 2, 6, k),
        blank_if(digit_char(min % 10), 3, 6, k),
        0x2Eu8,
        blank_if(digit_char(hh / 10), 4, 6, k),
        blank_if(digit_char(hh % 10), 5, 6, k),
        if u >= 0 {
            0x4Eu8
        } else {
            0x53u8
        },
    ]
}

/// The uncompressed text of a longitude of `u` units with `k` blank places.
pub open spec fn lon_text(u: int, k: int) -> Seq<u8> {
    let h = rounded_hundredths(u);
    let deg = h / 6000;
    let min = (h / 100) % 60;
    let hh = h % 100;
    seq![
        blank_if(digit_char(deg / 100), 0, 7, k),
        blank_if(digit_char((deg / 10) % 10), 1, 7, k),
        blank_if(digit_char(deg % 10), 2, 7, k),
        blank_if(digit_char(min / 10), 3, 7, k),
        blank_if(digit_char(min % 10), 4, 7, k),
        0x2Eu8,
        blank_if(digit_char(hh / 10), 5, 7, k),
        blank_if(digit_char(hh % 10), 6, 7, k),
        if u >= 0 {
            0x45u8
        } else {
            0x57u8
        },
    ]
}

/// The compressed text of a latitude of `u` units: the nearest step,
/// counted down from the north pole.
pub open spec fn compressed_lat_text(u: int) -> Seq<u8> {
    base91_digits(
        (90 * UNITS_PER_DEGREE - u + UNITS_PER_COMPRESSED_LAT_STEP / 2)
            / (UNITS_PER_COMPRESSED_LAT_STEP as int),
    )
}

/// The compressed text of a longitude of `u` units: the nearest step,
/// counted east from the antimeridian.
pub open spec fn compressed_lon_text(u: int) -> Seq<u8> {
    base91_digits(
        (180 * UNITS_PER_DEGREE + u + UNITS_PER_COMPRESSED_LON_STEP / 2)
            / (UNITS_PER_COMPRESSED_LON_STEP as int),
    )
}

/// A latitude, in units of `1 / UNITS_PER_DEGREE` degree, north positive.
#[derive(PartialEq, Eq, Debug, Clone, Copy, Structural)]
pub struct Latitude(i64);

/// A longitude, in units of `1 / UNITS_PER_DEGREE` degree, east positive.
#[derive(PartialEq, Eq, Debug, Clone, Copy, Structural)]
pub struct Longitude(i64);

impl Latitude {
    /// The latitude of `u` units.
    pub closed spec fn from_units(u: int) -> Latitude {
        Latitude(u as i64)
    }

    pub proof fn lemma_from_units(u: int)
        requires
            i64::MIN <= u <= i64::MAX,
        ensures
            #[trigger] Latitude::from_units(u)@ == u,
    {
    }

    pub proof fn lemma_units(l: Latitude)
        ensures
            Latitude::from_units(l@) == l,
    {
    }
}

impl Longitude {
    /// The longitude of `u` units.
    pub closed spec fn from_units(u: int) -> Longitude {
        Longitude(u as i64)
    }

    pub proof fn lemma_from_units(u: int)
        requires
            i64::MIN <= u <= i64::MAX,
        ensures
            #[trigger] Longitude::from_units(u)@ == u,
    {
    }

    pub proof fn lemma_units(l: Longitude)
        ensures
            Longitude::from_units(l@) == l,
    {
    }
}

impl View for Latitude {
    type V = int;

    closed spec fn view(&self) -> int {
        self.0 as int
    }
}

impl View for Longitude {
    type V = int;

    closed spec fn view(&self) -> int {
        self.0 as int
    }
}

/// Digit places `d[from..to]` that are digits or blanks; counts blanks at the end.
fn count_trailing_blanks(d: &[u8]) -> (k: usize)
    ensures
        k == trailing_blanks(d@),
        k <= d@.len(),
{
    let mut k: usize = 0;
    assert(d@.take(d@.len() as int) =~= d@);
    while k < d.len() && d[d.len() - 1 - k] == 0x20
        invariant
            k <= d@.len(),
            trailing_blanks(d@) == k + trailing_blanks(d@.take(d@.len() - k)),
        decreases d.len() - k,
    {
        proof {
            let t = d@.take(d@.len() - k);
            assert(t.drop_last() =~= d@.take(d@.len() - k - 1));
        }
        k = k + 1;
    }
    proof {
        let t = d@.take(d@.len() - k);
        if k < d@.len() {
            assert(t.last() == d@[d@.len() - 1 - k]);
        } else {
            assert(t.len() == 0);
        }
    }
    k
}

fn check_digits_before(d: &[u8], to: usize) -> (r: bool)
    requires
        to <= d@.len(),
    ensures
        r == digits_before(d@, to as int),
{
    let mut i: usize = 0;
    while i < to
        invariant
            to <= d@.len(),
            i <= to,
            digits_before(d@, i as int),
        decreases to - i,
    {
        if !(0x30 <= d[i] && d[i] <= 0x39) {
            assert(!is_digit(d@[i as int]));
            return false;
        }
        i = i + 1;
    }
    true
}

fn check_digits_or_blanks(d: &[u8], from: usize) -> (r: bool)
    requires
        from <= d@.len(),
    ensures
        r == digits_or_blanks(d@, from as int),
{
    let mut i: usize = from;
    while i < d.len()
        invariant
            from <= i <= d@.len(),
            forall|j: int| from <= j < i ==> #[trigger] is_digit(d@[j]) || d@[j] == 0x20,
        decreases d.len() - i,
    {
        if !(0x30 <= d[i] && d[i] <= 0x39) && d[i] != 0x20 {
            assert(!(is_digit(d@[i as int]) || d@[i as int] == 0x20));
            return false;
        }
        i = i + 1;
    }
    true
}

fn place(c: u8) -> (r: i64)
    requires
        is_digit(c) || c == 0x20,
    ensures
        r == place_value(c),
        0 <= r <= 9,
{
    if c == 0x20 {
        0
    } else {
        (c - 0x30) as i64
    }
}

/// Hundredths of a minute and minutes written by the places `d` (six or seven).
fn hundredths(d: &[u8]) -> (r: (i64, i64))
    requires
        d@.len() == 6 || d@.len() == 7,
        digits_or_blanks(d@, 0),
    ensures
        r.0 == places_hundredths(d@),
        r.1 == places_minutes(d@),
        0 <= r.1 <= 99,
        0 <= r.0 <= 999 * 6000 + 99 * 100 + 99,
{
    let n = d.len();
    assert(is_digit(d@[0]) || d@[0] == 0x20);
    assert(is_digit(d@[1]) || d@[1] == 0x20);
    assert(is_digit(d@[n - 4]) || d@[n - 4] == 0x20);
    assert(is_digit(d@[n - 3]) || d@[n - 3] == 0x20);
    assert(is_digit(d@[n - 2]) || d@[n - 2] == 0x20);
    assert(is_digit(d@[n - 1]) || d@[n - 1] == 0x20);
    let deg: i64 = if n == 7 {
        assert(is_digit(d@[2]) || d@[2] == 0x20);
        place(d[0]) * 100 + place(d[1]) * 10 + place(d[2])
    } else {
        place(d[0]) * 10 + place(d[1])
    };
    let min: i64 = place(d[n - 4]) * 10 + place(d[n - 3]);
    let hh: i64 = place(d[n - 2]) * 10 + place(d[n - 1]);
    (deg * 6000 + min * 100 + hh, min)
}

fn base91_in(b: &[u8]) -> (r: Option<i64>)
    ensures
        match r {
            Some(v) => b@.len() == 4 && is_base91(b@[0]) && is_base91(b@[1]) && is_base91(b@[2])
                && is_base91(b@[3]) && v == base91_value(b@),
            None => !(b@.len() == 4 && is_base91(b@[0]) && is_base91(b@[1]) && is_base91(b@[2])
                && is_base91(b@[3])),
        },
{
    if b.len() != 4 {
        return None;
    }
    if !(33 <= b[0] && b[0] <= 123 && 33 <= b[1] && b[1] <= 123 && 33 <= b[2] && b[2] <= 123
        && 33 <= b[3] && b[3] <= 123) {
        return None;
    }
    Some(
        (b[0] - 33) as i64 * 753571 + (b[1] - 33) as i64 * 8281 + (b[2] - 33) as i64 * 91 + (b[3]
            - 33) as i64,
    )
}

/// Appends the four base-91 digits of `v`.
fn push_base91(buf: &mut Vec<u8>, v: i64)
    requires
        0 <= v < 753571 * 91,
    ensures
        final(buf)@ == old(buf)@ + base91_digits(v as int),
{
    let ghost start = buf@;
    buf.push((v / 753571 + 33) as u8);
    buf.push(((v / 8281) % 91 + 33) as u8);
    buf.push(((v / 91) % 91 + 33) as u8);
    buf.push((v % 91 + 33) as u8);
    assert(buf@ =~= start + base91_digits(v as int));
}

impl Latitude {
    #[verifier::type_invariant]
    spec fn in_range(self) -> bool {
        -90 * UNITS_PER_DEGREE <= self.0 <= 90 * UNITS_PER_DEGREE
    }

    /// A latitude of `units`, when it lies within ±90 degrees.
    pub fn new(units: i64) -> (r: Option<Latitude>)
        ensures
            match r {
                Some(l) => l@ == units && -90 * UNITS_PER_DEGREE <= units <= 90 * UNITS_PER_DEGREE,
                None => !(-90 * UNITS_PER_DEGREE <= units <= 90 * UNITS_PER_DEGREE),
            },
    {
        if -90 * UNITS_PER_DEGREE <= units && units <= 90 * UNITS_PER_DEGREE {
            Some(Latitude(units))
        } else {
            None
        }
    }

    /// The latitude in units of `1 / UNITS_PER_DEGREE` degree.
    pub fn units(&self) -> (r: i64)
        ensures
            r == self@,
            -90 * UNITS_PER_DEGREE <= r <= 90 * UNITS_PER_DEGREE,
    {
        proof {
            use_type_invariant(self);
        }
        self.0
    }


    /// Decodes an uncompressed latitude `DDMM.hhN`, with its precision.
    pub fn parse_uncompressed(b: &[u8]) -> (r: Result<(Latitude, Precision), DecodeError>)
        ensures
            match r {
                Ok((l, p)) => spec_parse_lat(b@) == Some((l@, p)),
                Err(e) => spec_parse_lat(b@) is None && e@ == crate::error::DecodeErrorView::InvalidLatitude(b@),
            },
    {
        assert(b@.subrange(0, b@.len() as int) =~= b@);
        if b.len() != 8 || b[4] != 0x2E || !(b[7] == 0x4E || b[7] == 0x53) {
            return Err(DecodeError::InvalidLatitude(copy_range(b, 0, b.len())));
        }
        let d: Vec<u8> = vec![b[0], b[1], b[2], b[3], b[5], b[6]];
        assert(d@ =~= lat_places(b@));
        let k = count_trailing_blanks(d.as_slice());
        if k > 5 || !check_digits_before(d.as_slice(), 6 - k) {
            assert(b@.subrange(0, b@.len() as int) =~= b@);
            return Err(DecodeError::InvalidLatitude(copy_range(b, 0, b.len())));
        }
        proof {
            assert forall|i: int| 0 <= i < 6 implies #[trigger] is_digit(d@[i]) || d@[i]
                == 0x20 by {
                if i >= 6 - k {
                    lemma_trailing_blanks(d@, i);
                }
            }
        }
        let (h, min) = hundredths(d.as_slice());
        if min > 59 || h > 90 * 6000 {
            assert(b@.subrange(0, b@.len() as int) =~= b@);
            return Err(DecodeError::InvalidLatitude(copy_range(b, 0, b.len())));
        }
        let units: i64 = if b[7] == 0x4E {
            h * UNITS_PER_HUNDREDTH_MINUTE
        } else {
            -h * UNITS_PER_HUNDREDTH_MINUTE
        };
        Ok((Latitude(units), Precision::from_blanks(k)))
    }

    /// Decodes a compressed latitude: four base-91 digits.
    pub fn parse_compressed(b: &[u8]) -> (r: Result<Latitude, DecodeError>)
        ensures
            match r {
                Ok(l) => spec_parse_compressed_lat(b@) == Some(l@),
                Err(e) => spec_parse_compressed_lat(b@) is None && e@
                    == crate::error::DecodeErrorView::InvalidLatitude(b@),
            },
    {
        assert(b@.subrange(0, b@.len() as int) =~= b@);
        match base91_in(b) {
            Some(v) => {
                let u = 90 * UNITS_PER_DEGREE - v * UNITS_PER_COMPRESSED_LAT_STEP;
                if -90 * UNITS_PER_DEGREE <= u {
                    Ok(Latitude(u))
                } else {
                    Err(DecodeError::InvalidLatitude(copy_range(b, 0, b.len())))
                }
            },
            None => Err(DecodeError::InvalidLatitude(copy_range(b, 0, b.len()))),
        }
    }

    /// Appends the uncompressed text `DDMM.hhN` with the places that
    /// `precision` hides blanked.
    pub fn encode_uncompressed(&self, buf: &mut Vec<u8>, precision: Precision)
        ensures
            final(buf)@ == old(buf)@ + lat_text(self@, precision.spec_blanks()),
    {
        proof {
            use_type_invariant(self);
        }
        let u = self.0;
        let a: i64 = if u < 0 {
            -u
        } else {
            u
        };
        let h = (a + UNITS_PER_HUNDREDTH_MINUTE / 2) / UNITS_PER_HUNDREDTH_MINUTE;
        assert(h <= 90 * 6000);
        let deg = h / 6000;
        let min = (h / 100) % 60;
        let hh = h % 100;
        let k = precision.blanks();
        let places: Vec<u8> = vec![
            (deg / 10 + 0x30) as u8,
            (deg % 10 + 0x30) as u8,
            (min / 10 + 0x30) as u8,
            (min % 10 + 0x30) as u8,
            (hh / 10 + 0x30) as u8,
            (hh % 10 + 0x30) as u8,
        ];
        let ghost start = buf@;
        let mut i: usize = 0;
        while i < 6
            invariant
                i <= 6,
                k <= 5,
                places@.len() == 6,
                buf@.len() == start.len() + i + (if i > 4 {
                    1int
                } else {
                    0
                }),
                forall|j: int|
                    0 <= j < i ==> buf@[start.len() + j + (if j >= 4 {
                        1int
                    } else {
                        0
                    })] == #[trigger] blank_if(places@[j], j, 6, k as int),
                i > 4 ==> buf@[start.len() + 4int] == 0x2E,
                buf@.take(start.len() as int) == start,
            decreases 6 - i,
        {
            if i == 4 {
                buf.push(0x2E);
            }
            if i >= 6 - k {
                buf.push(0x20);
            } else {
                buf.push(places[i]);
            }
            i = i + 1;
        }
        buf.push(if u >= 0 {
            0x4E
        } else {
            0x53
        });
        proof {
            let t = lat_text(self@, precision.spec_blanks());
            assert(buf@.len() == start.len() + 8);
            assert(blank_if(places@[0], 0, 6, k as int) == t[0]);
            assert(blank_if(places@[1], 1, 6, k as int) == t[1]);
            assert(blank_if(places@[2], 2, 6, k as int) == t[2]);
            assert(blank_if(places@[3], 3, 6, k as int) == t[3]);
            assert(blank_if(places@[4], 4, 6, k as int) == t[5]);
            assert(blank_if(places@[5], 5, 6, k as int) == t[6]);
            assert(buf@ =~= start + t);
        }
    }

    /// Appends the compressed text: four base-91 digits.
    pub fn encode_compressed(&self, buf: &mut Vec<u8>)
        ensures
            final(buf)@ == old(buf)@ + compressed_lat_text(self@),
    {
        proof {
            use_type_invariant(self);
        }
        let v = (90 * UNITS_PER_DEGREE - self.0 + UNITS_PER_COMPRESSED_LAT_STEP / 2)
            / UNITS_PER_COMPRESSED_LAT_STEP;
        push_base91(buf, v);
    }
}

/// A place among the trailing blanks is a blank.
pub proof fn lemma_trailing_blanks(d: Seq<u8>, i: int)
    requires
        0 <= i,
        d.len() - trailing_blanks(d) <= i < d.len(),
    ensures
        d[i] == 0x20,
    decreases d.len(),
{
    if d.len() > 0 && d.last() == 0x20 {
        if i < d.len() - 1 {
            lemma_trailing_blanks(d.drop_last(), i);
            assert(d.drop_last()[i] == d[i]);
        }
    }
}

impl Longitude {
    #[verifier::type_invariant]
    spec fn in_range(self) -> bool {
        -180 * UNITS_PER_DEGREE <= self.0 <= 180 * UNITS_PER_DEGREE
    }

    /// A longitude of `units`, when it lies within ±180 degrees.
    pub fn new(units: i64) -> (r: Option<Longitude>)
        ensures
            match r {
                Some(l) => l@ == units && -180 * UNITS_PER_DEGREE <= units <= 180 * UNITS_PER_DEGREE,
                None => !(-180 * UNITS_PER_DEGREE <= units <= 180 * UNITS_PER_DEGREE),
            },
    {
        if -180 * UNITS_PER_DEGREE <= units && units <= 180 * UNITS_PER_DEGREE {
            Some(Longitude(units))
        } else {
            None
        }
    }

    /// The longitude in units of `1 / UNITS_PER_DEGREE` degree.
    pub fn units(&self) -> (r: i64)
        ensures
            r == self@,
            -180 * UNITS_PER_DEGREE <= r <= 180 * UNITS_PER_DEGREE,
    {
        proof {
            use_type_invariant(self);
        }
        self.0
    }


    /// Decodes an uncompressed longitude `DDDMM.hhE` at the latitude's precision.
    pub fn parse_uncompressed(b: &[u8], precision: Precision) -> (r: Result<Longitude, DecodeError>)
        ensures
            match r {
                Ok(l) => spec_parse_lon(b@, precision) == Some(l@),
                Err(e) => spec_parse_lon(b@, precision) is None && e@
                    == crate::error::DecodeErrorView::InvalidLongitude(b@),
            },
    {
        assert(b@.subrange(0, b@.len() as int) =~= b@);
        if b.len() != 9 || b[5] != 0x2E || !(b[8] == 0x45 || b[8] == 0x57) {
            return Err(DecodeError::InvalidLongitude(copy_range(b, 0, b.len())));
        }
        let d: Vec<u8> = vec![b[0], b[1], b[2], b[3], b[4], b[6], b[7]];
        assert(d@ =~= lon_places(b@));
        let k = precision.blanks();
        if !check_digits_before(d.as_slice(), 7 - k) || !check_digits_or_blanks(
            d.as_slice(),
            7 - k,
        ) {
            return Err(DecodeError::InvalidLongitude(copy_range(b, 0, b.len())));
        }
        let (h, min) = hundredths(d.as_slice());
        if min > 59 || h > 180 * 6000 {
            return Err(DecodeError::InvalidLongitude(copy_range(b, 0, b.len())));
        }
        let units: i64 = if b[8] == 0x45 {
            h * UNITS_PER_HUNDREDTH_MINUTE
        } else {
            -h * UNITS_PER_HUNDREDTH_MINUTE
        };
        Ok(Longitude(units))
    }

    /// Decodes a compressed longitude: four base-91 digits.
    pub fn parse_compressed(b: &[u8]) -> (r: Result<Longitude, DecodeError>)
        ensures
            match r {
                Ok(l) => spec_parse_compressed_lon(b@) == Some(l@),
                Err(e) => spec_parse_compressed_lon(b@) is None && e@
                    == crate::error::DecodeErrorView::InvalidLongitude(b@),
            },
    {
        assert(b@.subrange(0, b@.len() as int) =~= b@);
        match base91_in(b) {
            Some(v) => {
                let u = -180 * UNITS_PER_DEGREE + v * UNITS_PER_COMPRESSED_LON_STEP;
                if u <= 180 * UNITS_PER_DEGREE {
                    Ok(Longitude(u))
                } else {
                    Err(DecodeError::InvalidLongitude(copy_range(b, 0, b.len())))
                }
            },
            None => Err(DecodeError::InvalidLongitude(copy_range(b, 0, b.len()))),
        }
    }

    /// Appends the uncompressed text `DDDMM.hhE` with the places that
    /// `precision` hides blanked.
    pub fn encode_uncompressed(&self, buf: &mut Vec<u8>, precision: Precision)
        ensures
            final(buf)@ == old(buf)@ + lon_text(self@, precision.spec_blanks()),
    {
        proof {
            use_type_invariant(self);
        }
        let u = self.0;
        let a: i64 = if u < 0 {
            -u
        } else {
            u
        };
        let h = (a + UNITS_PER_HUNDREDTH_MINUTE / 2) / UNITS_PER_HUNDREDTH_MINUTE;
        assert(h <= 180 * 6000);
        let deg = h / 6000;
        let min = (h / 100) % 60;
        let hh = h % 100;
        let k = precision.blanks();
        let places: Vec<u8> = vec![
            (deg / 100 + 0x30) as u8,
            ((deg / 10) % 10 + 0x30) as u8,
            (deg % 10 + 0x30) as u8,
            (min / 10 + 0x30) as u8,
            (min % 10 + 0x30) as u8,
            (hh / 10 + 0x30) as u8,
            (hh % 10 + 0x30) as u8,
        ];
        let ghost start = buf@;
        let mut i: usize = 0;
        while i < 7
            invariant
                i <= 7,
                k <= 5,
                places@.len() == 7,
                buf@.len() == start.len() + i + (if i > 5 {
                    1int
                } else {
                    0
                }),
                forall|j: int|
                    0 <= j < i ==> buf@[start.len() + j + (if j >= 5 {
                        1int
                    } else {
                        0
                    })] == #[trigger] blank_if(places@[j], j, 7, k as int),
                i > 5 ==> buf@[start.len() + 5int] == 0x2E,
                buf@.take(start.len() as int) == start,
            decreases 7 - i,
        {
            if i == 5 {
                buf.push(0x2E);
            }
            if i >= 7 - k {
                buf.push(0x20);
            } else {
                buf.push(places[i]);
            }
            i = i + 1;
        }
        buf.push(if u >= 0 {
            0x45
        } else {
            0x57
        });
        proof {
            let t = lon_text(self@, precision.spec_blanks());
            assert(buf@.len() == start.len() + 9);
            assert(blank_if(places@[0], 0, 7, k as int) == t[0]);
            assert(blank_if(places@[1], 1, 7, k as int) == t[1]);
            assert(blank_if(places@[2], 2, 7, k as int) == t[2]);
            assert(blank_if(places@[3], 3, 7, k as int) == t[3]);
            assert(blank_if(places@[4], 4, 7, k as int) == t[4]);
            assert(blank_if(places@[5], 5, 7, k as int) == t[6]);
            assert(blank_if(places@[6], 6, 7, k as int) == t[7]);
            assert(buf@ =~= start + t);
        }
    }

    /// Appends the compressed text: four base-91 digits.
    pub fn encode_compressed(&self, buf: &mut Vec<u8>)
        ensures
            final(buf)@ == old(buf)@ + compressed_lon_text(self@),
    {
        proof {
            use_type_invariant(self);
        }
        let v = (180 * UNITS_PER_DEGREE + self.0 + UNITS_PER_COMPRESSED_LON_STEP / 2)
            / UNITS_PER_COMPRESSED_LON_STEP;
        push_base91(buf, v);
    }
}


/// Four base-91 digits written for `v` read back as `v`.
pub proof fn lemma_base91_roundtrip(v: int)
    requires
        0 <= v < 753571 * 91,
    ensures
        base91_digits(v).len() == 4,
        is_base91(base91_digits(v)[0]) && is_base91(base91_digits(v)[1]) && is_base91(
            base91_digits(v)[2],
        ) && is_base91(base91_digits(v)[3]),
        base91_value(base91_digits(v)) == v,
{
    let d0 = v / 753571;
    let r0 = v % 753571;
    let d1 = (v / 8281) % 91;
    let d2 = (v / 91) % 91;
    let d3 = v % 91;
    assert(v == d0 * 753571 + d1 * 8281 + d2 * 91 + d3 && 0 <= d0 < 91) by (nonlinear_arith)
        requires
            0 <= v < 753571 * 91,
            d0 == v / 753571,
            d1 == (v / 8281) % 91,
            d2 == (v / 91) % 91,
            d3 == v % 91,
    {
        assert(v / 753571 == (v / 8281) / 91);
        assert(v / 8281 == (v / 91) / 91);
    }
}

/// The compressed latitude written for `u` units reads back as the nearest
/// step to `u`: less than half a step away, and `u` itself when `u` lies on a
/// step.
pub proof fn lemma_compressed_lat_roundtrip(u: int)
    requires
        -90 * UNITS_PER_DEGREE <= u <= 90 * UNITS_PER_DEGREE,
    ensures
        spec_parse_compressed_lat(compressed_lat_text(u)) matches Some(w) && -UNITS_PER_COMPRESSED_LAT_STEP
            / 2 <= w - u < UNITS_PER_COMPRESSED_LAT_STEP / 2 && ((90 * UNITS_PER_DEGREE - u)
            % (UNITS_PER_COMPRESSED_LAT_STEP as int) == 0 ==> w == u),
{
    let x = 90 * UNITS_PER_DEGREE - u;
    let v = (x + UNITS_PER_COMPRESSED_LAT_STEP / 2) / (UNITS_PER_COMPRESSED_LAT_STEP as int);
    assert(0 <= v <= 68566680);
    lemma_base91_roundtrip(v);
    assert(x % 30000 == 0 ==> v == x / 30000);
}

/// The compressed longitude written for `u` units reads back as the nearest
/// step to `u`: at most half a step away, and `u` itself when `u` lies on a
/// step.
pub proof fn lemma_compressed_lon_roundtrip(u: int)
    requires
        -180 * UNITS_PER_DEGREE <= u <= 180 * UNITS_PER_DEGREE,
    ensures
        spec_parse_compressed_lon(compressed_lon_text(u)) matches Some(w) && -UNITS_PER_COMPRESSED_LON_STEP
            / 2 < w - u <= UNITS_PER_COMPRESSED_LON_STEP / 2 && ((180 * UNITS_PER_DEGREE + u)
            % (UNITS_PER_COMPRESSED_LON_STEP as int) == 0 ==> w == u),
{
    let x = 180 * UNITS_PER_DEGREE + u;
    let v = (x + UNITS_PER_COMPRESSED_LON_STEP / 2) / (UNITS_PER_COMPRESSED_LON_STEP as int);
    assert(0 <= v <= 68566680);
    lemma_base91_roundtrip(v);
    assert(x % 60000 == 0 ==> v == x / 60000);
}


/// The step to which `k` blank places round hundredths of a minute down:
/// the blanks take the hundredths, the minutes and the units of degrees in
/// turn.
pub open spec fn blank_modulus(k: int) -> int {
    if k <= 0 {
        1
    } else if k == 1 {
        10
    } else if k == 2 {
        100
    } else if k == 3 {
        1000
    } else if k == 4 {
        6000
    } else {
        60000
    }
}

/// `h` hundredths of a minute with the last `k` places blanked.
pub open spec fn kept_hundredths(h: int, k: int) -> int {
    h - h % blank_modulus(k)
}

/// The units that the uncompressed text of `u` with `k` blank places stands
/// for: `u` rounded to the nearest hundredth of a minute, then the blanked
/// places read as zero, away from zero as `u` is.
pub open spec fn kept_units(u: int, k: int) -> int {
    let h = kept_hundredths(rounded_hundredths(u), k) * UNITS_PER_HUNDREDTH_MINUTE;
    if u >= 0 {
        h
    } else {
        -h
    }
}

/// The degree, minute and hundredth places of `deg`, `min` and `hh` summed
/// with the last `k` of them blanked.
spec fn blanked_sum(deg: int, min: int, hh: int, k: int) -> int {
    if k <= 0 {
        deg * 6000 + min * 100 + hh
    } else if k == 1 {
        deg * 6000 + min * 100 + (hh / 10) * 10
    } else if k == 2 {
        deg * 6000 + min * 100
    } else if k == 3 {
        deg * 6000 + (min / 10) * 1000
    } else if k == 4 {
        deg * 6000
    } else {
        (deg / 10) * 60000
    }
}

/// Hundredths of a minute split into degrees, minutes and hundredths.
proof fn lemma_hundredths_split(h: int)
    requires
        0 <= h,
    ensures
        h == (h / 6000) * 6000 + ((h / 100) % 60) * 100 + h % 100,
        0 <= (h / 100) % 60 < 60,
        0 <= h % 100 < 100,
        0 <= h / 6000,
{
    vstd::arithmetic::div_mod::lemma_fundamental_div_mod(h, 100);
    vstd::arithmetic::div_mod::lemma_fundamental_div_mod(h / 100, 60);
    vstd::arithmetic::div_mod::lemma_div_denominator(h, 100, 60);
    vstd::arithmetic::div_mod::lemma_mod_bound(h / 100, 60);
}

/// Blanking places rounds down to the blank modulus.
proof fn lemma_kept_hundredths(deg: int, min: int, hh: int, k: int)
    requires
        0 <= deg,
        0 <= min < 60,
        0 <= hh < 100,
        0 <= k <= 5,
    ensures
        kept_hundredths(deg * 6000 + min * 100 + hh, k) == blanked_sum(deg, min, hh, k),
{
    let h = deg * 6000 + min * 100 + hh;
    vstd::arithmetic::div_mod::lemma_fundamental_div_mod(hh, 10);
    vstd::arithmetic::div_mod::lemma_fundamental_div_mod(min, 10);
    vstd::arithmetic::div_mod::lemma_fundamental_div_mod(deg, 10);
    if k == 0 {
        vstd::arithmetic::div_mod::lemma_fundamental_div_mod_converse_mod(h, 1, h, 0);
    } else if k == 1 {
        vstd::arithmetic::div_mod::lemma_fundamental_div_mod_converse_mod(
            h,
            10,
            deg * 600 + min * 10 + hh / 10,
            hh % 10,
        );
    } else if k == 2 {
        vstd::arithmetic::div_mod::lemma_fundamental_div_mod_converse_mod(h, 100, deg * 60 + min, hh);
    } else if k == 3 {
        vstd::arithmetic::div_mod::lemma_fundamental_div_mod_converse_mod(
            h,
            1000,
            deg * 6 + min / 10,
            (min % 10) * 100 + hh,
        );
    } else if k == 4 {
        vstd::arithmetic::div_mod::lemma_fundamental_div_mod_converse_mod(h, 6000, deg, min * 100 + hh);
    } else {
        vstd::arithmetic::div_mod::lemma_fundamental_div_mod_converse_mod(
            h,
            60000,
            deg / 10,
            (deg % 10) * 6000 + min * 100 + hh,
        );
    }
}

/// `d` ends in exactly `k` blanks.
proof fn lemma_trailing_blanks_exact(d: Seq<u8>, k: int)
    requires
        0 <= k <= d.len(),
        forall|i: int| d.len() - k <= i < d.len() ==> d[i] == 0x20,
        k < d.len() ==> d[d.len() - k - 1] != 0x20,
    ensures
        trailing_blanks(d) == k,
    decreases k,
{
    if k > 0 {
        let e = d.drop_last();
        assert forall|i: int| e.len() - (k - 1) <= i < e.len() implies e[i] == 0x20 by {
            assert(e[i] == d[i]);
        }
        if k - 1 < e.len() {
            assert(e[e.len() - (k - 1) - 1] == d[d.len() - k - 1]);
        }
        lemma_trailing_blanks_exact(e, k - 1);
    }
}


/// The uncompressed latitude written for `u` units with `k` blank places
/// reads back as `kept_units(u, k)`, at the precision that `k` blanks name.
pub proof fn lemma_lat_roundtrip(u: int, k: int)
    requires
        -90 * UNITS_PER_DEGREE <= u <= 90 * UNITS_PER_DEGREE,
        0 <= k <= 5,
    ensures
        spec_parse_lat(lat_text(u, k)) == Some((kept_units(u, k), Precision::spec_from_blanks(k))),
{
    let h = rounded_hundredths(u);
    assert(0 <= h <= 540000);
    lemma_hundredths_split(h);
    let deg = h / 6000;
    let min = (h / 100) % 60;
    let hh = h % 100;
    assert(deg <= 90);
    vstd::arithmetic::div_mod::lemma_fundamental_div_mod(hh, 10);
    vstd::arithmetic::div_mod::lemma_fundamental_div_mod(min, 10);
    vstd::arithmetic::div_mod::lemma_fundamental_div_mod(deg, 10);
    let t = lat_text(u, k);
    let d = lat_places(t);
    assert(d.len() == 6);
    assert forall|i: int| 6 - k <= i < 6 implies d[i] == 0x20 by {}
    lemma_trailing_blanks_exact(d, k);
    assert(digits_before(d, 6 - k));
    lemma_kept_hundredths(deg, min, hh, k);
    assert(places_hundredths(d) == blanked_sum(deg, min, hh, k));
}

/// The uncompressed longitude written for `u` units with the blank places
/// of `p` reads back at `p` as `kept_units(u, k)`.
pub proof fn lemma_lon_roundtrip(u: int, p: Precision)
    requires
        -180 * UNITS_PER_DEGREE <= u <= 180 * UNITS_PER_DEGREE,
    ensures
        spec_parse_lon(lon_text(u, p.spec_blanks()), p) == Some(kept_units(u, p.spec_blanks())),
{
    let k = p.spec_blanks();
    let h = rounded_hundredths(u);
    assert(0 <= h <= 1080000);
    lemma_hundredths_split(h);
    let deg = h / 6000;
    let min = (h / 100) % 60;
    let hh = h % 100;
    assert(deg <= 180);
    vstd::arithmetic::div_mod::lemma_fundamental_div_mod(hh, 10);
    vstd::arithmetic::div_mod::lemma_fundamental_div_mod(min, 10);
    vstd::arithmetic::div_mod::lemma_fundamental_div_mod(deg, 10);
    vstd::arithmetic::div_mod::lemma_fundamental_div_mod(deg / 10, 10);
    vstd::arithmetic::div_mod::lemma_div_denominator(deg, 10, 10);
    let t = lon_text(u, k);
    let d = lon_places(t);
    assert(d.len() == 7);
    assert(digits_before(d, 7 - k));
    assert(digits_or_blanks(d, 7 - k));
    lemma_kept_hundredths(deg, min, hh, k);
    assert(places_hundredths(d) == blanked_sum(deg, min, hh, k));
}


/// Four base-91 digits are written back as themselves.
pub proof fn lemma_base91_digits_of_value(d: Seq<u8>)
    requires
        d.len() == 4,
        is_base91(d[0]) && is_base91(d[1]) && is_base91(d[2]) && is_base91(d[3]),
    ensures
        0 <= base91_value(d) < 753571 * 91,
        base91_digits(base91_value(d)) == d,
{
    let a = d[0] - 33;
    let b = d[1] - 33;
    let c = d[2] - 33;
    let e = d[3] - 33;
    let v = base91_value(d);
    vstd::arithmetic::div_mod::lemma_fundamental_div_mod_converse_div(v, 753571, a, b * 8281 + c * 91 + e);
    vstd::arithmetic::div_mod::lemma_fundamental_div_mod_converse_div(v, 8281, a * 91 + b, c * 91 + e);
    vstd::arithmetic::div_mod::lemma_fundamental_div_mod_converse_mod(a * 91 + b, 91, a, b);
    vstd::arithmetic::div_mod::lemma_fundamental_div_mod_converse_div(v, 91, a * 8281 + b * 91 + c, e);
    vstd::arithmetic::div_mod::lemma_fundamental_div_mod_converse_mod(a * 8281 + b * 91 + c, 91, a * 91 + b, c);
    vstd::arithmetic::div_mod::lemma_fundamental_div_mod_converse_mod(v, 91, a * 8281 + b * 91 + c, e);
    assert(base91_digits(v) =~= d);
}

/// A compressed latitude is written back as the same four digits.
pub proof fn lemma_compressed_lat_reencode(b: Seq<u8>)
    requires
        spec_parse_compressed_lat(b) is Some,
    ensures
        compressed_lat_text(spec_parse_compressed_lat(b).unwrap()) == b,
{
    lemma_base91_digits_of_value(b);
    let v = base91_value(b);
    let u = spec_parse_compressed_lat(b).unwrap();
    vstd::arithmetic::div_mod::lemma_fundamental_div_mod_converse_div(
        90 * UNITS_PER_DEGREE - u + UNITS_PER_COMPRESSED_LAT_STEP / 2,
        UNITS_PER_COMPRESSED_LAT_STEP as int,
        v,
        UNITS_PER_COMPRESSED_LAT_STEP / 2,
    );
}

/// A compressed longitude is written back as the same four digits.
pub proof fn lemma_compressed_lon_reencode(b: Seq<u8>)
    requires
        spec_parse_compressed_lon(b) is Some,
    ensures
        compressed_lon_text(spec_parse_compressed_lon(b).unwrap()) == b,
{
    lemma_base91_digits_of_value(b);
    let v = base91_value(b);
    let u = spec_parse_compressed_lon(b).unwrap();
    vstd::arithmetic::div_mod::lemma_fundamental_div_mod_converse_div(
        180 * UNITS_PER_DEGREE + u + UNITS_PER_COMPRESSED_LON_STEP / 2,
        UNITS_PER_COMPRESSED_LON_STEP as int,
        v,
        UNITS_PER_COMPRESSED_LON_STEP / 2,
    );
}


/// `h` hundredths of a minute written with the degree places `deg`, the
/// minute places `min` and the hundredth places `hh` split back into them.
proof fn lemma_hundredths_parts(deg: int, min: int, hh: int)
    requires
        0 <= deg,
        0 <= min < 60,
        0 <= hh < 100,
    ensures
        (deg * 6000 + min * 100 + hh) / 6000 == deg,
        ((deg * 6000 + min * 100 + hh) / 100) % 60 == min,
        (deg * 6000 + min * 100 + hh) % 100 == hh,
        rounded_hundredths((deg * 6000 + min * 100 + hh) * UNITS_PER_HUNDREDTH_MINUTE) == deg * 6000
            + min * 100 + hh,
        rounded_hundredths(-((deg * 6000 + min * 100 + hh) * UNITS_PER_HUNDREDTH_MINUTE)) == deg
            * 6000 + min * 100 + hh,
{
    let h = deg * 6000 + min * 100 + hh;
    vstd::arithmetic::div_mod::lemma_fundamental_div_mod_converse_div(h, 6000, deg, min * 100 + hh);
    vstd::arithmetic::div_mod::lemma_fundamental_div_mod_converse_div(h, 100, deg * 60 + min, hh);
    vstd::arithmetic::div_mod::lemma_fundamental_div_mod_converse_mod(deg * 60 + min, 60, deg, min);
    vstd::arithmetic::div_mod::lemma_fundamental_div_mod_converse_mod(h, 100, deg * 60 + min, hh);
    vstd::arithmetic::div_mod::lemma_fundamental_div_mod_converse_div(
        h * UNITS_PER_HUNDREDTH_MINUTE + UNITS_PER_HUNDREDTH_MINUTE / 2,
        UNITS_PER_HUNDREDTH_MINUTE as int,
        h,
        UNITS_PER_HUNDREDTH_MINUTE / 2,
    );
}

/// Two digit places of value `v` are written back as themselves.
proof fn lemma_two_places(v: int, a: u8, b: u8)
    requires
        0x30 <= a <= 0x39,
        0x30 <= b <= 0x39,
        v == (a - 0x30) * 10 + (b - 0x30),
    ensures
        digit_char(v / 10) == a,
        digit_char(v % 10) == b,
{
    vstd::arithmetic::div_mod::lemma_fundamental_div_mod_converse_div(v, 10, a - 0x30, b - 0x30);
    vstd::arithmetic::div_mod::lemma_fundamental_div_mod_converse_mod(v, 10, a - 0x30, b - 0x30);
}

/// An uncompressed latitude, unless it is a zero marked south, is written
/// back at its precision as the same text.
pub proof fn lemma_lat_reencode(b: Seq<u8>)
    requires
        spec_parse_lat(b) matches Some((u, p)) && (b[7] == 0x53 ==> u != 0),
    ensures
        spec_parse_lat(b) matches Some((u, p)) && lat_text(u, p.spec_blanks()) == b,
{
    let (u, p) = spec_parse_lat(b).unwrap();
    let d = lat_places(b);
    let k = trailing_blanks(d) as int;
    assert(p.spec_blanks() == k);
    let pv = Seq::new(6, |i: int| place_value(d[i]));
    assert forall|i: int| 6 - k <= i < 6 implies d[i] == 0x20 by {
        lemma_trailing_blanks(d, i);
    }
    assert forall|i: int| 0 <= i < 6 - k implies is_digit(#[trigger] d[i]) by {}
    let deg = pv[0] * 10 + pv[1];
    let min = pv[2] * 10 + pv[3];
    let hh = pv[4] * 10 + pv[5];
    assert(places_hundredths(d) == deg * 6000 + min * 100 + hh);
    lemma_hundredths_parts(deg, min, hh);
    let t = lat_text(u, k);
    // each place, digit or blank, comes back
    let dc = |c: u8| if c == 0x20 { 0x30u8 } else { c };
    lemma_two_places(deg, dc(d[0]), dc(d[1]));
    lemma_two_places(min, dc(d[2]), dc(d[3]));
    lemma_two_places(hh, dc(d[4]), dc(d[5]));
    assert(t =~= b);
}


/// Three digit places of value `v` are written back as themselves.
proof fn lemma_three_places(v: int, a: u8, b: u8, c: u8)
    requires
        0x30 <= a <= 0x39,
        0x30 <= b <= 0x39,
        0x30 <= c <= 0x39,
        v == (a - 0x30) * 100 + (b - 0x30) * 10 + (c - 0x30),
    ensures
        digit_char(v / 100) == a,
        digit_char((v / 10) % 10) == b,
        digit_char(v % 10) == c,
{
    let x = (a - 0x30) * 10 + (b - 0x30);
    vstd::arithmetic::div_mod::lemma_fundamental_div_mod_converse_div(v, 100, a - 0x30, x % 10 * 10
        + (c - 0x30));
    lemma_two_places(x, a, b);
    vstd::arithmetic::div_mod::lemma_fundamental_div_mod_converse_div(v, 10, x, c - 0x30);
    vstd::arithmetic::div_mod::lemma_fundamental_div_mod_converse_mod(v, 10, x, c - 0x30);
}

/// An uncompressed longitude read at the precision `p`, whose blanked
/// places are blanks, is written back as the same text unless it is a zero
/// marked west.
pub proof fn lemma_lon_reencode(b: Seq<u8>, p: Precision)
    requires
        spec_parse_lon(b, p) matches Some(u) && (b[8] == 0x57 ==> u != 0),
        forall|i: int| 7 - p.spec_blanks() <= i < 7 ==> #[trigger] lon_places(b)[i] == 0x20,
    ensures
        spec_parse_lon(b, p) matches Some(u) && lon_text(u, p.spec_blanks()) == b,
{
    let u = spec_parse_lon(b, p).unwrap();
    let d = lon_places(b);
    let k = p.spec_blanks();
    let pv = Seq::new(7, |i: int| place_value(d[i]));
    assert forall|i: int| 0 <= i < 7 - k implies is_digit(#[trigger] d[i]) by {}
    let deg = pv[0] * 100 + pv[1] * 10 + pv[2];
    let min = pv[3] * 10 + pv[4];
    let hh = pv[5] * 10 + pv[6];
    assert(places_hundredths(d) == deg * 6000 + min * 100 + hh);
    lemma_hundredths_parts(deg, min, hh);
    let t = lon_text(u, k);
    let dc = |c: u8| if c == 0x20 { 0x30u8 } else { c };
    lemma_three_places(deg, dc(d[0]), dc(d[1]), dc(d[2]));
    lemma_two_places(min, dc(d[3]), dc(d[4]));
    lemma_two_places(hh, dc(d[5]), dc(d[6]));
    assert(t =~= b);
}


/// Every step that the encodings express is a whole number of units: a
/// hundredth of a minute, and the compressed steps of `1 / 380926` degree of
/// latitude and `1 / 190463` degree of longitude.
pub proof fn lemma_unit_steps()
    ensures
        UNITS_PER_HUNDREDTH_MINUTE * 6000 == UNITS_PER_DEGREE,
        UNITS_PER_COMPRESSED_LAT_STEP * 380926 == UNITS_PER_DEGREE,
        UNITS_PER_COMPRESSED_LON_STEP * 190463 == UNITS_PER_DEGREE,
{
}


/// The range that an ambiguous coordinate may stand for is exactly the set
/// of values that the same text stands for: a value `x` hundredths of a
/// minute from zero lies in the range of the value that `h` hundredths read
/// as at precision `p` if and only if `x`, written with the same blank
/// places, reads as the same value. The range is as wide as the smallest
/// place that `p` keeps.
pub proof fn lemma_range_is_kept_place(p: Precision, h: int, x: int)
    requires
        0 <= h,
        0 <= x,
    ensures
        ({
            let k = p.spec_blanks();
            let hk = kept_hundredths(h, k);
            let (lo, hi) = p.spec_range(hk * UNITS_PER_HUNDREDTH_MINUTE);
            (kept_hundredths(x, k) == hk) <==> (lo <= x * UNITS_PER_HUNDREDTH_MINUTE < hi)
        }),
{
    let k = p.spec_blanks();
    let m = blank_modulus(k);
    let hk = kept_hundredths(h, k);
    assert(p.spec_width() == m * UNITS_PER_HUNDREDTH_MINUTE);
    vstd::arithmetic::div_mod::lemma_fundamental_div_mod(h, m);
    vstd::arithmetic::div_mod::lemma_fundamental_div_mod(x, m);
    vstd::arithmetic::div_mod::lemma_mod_bound(h, m);
    vstd::arithmetic::div_mod::lemma_mod_bound(x, m);
    let qh = h / m;
    let qx = x / m;
    assert(hk == qh * m);
    assert(kept_hundredths(x, k) == qx * m);
    assert(qh >= 0 && qx >= 0) by {
        vstd::arithmetic::div_mod::lemma_div_pos_is_pos(h, m);
        vstd::arithmetic::div_mod::lemma_div_pos_is_pos(x, m);
    }
    assert((qx * m == qh * m) <==> (qh * m <= x < qh * m + m)) by (nonlinear_arith)
        requires
            m > 0,
            x == qx * m + x % m,
            0 <= x % m < m,
    ;
    assert((qh * m <= x < qh * m + m) <==> (qh * m * UNITS_PER_HUNDREDTH_MINUTE <= x
        * UNITS_PER_HUNDREDTH_MINUTE < qh * m * UNITS_PER_HUNDREDTH_MINUTE + m
        * UNITS_PER_HUNDREDTH_MINUTE)) by (nonlinear_arith)
        requires
            UNITS_PER_HUNDREDTH_MINUTE > 0,
    ;
}

} // verus!
