//! Maidenhead grid locator parsing and encoding for APRS.
//!
//! Format: `[IO91SX]comment` — data type identifier `[`
//! The grid square is 4 or 6 characters enclosed in brackets.

use vstd::prelude::*;
use crate::callsign::Callsign;
use crate::components::lonlat::{Latitude, Longitude, UNITS_PER_DEGREE};
use crate::error::{DecodeError, DecodeErrorView, EncodeError};
use crate::text::{
    copy_range, digit, find, find_in, is_alpha, is_digit, is_upper, lemma_find, lower,
    lower_letter, push_all, to_lower, upper_letter,
};

verus! {

/// An APRS Maidenhead grid locator report.
#[derive(PartialEq, Debug, Clone)]
pub struct AprsGridLocator {
    pub to: Callsign,
    pub grid: Vec<u8>,
    pub comment: Vec<u8>,
}

/// A grid square: 4 or 6 characters, two uppercase letters, two digits,
/// then optionally two letters.
pub open spec fn grid_valid(g: Seq<u8>) -> bool {
    &&& (g.len() == 4 || g.len() == 6)
    &&& is_upper(g[0]) && is_upper(g[1]) && is_digit(g[2]) && is_digit(g[3])
    &&& (g.len() == 6 ==> is_alpha(g[4]) && is_alpha(g[5]))
}

/// What a grid body `b` (after `[`) decodes to: the grid before the first
/// `]` and the comment after it.
pub open spec fn spec_grid_decode(b: Seq<u8>) -> Option<(Seq<u8>, Seq<u8>)> {
    match find(b, 0x5D) {
        None => None,
        Some(end) => if grid_valid(b.take(end)) {
            Some((b.take(end), b.skip(end + 1)))
        } else {
            None
        },
    }
}

/// The centre of the grid square `g`, as (latitude, longitude) in units:
/// a field is 20 by 10 degrees, a square 2 by 1 degrees, a subsquare 5 by
/// 2.5 minutes.
pub open spec fn grid_center(g: Seq<u8>) -> (int, int) {
    let field_lon = g[0] - 0x41;
    let field_lat = g[1] - 0x41;
    let square_lon = g[2] - 0x30;
    let square_lat = g[3] - 0x30;
    if g.len() >= 6 {
        let subsq_lon = lower(g[4]) - 0x61;
        let subsq_lat = lower(g[5]) - 0x61;
        (
            field_lat * 10 * UNITS_PER_DEGREE + square_lat * UNITS_PER_DEGREE + subsq_lat * (
            UNITS_PER_DEGREE / 24) + UNITS_PER_DEGREE / 48 - 90 * UNITS_PER_DEGREE,
            field_lon * 20 * UNITS_PER_DEGREE + square_lon * 2 * UNITS_PER_DEGREE + subsq_lon * (
            UNITS_PER_DEGREE / 12) + UNITS_PER_DEGREE / 24 - 180 * UNITS_PER_DEGREE,
        )
    } else {
        (
            field_lat * 10 * UNITS_PER_DEGREE + square_lat * UNITS_PER_DEGREE + UNITS_PER_DEGREE
                / 2 - 90 * UNITS_PER_DEGREE,
            field_lon * 20 * UNITS_PER_DEGREE + square_lon * 2 * UNITS_PER_DEGREE
                + UNITS_PER_DEGREE - 180 * UNITS_PER_DEGREE,
        )
    }
}

/// True when the characters that `to_position` subtracts from lie at or
/// above the letter or digit they are measured from.
pub open spec fn grid_measurable(g: Seq<u8>) -> bool {
    g.len() >= 4 ==> {
        &&& g[0] >= 0x41 && g[1] >= 0x41 && g[2] >= 0x30 && g[3] >= 0x30
        &&& (g.len() >= 6 ==> lower(g[4]) >= 0x61 && lower(g[5]) >= 0x61)
    }
}

impl AprsGridLocator {
    /// The encoding: `[`, the grid, `]`, the comment.
    pub open spec fn spec_encode(&self) -> Seq<u8> {
        seq![0x5Bu8] + self.grid@ + seq![0x5Du8] + self.comment@
    }

    pub fn decode(b: &[u8], to: Callsign) -> (r: Result<Self, DecodeError>)
        ensures
            match r {
                Ok(g) => spec_grid_decode(b@) == Some((g.grid@, g.comment@)) && g.to == to,
                Err(e) => spec_grid_decode(b@) is None && e@ == DecodeErrorView::InvalidGridLocator(
                    b@,
                ),
            },
    {
        assert(b@.subrange(0, b@.len() as int) =~= b@);
        proof {
            lemma_find(b@, 0x5D);
        }
        // Find the closing bracket
        let end = match find_in(b, 0, b.len(), 0x5D) {
            Some(end) => end,
            None => return Err(DecodeError::InvalidGridLocator(copy_range(b, 0, b.len()))),
        };

        let grid = copy_range(b, 0, end);
        assert(grid@ =~= b@.take(end as int));

        // Grid must be 4 or 6 characters
        if grid.len() != 4 && grid.len() != 6 {
            return Err(DecodeError::InvalidGridLocator(copy_range(b, 0, b.len())));
        }

        // Validate grid format: 2 uppercase letters, 2 digits, optionally 2 letters
        if !upper_letter(grid[0]) || !upper_letter(grid[1]) || !digit(grid[2]) || !digit(grid[3]) {
            return Err(DecodeError::InvalidGridLocator(copy_range(b, 0, b.len())));
        }

        if grid.len() == 6 && (!(upper_letter(grid[4]) || lower_letter(grid[4])) || !(upper_letter(
            grid[5],
        ) || lower_letter(grid[5]))) {
            return Err(DecodeError::InvalidGridLocator(copy_range(b, 0, b.len())));
        }

        let comment = copy_range(b, end + 1, b.len());
        assert(comment@ =~= b@.skip(end + 1));

        Ok(Self { to, grid, comment })
    }

    /// Convert the Maidenhead grid locator to approximate latitude/longitude.
    /// Returns the center of the grid square.
    pub fn to_position(&self) -> (r: Option<(Latitude, Longitude)>)
        requires
            grid_measurable(self.grid@),
        ensures
            match r {
                Some((lat, lon)) => self.grid@.len() >= 4 && lat@ == grid_center(self.grid@).0
                    && lon@ == grid_center(self.grid@).1,
                None => self.grid@.len() < 4 || !(-90 * UNITS_PER_DEGREE <= grid_center(
                    self.grid@,
                ).0 <= 90 * UNITS_PER_DEGREE) || !(-180 * UNITS_PER_DEGREE <= grid_center(
                    self.grid@,
                ).1 <= 180 * UNITS_PER_DEGREE),
            },
    {
        if self.grid.len() < 4 {
            return None;
        }

        let field_lon = (self.grid[0] - 0x41) as i64;
        let field_lat = (self.grid[1] - 0x41) as i64;
        let square_lon = (self.grid[2] - 0x30) as i64;
        let square_lat = (self.grid[3] - 0x30) as i64;

        let lon: i64;
        let lat: i64;

        if self.grid.len() >= 6 {
            // 6-char grid: field(20°) + square(2°) + subsquare(5')
            let subsq_lon = (to_lower(self.grid[4]) - 0x61) as i64;
            let subsq_lat = (to_lower(self.grid[5]) - 0x61) as i64;
            lon = field_lon * 20 * UNITS_PER_DEGREE + square_lon * 2 * UNITS_PER_DEGREE + subsq_lon
                * (UNITS_PER_DEGREE / 12) + UNITS_PER_DEGREE / 24 - 180 * UNITS_PER_DEGREE;
            lat = field_lat * 10 * UNITS_PER_DEGREE + square_lat * UNITS_PER_DEGREE + subsq_lat * (
            UNITS_PER_DEGREE / 24) + UNITS_PER_DEGREE / 48 - 90 * UNITS_PER_DEGREE;
        } else {
            // 4-char grid: center of the 2°x1° square
            lon = field_lon * 20 * UNITS_PER_DEGREE + square_lon * 2 * UNITS_PER_DEGREE
                + UNITS_PER_DEGREE - 180 * UNITS_PER_DEGREE;
            lat = field_lat * 10 * UNITS_PER_DEGREE + square_lat * UNITS_PER_DEGREE
                + UNITS_PER_DEGREE / 2 - 90 * UNITS_PER_DEGREE;
        }

        let latitude = match Latitude::new(lat) {
            Some(l) => l,
            None => return None,
        };
        let longitude = match Longitude::new(lon) {
            Some(l) => l,
            None => return None,
        };
        Some((latitude, longitude))
    }

    pub fn encode(&self, buf: &mut Vec<u8>) -> (r: Result<(), EncodeError>)
        ensures
            r is Ok,
            final(buf)@ == old(buf)@ + self.spec_encode(),
    {
        let ghost start = buf@;
        buf.push(0x5B);
        push_all(buf, self.grid.as_slice());
        buf.push(0x5D);
        push_all(buf, self.comment.as_slice());
        assert(buf@ =~= start + self.spec_encode());
        Ok(())
    }
}

/// A valid grid and any comment, encoded and decoded, come back unchanged.
pub proof fn lemma_grid_roundtrip(grid: Seq<u8>, comment: Seq<u8>)
    requires
        grid_valid(grid),
    ensures
        spec_grid_decode(grid + seq![0x5Du8] + comment) == Some((grid, comment)),
{
    let b = grid + seq![0x5Du8] + comment;
    assert forall|j: int| 0 <= j < grid.len() implies b[j] != 0x5D by {
        assert(b[j] == grid[j]);
        if j >= 4 {
            assert(is_alpha(grid[j]));
        }
    }
    crate::text::lemma_find_unique(b, 0x5D, grid.len() as int);
    assert(b.take(grid.len() as int) =~= grid);
    assert(b.skip(grid.len() + 1int) =~= comment);
}

/// A body that decodes is given back by encoding what it decodes to.
pub proof fn lemma_grid_reencode(b: Seq<u8>)
    requires
        spec_grid_decode(b) is Some,
    ensures
        ({
            let (g, c) = spec_grid_decode(b).unwrap();
            g + seq![0x5Du8] + c == b
        }),
{
    lemma_find(b, 0x5D);
    let end = find(b, 0x5D).unwrap();
    assert(b.take(end) + seq![0x5Du8] + b.skip(end + 1) =~= b);
}


/// True when `a` and `b` are ASCII letters that differ at most in case.
pub open spec fn same_letter(a: u8, b: u8) -> bool {
    &&& (0x41 <= a <= 0x5A || 0x61 <= a <= 0x7A)
    &&& (0x41 <= b <= 0x5A || 0x61 <= b <= 0x7A)
    &&& (a == b || a + 32 == b || b + 32 == a)
}

/// True when `c` is a subsquare letter, `a` to `x` in either case.
pub open spec fn subsquare_letter(c: u8) -> bool {
    0x41 <= c <= 0x58 || 0x61 <= c <= 0x78
}

/// The centre of a six-character grid does not depend on the case of its
/// subsquare letters.
pub proof fn lemma_grid_center_case(g: Seq<u8>, h: Seq<u8>)
    requires
        g.len() == 6,
        h.len() == 6,
        g[0] == h[0] && g[1] == h[1] && g[2] == h[2] && g[3] == h[3],
        same_letter(g[4], h[4]),
        same_letter(g[5], h[5]),
    ensures
        grid_center(g) == grid_center(h),
{
}

/// The centre of a grid lies inside the square that its first four
/// characters name, `1` degree of latitude by `2` of longitude with its
/// south-west corner at `10 * field + square` degrees north of the south
/// pole and `20 * field + 2 * square` degrees east of the antimeridian. A
/// four-character grid is centred in that square; a six-character one with
/// subsquare letters `a` to `x` is centred in one of its 24 by 24
/// subsquares.
pub proof fn lemma_grid_center_in_square(g: Seq<u8>)
    requires
        grid_valid(g),
        g.len() == 6 ==> subsquare_letter(g[4]) && subsquare_letter(g[5]),
    ensures
        ({
            let lat0 = (g[1] - 0x41) * 10 * UNITS_PER_DEGREE + (g[3] - 0x30) * UNITS_PER_DEGREE - 90
                * UNITS_PER_DEGREE;
            let lon0 = (g[0] - 0x41) * 20 * UNITS_PER_DEGREE + (g[2] - 0x30) * 2 * UNITS_PER_DEGREE
                - 180 * UNITS_PER_DEGREE;
            let (lat, lon) = grid_center(g);
            &&& lat0 < lat < lat0 + UNITS_PER_DEGREE
            &&& lon0 < lon < lon0 + 2 * UNITS_PER_DEGREE
            &&& g.len() == 4 ==> lat == lat0 + UNITS_PER_DEGREE / 2 && lon == lon0
                + UNITS_PER_DEGREE
            &&& g.len() == 6 ==> (lat - lat0) % (UNITS_PER_DEGREE / 24) == UNITS_PER_DEGREE / 48
                && (lon - lon0) % (UNITS_PER_DEGREE / 12) == UNITS_PER_DEGREE / 24
        }),
{
    let lat0 = (g[1] - 0x41) * 10 * UNITS_PER_DEGREE + (g[3] - 0x30) * UNITS_PER_DEGREE - 90
        * UNITS_PER_DEGREE;
    let lon0 = (g[0] - 0x41) * 20 * UNITS_PER_DEGREE + (g[2] - 0x30) * 2 * UNITS_PER_DEGREE - 180
        * UNITS_PER_DEGREE;
    let (lat, lon) = grid_center(g);
    if g.len() == 6 {
        let a = lower(g[5]) - 0x61;
        let o = lower(g[4]) - 0x61;
        assert(0 <= a < 24 && 0 <= o < 24);
        assert(lat - lat0 == a * (UNITS_PER_DEGREE / 24) + UNITS_PER_DEGREE / 48);
        assert(lon - lon0 == o * (UNITS_PER_DEGREE / 12) + UNITS_PER_DEGREE / 24);
        assert(a * (UNITS_PER_DEGREE / 24) <= 23 * (UNITS_PER_DEGREE / 24)) by (nonlinear_arith)
            requires
                0 <= a < 24,
        ;
        assert(o * (UNITS_PER_DEGREE / 12) <= 23 * (UNITS_PER_DEGREE / 12)) by (nonlinear_arith)
            requires
                0 <= o < 24,
        ;
        vstd::arithmetic::div_mod::lemma_fundamental_div_mod_converse_mod(
            a * (UNITS_PER_DEGREE / 24) + UNITS_PER_DEGREE / 48,
            UNITS_PER_DEGREE / 24,
            a,
            UNITS_PER_DEGREE / 48,
        );
        vstd::arithmetic::div_mod::lemma_fundamental_div_mod_converse_mod(
            o * (UNITS_PER_DEGREE / 12) + UNITS_PER_DEGREE / 24,
            UNITS_PER_DEGREE / 12,
            o,
            UNITS_PER_DEGREE / 24,
        );
    }
}

} // verus!
