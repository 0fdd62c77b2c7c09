//! A point of the plane with integer coordinates and its rounded Euclidean
//! distance: the square root of the squared coordinate differences,
//! truncated toward zero.

use vstd::prelude::*;

verus! {

/// The lines of a text, as `str::lines` yields them.
pub uninterp spec fn lines_of(s: Seq<char>) -> Seq<Seq<char>>;

/// The pieces of a line around single space characters, as `str::split(' ')`
/// yields them.
pub uninterp spec fn space_fields(s: Seq<char>) -> Seq<Seq<char>>;

/// `r` is the integer square root of `v`, rounded down.
pub open spec fn is_sqrt_floor(v: int, r: int) -> bool {
    0 <= r && r * r <= v < (r + 1) * (r + 1)
}

/// The integer square root of `v`, rounded down.
pub closed spec fn sqrt_floor(v: int) -> int {
    choose|r: int| is_sqrt_floor(v, r)
}

pub proof fn lemma_sqrt_floor_unique(v: int, r1: int, r2: int)
    by (nonlinear_arith)
    requires
        is_sqrt_floor(v, r1),
        is_sqrt_floor(v, r2),
    ensures
        r1 == r2,
{
}

pub proof fn lemma_sqrt_floor(v: int)
    requires
        v >= 0,
    ensures
        is_sqrt_floor(v, sqrt_floor(v)),
    decreases v,
{
    if v == 0 {
        assert(is_sqrt_floor(0, 0)) by (nonlinear_arith);
    } else {
        lemma_sqrt_floor(v - 1);
        let p = sqrt_floor(v - 1);
        if (p + 1) * (p + 1) <= v {
            assert(is_sqrt_floor(v, p + 1)) by (nonlinear_arith)
                requires
                    is_sqrt_floor(v - 1, p) && (p + 1) * (p + 1) <= v,
            ;
        } else {
            assert(is_sqrt_floor(v, p));
        }
    }
    let w = choose|r: int| is_sqrt_floor(v, r);
    assert(is_sqrt_floor(v, w));
}

/// The rounded Euclidean length of the vector `(dx, dy)`: the square root of
/// `dx*dx + dy*dy` rounded down, saturated at `i32::MAX`.
pub open spec fn euclid_dist(dx: int, dy: int) -> int {
    if sqrt_floor(dx * dx + dy * dy) > i32::MAX {
        i32::MAX as int
    } else {
        sqrt_floor(dx * dx + dy * dy)
    }
}

#[derive(Copy, Clone, Debug, PartialEq, Eq, Structural)]
pub struct Point {
    pub x: i32,
    pub y: i32,
}

/// The point read from one line of text: its first two space-separated
/// fields, each read as a decimal numeral and truncated to an integer.
pub open spec fn point_of_line(s: Seq<char>) -> Point {
    Point {
        x: crate::types::numeral::coord_or_zero(space_fields(s), 0),
        y: crate::types::numeral::coord_or_zero(space_fields(s), 1),
    }
}

impl Point {
    pub fn new(x: i32, y: i32) -> (r: Self)
        ensures
            r == (Point { x, y }),
    {
        Self { x, y }
    }

    /// The rounded Euclidean distance between two points.
    pub fn dist(self, other: Self) -> (r: i32)
        ensures
            r == euclid_dist(self.x - other.x, self.y - other.y),
            r >= 0,
    {
        let dx = (self.x as i128) - (other.x as i128);
        let dy = (self.y as i128) - (other.y as i128);
        proof {
            assert(0 <= dx * dx < 0x1_0000_0000_0000_0000) by (nonlinear_arith)
                requires
                    -0x1_0000_0000 < dx < 0x1_0000_0000,
            ;
            assert(0 <= dy * dy < 0x1_0000_0000_0000_0000) by (nonlinear_arith)
                requires
                    -0x1_0000_0000 < dy < 0x1_0000_0000,
            ;
        }
        let sq = dx * dx + dy * dy;
        let v = sq as u128;
        let s = isqrt(v);
        proof {
            lemma_sqrt_floor(v as int);
            lemma_sqrt_floor_unique(v as int, s as int, sqrt_floor(v as int));
        }
        if s > 0x7fff_ffff {
            0x7fff_ffffi32
        } else {
            s as i32
        }
    }

    /// Reads a point from a line holding two space-separated numeric fields.
    /// A missing or malformed field is read as zero.
    pub fn from(s: &str) -> (r: Point)
        ensures
            r == point_of_line(s@),
    {
        let fields = split_fields(s);
        let x = if fields.len() > 0 {
            crate::types::numeral::parse_coord(fields[0].as_str())
        } else {
            0
        };
        let y = if fields.len() > 1 {
            crate::types::numeral::parse_coord(fields[1].as_str())
        } else {
            0
        };
        Point { x, y }
    }
}

/// The integer square root of `v`, rounded down, by bisection.
fn isqrt(v: u128) -> (r: u128)
    requires
        v < 0x4_0000_0000_0000_0000,
    ensures
        is_sqrt_floor(v as int, r as int),
{
    let mut lo: u128 = 0;
    let mut hi: u128 = 0x2_0000_0000;
    proof {
        assert(v < 0x2_0000_0000u128 * 0x2_0000_0000) by (nonlinear_arith)
            requires
                v < 0x4_0000_0000_0000_0000,
        ;
    }
    while lo + 1 < hi
        invariant
            lo < hi <= 0x2_0000_0000,
            lo * lo <= v,
            v < hi * hi,
        decreases hi - lo,
    {
        let mid = lo + (hi - lo) / 2;
        proof {
            assert(mid * mid <= 0x2_0000_0000u128 * 0x2_0000_0000) by (nonlinear_arith)
                requires
                    mid <= 0x2_0000_0000u128,
            ;
        }
        if mid * mid <= v {
            lo = mid;
        } else {
            hi = mid;
        }
    }
    lo
}

/// Relies on `str::split(' ')`: the pieces of the line around single spaces.
#[verifier::external_body]
fn split_fields(s: &str) -> (r: Vec<String>)
    ensures
        r@.len() == space_fields(s@).len(),
        forall|k: int| 0 <= k < r@.len() ==> (#[trigger] r@[k])@ == space_fields(s@)[k],
{
    s.split(' ').map(|t| t.to_string()).collect()
}

/// Relies on `str::lines`: the lines of the text. A non-empty text holds at
/// least one line, and a line break is consumed for every line beyond the
/// first, so there are at most `len + 1` lines.
#[verifier::external_body]
pub fn split_lines(s: &str) -> (r: Vec<String>)
    ensures
        r@.len() == lines_of(s@).len(),
        forall|k: int| 0 <= k < r@.len() ==> (#[trigger] r@[k])@ == lines_of(s@)[k],
        s@.len() > 0 ==> r@.len() > 0,
        r@.len() <= s@.len() + 1,
{
    s.lines().map(|t| t.to_string()).collect()
}

} // verus!
