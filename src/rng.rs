//! The random source shared by all builders.
use rltk::RandomNumberGenerator;
use vstd::prelude::*;

verus! {

#[verifier::external_type_specification]
#[verifier::external_body]
pub struct ExRandomNumberGenerator(RandomNumberGenerator);

/// Relies on `RandomNumberGenerator::roll_dice` with one die: it sums one draw of
/// `range(1, die_type + 1)`, so the result lies in `1..=die_type`; `gen_range` panics
/// on an empty range, hence `die_type >= 1`.
#[verifier::external_body]
pub(crate) fn roll_die(rng: &mut RandomNumberGenerator, die_type: i32) -> (r: i32)
    requires
        1 <= die_type < i32::MAX,
    ensures
        1 <= r <= die_type,
{
    rng.roll_dice(1, die_type)
}

/// Relies on `RandomNumberGenerator::range`: a draw from the half-open range
/// `min..max`, which `gen_range` refuses when empty.
#[verifier::external_body]
pub(crate) fn range_i32(rng: &mut RandomNumberGenerator, min: i32, max: i32) -> (r: i32)
    requires
        min < max,
    ensures
        min <= r < max,
{
    rng.range(min, max)
}

/// The cells that Bresenham's algorithm plots from `(x0, y0)` to `(x1, y1)`.
pub uninterp spec fn bresenham_line(x0: i32, y0: i32, x1: i32, y1: i32) -> Seq<(i32, i32)>;

/// Relies on `rltk::line2d` with `LineAlg::Bresenham`: the plotted cells of the line,
/// which `line2d_bresenham` ends by chaining the end point itself. The plot subtracts
/// and negates coordinates, so both ends are kept on the grid, far from overflow.
#[verifier::external_body]
pub(crate) fn line_cells(x0: i32, y0: i32, x1: i32, y1: i32) -> (r: Vec<(i32, i32)>)
    requires
        0 <= x0 < 80,
        0 <= y0 < 43,
        0 <= x1 < 80,
        0 <= y1 < 43,
    ensures
        r@ == bresenham_line(x0, y0, x1, y1),
        r@.len() >= 1,
        r@.last() == (x1, y1),
{
    rltk::line2d(rltk::LineAlg::Bresenham, rltk::Point::new(x0, y0), rltk::Point::new(x1, y1))
        .iter()
        .map(|p| (p.x, p.y))
        .collect()
}

} // verus!
