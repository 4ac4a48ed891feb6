//! Scan conversion of one triangle into a framebuffer.
//!
//! The arithmetic on real numbers (projection, edge functions, inverse depth,
//! shading) is done by the caller, who hands its results over as bit
//! patterns. Every decision is made here: culling, the degenerate-area skip,
//! coverage, the depth test, and which pixel each sample belongs to.

use vstd::prelude::*;
use crate::color::Color;
use crate::framebuffer::{lemma_index_in_range, lemma_pixel_of_index, Framebuffer, Raster};
use crate::scalar::{lemma_minimum_maximum, lemma_truncated_grows, lemma_truncated_sign, Scalar};

verus! {

/// The pattern of the coverage tolerance, minus one ten-thousandth: a pixel
/// is covered when none of its three weights is below it.
pub const COVERAGE_TOLERANCE_BITS: u32 = 0xB8D1_B717;

/// The pattern of one millionth: a triangle whose edge-function denominator
/// is below it in magnitude is skipped.
pub const DEGENERATE_AREA_BITS: u32 = 0x3586_37BD;

/// The material a triangle is shaded with.
#[derive(Clone, Copy, Debug, PartialEq, Eq, Structural)]
pub enum ShaderType {
    Rocky,
    Gas,
    Crystal,
    Lava,
    Ice,
}

impl ShaderType {
    /// The material of body number `index`.
    pub open spec fn of_index(index: int) -> ShaderType {
        if index == 0 {
            ShaderType::Rocky
        } else if index == 1 {
            ShaderType::Gas
        } else if index == 2 {
            ShaderType::Crystal
        } else if index == 3 {
            ShaderType::Lava
        } else {
            ShaderType::Ice
        }
    }

    /// The material of the body with this number; every number past the
    /// fourth body gives ice.
    pub fn from_index(index: usize) -> (shader: ShaderType)
        ensures
            shader == ShaderType::of_index(index as int),
    {
        if index == 0 {
            ShaderType::Rocky
        } else if index == 1 {
            ShaderType::Gas
        } else if index == 2 {
            ShaderType::Crystal
        } else if index == 3 {
            ShaderType::Lava
        } else {
            ShaderType::Ice
        }
    }
}

/// The least of three coordinates, held at zero or above.
pub open spec fn lowest(a: Scalar, b: Scalar, c: Scalar) -> Scalar {
    a.minimum(b).minimum(c).maximum(Scalar { bits: 0 })
}

/// The greatest of three coordinates, held at `last` or below.
pub open spec fn highest(a: Scalar, b: Scalar, c: Scalar, last: Scalar) -> Scalar {
    a.maximum(b).maximum(c).minimum(last)
}

/// A projected vertex, in pixels from the top-left corner of the screen.
#[derive(Clone, Copy, Debug, PartialEq, Eq, Structural)]
pub struct ScreenPoint {
    pub x: Scalar,
    pub y: Scalar,
}

/// An inclusive rectangle of pixels; empty when a minimum exceeds its maximum.
#[derive(Clone, Copy, Debug, PartialEq, Eq, Structural)]
pub struct ScreenBox {
    pub min_x: i32,
    pub max_x: i32,
    pub min_y: i32,
    pub max_y: i32,
}

impl ScreenBox {
    /// Pixels per row.
    pub open spec fn cols(self) -> int {
        if self.min_x <= self.max_x {
            self.max_x - self.min_x + 1
        } else {
            0
        }
    }

    /// Number of rows.
    pub open spec fn rows(self) -> int {
        if self.min_y <= self.max_y {
            self.max_y - self.min_y + 1
        } else {
            0
        }
    }

    /// Number of pixels.
    pub open spec fn area(self) -> int {
        self.rows() * self.cols()
    }

    /// Whether pixel `(x, y)` lies in the rectangle.
    pub open spec fn contains(self, x: int, y: int) -> bool {
        self.min_x <= x <= self.max_x && self.min_y <= y <= self.max_y
    }

    /// The place of pixel `(x, y)` when the rectangle is walked row by row
    /// from its top-left corner.
    pub open spec fn slot(self, x: int, y: int) -> int {
        (y - self.min_y) * self.cols() + (x - self.min_x)
    }

    /// The bounding box of three projected vertices, held to the screen:
    /// the least coordinate but not below zero, and the greatest but not
    /// above `last_column` or `last_row`, each rounded toward zero.
    /// Coordinates that are not numbers are passed over.
    pub open spec fn around(
        pa: ScreenPoint,
        pb: ScreenPoint,
        pc: ScreenPoint,
        last_column: Scalar,
        last_row: Scalar,
    ) -> ScreenBox {
        ScreenBox {
            min_x: lowest(pa.x, pb.x, pc.x).truncated() as i32,
            max_x: highest(pa.x, pb.x, pc.x, last_column).truncated() as i32,
            min_y: lowest(pa.y, pb.y, pc.y).truncated() as i32,
            max_y: highest(pa.y, pb.y, pc.y, last_row).truncated() as i32,
        }
    }

    /// Computes the bounding box of three projected vertices on a screen
    /// whose last column and row are given as numbers.
    pub fn enclosing(
        pa: ScreenPoint,
        pb: ScreenPoint,
        pc: ScreenPoint,
        last_column: Scalar,
        last_row: Scalar,
    ) -> (b: ScreenBox)
        ensures
            b == ScreenBox::around(pa, pb, pc, last_column, last_row),
            b.min_x >= 0,
            b.min_y >= 0,
    {
        let zero = Scalar::zero();
        let low_x = pa.x.min(pb.x).min(pc.x).max(zero);
        let low_y = pa.y.min(pb.y).min(pc.y).max(zero);
        proof {
            crate::scalar::lemma_truncated_sign(low_x);
            crate::scalar::lemma_truncated_sign(low_y);
        }
        ScreenBox {
            min_x: low_x.to_i32(),
            max_x: pa.x.max(pb.x).max(pc.x).min(last_column).to_i32(),
            min_y: low_y.to_i32(),
            max_y: pa.y.max(pb.y).max(pc.y).min(last_row).to_i32(),
        }
    }

    /// The number of pixels, unless it exceeds what `usize` holds.
    pub fn pixel_count(&self) -> (n: Option<usize>)
        ensures
            n == if self.area() <= usize::MAX {
                Some(self.area() as usize)
            } else {
                None
            },
    {
        if self.min_x > self.max_x || self.min_y > self.max_y {
            assert(self.area() == 0) by (nonlinear_arith)
                requires
                    self.cols() == 0 || self.rows() == 0,
            ;
            return Some(0);
        }
        let cols: u64 = (self.max_x as i64 - self.min_x as i64 + 1) as u64;
        let rows: u64 = (self.max_y as i64 - self.min_y as i64 + 1) as u64;
        assert(rows * cols <= 0x1_0000_0000 * 0x1_0000_0000) by (nonlinear_arith)
            requires
                0 <= rows <= 0x1_0000_0000,
                0 <= cols <= 0x1_0000_0000,
        ;
        let area: u128 = (rows as u128) * (cols as u128);
        if area <= usize::MAX as u128 {
            Some(area as usize)
        } else {
            None
        }
    }
}

/// Along one axis the bounding box starts at zero or above, ends at the
/// screen's last pixel or before, and holds the pixel of every vertex that
/// lies on the screen.
pub proof fn lemma_extent_on_screen(a: Scalar, b: Scalar, c: Scalar, last: Scalar, p: Scalar)
    requires
        !last.nan(),
        p == a || p == b || p == c,
    ensures
        0 <= lowest(a, b, c).truncated() <= 0x7FFF_FFFF,
        -0x8000_0000 <= highest(a, b, c, last).truncated() <= last.truncated() <= 0x7FFF_FFFF,
        !p.nan() && 0 <= p.rank() <= last.rank() ==> lowest(a, b, c).truncated() <= p.truncated()
            <= highest(a, b, c, last).truncated(),
{
    let zero = Scalar { bits: 0 };
    assert(0u32 & 0x7FFF_FFFFu32 == 0) by (bit_vector);
    assert(0u32 & 0x8000_0000u32 == 0) by (bit_vector);
    let low = lowest(a, b, c);
    let high = highest(a, b, c, last);
    lemma_minimum_maximum(a, b);
    lemma_minimum_maximum(a.minimum(b), c);
    lemma_minimum_maximum(a.minimum(b).minimum(c), zero);
    lemma_minimum_maximum(a.maximum(b), c);
    lemma_minimum_maximum(a.maximum(b).maximum(c), last);
    lemma_truncated_sign(low);
    lemma_truncated_sign(high);
    lemma_truncated_sign(last);
    lemma_truncated_grows(high, last);
    if !p.nan() && 0 <= p.rank() <= last.rank() {
        lemma_truncated_grows(low, p);
        lemma_truncated_grows(p, high);
    }
}

/// The bounding box of a projected triangle lies on the screen: it starts
/// at column and row zero or after and ends at the last column and row or
/// before.
pub proof fn lemma_bounds_on_screen(
    pa: ScreenPoint,
    pb: ScreenPoint,
    pc: ScreenPoint,
    last_column: Scalar,
    last_row: Scalar,
)
    requires
        !last_column.nan(),
        !last_row.nan(),
    ensures
        ({
            let b = ScreenBox::around(pa, pb, pc, last_column, last_row);
            &&& 0 <= b.min_x
            &&& 0 <= b.min_y
            &&& b.max_x <= last_column.truncated()
            &&& b.max_y <= last_row.truncated()
        }),
{
    lemma_extent_on_screen(pa.x, pb.x, pc.x, last_column, pa.x);
    lemma_extent_on_screen(pa.y, pb.y, pc.y, last_row, pa.y);
}

/// The bounding box of a projected triangle holds the pixel of each of its
/// vertices that lies on the screen.
pub proof fn lemma_bounds_hold_vertices(
    pa: ScreenPoint,
    pb: ScreenPoint,
    pc: ScreenPoint,
    last_column: Scalar,
    last_row: Scalar,
    p: ScreenPoint,
)
    requires
        !last_column.nan(),
        !last_row.nan(),
        p == pa || p == pb || p == pc,
        !p.x.nan() && 0 <= p.x.rank() <= last_column.rank(),
        !p.y.nan() && 0 <= p.y.rank() <= last_row.rank(),
    ensures
        ScreenBox::around(pa, pb, pc, last_column, last_row).contains(
            p.x.truncated(),
            p.y.truncated(),
        ),
{
    lemma_extent_on_screen(pa.x, pb.x, pc.x, last_column, p.x);
    lemma_extent_on_screen(pa.y, pb.y, pc.y, last_row, p.y);
}

/// Two pixels of a rectangle that share a slot are the same pixel, and every
/// slot is below the area.
pub proof fn lemma_slot_unique(b: ScreenBox, x: int, y: int, x2: int, y2: int)
    requires
        b.contains(x, y),
        b.contains(x2, y2),
    ensures
        0 <= b.slot(x, y) < b.area(),
        b.slot(x, y) == b.slot(x2, y2) ==> x == x2 && y == y2,
{
    let c = b.cols();
    let dy = y - b.min_y;
    let dy2 = y2 - b.min_y;
    assert(0 <= dy * c && dy * c + c <= b.rows() * c) by (nonlinear_arith)
        requires
            0 <= dy,
            dy + 1 <= b.rows(),
            0 < c,
    ;
    vstd::arithmetic::div_mod::lemma_fundamental_div_mod_converse(b.slot(x, y), c, dy, x - b.min_x);
    vstd::arithmetic::div_mod::lemma_fundamental_div_mod_converse(
        b.slot(x2, y2),
        c,
        dy2,
        x2 - b.min_x,
    );
}

/// What the caller computed for one pixel centre of the bounding box: the
/// three barycentric weights, the interpolated depth and the shaded colour.
#[derive(Clone, Copy, Debug, PartialEq, Eq, Structural)]
pub struct Sample {
    pub w0: Scalar,
    pub w1: Scalar,
    pub w2: Scalar,
    pub depth: Scalar,
    pub color: Color,
}

impl Sample {
    /// Whether the pixel centre lies in the triangle: each weight is at
    /// least the tolerance. A weight that is not a number covers nothing.
    pub open spec fn covered(self) -> bool {
        let tolerance = Scalar { bits: COVERAGE_TOLERANCE_BITS };
        self.w0.ge(tolerance) && self.w1.ge(tolerance) && self.w2.ge(tolerance)
    }

    /// Decides coverage.
    pub fn is_covered(&self) -> (r: bool)
        ensures
            r == self.covered(),
    {
        let tolerance = Scalar::from_bits(COVERAGE_TOLERANCE_BITS);
        self.w0.at_least(tolerance) && self.w1.at_least(tolerance) && self.w2.at_least(tolerance)
    }
}

/// What the caller computed once for the triangle: the view-axis component
/// of its unit face normal, the edge-function denominator (twice the signed
/// screen-space area), and the bounding box of its projection.
#[derive(Clone, Copy, Debug, PartialEq, Eq, Structural)]
pub struct TriangleSetup {
    pub normal_z: Scalar,
    pub denom: Scalar,
    pub bounds: ScreenBox,
}

impl TriangleSetup {
    /// The setup of a triangle from what was computed of it: the normal's
    /// view-axis component, the denominator, and the three projected
    /// vertices, whose bounding box is held to a screen with the given last
    /// column and row.
    pub fn new(
        normal_z: Scalar,
        denom: Scalar,
        pa: ScreenPoint,
        pb: ScreenPoint,
        pc: ScreenPoint,
        last_column: Scalar,
        last_row: Scalar,
    ) -> (setup: TriangleSetup)
        ensures
            setup == (TriangleSetup {
                normal_z,
                denom,
                bounds: ScreenBox::around(pa, pb, pc, last_column, last_row),
            }),
    {
        TriangleSetup {
            normal_z,
            denom,
            bounds: ScreenBox::enclosing(pa, pb, pc, last_column, last_row),
        }
    }

    /// The face looks away from the viewer: the normal's view-axis component
    /// is zero or more.
    pub open spec fn back_facing(self) -> bool {
        self.normal_z.ge(Scalar { bits: 0 })
    }

    /// The projected triangle has next to no area.
    pub open spec fn degenerate(self) -> bool {
        self.denom.magnitude_only().lt(Scalar { bits: DEGENERATE_AREA_BITS })
    }

    /// The whole triangle is skipped.
    pub open spec fn skipped(self) -> bool {
        self.back_facing() || self.degenerate()
    }

    /// Decides culling.
    pub fn is_back_facing(&self) -> (r: bool)
        ensures
            r == self.back_facing(),
    {
        self.normal_z.at_least(Scalar::zero())
    }

    /// Decides the degenerate-area skip.
    pub fn is_degenerate(&self) -> (r: bool)
        ensures
            r == self.degenerate(),
    {
        self.denom.abs().less_than(Scalar::from_bits(DEGENERATE_AREA_BITS))
    }

    /// The setup of the same triangle with two of its vertices exchanged:
    /// normal and denominator change sign, the projection stays.
    pub open spec fn reversed(self) -> TriangleSetup {
        TriangleSetup {
            normal_z: self.normal_z.opposite(),
            denom: self.denom.opposite(),
            bounds: self.bounds,
        }
    }
}

/// The fragment that the first `k` samples give pixel `(x, y)`, if any.
/// Samples are taken in the order of the bounding box's slots.
pub open spec fn fragment_at(
    setup: TriangleSetup,
    samples: Seq<Sample>,
    k: int,
    x: int,
    y: int,
) -> Option<Sample> {
    let s = setup.bounds.slot(x, y);
    if !setup.skipped() && setup.bounds.contains(x, y) && s < k && samples[s].covered() {
        Some(samples[s])
    } else {
        None
    }
}

/// Depth and colour at index `i` of `r` once `fragment` has met the depth test.
pub open spec fn resolved(r: Raster, fragment: Option<Sample>, i: int) -> (Scalar, Color) {
    match fragment {
        Some(s) => if s.depth.lt(r.depth[i]) {
            (s.depth, s.color)
        } else {
            (r.depth[i], r.color[i])
        },
        None => (r.depth[i], r.color[i]),
    }
}

/// The raster after the first `k` samples of a triangle have been drawn.
pub open spec fn drawn_upto(r: Raster, setup: TriangleSetup, samples: Seq<Sample>, k: int) -> Raster {
    Raster {
        color: Seq::new(
            r.color.len(),
            |i: int| resolved(r, fragment_at(setup, samples, k, i % r.width, i / r.width), i).1,
        ),
        depth: Seq::new(
            r.depth.len(),
            |i: int| resolved(r, fragment_at(setup, samples, k, i % r.width, i / r.width), i).0,
        ),
        ..r
    }
}

/// The raster after a triangle has been drawn: at every pixel of the
/// bounding box whose sample is covered and nearer than the stored depth,
/// the sample's depth and colour; everywhere else what was there.
pub open spec fn drawn(r: Raster, setup: TriangleSetup, samples: Seq<Sample>) -> Raster {
    drawn_upto(r, setup, samples, samples.len() as int)
}

/// Drawing keeps a raster well formed.
pub proof fn lemma_drawn_wf(r: Raster, setup: TriangleSetup, samples: Seq<Sample>, k: int)
    requires
        r.wf(),
    ensures
        drawn_upto(r, setup, samples, k).wf(),
{
}

/// Before any sample is drawn, and for a skipped triangle whatever its
/// samples, the raster is as it was.
pub proof fn lemma_nothing_drawn(r: Raster, setup: TriangleSetup, samples: Seq<Sample>, k: int)
    requires
        r.wf(),
        k <= 0 || setup.skipped() || setup.bounds.area() == 0,
    ensures
        drawn_upto(r, setup, samples, k) == r,
{
    let d = drawn_upto(r, setup, samples, k);
    assert forall|i: int| 0 <= i < r.color.len() implies d.color[i] == r.color[i] && d.depth[i]
        == r.depth[i] by {
        let x = i % r.width;
        let y = i / r.width;
        if setup.bounds.contains(x, y) {
            lemma_slot_unique(setup.bounds, x, y, x, y);
        }
        assert(fragment_at(setup, samples, k, x, y).is_none());
    }
    assert(d.color =~= r.color);
    assert(d.depth =~= r.depth);
}

/// One more sample: drawing slot `k`, the sample of pixel `(x, y)`, through
/// the depth-tested write turns the raster after `k` samples into the raster
/// after `k + 1`.
proof fn lemma_draw_step(
    r: Raster,
    setup: TriangleSetup,
    samples: Seq<Sample>,
    k: int,
    x: int,
    y: int,
)
    requires
        r.wf(),
        !setup.skipped(),
        setup.bounds.contains(x, y),
        setup.bounds.slot(x, y) == k,
        0 <= k < samples.len(),
    ensures
        drawn_upto(r, setup, samples, k + 1) == if samples[k].covered() {
            drawn_upto(r, setup, samples, k).tested(x, y, samples[k].depth, samples[k].color)
        } else {
            drawn_upto(r, setup, samples, k)
        },
{
    let before = drawn_upto(r, setup, samples, k);
    let after = drawn_upto(r, setup, samples, k + 1);
    let s = samples[k];
    let stepped = if s.covered() {
        before.tested(x, y, s.depth, s.color)
    } else {
        before
    };
    if r.holds(x, y) {
        lemma_index_in_range(r, x, y);
    }
    assert forall|i: int| 0 <= i < r.color.len() implies after.color[i] == stepped.color[i]
        && after.depth[i] == stepped.depth[i] by {
        lemma_pixel_of_index(r, i);
        let xi = i % r.width;
        let yi = i / r.width;
        if setup.bounds.contains(xi, yi) {
            lemma_slot_unique(setup.bounds, xi, yi, x, y);
        }
        if xi == x && yi == y {
            assert(fragment_at(setup, samples, k, xi, yi).is_none());
            assert(before.depth[i] == r.depth[i]);
            assert(before.color[i] == r.color[i]);
        } else {
            assert(i != r.index(x, y) || !r.holds(x, y));
            assert(fragment_at(setup, samples, k + 1, xi, yi) == fragment_at(
                setup,
                samples,
                k,
                xi,
                yi,
            ));
        }
    }
    assert(after.color =~= stepped.color);
    assert(after.depth =~= stepped.depth);
}

/// A pixel outside the triangle's bounding box keeps its colour and depth.
pub proof fn lemma_outside_bounds_untouched(
    r: Raster,
    setup: TriangleSetup,
    samples: Seq<Sample>,
    x: int,
    y: int,
)
    requires
        r.wf(),
        r.holds(x, y),
        !setup.bounds.contains(x, y),
    ensures
        drawn(r, setup, samples).color[r.index(x, y)] == r.color[r.index(x, y)],
        drawn(r, setup, samples).depth[r.index(x, y)] == r.depth[r.index(x, y)],
{
    lemma_index_in_range(r, x, y);
}

/// Drawing never moves a stored depth away from the viewer, and where the
/// depth stays the colour stays.
pub proof fn lemma_depth_never_rises(r: Raster, setup: TriangleSetup, samples: Seq<Sample>, i: int)
    requires
        r.wf(),
        0 <= i < r.depth.len(),
    ensures
        drawn(r, setup, samples).depth[i].rank() <= r.depth[i].rank(),
        drawn(r, setup, samples).depth[i] == r.depth[i] ==> drawn(r, setup, samples).color[i]
            == r.color[i],
{
}

/// The fragment that a triangle gives the pixel at index `i` of `r`, if any.
pub open spec fn contribution(
    r: Raster,
    setup: TriangleSetup,
    samples: Seq<Sample>,
    i: int,
) -> Option<Sample> {
    fragment_at(setup, samples, samples.len() as int, i % r.width, i / r.width)
}

/// Each pixel of the drawn raster holds the triangle's fragment there if
/// that is nearer than what the pixel held, and otherwise what it held.
pub proof fn lemma_drawn_pixel(r: Raster, setup: TriangleSetup, samples: Seq<Sample>, i: int)
    requires
        0 <= i < r.depth.len(),
        r.depth.len() == r.color.len(),
    ensures
        drawn(r, setup, samples).depth[i] == resolved(r, contribution(r, setup, samples, i), i).0,
        drawn(r, setup, samples).color[i] == resolved(r, contribution(r, setup, samples, i), i).1,
        drawn(r, setup, samples).width == r.width,
        drawn(r, setup, samples).depth.len() == r.depth.len(),
        drawn(r, setup, samples).color.len() == r.color.len(),
{
}

/// A triangle none of whose fragments is nearer than what the raster
/// already holds leaves the raster exactly as it was.
pub proof fn lemma_hidden_triangle_changes_nothing(
    r: Raster,
    setup: TriangleSetup,
    samples: Seq<Sample>,
)
    requires
        r.wf(),
        forall|i: int|
            0 <= i < r.depth.len() ==> match #[trigger] contribution(r, setup, samples, i) {
                Some(s) => !s.depth.lt(r.depth[i]),
                None => true,
            },
    ensures
        drawn(r, setup, samples) == r,
{
    let d = drawn(r, setup, samples);
    assert forall|i: int| 0 <= i < r.color.len() implies d.color[i] == r.color[i] && d.depth[i]
        == r.depth[i] by {
        let f = contribution(r, setup, samples, i);
        assert(f.is_some() ==> !f.unwrap().depth.lt(r.depth[i]));
    }
    assert(d.color =~= r.color);
    assert(d.depth =~= r.depth);
}

/// A triangle computed from something that is not a number draws nothing:
/// if each of its samples has a weight or a depth that is not a number,
/// the raster stays as it was.
pub proof fn lemma_not_a_number_draws_nothing(
    r: Raster,
    setup: TriangleSetup,
    samples: Seq<Sample>,
)
    requires
        r.wf(),
        forall|k: int|
            0 <= k < samples.len() ==> {
                let s = #[trigger] samples[k];
                s.w0.nan() || s.w1.nan() || s.w2.nan() || s.depth.nan()
            },
    ensures
        drawn(r, setup, samples) == r,
{
    assert forall|i: int| 0 <= i < r.depth.len() implies match #[trigger] contribution(
        r,
        setup,
        samples,
        i,
    ) {
        Some(s) => !s.depth.lt(r.depth[i]),
        None => true,
    } by {
        let x = i % r.width;
        let y = i / r.width;
        if setup.bounds.contains(x, y) {
            lemma_slot_unique(setup.bounds, x, y, x, y);
            let k = setup.bounds.slot(x, y);
            if k < samples.len() {
                let s = samples[k];
                assert(s.w0.nan() || s.w1.nan() || s.w2.nan() || s.depth.nan());
            }
        }
    }
    lemma_hidden_triangle_changes_nothing(r, setup, samples);
}

/// The colour of a sample matters only where it is written: two runs of
/// samples with the same weights and depths, and the same colour wherever a
/// sample is covered and nearer than what the raster holds, draw the same.
/// So a caller may shade only the samples that will be written.
pub proof fn lemma_unwritten_colors_are_ignored(
    r: Raster,
    setup: TriangleSetup,
    one: Seq<Sample>,
    other: Seq<Sample>,
)
    requires
        r.wf(),
        one.len() == other.len(),
        forall|k: int|
            0 <= k < one.len() ==> (#[trigger] one[k]).w0 == other[k].w0 && one[k].w1
                == other[k].w1 && one[k].w2 == other[k].w2 && one[k].depth == other[k].depth,
        forall|i: int|
            0 <= i < r.depth.len() ==> match #[trigger] contribution(r, setup, one, i) {
                Some(s) => s.depth.lt(r.depth[i]) ==> s.color == other[setup.bounds.slot(
                    i % r.width,
                    i / r.width,
                )].color,
                None => true,
            },
    ensures
        drawn(r, setup, one) == drawn(r, setup, other),
{
    let a = drawn(r, setup, one);
    let b = drawn(r, setup, other);
    assert forall|i: int| 0 <= i < r.color.len() implies a.color[i] == b.color[i] && a.depth[i]
        == b.depth[i] by {
        let x = i % r.width;
        let y = i / r.width;
        let fa = contribution(r, setup, one, i);
        let fb = contribution(r, setup, other, i);
        if setup.bounds.contains(x, y) {
            lemma_slot_unique(setup.bounds, x, y, x, y);
            let k = setup.bounds.slot(x, y);
            if k < one.len() {
                assert(one[k].w0 == other[k].w0);
                assert(one[k].covered() == other[k].covered());
            }
        }
        assert(fa.is_some() == fb.is_some());
    }
    assert(a.color =~= b.color);
    assert(a.depth =~= b.depth);
}

/// Two fragments contest pixel `i`: both are nearer than what is stored and
/// equally near, yet differ in colour or in the pattern of their depth (the
/// two zeros). Then, and only then, the one drawn first stays.
pub open spec fn contested(r: Raster, a: Sample, b: Sample, i: int) -> bool {
    &&& a.depth.lt(r.depth[i])
    &&& b.depth.lt(r.depth[i])
    &&& a.depth.rank() == b.depth.rank()
    &&& (a.depth != b.depth || a.color != b.color)
}

/// Two triangles drawn in either order leave the same raster, unless their
/// fragments contest a pixel.
pub proof fn lemma_draw_order_independent(
    r: Raster,
    first: TriangleSetup,
    first_samples: Seq<Sample>,
    second: TriangleSetup,
    second_samples: Seq<Sample>,
)
    requires
        r.wf(),
        forall|i: int|
            0 <= i < r.depth.len() ==> {
                let a = #[trigger] contribution(r, first, first_samples, i);
                let b = contribution(r, second, second_samples, i);
                a.is_some() && b.is_some() ==> !contested(r, a.unwrap(), b.unwrap(), i)
            },
    ensures
        drawn(drawn(r, first, first_samples), second, second_samples) == drawn(
            drawn(r, second, second_samples),
            first,
            first_samples,
        ),
{
    let ra = drawn(r, first, first_samples);
    let rb = drawn(r, second, second_samples);
    let rab = drawn(ra, second, second_samples);
    let rba = drawn(rb, first, first_samples);
    assert forall|i: int| 0 <= i < r.color.len() implies rab.color[i] == rba.color[i]
        && rab.depth[i] == rba.depth[i] by {
        let a = contribution(r, first, first_samples, i);
        let b = contribution(r, second, second_samples, i);
        assert(a.is_some() && b.is_some() ==> !contested(r, a.unwrap(), b.unwrap(), i));
        lemma_drawn_pixel(r, first, first_samples, i);
        lemma_drawn_pixel(r, second, second_samples, i);
        lemma_drawn_pixel(ra, second, second_samples, i);
        lemma_drawn_pixel(rb, first, first_samples, i);
    }
    assert(rab.color =~= rba.color);
    assert(rab.depth =~= rba.depth);
}

/// Where two triangles both reach a pixel and one's fragment is the nearer
/// and nearer than what is stored, the pixel ends up with that fragment,
/// whichever triangle is drawn first.
pub proof fn lemma_nearer_fragment_wins(
    r: Raster,
    near: TriangleSetup,
    near_samples: Seq<Sample>,
    far: TriangleSetup,
    far_samples: Seq<Sample>,
    i: int,
)
    requires
        r.wf(),
        0 <= i < r.depth.len(),
        contribution(r, near, near_samples, i) is Some,
        contribution(r, far, far_samples, i) is Some,
        contribution(r, near, near_samples, i).unwrap().depth.lt(r.depth[i]),
        contribution(r, near, near_samples, i).unwrap().depth.lt(
            contribution(r, far, far_samples, i).unwrap().depth,
        ),
    ensures
        ({
            let s = contribution(r, near, near_samples, i).unwrap();
            let one = drawn(drawn(r, near, near_samples), far, far_samples);
            let other = drawn(drawn(r, far, far_samples), near, near_samples);
            &&& one.depth[i] == s.depth
            &&& one.color[i] == s.color
            &&& other.depth[i] == s.depth
            &&& other.color[i] == s.color
        }),
{
    let ra = drawn(r, near, near_samples);
    let rb = drawn(r, far, far_samples);
    lemma_drawn_pixel(r, near, near_samples, i);
    lemma_drawn_pixel(r, far, far_samples, i);
    lemma_drawn_pixel(ra, far, far_samples, i);
    lemma_drawn_pixel(rb, near, near_samples, i);
}

/// Of a triangle and its twin with two vertices exchanged, at least one is
/// culled, so at most one of the two can change a raster. The normal's
/// view-axis component has to be a number: one that is not passes the
/// culling test under either winding.
pub proof fn lemma_reversed_twin_culled(
    r: Raster,
    setup: TriangleSetup,
    samples: Seq<Sample>,
    twin_samples: Seq<Sample>,
)
    requires
        r.wf(),
        !setup.normal_z.nan(),
    ensures
        setup.back_facing() || setup.reversed().back_facing(),
        drawn(r, setup, samples) == r || drawn(r, setup.reversed(), twin_samples) == r,
{
    crate::scalar::lemma_opposite(setup.normal_z);
    assert(0u32 & 0x7FFF_FFFFu32 == 0) by (bit_vector);
    assert(0u32 & 0x8000_0000u32 == 0) by (bit_vector);
    if setup.back_facing() {
        lemma_nothing_drawn(r, setup, samples, samples.len() as int);
    } else {
        lemma_nothing_drawn(r, setup.reversed(), twin_samples, twin_samples.len() as int);
    }
}

/// Draws one triangle. A back-facing or degenerate triangle is skipped,
/// whatever `samples` holds. Otherwise `samples` holds one entry for each
/// pixel of `setup.bounds`, row by row from the top-left corner, and each
/// covered sample goes through the depth-tested write of its pixel.
pub fn draw_filled_triangle(
    framebuffer: &mut Framebuffer,
    setup: &TriangleSetup,
    samples: &Vec<Sample>,
)
    requires
        old(framebuffer)@.wf(),
        setup.skipped() || samples@.len() == setup.bounds.area(),
    ensures
        final(framebuffer)@.wf(),
        final(framebuffer)@ == drawn(old(framebuffer)@, *setup, samples@),
        forall|x: int, y: int|
            old(framebuffer)@.holds(x, y) && !(#[trigger] setup.bounds.contains(x, y)) ==> {
                let i = old(framebuffer)@.index(x, y);
                &&& final(framebuffer)@.color[i] == old(framebuffer)@.color[i]
                &&& final(framebuffer)@.depth[i] == old(framebuffer)@.depth[i]
            },
        forall|i: int|
            0 <= i < old(framebuffer)@.depth.len() ==> (#[trigger] final(framebuffer)@.depth[i]).rank()
                <= old(framebuffer)@.depth[i].rank(),
{
    let ghost r = framebuffer@;
    proof {
        assert forall|x: int, y: int|
            r.holds(x, y) && !(#[trigger] setup.bounds.contains(x, y)) implies {
            let i = r.index(x, y);
            drawn(r, *setup, samples@).color[i] == r.color[i] && drawn(
                r,
                *setup,
                samples@,
            ).depth[i] == r.depth[i]
        } by {
            lemma_outside_bounds_untouched(r, *setup, samples@, x, y);
        }
        assert forall|i: int| 0 <= i < r.depth.len() implies (#[trigger] drawn(
            r,
            *setup,
            samples@,
        ).depth[i]).rank() <= r.depth[i].rank() by {
            lemma_depth_never_rises(r, *setup, samples@, i);
        }
    }
    let bounds = setup.bounds;
    if setup.is_back_facing() || setup.is_degenerate() || bounds.min_x > bounds.max_x
        || bounds.min_y > bounds.max_y {
        proof {
            if !setup.skipped() {
                assert(bounds.area() == 0) by (nonlinear_arith)
                    requires
                        bounds.area() == bounds.rows() * bounds.cols(),
                        bounds.cols() == 0 || bounds.rows() == 0,
                ;
            }
            lemma_nothing_drawn(r, *setup, samples@, samples@.len() as int);
        }
        return ;
    }
    proof {
        lemma_nothing_drawn(r, *setup, samples@, 0);
    }
    let ghost cols = bounds.cols();
    let total: usize = samples.len();
    let mut k: usize = 0;
    let mut y: i64 = bounds.min_y as i64;
    while y <= bounds.max_y as i64
        invariant
            r.wf(),
            !setup.skipped(),
            bounds == setup.bounds,
            cols == bounds.cols(),
            bounds.min_x <= bounds.max_x,
            bounds.min_y <= y <= bounds.max_y + 1,
            samples@.len() == bounds.area(),
            samples@.len() == total,
            k == (y - bounds.min_y) * cols,
            framebuffer@ == drawn_upto(r, *setup, samples@, k as int),
        decreases bounds.max_y + 1 - y,
    {
        let mut x: i64 = bounds.min_x as i64;
        while x <= bounds.max_x as i64
            invariant
                r.wf(),
                !setup.skipped(),
                bounds == setup.bounds,
                cols == bounds.cols(),
                bounds.min_x <= x <= bounds.max_x + 1,
                bounds.min_y <= y <= bounds.max_y,
                samples@.len() == bounds.area(),
                samples@.len() == total,
                k == (y - bounds.min_y) * cols + (x - bounds.min_x),
                framebuffer@ == drawn_upto(r, *setup, samples@, k as int),
            decreases bounds.max_x + 1 - x,
        {
            proof {
                lemma_slot_unique(bounds, x as int, y as int, x as int, y as int);
                lemma_draw_step(r, *setup, samples@, k as int, x as int, y as int);
                lemma_drawn_wf(r, *setup, samples@, k as int);
            }
            let sample = samples[k];
            if sample.is_covered() {
                framebuffer.set_pixel_depth_tested(x as i32, y as i32, sample.depth, sample.color);
            }
            k += 1;
            x += 1;
        }
        assert((y - bounds.min_y) * cols + cols == (y + 1 - bounds.min_y) * cols)
            by (nonlinear_arith);
        y += 1;
    }
    proof {
        assert(k == bounds.rows() * cols);
        lemma_drawn_wf(r, *setup, samples@, k as int);
    }
}

} // verus!
