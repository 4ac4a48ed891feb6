//! The colour and depth raster that triangles are drawn into.

use vstd::prelude::*;
use crate::color::Color;
use crate::scalar::{Scalar, INFINITY_BITS};

verus! {

/// What a framebuffer holds, as mathematics: both rasters in row-major order
/// from the top-left pixel, and the two colours it remembers.
pub struct Raster {
    pub width: int,
    pub height: int,
    pub color: Seq<Color>,
    pub depth: Seq<Scalar>,
    pub background: Color,
    pub current: Color,
}

impl Raster {
    /// Both rasters have one entry per pixel, and every stored depth is a number.
    pub open spec fn wf(self) -> bool {
        &&& 0 <= self.width
        &&& 0 <= self.height
        &&& self.color.len() == self.width * self.height
        &&& self.depth.len() == self.width * self.height
        &&& forall|i: int| 0 <= i < self.depth.len() ==> !(#[trigger] self.depth[i]).nan()
    }

    /// Whether `(x, y)` names a pixel.
    pub open spec fn holds(self, x: int, y: int) -> bool {
        0 <= x < self.width && 0 <= y < self.height
    }

    /// Where pixel `(x, y)` lies in both rasters.
    pub open spec fn index(self, x: int, y: int) -> int {
        y * self.width + x
    }

    /// A fresh raster: every pixel the background, every depth infinite.
    pub open spec fn blank(width: int, height: int, background: Color, current: Color) -> Raster {
        Raster {
            width,
            height,
            color: Seq::new((width * height) as nat, |i: int| background),
            depth: Seq::new((width * height) as nat, |i: int| Scalar { bits: INFINITY_BITS }),
            background,
            current,
        }
    }

    /// The raster after a clear.
    pub open spec fn cleared(self) -> Raster {
        Raster::blank(self.width, self.height, self.background, self.current)
    }

    /// The raster after an unconditional write of `color` at `(x, y)`.
    pub open spec fn painted(self, x: int, y: int, color: Color) -> Raster {
        if self.holds(x, y) {
            Raster { color: self.color.update(self.index(x, y), color), ..self }
        } else {
            self
        }
    }

    /// Whether a fragment at `(x, y)` with this depth is nearer than what is stored.
    pub open spec fn passes(self, x: int, y: int, depth: Scalar) -> bool {
        self.holds(x, y) && depth.lt(self.depth[self.index(x, y)])
    }

    /// The raster after a depth-tested write at `(x, y)`.
    pub open spec fn tested(self, x: int, y: int, depth: Scalar, color: Color) -> Raster {
        if self.passes(x, y, depth) {
            Raster {
                color: self.color.update(self.index(x, y), color),
                depth: self.depth.update(self.index(x, y), depth),
                ..self
            }
        } else {
            self
        }
    }
}

/// A pixel of a well-formed raster has its index inside both sequences, and
/// no other pixel shares it.
pub proof fn lemma_index_in_range(r: Raster, x: int, y: int)
    requires
        r.wf(),
        r.holds(x, y),
    ensures
        0 <= y * r.width <= r.index(x, y) < r.width * r.height,
        r.index(x, y) / r.width == y,
        r.index(x, y) % r.width == x,
{
    assert(0 <= y * r.width) by (nonlinear_arith)
        requires 0 <= y, 0 <= r.width;
    assert(y * r.width + r.width <= r.height * r.width) by (nonlinear_arith)
        requires y + 1 <= r.height, 0 <= r.width;
    assert(r.height * r.width == r.width * r.height) by (nonlinear_arith);
    vstd::arithmetic::div_mod::lemma_fundamental_div_mod_converse(r.index(x, y), r.width, y, x);
}

/// Every index of a well-formed raster is the index of one pixel, the one
/// in column `i % width` of row `i / width`.
pub proof fn lemma_pixel_of_index(r: Raster, i: int)
    requires
        r.wf(),
        0 <= i < r.width * r.height,
    ensures
        r.width > 0,
        r.holds(i % r.width, i / r.width),
        r.index(i % r.width, i / r.width) == i,
{
    assert(r.width > 0) by (nonlinear_arith)
        requires
            0 <= i < r.width * r.height,
            0 <= r.width,
    ;
    vstd::arithmetic::div_mod::lemma_fundamental_div_mod(i, r.width);
    vstd::arithmetic::div_mod::lemma_mod_bound(i, r.width);
    let q = i / r.width;
    assert(i == r.width * q + i % r.width);
    assert(0 <= q < r.height) by (nonlinear_arith)
        requires
            0 <= i < r.width * r.height,
            i == r.width * q + i % r.width,
            0 <= i % r.width < r.width,
    ;
    assert(r.width * q == q * r.width) by (nonlinear_arith);
}

/// Clearing, unconditional writes and depth-tested writes keep a raster
/// well formed.
pub proof fn lemma_writes_keep_wf(r: Raster, x: int, y: int, depth: Scalar, color: Color)
    requires
        r.wf(),
    ensures
        r.cleared().wf(),
        r.painted(x, y, color).wf(),
        r.tested(x, y, depth, color).wf(),
{
    if r.holds(x, y) {
        lemma_index_in_range(r, x, y);
    }
    assert(!(Scalar { bits: INFINITY_BITS }).nan()) by {
        assert(0x7F80_0000u32 & 0x7FFF_FFFFu32 == 0x7F80_0000u32) by (bit_vector);
    }
}

/// A depth-tested write never moves a stored depth away from the viewer,
/// and it leaves every pixel but its own as it was.
pub proof fn lemma_tested_depth_never_rises(
    r: Raster,
    x: int,
    y: int,
    depth: Scalar,
    color: Color,
    i: int,
)
    requires
        r.wf(),
        0 <= i < r.depth.len(),
    ensures
        r.tested(x, y, depth, color).depth[i].rank() <= r.depth[i].rank(),
        !(r.holds(x, y) && i == r.index(x, y)) ==> r.tested(x, y, depth, color).depth[i]
            == r.depth[i] && r.tested(x, y, depth, color).color[i] == r.color[i],
{
    if r.holds(x, y) {
        lemma_index_in_range(r, x, y);
    }
}

/// A fragment that is not nearer than what its pixel holds changes nothing.
pub proof fn lemma_farther_write_changes_nothing(
    r: Raster,
    x: int,
    y: int,
    depth: Scalar,
    color: Color,
)
    requires
        r.holds(x, y) ==> !depth.lt(r.depth[r.index(x, y)]),
    ensures
        r.tested(x, y, depth, color) == r,
{
}

/// Two fragments written to one pixel leave the same raster in either
/// order, the nearer one's depth and colour. The one exception: both are
/// nearer than what is stored and equally near, yet differ in colour or in
/// the pattern of their depth; then the first written stays.
pub proof fn lemma_tested_order_independent(
    r: Raster,
    x: int,
    y: int,
    first: (Scalar, Color),
    second: (Scalar, Color),
)
    requires
        r.wf(),
        !(r.passes(x, y, first.0) && r.passes(x, y, second.0) && first.0.rank() == second.0.rank()
            && first != second),
    ensures
        r.tested(x, y, first.0, first.1).tested(x, y, second.0, second.1) == r.tested(
            x,
            y,
            second.0,
            second.1,
        ).tested(x, y, first.0, first.1),
{
    if r.holds(x, y) {
        lemma_index_in_range(r, x, y);
        let i = r.index(x, y);
        let one = r.tested(x, y, first.0, first.1).tested(x, y, second.0, second.1);
        let other = r.tested(x, y, second.0, second.1).tested(x, y, first.0, first.1);
        assert(one.color =~= other.color);
        assert(one.depth =~= other.depth);
    }
}

/// After a clear every fragment whose depth is a number short of infinity
/// passes the depth test at every pixel.
pub proof fn lemma_cleared_accepts(r: Raster, x: int, y: int, depth: Scalar)
    requires
        r.wf(),
        r.holds(x, y),
        !depth.nan(),
        depth.rank() < INFINITY_BITS,
    ensures
        r.cleared().passes(x, y, depth),
{
    lemma_index_in_range(r, x, y);
    assert(0x7F80_0000u32 & 0x7FFF_FFFFu32 == 0x7F80_0000u32) by (bit_vector);
    assert(0x7F80_0000u32 & 0x8000_0000u32 == 0) by (bit_vector);
}

/// A vector of `n` copies of `value`.
fn filled<T: Copy>(n: usize, value: T) -> (v: Vec<T>)
    ensures
        v@ == Seq::new(n as nat, |i: int| value),
{
    let mut v: Vec<T> = Vec::new();
    let mut k: usize = 0;
    while k < n
        invariant
            k <= n,
            v@ == Seq::new(k as nat, |i: int| value),
        decreases n - k,
    {
        v.push(value);
        k += 1;
        assert(v@ =~= Seq::new(k as nat, |i: int| value));
    }
    v
}

/// A raster of colours with a depth for every pixel.
pub struct Framebuffer {
    width: u32,
    height: u32,
    color_buffer: Vec<Color>,
    z_buffer: Vec<Scalar>,
    background_color: Color,
    current_color: Color,
}

impl View for Framebuffer {
    type V = Raster;

    closed spec fn view(&self) -> Raster {
        Raster {
            width: self.width as int,
            height: self.height as int,
            color: self.color_buffer@,
            depth: self.z_buffer@,
            background: self.background_color,
            current: self.current_color,
        }
    }
}

impl Framebuffer {
    /// A framebuffer of `width` by `height` pixels, all of them the
    /// background colour and infinitely far; the current colour is white.
    pub fn new(width: u32, height: u32, background_color: Color) -> (fb: Framebuffer)
        requires
            width * height <= u32::MAX,
        ensures
            fb@ == Raster::blank(
                width as int,
                height as int,
                background_color,
                Color { r: 255, g: 255, b: 255, a: 255 },
            ),
            fb@.wf(),
    {
        let n: u32 = width * height;
        let color_buffer = filled(n as usize, background_color);
        let z_buffer = filled(n as usize, Scalar::infinity());
        Framebuffer {
            width,
            height,
            color_buffer,
            z_buffer,
            background_color,
            current_color: Color::white(),
        }
    }

    /// Pixels per row.
    pub fn width(&self) -> (w: u32)
        ensures
            w == self@.width,
    {
        self.width
    }

    /// Number of rows.
    pub fn height(&self) -> (h: u32)
        ensures
            h == self@.height,
    {
        self.height
    }

    /// The colour a clear fills the raster with.
    pub fn background_color(&self) -> (c: Color)
        ensures
            c == self@.background,
    {
        self.background_color
    }

    /// The colour that writes without a colour of their own use.
    pub fn current_color(&self) -> (c: Color)
        ensures
            c == self@.current,
    {
        self.current_color
    }

    /// Resets every pixel to the background colour and every depth to infinity.
    pub fn clear(&mut self)
        requires
            old(self)@.wf(),
        ensures
            final(self)@.wf(),
            final(self)@ == old(self)@.cleared(),
    {
        let n: usize = self.color_buffer.len();
        self.color_buffer = filled(n, self.background_color);
        self.z_buffer = filled(n, Scalar::infinity());
    }

    /// Sets the colour for writes that name none; the rasters stay.
    pub fn set_current_color(&mut self, color: Color)
        requires
            old(self)@.wf(),
        ensures
            final(self)@.wf(),
            final(self)@ == (Raster { current: color, ..old(self)@ }),
    {
        self.current_color = color;
    }

    /// Sets the colour for the next clear; the rasters stay.
    pub fn set_background_color(&mut self, color: Color)
        requires
            old(self)@.wf(),
        ensures
            final(self)@.wf(),
            final(self)@ == (Raster { background: color, ..old(self)@ }),
    {
        self.background_color = color;
    }

    /// The index of pixel `(x, y)`, if there is such a pixel.
    pub fn locate(&self, x: i32, y: i32) -> (at: Option<usize>)
        requires
            self@.wf(),
        ensures
            self@.holds(x as int, y as int) <==> at.is_some(),
            at.is_some() ==> at.unwrap() == self@.index(x as int, y as int),
            at.is_some() ==> at.unwrap() < self@.color.len(),
    {
        if x >= 0 && y >= 0 && (x as u32) < self.width && (y as u32) < self.height {
            proof {
                lemma_index_in_range(self@, x as int, y as int);
            }
            let n: usize = self.color_buffer.len();
            assert(self@.width * self@.height == n);
            assert((y as usize) * (self.width as usize) == (y as int) * self@.width);
            assert((y as int) * self@.width + (x as int) < n);
            let at: usize = (y as usize) * (self.width as usize) + (x as usize);
            Some(at)
        } else {
            None
        }
    }

    /// Writes the current colour at `(x, y)` without a depth test; a
    /// coordinate outside the raster is ignored.
    pub fn set_pixel(&mut self, x: i32, y: i32)
        requires
            old(self)@.wf(),
        ensures
            final(self)@.wf(),
            final(self)@ == old(self)@.painted(x as int, y as int, old(self)@.current),
    {
        let color = self.current_color;
        self.set_pixel_with_color(x, y, color);
    }

    /// Writes `color` at `(x, y)` without a depth test; a coordinate outside
    /// the raster is ignored.
    pub fn set_pixel_with_color(&mut self, x: i32, y: i32, color: Color)
        requires
            old(self)@.wf(),
        ensures
            final(self)@.wf(),
            final(self)@ == old(self)@.painted(x as int, y as int, color),
    {
        match self.locate(x, y) {
            Some(at) => {
                self.color_buffer.set(at, color);
            },
            None => {},
        }
    }

    /// Whether a fragment at `(x, y)` with this depth would be written: the
    /// pixel exists and the depth is less than the stored one.
    pub fn depth_passes(&self, x: i32, y: i32, depth: Scalar) -> (r: bool)
        requires
            self@.wf(),
        ensures
            r == self@.passes(x as int, y as int, depth),
    {
        match self.locate(x, y) {
            Some(at) => depth.less_than(self.z_buffer[at]),
            None => false,
        }
    }

    /// Writes the current colour and `depth` at `(x, y)` if the depth is less
    /// than the stored one.
    pub fn set_pixel_depth(&mut self, x: i32, y: i32, depth: Scalar)
        requires
            old(self)@.wf(),
        ensures
            final(self)@.wf(),
            final(self)@ == old(self)@.tested(x as int, y as int, depth, old(self)@.current),
    {
        let color = self.current_color;
        self.set_pixel_depth_tested(x, y, depth, color);
    }

    /// Writes `color` and `depth` at `(x, y)` if the pixel exists and the
    /// depth is less than the stored one; otherwise changes nothing.
    pub fn set_pixel_depth_tested(&mut self, x: i32, y: i32, depth: Scalar, color: Color)
        requires
            old(self)@.wf(),
        ensures
            final(self)@.wf(),
            final(self)@ == old(self)@.tested(x as int, y as int, depth, color),
            forall|i: int|
                0 <= i < old(self)@.depth.len() ==> (#[trigger] final(self)@.depth[i]).rank()
                    <= old(self)@.depth[i].rank(),
    {
        match self.locate(x, y) {
            Some(at) => {
                if depth.less_than(self.z_buffer[at]) {
                    self.z_buffer.set(at, depth);
                    self.color_buffer.set(at, color);
                }
            },
            None => {},
        }
    }

    /// The colour stored at `(x, y)`, if there is such a pixel.
    pub fn color_at(&self, x: i32, y: i32) -> (c: Option<Color>)
        requires
            self@.wf(),
        ensures
            c == if self@.holds(x as int, y as int) {
                Some(self@.color[self@.index(x as int, y as int)])
            } else {
                None
            },
    {
        match self.locate(x, y) {
            Some(at) => Some(self.color_buffer[at]),
            None => None,
        }
    }

    /// The depth stored at `(x, y)`, if there is such a pixel.
    pub fn depth_at(&self, x: i32, y: i32) -> (d: Option<Scalar>)
        requires
            self@.wf(),
        ensures
            d == if self@.holds(x as int, y as int) {
                Some(self@.depth[self@.index(x as int, y as int)])
            } else {
                None
            },
    {
        match self.locate(x, y) {
            Some(at) => Some(self.z_buffer[at]),
            None => None,
        }
    }

    /// The whole colour raster in storage order: rows from the top, each
    /// from the left.
    pub fn image_data(&self) -> (pixels: Vec<Color>)
        ensures
            pixels@ == self@.color,
    {
        let mut pixels: Vec<Color> = Vec::new();
        let mut k: usize = 0;
        while k < self.color_buffer.len()
            invariant
                k <= self.color_buffer@.len(),
                pixels@ == self.color_buffer@.subrange(0, k as int),
            decreases self.color_buffer@.len() - k,
        {
            pixels.push(self.color_buffer[k]);
            k += 1;
            assert(pixels@ =~= self.color_buffer@.subrange(0, k as int));
        }
        assert(pixels@ =~= self.color_buffer@);
        pixels
    }
}

} // verus!
