//! Rasterisation of a marker: a polygon of coloured wedges around the
//! canvas centre, with an optional solid centre dot.

use vstd::prelude::*;
use crate::color::Color;
use vstd::arithmetic::div_mod::lemma_fundamental_div_mod_converse;

verus! {

/// A pixel position; `y` grows downwards.
#[derive(Debug, Clone, Copy, PartialEq, Eq, Structural)]
pub struct Point {
    pub x: i32,
    pub y: i32,
}

/// A width x height canvas of colours, stored row by row.
pub struct Canvas {
    pub width: u32,
    pub height: u32,
    pub pixels: Vec<Color>,
}

proof fn lemma_pixel_index(w: int, h: int, x: int, y: int)
    requires
        0 <= x < w,
        0 <= y < h,
    ensures
        0 <= y * w + x < w * h,
{
    assert(0 <= y * w + x < w * h) by (nonlinear_arith)
        requires
            0 <= x < w,
            0 <= y < h,
    ;
}

proof fn lemma_pixel_index_distinct(w: int, x: int, y: int, x2: int, y2: int)
    requires
        0 <= x < w,
        0 <= x2 < w,
        0 <= y,
        0 <= y2,
        (x, y) != (x2, y2),
    ensures
        y * w + x != y2 * w + x2,
{
    if y < y2 {
        assert(y * w + x < y2 * w + x2) by (nonlinear_arith)
            requires
                y < y2,
                0 <= x < w,
                0 <= x2,
        ;
    } else if y2 < y {
        assert(y2 * w + x2 < y * w + x) by (nonlinear_arith)
            requires
                y2 < y,
                0 <= x2 < w,
                0 <= x,
        ;
    }
}

impl Canvas {
    /// The pixel buffer holds exactly one colour per position.
    pub open spec fn wf(&self) -> bool {
        self.pixels@.len() == self.width * self.height
    }

    /// The colour at column `x`, row `y`.
    pub open spec fn pixel(&self, x: int, y: int) -> Color {
        self.pixels@[y * self.width + x]
    }

    /// A canvas of the given size filled with one colour.
    pub fn new(width: u32, height: u32, fill: Color) -> (c: Canvas)
        requires
            width * height <= usize::MAX,
        ensures
            c.wf(),
            c.width == width,
            c.height == height,
            forall|x: int, y: int| 0 <= x < width && 0 <= y < height ==> #[trigger] c.pixel(x, y) == fill,
    {
        let total: usize = width as usize * height as usize;
        let mut pixels: Vec<Color> = Vec::new();
        let mut k: usize = 0;
        while k < total
            invariant
                k <= total,
                pixels@.len() == k,
                forall|j: int| 0 <= j < k ==> #[trigger] pixels@[j] == fill,
            decreases total - k,
        {
            pixels.push(fill);
            k += 1;
        }
        let c = Canvas { width, height, pixels };
        proof {
            assert forall|x: int, y: int| 0 <= x < width && 0 <= y < height implies #[trigger] c.pixel(x, y) == fill by {
                lemma_pixel_index(width as int, height as int, x, y);
            }
        }
        c
    }

    /// The colour at column `x`, row `y`.
    pub fn get_pixel(&self, x: u32, y: u32) -> (c: Color)
        requires
            self.wf(),
            x < self.width,
            y < self.height,
        ensures
            c == self.pixel(x as int, y as int),
    {
        let len = self.pixels.len();
        proof {
            lemma_pixel_index(self.width as int, self.height as int, x as int, y as int);
        }
        self.pixels[y as usize * self.width as usize + x as usize]
    }

    /// Sets the colour at column `x`, row `y`; every other pixel is kept.
    pub fn put_pixel(&mut self, x: u32, y: u32, c: Color)
        requires
            old(self).wf(),
            x < old(self).width,
            y < old(self).height,
        ensures
            final(self).wf(),
            final(self).width == old(self).width,
            final(self).height == old(self).height,
            forall|x2: int, y2: int|
                0 <= x2 < old(self).width && 0 <= y2 < old(self).height ==> #[trigger] final(self).pixel(x2, y2)
                    == if x2 == x && y2 == y {
                    c
                } else {
                    old(self).pixel(x2, y2)
                },
    {
        let len = self.pixels.len();
        proof {
            lemma_pixel_index(self.width as int, self.height as int, x as int, y as int);
        }
        let idx = y as usize * self.width as usize + x as usize;
        self.pixels.set(idx, c);
        proof {
            assert forall|x2: int, y2: int|
                0 <= x2 < old(self).width && 0 <= y2 < old(self).height implies #[trigger] self.pixel(x2, y2)
                    == if x2 == x && y2 == y {
                    c
                } else {
                    old(self).pixel(x2, y2)
                } by {
                lemma_pixel_index(self.width as int, self.height as int, x2, y2);
                if x2 != x || y2 != y {
                    lemma_pixel_index_distinct(self.width as int, x as int, y as int, x2, y2);
                }
            }
        }
    }
}

/// `num / den` rounded to the nearest integer, halves away from zero.
pub open spec fn round_div(num: int, den: int) -> int {
    if den <= 0 {
        0
    } else if num >= 0 {
        (2 * num + den) / (2 * den)
    } else {
        -((-2 * num + den) / (2 * den))
    }
}

/// The x coordinate, rounded, of the line through `p0` and `p1` at row `y`
/// (`p0.x` when the two share a row).
pub open spec fn interp(p0: Point, p1: Point, y: int) -> int {
    if p1.y == p0.y {
        p0.x as int
    } else {
        round_div(p0.x * (p1.y - p0.y) + (p1.x - p0.x) * (y - p0.y), p1.y - p0.y)
    }
}

/// The three corners ordered by row, corners on the same row keeping their
/// order of arguments.
pub open spec fn sort_by_row(a: Point, b: Point, c: Point) -> (Point, Point, Point) {
    if a.y <= b.y {
        if b.y <= c.y {
            (a, b, c)
        } else if a.y <= c.y {
            (a, c, b)
        } else {
            (c, a, b)
        }
    } else {
        if a.y <= c.y {
            (b, a, c)
        } else if b.y <= c.y {
            (b, c, a)
        } else {
            (c, b, a)
        }
    }
}

/// The two ends of the scanline span at row `y` of a triangle whose corners
/// are ordered by row.
pub open spec fn span_ends(p0: Point, p1: Point, p2: Point, y: int) -> (int, int) {
    if y <= p1.y {
        (interp(p0, p2, y), interp(p0, p1, y))
    } else {
        (interp(p0, p2, y), interp(p1, p2, y))
    }
}

/// Whether `x` lies between `xa` and `xb`, both included.
pub open spec fn between(x: int, xa: int, xb: int) -> bool {
    if xa <= xb {
        xa <= x <= xb
    } else {
        xb <= x <= xa
    }
}

/// Whether scanline filling of triangle `(a, b, c)` paints pixel `(x, y)`.
pub open spec fn triangle_covers(a: Point, b: Point, c: Point, x: int, y: int) -> bool {
    let (p0, p1, p2) = sort_by_row(a, b, c);
    &&& p0.y <= y <= p2.y
    &&& between(x, span_ends(p0, p1, p2, y).0, span_ends(p0, p1, p2, y).1)
}

fn sort_points(a: Point, b: Point, c: Point) -> (r: (Point, Point, Point))
    ensures
        r == sort_by_row(a, b, c),
{
    if a.y <= b.y {
        if b.y <= c.y {
            (a, b, c)
        } else if a.y <= c.y {
            (a, c, b)
        } else {
            (c, a, b)
        }
    } else {
        if a.y <= c.y {
            (b, a, c)
        } else if b.y <= c.y {
            (b, c, a)
        } else {
            (c, b, a)
        }
    }
}

fn round_div_exec(num: i128, den: i128) -> (r: i128)
    requires
        den > 0,
        -0x10_0000_0000_0000_0000 <= num <= 0x10_0000_0000_0000_0000,
        den <= 0x1_0000_0000,
    ensures
        r == round_div(num as int, den as int),
{
    let mag: i128 = if num >= 0 {
        num
    } else {
        -num
    };
    let top: u128 = 2 * (mag as u128) + den as u128;
    let bottom: u128 = 2 * (den as u128);
    let q: u128 = top / bottom;
    proof {
        vstd::arithmetic::div_mod::lemma_div_nonincreasing(top as int, bottom as int);
    }
    if num >= 0 {
        q as i128
    } else {
        -(q as i128)
    }
}

/// Row `y` of the line from `p0` to `p1`, for `p0.y <= y <= p1.y`.
fn interp_exec(p0: Point, p1: Point, y: i64) -> (r: i128)
    requires
        p0.y <= y <= p1.y,
    ensures
        r == interp(p0, p1, y as int),
{
    if p1.y == p0.y {
        p0.x as i128
    } else {
        let den: i128 = p1.y as i128 - p0.y as i128;
        let t: i128 = y as i128 - p0.y as i128;
        let dx: i128 = p1.x as i128 - p0.x as i128;
        proof {
            assert(-0x8000_0000 * den <= p0.x * den <= 0x8000_0000 * den) by (nonlinear_arith)
                requires
                    -0x8000_0000 <= p0.x <= 0x8000_0000,
                    den > 0,
            ;
            assert(-0x1_0000_0000 * den <= dx * t <= 0x1_0000_0000 * den) by (nonlinear_arith)
                requires
                    -0x1_0000_0000 <= dx <= 0x1_0000_0000,
                    0 <= t <= den,
            ;
            assert(0x1_0000_0000 * den <= 0x1_0000_0000 * 0x1_0000_0000) by (nonlinear_arith)
                requires
                    den <= 0x1_0000_0000,
            ;
        }
        round_div_exec(p0.x as i128 * den + dx * t, den)
    }
}

/// Paints the pixels of row `y` between `xa` and `xb` (both included) that
/// lie on the canvas.
fn fill_span(img: &mut Canvas, y: u32, xa: i128, xb: i128, color: Color)
    requires
        old(img).wf(),
        y < old(img).height,
    ensures
        final(img).wf(),
        final(img).width == old(img).width,
        final(img).height == old(img).height,
        forall|x2: int, y2: int|
            0 <= x2 < old(img).width && 0 <= y2 < old(img).height ==> #[trigger] final(img).pixel(x2, y2)
                == if y2 == y && between(x2, xa as int, xb as int) {
                color
            } else {
                old(img).pixel(x2, y2)
            },
{
    let lo_x: i128 = if xa <= xb {
        xa
    } else {
        xb
    };
    let hi_x: i128 = if xa <= xb {
        xb
    } else {
        xa
    };
    let start: i128 = if lo_x < 0 {
        0
    } else {
        lo_x
    };
    let end: i128 = if hi_x > img.width as i128 - 1 {
        img.width as i128 - 1
    } else {
        hi_x
    };
    let mut x: i128 = start;
    while x <= end
        invariant
            img.wf(),
            img.width == old(img).width,
            img.height == old(img).height,
            y < img.height,
            0 <= start <= x,
            end < img.width,
            lo_x <= start,
            end <= hi_x,
            lo_x == (if xa <= xb { xa } else { xb }) as int,
            hi_x == (if xa <= xb { xb } else { xa }) as int,
            start == (if lo_x < 0 { 0 } else { lo_x as int }),
            end == (if hi_x > img.width - 1 { img.width - 1 } else { hi_x as int }),
            x <= end + 1 || x == start,
            forall|x2: int, y2: int|
                0 <= x2 < old(img).width && 0 <= y2 < old(img).height ==> #[trigger] img.pixel(x2, y2)
                    == if y2 == y && start <= x2 < x && between(x2, xa as int, xb as int) {
                    color
                } else {
                    old(img).pixel(x2, y2)
                },
        decreases end + 1 - x,
    {
        img.put_pixel(x as u32, y, color);
        x += 1;
    }
}

/// Fills triangle `(a, b, c)` with `color` by scanlines: the corners are
/// ordered by row, each row's span runs between the rounded crossings of the
/// bounding edges, and only pixels on the canvas are painted.
pub fn draw_filled_triangle(img: &mut Canvas, a: Point, b: Point, c: Point, color: Color)
    requires
        old(img).wf(),
    ensures
        final(img).wf(),
        final(img).width == old(img).width,
        final(img).height == old(img).height,
        forall|x: int, y: int|
            0 <= x < old(img).width && 0 <= y < old(img).height ==> #[trigger] final(img).pixel(x, y)
                == if triangle_covers(a, b, c, x, y) {
                color
            } else {
                old(img).pixel(x, y)
            },
{
    let (p0, p1, p2) = sort_points(a, b, c);
    let height: i64 = img.height as i64;
    let mut y: i64 = if p0.y < 0 {
        0
    } else {
        p0.y as i64
    };
    let last: i64 = if p2.y as i64 > height - 1 {
        height - 1
    } else {
        p2.y as i64
    };
    while y <= last
        invariant
            img.wf(),
            img.width == old(img).width,
            img.height == old(img).height,
            height == img.height,
            (p0, p1, p2) == sort_by_row(a, b, c),
            p0.y <= p1.y <= p2.y,
            0 <= y,
            p0.y <= y,
            last < height,
            last <= p2.y,
            y <= last + 1 || y == (if p0.y < 0 { 0 } else { p0.y as int }),
            forall|x2: int, y2: int|
                0 <= x2 < old(img).width && 0 <= y2 < old(img).height ==> #[trigger] img.pixel(x2, y2)
                    == if y2 < y && triangle_covers(a, b, c, x2, y2) {
                    color
                } else {
                    old(img).pixel(x2, y2)
                },
        decreases last + 1 - y,
    {
        let xa = interp_exec(p0, p2, y);
        let xb = if y <= p1.y as i64 {
            interp_exec(p0, p1, y)
        } else {
            interp_exec(p1, p2, y)
        };
        let ghost before = *img;
        fill_span(img, y as u32, xa, xb, color);
        proof {
            assert forall|x2: int, y2: int|
                0 <= x2 < old(img).width && 0 <= y2 < old(img).height implies #[trigger] img.pixel(x2, y2)
                    == if y2 < y + 1 && triangle_covers(a, b, c, x2, y2) {
                    color
                } else {
                    old(img).pixel(x2, y2)
                } by {
                assert(before.pixel(x2, y2) == if y2 < y && triangle_covers(a, b, c, x2, y2) {
                    color
                } else {
                    old(img).pixel(x2, y2)
                });
            }
        }
        y += 1;
    }
}

/// Smallest and largest accepted dot size, in percent of the shorter side.
pub const DOT_PCT_MIN: u32 = 1;

pub const DOT_PCT_MAX: u32 = 50;

/// The dot size clamped to the accepted range.
pub open spec fn clamp_pct(p: int) -> int {
    if p < DOT_PCT_MIN {
        DOT_PCT_MIN as int
    } else if p > DOT_PCT_MAX {
        DOT_PCT_MAX as int
    } else {
        p
    }
}

/// Whether pixel `(x, y)` lies in the centre dot: the disk around the
/// canvas centre `(w / 2, h / 2)` whose radius is `pct` percent of half the
/// shorter side, and at least one pixel. Doubling every length keeps the
/// test exact in integers: `(2x - w)^2 + (2y - h)^2 <= (2r)^2`, with
/// `2r = min(w, h) * pct / 100`.
pub open spec fn in_center_dot(w: int, h: int, pct: int, x: int, y: int) -> bool {
    let m = if w <= h {
        w
    } else {
        h
    };
    let d = m * clamp_pct(pct);
    let dx = 2 * x - w;
    let dy = 2 * y - h;
    if d >= 200 {
        10000 * (dx * dx + dy * dy) <= d * d
    } else {
        dx * dx + dy * dy <= 4
    }
}

/// Pure black, the colour of the centre dot.
pub open spec fn black() -> Color {
    Color { r: 0, g: 0, b: 0 }
}

/// Pure white, the background colour.
pub open spec fn white() -> Color {
    Color { r: 255, g: 255, b: 255 }
}

/// Paints the centre dot black over the whole canvas.
pub fn draw_center_dot(img: &mut Canvas, pct: u32)
    requires
        old(img).wf(),
    ensures
        final(img).wf(),
        final(img).width == old(img).width,
        final(img).height == old(img).height,
        forall|x: int, y: int|
            0 <= x < old(img).width && 0 <= y < old(img).height ==> #[trigger] final(img).pixel(x, y)
                == if in_center_dot(old(img).width as int, old(img).height as int, pct as int, x, y) {
                black()
            } else {
                old(img).pixel(x, y)
            },
{
    let w: u32 = img.width;
    let h: u32 = img.height;
    let m: u64 = if w <= h {
        w as u64
    } else {
        h as u64
    };
    let p: u64 = if pct < DOT_PCT_MIN {
        DOT_PCT_MIN as u64
    } else if pct > DOT_PCT_MAX {
        DOT_PCT_MAX as u64
    } else {
        pct as u64
    };
    proof {
        assert(m * p <= 0x100_0000_0000) by (nonlinear_arith)
            requires
                m <= 0x1_0000_0000,
                p <= 50,
        ;
    }
    let d: u128 = (m as u128) * (p as u128);
    let mut y: u32 = 0;
    while y < h
        invariant
            img.wf(),
            img.width == w,
            img.height == h,
            w == old(img).width,
            h == old(img).height,
            d == (if w <= h { w as int } else { h as int }) * clamp_pct(pct as int),
            d <= 0x100_0000_0000,
            y <= h,
            forall|x2: int, y2: int|
                0 <= x2 < w && 0 <= y2 < h ==> #[trigger] img.pixel(x2, y2) == if y2 < y && in_center_dot(
                    w as int,
                    h as int,
                    pct as int,
                    x2,
                    y2,
                ) {
                    black()
                } else {
                    old(img).pixel(x2, y2)
                },
        decreases h - y,
    {
        let mut x: u32 = 0;
        while x < w
            invariant
                img.wf(),
                img.width == w,
                img.height == h,
                w == old(img).width,
                h == old(img).height,
                d == (if w <= h { w as int } else { h as int }) * clamp_pct(pct as int),
                d <= 0x100_0000_0000,
                y < h,
                x <= w,
                forall|x2: int, y2: int|
                    0 <= x2 < w && 0 <= y2 < h ==> #[trigger] img.pixel(x2, y2) == if (y2 < y || (y2 == y
                        && x2 < x)) && in_center_dot(w as int, h as int, pct as int, x2, y2) {
                        black()
                    } else {
                        old(img).pixel(x2, y2)
                    },
            decreases w - x,
        {
            let dx: i128 = 2 * x as i128 - w as i128;
            let dy: i128 = 2 * y as i128 - h as i128;
            proof {
                assert(dx * dx <= 0x1_0000_0000 * 0x1_0000_0000) by (nonlinear_arith)
                    requires
                        -0x1_0000_0000 <= dx <= 0x1_0000_0000,
                ;
                assert(dy * dy <= 0x1_0000_0000 * 0x1_0000_0000) by (nonlinear_arith)
                    requires
                        -0x1_0000_0000 <= dy <= 0x1_0000_0000,
                ;
                assert(dx * dx >= 0 && dy * dy >= 0) by (nonlinear_arith);
                assert(d * d <= 0x100_0000_0000 * 0x100_0000_0000) by (nonlinear_arith)
                    requires
                        0 <= d <= 0x100_0000_0000,
                ;
            }
            let dist2: i128 = dx * dx + dy * dy;
            let inside: bool = if d >= 200 {
                10000 * dist2 <= (d * d) as i128
            } else {
                dist2 <= 4
            };
            if inside {
                img.put_pixel(x, y, Color { r: 0, g: 0, b: 0 });
            }
            x += 1;
        }
        y += 1;
    }
}

/// Why a marker cannot be drawn.
#[derive(Debug, Clone, Copy, PartialEq, Eq, Structural)]
pub enum ConfigError {
    /// The polygon must have between three and six sides.
    SidesOutOfRange,
    /// The canvas has no pixels.
    EmptyCanvas,
    /// There is no colour to paint the wedges with.
    NoColors,
    /// A request must ask for at least one marker.
    NoTags,
}

pub const SIDES_MIN: usize = 3;

pub const SIDES_MAX: usize = 6;

/// The canvas centre, rounded half up: the common corner of all wedges.
pub open spec fn centroid_of(w: int, h: int) -> Point {
    Point { x: ((w + 1) / 2) as i32, y: ((h + 1) / 2) as i32 }
}

/// The colour of pixel `(x, y)` after the first `k` wedges are drawn on a
/// white canvas: wedge `i` is the triangle from the centroid to corners `i`
/// and `i + 1` (wrapping), filled with `colors[i mod |colors|]`.
pub open spec fn wedge_pixel(colors: Seq<Color>, verts: Seq<Point>, c: Point, k: int, x: int, y: int) -> Color
    decreases k,
{
    if k <= 0 {
        white()
    } else if triangle_covers(c, verts[k - 1], verts[k % (verts.len() as int)], x, y) {
        colors[(k - 1) % (colors.len() as int)]
    } else {
        wedge_pixel(colors, verts, c, k - 1, x, y)
    }
}

/// The colour of pixel `(x, y)` of a finished marker.
pub open spec fn marker_pixel(
    w: int,
    h: int,
    colors: Seq<Color>,
    verts: Seq<Point>,
    center_dot: bool,
    pct: int,
    x: int,
    y: int,
) -> Color {
    if center_dot && in_center_dot(w, h, pct, x, y) {
        black()
    } else {
        wedge_pixel(colors, verts, centroid_of(w, h), verts.len() as int, x, y)
    }
}

/// Draws a marker: a white canvas, one wedge per side from the canvas
/// centre to consecutive corners `verts` (corner 0 straight up, then
/// clockwise), coloured `colors[i mod |colors|]`, and optionally the black
/// centre dot on top.
pub fn draw_marker_polygon(
    width: u32,
    height: u32,
    sides: usize,
    colors: &Vec<Color>,
    verts: &Vec<Point>,
    center_dot: bool,
    center_dot_size_pct: u32,
) -> (r: Result<Canvas, ConfigError>)
    requires
        verts@.len() == sides,
        width * height <= usize::MAX,
        width <= i32::MAX,
        height <= i32::MAX,
    ensures
        !(SIDES_MIN <= sides <= SIDES_MAX) ==> r == Err::<Canvas, ConfigError>(ConfigError::SidesOutOfRange),
        SIDES_MIN <= sides <= SIDES_MAX && (width == 0 || height == 0) ==> r == Err::<Canvas, ConfigError>(
            ConfigError::EmptyCanvas,
        ),
        SIDES_MIN <= sides <= SIDES_MAX && width > 0 && height > 0 && colors@.len() == 0 ==> r == Err::<
            Canvas,
            ConfigError,
        >(ConfigError::NoColors),
        SIDES_MIN <= sides <= SIDES_MAX && width > 0 && height > 0 && colors@.len() > 0 ==> r is Ok,
        r matches Ok(img) ==> {
            &&& img.wf()
            &&& img.width == width
            &&& img.height == height
            &&& forall|x: int, y: int|
                0 <= x < width && 0 <= y < height ==> #[trigger] img.pixel(x, y) == marker_pixel(
                    width as int,
                    height as int,
                    colors@,
                    verts@,
                    center_dot,
                    center_dot_size_pct as int,
                    x,
                    y,
                )
        },
{
    if sides < SIDES_MIN || sides > SIDES_MAX {
        return Err(ConfigError::SidesOutOfRange);
    }
    if width == 0 || height == 0 {
        return Err(ConfigError::EmptyCanvas);
    }
    if colors.len() == 0 {
        return Err(ConfigError::NoColors);
    }
    let mut img = Canvas::new(width, height, Color { r: 255, g: 255, b: 255 });
    let centroid = Point { x: ((width as u64 + 1) / 2) as i32, y: ((height as u64 + 1) / 2) as i32 };
    let ghost c = centroid_of(width as int, height as int);
    let mut i: usize = 0;
    while i < sides
        invariant
            img.wf(),
            img.width == width,
            img.height == height,
            sides == verts@.len(),
            sides >= 1,
            colors@.len() > 0,
            centroid == c,
            i <= sides,
            forall|x: int, y: int|
                0 <= x < width && 0 <= y < height ==> #[trigger] img.pixel(x, y) == wedge_pixel(
                    colors@,
                    verts@,
                    c,
                    i as int,
                    x,
                    y,
                ),
        decreases sides - i,
    {
        let v0 = verts[i];
        let v1 = verts[(i + 1) % sides];
        let color = colors[i % colors.len()];
        draw_filled_triangle(&mut img, centroid, v0, v1, color);
        i += 1;
    }
    if center_dot {
        draw_center_dot(&mut img, center_dot_size_pct);
    }
    Ok(img)
}

proof fn lemma_round_div_exact(v: int, den: int)
    requires
        den > 0,
    ensures
        round_div(v * den, den) == v,
{
    if v >= 0 {
        assert(2 * (v * den) + den == v * (2 * den) + den) by (nonlinear_arith);
        lemma_fundamental_div_mod_converse(2 * (v * den) + den, 2 * den, v, den);
    } else {
        assert(-2 * (v * den) + den == (-v) * (2 * den) + den) by (nonlinear_arith);
        assert(v * den < 0) by (nonlinear_arith)
            requires
                v < 0,
                den > 0,
        ;
        lemma_fundamental_div_mod_converse(-2 * (v * den) + den, 2 * den, -v, den);
    }
}

/// A line meets its own endpoints exactly.
proof fn lemma_interp_endpoints(p: Point, q: Point)
    requires
        p.y <= q.y,
    ensures
        interp(p, q, p.y as int) == p.x,
        p.y < q.y ==> interp(p, q, q.y as int) == q.x,
{
    if p.y < q.y {
        let den = q.y - p.y;
        assert(p.x * den + (q.x - p.x) * 0 == p.x * den);
        lemma_round_div_exact(p.x as int, den);
        assert(p.x * den + (q.x - p.x) * den == q.x * den) by (nonlinear_arith);
        lemma_round_div_exact(q.x as int, den);
    }
}

/// Scanline filling always paints the first corner of the triangle.
pub proof fn lemma_first_corner_painted(a: Point, b: Point, c: Point)
    ensures
        triangle_covers(a, b, c, a.x as int, a.y as int),
{
    let (p0, p1, p2) = sort_by_row(a, b, c);
    lemma_interp_endpoints(p0, p1);
    lemma_interp_endpoints(p0, p2);
    lemma_interp_endpoints(p1, p2);
}

/// The centre dot always contains the canvas centre.
pub proof fn lemma_center_in_dot(w: int, h: int, pct: int)
    requires
        0 <= w <= i32::MAX,
        0 <= h <= i32::MAX,
    ensures
        in_center_dot(w, h, pct, centroid_of(w, h).x as int, centroid_of(w, h).y as int),
{
    let cx = (w + 1) / 2;
    let cy = (h + 1) / 2;
    assert(centroid_of(w, h).x as int == cx);
    assert(centroid_of(w, h).y as int == cy);
    assert(0 <= 2 * cx - w <= 1);
    assert(0 <= 2 * cy - h <= 1);
    let dx = 2 * cx - w;
    let dy = 2 * cy - h;
    assert(dx * dx + dy * dy <= 2) by (nonlinear_arith)
        requires
            0 <= dx <= 1,
            0 <= dy <= 1,
    ;
    let m = if w <= h {
        w
    } else {
        h
    };
    let d = m * clamp_pct(pct);
    if d >= 200 {
        assert(10000 * (dx * dx + dy * dy) <= d * d) by (nonlinear_arith)
            requires
                dx * dx + dy * dy <= 2,
                d >= 200,
        ;
    }
}

/// With the centre dot on, the pixel at the canvas centre is black.
pub proof fn lemma_marker_center_black(
    width: u32,
    height: u32,
    colors: Seq<Color>,
    verts: Seq<Point>,
    pct: int,
    img: Canvas,
)
    requires
        width >= 2,
        height >= 2,
        width <= i32::MAX,
        height <= i32::MAX,
        img.width == width,
        img.height == height,
        forall|x: int, y: int|
            0 <= x < width && 0 <= y < height ==> #[trigger] img.pixel(x, y) == marker_pixel(
                width as int,
                height as int,
                colors,
                verts,
                true,
                pct,
                x,
                y,
            ),
    ensures
        img.pixel(centroid_of(width as int, height as int).x as int, centroid_of(width as int, height as int).y as int)
            == black(),
{
    let c = centroid_of(width as int, height as int);
    lemma_center_in_dot(width as int, height as int, pct);
    assert(img.pixel(c.x as int, c.y as int) == marker_pixel(
        width as int,
        height as int,
        colors,
        verts,
        true,
        pct,
        c.x as int,
        c.y as int,
    ));
}

/// Without the centre dot, the pixel at the canvas centre has the colour of
/// the last wedge, which is drawn last and always paints its centre corner.
pub proof fn lemma_marker_center_last_wedge(
    width: u32,
    height: u32,
    colors: Seq<Color>,
    verts: Seq<Point>,
    pct: int,
    img: Canvas,
)
    requires
        width >= 2,
        height >= 2,
        width <= i32::MAX,
        height <= i32::MAX,
        verts.len() >= 1,
        colors.len() >= 1,
        img.width == width,
        img.height == height,
        forall|x: int, y: int|
            0 <= x < width && 0 <= y < height ==> #[trigger] img.pixel(x, y) == marker_pixel(
                width as int,
                height as int,
                colors,
                verts,
                false,
                pct,
                x,
                y,
            ),
    ensures
        img.pixel(centroid_of(width as int, height as int).x as int, centroid_of(width as int, height as int).y as int)
            == colors[(verts.len() - 1) % (colors.len() as int)],
{
    let c = centroid_of(width as int, height as int);
    let k = verts.len() as int;
    lemma_first_corner_painted(c, verts[k - 1], verts[k % k]);
    assert(img.pixel(c.x as int, c.y as int) == marker_pixel(
        width as int,
        height as int,
        colors,
        verts,
        false,
        pct,
        c.x as int,
        c.y as int,
    ));
}

/// Columns and rows of a roughly square sheet of `count` tiles: the
/// smallest `cols` with `cols * cols >= count`, and as many rows as needed.
pub fn grid_shape(count: usize) -> (r: (usize, usize))
    ensures
        r.0 * r.0 >= count,
        r.0 == 0 || (r.0 - 1) * (r.0 - 1) < count,
        count > 0 ==> r.1 == (count + r.0 - 1) / (r.0 as int),
        count == 0 ==> r.1 == 0,
{
    let mut cols: usize = 0;
    let mut done = false;
    while !done
        invariant
            cols == 0 || (cols - 1) * (cols - 1) < count,
            cols <= count,
            done ==> cols * cols >= count,
        decreases count - cols + (if done { 0int } else { 1int }),
    {
        proof {
            assert(cols * cols <= 0xFFFF_FFFF_FFFF_FFFF * 0xFFFF_FFFF_FFFF_FFFF) by (nonlinear_arith)
                requires
                    0 <= cols <= 0xFFFF_FFFF_FFFF_FFFF,
            ;
        }
        let sq: u128 = (cols as u128) * (cols as u128);
        if sq >= count as u128 {
            done = true;
        } else {
            proof {
                if cols >= 1 {
                    assert(cols * cols >= cols) by (nonlinear_arith)
                        requires
                            cols >= 1,
                    ;
                }
            }
            cols += 1;
        }
    }
    if count == 0 {
        return (0, 0);
    }
    proof {
        assert(cols >= 1);
    }
    let rows = (count - 1) / cols + 1;
    proof {
        assert((count - 1) / (cols as int) + 1 == (count + cols - 1) / (cols as int)) by (nonlinear_arith)
            requires
                cols >= 1,
                count >= 1,
        ;
    }
    (cols, rows)
}

/// Copies `tile` onto `sheet` with its top-left corner at `(ox, oy)`;
/// the parts that fall outside the sheet are dropped.
pub fn paste_tile(sheet: &mut Canvas, tile: &Canvas, ox: u32, oy: u32)
    requires
        old(sheet).wf(),
        tile.wf(),
    ensures
        final(sheet).wf(),
        final(sheet).width == old(sheet).width,
        final(sheet).height == old(sheet).height,
        forall|x: int, y: int|
            0 <= x < old(sheet).width && 0 <= y < old(sheet).height ==> #[trigger] final(sheet).pixel(x, y)
                == if ox <= x < ox + tile.width && oy <= y < oy + tile.height {
                tile.pixel(x - ox, y - oy)
            } else {
                old(sheet).pixel(x, y)
            },
{
    let w = sheet.width;
    let h = sheet.height;
    let mut ty: u32 = 0;
    while ty < tile.height
        invariant
            sheet.wf(),
            tile.wf(),
            sheet.width == w,
            sheet.height == h,
            w == old(sheet).width,
            h == old(sheet).height,
            ty <= tile.height,
            forall|x: int, y: int|
                0 <= x < w && 0 <= y < h ==> #[trigger] sheet.pixel(x, y) == if ox <= x < ox + tile.width && oy
                    <= y < oy + ty {
                    tile.pixel(x - ox, y - oy)
                } else {
                    old(sheet).pixel(x, y)
                },
        decreases tile.height - ty,
    {
        let mut tx: u32 = 0;
        while tx < tile.width
            invariant
                sheet.wf(),
                tile.wf(),
                sheet.width == w,
                sheet.height == h,
                w == old(sheet).width,
                h == old(sheet).height,
                ty < tile.height,
                tx <= tile.width,
                forall|x: int, y: int|
                    0 <= x < w && 0 <= y < h ==> #[trigger] sheet.pixel(x, y) == if (ox <= x < ox + tile.width
                        && oy <= y < oy + ty) || (ox <= x < ox + tx && y == oy + ty) {
                        tile.pixel(x - ox, y - oy)
                    } else {
                        old(sheet).pixel(x, y)
                    },
            decreases tile.width - tx,
        {
            let sx: u64 = ox as u64 + tx as u64;
            let sy: u64 = oy as u64 + ty as u64;
            if sx < w as u64 && sy < h as u64 {
                let c = tile.get_pixel(tx, ty);
                sheet.put_pixel(sx as u32, sy as u32, c);
            }
            tx += 1;
        }
        ty += 1;
    }
}

/// The colour of sheet pixel `(x, y)` after the first `k` tiles are pasted
/// on a white sheet, tile `i` at column `i mod cols` and row `i / cols` of
/// a grid of `tw x th` cells.
pub open spec fn sheet_pixel(tiles: Seq<Canvas>, cols: int, tw: int, th: int, k: int, x: int, y: int) -> Color
    decreases k,
{
    if k <= 0 {
        white()
    } else {
        let t = tiles[k - 1];
        let ox = ((k - 1) % cols) * tw;
        let oy = ((k - 1) / cols) * th;
        if ox <= x < ox + t.width && oy <= y < oy + t.height {
            t.pixel(x - ox, y - oy)
        } else {
            sheet_pixel(tiles, cols, tw, th, k - 1, x, y)
        }
    }
}

/// `cols` is the number of columns of a roughly square grid of `n` cells:
/// the smallest with `cols * cols >= n`.
pub open spec fn is_grid_cols(n: int, cols: int) -> bool {
    cols * cols >= n && (cols == 0 || (cols - 1) * (cols - 1) < n)
}

/// Lays the tiles out on one white sheet, row by row in a roughly square
/// grid (see `grid_shape`) of cells the size of the first tile; `None` when
/// there is no tile.
pub fn combine_tiles(tiles: &Vec<Canvas>) -> (r: Option<Canvas>)
    requires
        forall|k: int| 0 <= k < tiles@.len() ==> (#[trigger] tiles@[k]).wf(),
        tiles@.len() > 0 ==> tiles@.len() * tiles@[0].width <= u32::MAX,
        tiles@.len() > 0 ==> tiles@.len() * tiles@[0].height <= u32::MAX,
        tiles@.len() > 0 ==> (tiles@.len() * tiles@[0].width) * (tiles@.len() * tiles@[0].height) <= usize::MAX,
    ensures
        tiles@.len() == 0 <==> r is None,
        r matches Some(sheet) ==> {
            &&& sheet.wf()
            &&& exists|cols: int|
                {
                    &&& #[trigger] is_grid_cols(tiles@.len() as int, cols)
                    &&& sheet.width == cols * tiles@[0].width
                    &&& sheet.height == (tiles@.len() + cols - 1) / cols * tiles@[0].height
                    &&& forall|x: int, y: int|
                        0 <= x < sheet.width && 0 <= y < sheet.height ==> #[trigger] sheet.pixel(x, y)
                            == sheet_pixel(
                            tiles@,
                            cols,
                            tiles@[0].width as int,
                            tiles@[0].height as int,
                            tiles@.len() as int,
                            x,
                            y,
                        )
                }
        },
{
    if tiles.len() == 0 {
        return None;
    }
    let (cols, rows) = grid_shape(tiles.len());
    let tw = tiles[0].width;
    let th = tiles[0].height;
    let n = tiles.len();
    proof {
        assert(cols >= 1);
        assert(cols <= n) by (nonlinear_arith)
            requires
                cols >= 1,
                (cols - 1) * (cols - 1) < n,
        ;
        assert(rows <= n) by (nonlinear_arith)
            requires
                cols >= 1,
                rows == (n + cols - 1) / (cols as int),
                n >= 1,
        ;
        assert(cols * tw <= n * tw && rows * th <= n * th) by (nonlinear_arith)
            requires
                cols <= n,
                rows <= n,
                tw >= 0,
                th >= 0,
        ;
        assert((cols * tw) * (rows * th) <= (n * tw) * (n * th)) by (nonlinear_arith)
            requires
                cols * tw <= n * tw,
                rows * th <= n * th,
                cols * tw >= 0,
                rows * th >= 0,
        ;
    }
    let sheet_w: u32 = ((cols as u64) * (tw as u64)) as u32;
    let sheet_h: u32 = ((rows as u64) * (th as u64)) as u32;
    let mut sheet = Canvas::new(sheet_w, sheet_h, Color { r: 255, g: 255, b: 255 });
    let mut k: usize = 0;
    while k < n
        invariant
            n == tiles@.len(),
            forall|j: int| 0 <= j < tiles@.len() ==> (#[trigger] tiles@[j]).wf(),
            cols >= 1,
            cols <= n,
            rows <= n,
            rows == (n + cols - 1) / (cols as int),
            n * tw <= u32::MAX,
            n * th <= u32::MAX,
            tw == tiles@[0].width,
            th == tiles@[0].height,
            sheet.wf(),
            sheet.width == sheet_w,
            sheet.height == sheet_h,
            sheet_w == cols * tw,
            sheet_h == rows * th,
            k <= n,
            forall|x: int, y: int|
                0 <= x < sheet_w && 0 <= y < sheet_h ==> #[trigger] sheet.pixel(x, y) == sheet_pixel(
                    tiles@,
                    cols as int,
                    tw as int,
                    th as int,
                    k as int,
                    x,
                    y,
                ),
        decreases n - k,
    {
        proof {
            assert(k % cols < cols && k / cols <= k) by (nonlinear_arith)
                requires
                    cols >= 1,
                    k >= 0,
            ;
            assert((k % cols) * tw <= n * tw && (k / cols) * th <= n * th) by (nonlinear_arith)
                requires
                    k % cols < cols,
                    cols <= n,
                    k / cols <= k,
                    k < n,
                    tw >= 0,
                    th >= 0,
            ;
        }
        let ox: u32 = (((k % cols) as u64) * (tw as u64)) as u32;
        let oy: u32 = (((k / cols) as u64) * (th as u64)) as u32;
        paste_tile(&mut sheet, &tiles[k], ox, oy);
        k += 1;
    }
    proof {
        assert(is_grid_cols(n as int, cols as int));
    }
    Some(sheet)
}

} // verus!
