//! The pixel text mask and how much of a box it covers.
use vstd::prelude::*;
use crate::geometry::{BBox, Ratio, SUBPIXELS};
use crate::fusion::{CoverageSource, MaskFill};

verus! {

/// A mask pixel at or above this counts as text.
pub const MASK_ON: u8 = 128;

/// A page-sized single-channel mask, row-major.
#[derive(Debug)]
pub struct TextMask {
    width: u32,
    height: u32,
    pixels: Vec<u8>,
}

/// Lit pixels of row `y` in columns `[x1, x)`.
pub open spec fn row_lit(p: Seq<u8>, width: int, y: int, x1: int, x: int) -> int
    decreases x - x1,
{
    if x <= x1 {
        0
    } else {
        row_lit(p, width, y, x1, x - 1) + if p[y * width + (x - 1)] >= MASK_ON {
            1int
        } else {
            0int
        }
    }
}

/// Lit pixels in columns `[x1, x2)` of rows `[y1, y)`.
pub open spec fn rect_lit(p: Seq<u8>, width: int, x1: int, x2: int, y1: int, y: int) -> int
    decreases y - y1,
{
    if y <= y1 {
        0
    } else {
        rect_lit(p, width, x1, x2, y1, y - 1) + row_lit(p, width, y - 1, x1, x2)
    }
}

/// A box coordinate as a pixel column or row clamped to `[0, limit]`: the
/// coordinate is clamped to the page, then truncated to a whole pixel.
pub open spec fn clamp_to_pixel(c: int, limit: int) -> int {
    if c <= 0 {
        0
    } else if c / (SUBPIXELS as int) >= limit {
        limit
    } else {
        c / (SUBPIXELS as int)
    }
}

impl TextMask {
    #[verifier::type_invariant]
    spec fn well_formed(self) -> bool {
        self.pixels@.len() == self.width as int * self.height as int
    }

    pub closed spec fn width_spec(self) -> int {
        self.width as int
    }

    pub closed spec fn height_spec(self) -> int {
        self.height as int
    }

    pub closed spec fn pixels_spec(self) -> Seq<u8> {
        self.pixels@
    }

    /// A mask from row-major pixels; `None` when their count is not
    /// `width * height`.
    pub fn from_raw(width: u32, height: u32, pixels: Vec<u8>) -> (r: Option<TextMask>)
        ensures
            (pixels@.len() == width as int * height as int) <==> r is Some,
            r matches Some(m) ==> m.width_spec() == width && m.height_spec() == height && m.pixels_spec()
                == pixels@,
    {
        assert((width as int) * (height as int) <= 0xffff_ffff * 0xffff_ffff) by (nonlinear_arith)
            requires
                width <= 0xffff_ffff,
                height <= 0xffff_ffff,
        ;
        if (pixels.len() as u64) == (width as u64) * (height as u64) {
            Some(TextMask { width, height, pixels })
        } else {
            None
        }
    }

    pub fn width(&self) -> (r: u32)
        ensures
            r == self.width_spec(),
    {
        self.width
    }

    pub fn height(&self) -> (r: u32)
        ensures
            r == self.height_spec(),
    {
        self.height
    }

    /// The pixel at column `x`, row `y`.
    pub fn pixel(&self, x: u32, y: u32) -> (r: u8)
        requires
            x < self.width_spec(),
            y < self.height_spec(),
        ensures
            r == self.pixels_spec()[y * self.width_spec() + x],
    {
        proof {
            use_type_invariant(self);
            assert(y * self.width + x < self.width * self.height) by (nonlinear_arith)
                requires y < self.height, x < self.width;
        }
        let n = self.pixels.len();
        assert((y as int) * (self.width as int) + (x as int) < n);
        self.pixels[(y as usize) * (self.width as usize) + (x as usize)]
    }

    /// Fraction of `b` the mask covers. The box is clamped to the mask, which
    /// is page-sized, so an off-page box scores on the part that exists; a box
    /// with nothing left is `0 / 1`.
    pub open spec fn coverage_of(self, b: BBox) -> Ratio {
        let x1 = clamp_to_pixel(b.x1 as int, self.width_spec());
        let y1 = clamp_to_pixel(b.y1 as int, self.height_spec());
        let x2 = clamp_to_pixel(b.x2 as int, self.width_spec());
        let y2 = clamp_to_pixel(b.y2 as int, self.height_spec());
        if x2 <= x1 || y2 <= y1 {
            Ratio { num: 0, den: 1 }
        } else {
            Ratio {
                num: rect_lit(self.pixels_spec(), self.width_spec(), x1, x2, y1, y2) as u128,
                den: ((x2 - x1) * (y2 - y1)) as u128,
            }
        }
    }
}

fn clamp_to_pixel_exec(c: i32, limit: u32) -> (r: u32)
    ensures
        r == clamp_to_pixel(c as int, limit as int),
        r <= limit,
{
    if c <= 0 {
        0
    } else if (c / SUBPIXELS) as u32 >= limit {
        limit
    } else {
        (c / SUBPIXELS) as u32
    }
}

proof fn lemma_row_lit_bound(p: Seq<u8>, width: int, y: int, x1: int, x: int)
    ensures
        0 <= row_lit(p, width, y, x1, x),
        x >= x1 ==> row_lit(p, width, y, x1, x) <= x - x1,
    decreases x - x1,
{
    if x > x1 {
        lemma_row_lit_bound(p, width, y, x1, x - 1);
    }
}

proof fn lemma_rect_lit_bound(p: Seq<u8>, width: int, x1: int, x2: int, y1: int, y: int)
    requires
        x1 <= x2,
    ensures
        0 <= rect_lit(p, width, x1, x2, y1, y),
        y >= y1 ==> rect_lit(p, width, x1, x2, y1, y) <= (y - y1) * (x2 - x1),
    decreases y - y1,
{
    if y > y1 {
        lemma_rect_lit_bound(p, width, x1, x2, y1, y - 1);
        lemma_row_lit_bound(p, width, y - 1, x1, x2);
        assert((y - 1 - y1) * (x2 - x1) + (x2 - x1) == (y - y1) * (x2 - x1)) by (nonlinear_arith);
    }
}

proof fn lemma_pixel_index(x: int, y: int, w: int, h: int)
    requires
        0 <= x < w,
        0 <= y < h,
    ensures
        0 <= y * w + x < w * h,
{
    assert(y * w + x < w * h) by (nonlinear_arith)
        requires
            0 <= x < w,
            0 <= y < h,
    ;
    assert(0 <= y * w) by (nonlinear_arith)
        requires
            0 <= y,
            0 <= w,
    ;
}

impl TextMask {
    /// Fraction of `bbox` the text mask covers.
    pub fn mask_coverage(&self, bbox: BBox) -> (r: Ratio)
        ensures
            r == self.coverage_of(bbox),
            r.den > 0,
            r.num <= r.den,
            r.den <= 0xffff_ffff_ffff_ffff,
    {
        proof {
            use_type_invariant(self);
        }
        let x1 = clamp_to_pixel_exec(bbox.x1, self.width);
        let y1 = clamp_to_pixel_exec(bbox.y1, self.height);
        let x2 = clamp_to_pixel_exec(bbox.x2, self.width);
        let y2 = clamp_to_pixel_exec(bbox.y2, self.height);
        if x2 <= x1 || y2 <= y1 {
            return Ratio { num: 0, den: 1 };
        }
        let total = self.pixels.len();
        let ghost p = self.pixels@;
        let ghost w = self.width as int;
        let mut on: u128 = 0;
        let mut y = y1;
        while y < y2
            invariant
                y1 <= y <= y2,
                x1 < x2 <= self.width,
                y2 <= self.height,
                p == self.pixels@,
                w == self.width,
                p.len() == w * self.height,
                total == p.len(),
                on == rect_lit(p, w, x1 as int, x2 as int, y1 as int, y as int),
            decreases y2 - y,
        {
            proof {
                lemma_rect_lit_bound(p, w, x1 as int, x2 as int, y1 as int, y as int);
                assert((y - y1) * (x2 - x1) <= 0x1_0000_0000 * 0x1_0000_0000) by (nonlinear_arith)
                    requires
                        0 <= y - y1 <= 0x1_0000_0000,
                        0 <= x2 - x1 <= 0x1_0000_0000,
                ;
            }
            let mut row: u64 = 0;
            let mut x = x1;
            while x < x2
                invariant
                    x1 <= x <= x2,
                    x2 <= self.width,
                    y < y2 <= self.height,
                    p == self.pixels@,
                    w == self.width,
                    p.len() == w * self.height,
                    total == p.len(),
                    row == row_lit(p, w, y as int, x1 as int, x as int),
                decreases x2 - x,
            {
                proof {
                    lemma_row_lit_bound(p, w, y as int, x1 as int, x as int);
                    lemma_pixel_index(x as int, y as int, w, self.height as int);
                    assert((y as int) * w <= (y as int) * w + x);
                }
                let index = (y as usize) * (self.width as usize) + (x as usize);
                if self.pixels[index] >= MASK_ON {
                    row += 1;
                }
                x += 1;
            }
            on = on + row as u128;
            y += 1;
        }
        proof {
            lemma_rect_lit_bound(p, w, x1 as int, x2 as int, y1 as int, y2 as int);
            assert((y2 - y1) * (x2 - x1) <= 0x1_0000_0000 * 0x1_0000_0000) by (nonlinear_arith)
                requires
                    0 <= y2 - y1 <= 0x1_0000_0000,
                    0 <= x2 - x1 <= 0x1_0000_0000,
            ;
            assert((x2 - x1) * (y2 - y1) == (y2 - y1) * (x2 - x1)) by (nonlinear_arith);
            assert((x2 - x1) * (y2 - y1) > 0) by (nonlinear_arith)
                requires
                    x2 > x1,
                    y2 > y1,
            ;
            assert((x2 - x1) * (y2 - y1) <= 0xffff_ffff * 0xffff_ffff) by (nonlinear_arith)
                requires
                    0 < x2 - x1 <= 0xffff_ffff,
                    0 < y2 - y1 <= 0xffff_ffff,
            ;
        }
        let area = ((x2 - x1) as u128) * ((y2 - y1) as u128);
        Ratio { num: on, den: area }
    }

    /// The lit pixels of `b`, clamped to the mask, over its pixel count:
    /// `coverage_of` as whole counts.
    pub open spec fn fill_of(self, b: BBox) -> MaskFill {
        MaskFill { lit: self.coverage_of(b).num as u64, area: self.coverage_of(b).den as u64 }
    }

    /// How much of `bbox` the mask lights, as lit and total pixel counts.
    pub fn mask_fill(&self, bbox: BBox) -> (r: MaskFill)
        ensures
            r == self.fill_of(bbox),
            r.lit as int == self.coverage_of(bbox).num,
            r.area as int == self.coverage_of(bbox).den,
    {
        let c = self.mask_coverage(bbox);
        MaskFill { lit: c.num as u64, area: c.den as u64 }
    }
}

impl CoverageSource for TextMask {
    open spec fn coverage_spec(&self, b: BBox) -> Ratio {
        self.coverage_of(b)
    }

    fn coverage(&self, b: BBox) -> (r: Ratio) {
        self.mask_coverage(b)
    }
}

} // verus!
