//! From a model's low-resolution mask probabilities to a page-sized binary
//! mask: resampling (the `image` crate's triangle filter), cropping off the
//! letterbox padding, and thresholding inside an instance's box.
use vstd::prelude::*;
use vstd::arithmetic::div_mod::lemma_fundamental_div_mod_converse;
use crate::geometry::{BBox, SUBPIXELS};
use crate::mask::{MASK_ON, TextMask};
use crate::yolo26s::Letterbox;

verus! {

/// Planes of this many pixels fit in memory's index range on any target.
pub open spec fn plane_fits(width: u32, height: u32) -> bool {
    width as int * height as int <= 0xffff_ffff
}

/// The resampler's intermediate plane (source width by new height, four
/// floats a pixel) fits in memory's index range on any target.
pub open spec fn resample_fits(width: u32, new_height: u32) -> bool {
    width as int * new_height as int * 4 <= 0xffff_ffff
}

/// What `image::imageops::resize` with the triangle filter makes of a
/// row-major grey plane resampled to a new size.
pub uninterp spec fn triangle_resize(pixels: Seq<u8>, width: u32, height: u32, new_width: u32, new_height: u32) -> Seq<u8>;

/// `image::imageops::resize(.., FilterType::Triangle)` on a grey plane,
/// returned row-major. The contract names the resampled pixels and states
/// the two short cases that `resize` settles before resampling: an empty
/// source gives a zeroed plane of the new size, and a resize to the same size
/// is a copy. Otherwise it states only that the plane has the new size; the
/// filtered values are left unsaid.
#[verifier::external_body]
fn resize_plane(pixels: &Vec<u8>, width: u32, height: u32, new_width: u32, new_height: u32) -> (r: Vec<u8>)
    requires
        pixels@.len() == width as int * height as int,
        plane_fits(new_width, new_height),
        resample_fits(width, new_height),
    ensures
        r@ == triangle_resize(pixels@, width, height, new_width, new_height),
        r@.len() == new_width as int * new_height as int,
        width == 0 || height == 0 ==> forall|k: int| 0 <= k < r@.len() ==> #[trigger] r@[k] == 0,
        width > 0 && height > 0 && new_width == width && new_height == height ==> r@ == pixels@,
{
    match image::GrayImage::from_raw(width, height, pixels.clone()) {
        Some(plane) => image::imageops::resize(&plane, new_width, new_height, image::imageops::FilterType::Triangle).into_raw(),
        None => Vec::new(),
    }
}

pub open spec fn min_int(a: int, b: int) -> int {
    if a <= b {
        a
    } else {
        b
    }
}

/// The window `crop_imm` takes: origin clamped into the plane, size clamped
/// to what remains.
pub open spec fn crop_window(width: int, height: int, x: int, y: int, w: int, h: int) -> (int, int, int, int) {
    let x0 = min_int(x, width);
    let y0 = min_int(y, height);
    (x0, y0, min_int(w, width - x0), min_int(h, height - y0))
}

/// The pixels of that window, row-major.
pub open spec fn crop_spec(p: Seq<u8>, width: int, height: int, x: int, y: int, w: int, h: int) -> Seq<u8> {
    let (x0, y0, cw, ch) = crop_window(width, height, x, y, w, h);
    Seq::new((cw * ch) as nat, |k: int| p[(y0 + k / cw) * width + x0 + k % cw])
}

proof fn lemma_row_major(k: int, w: int, x: int, y: int)
    requires
        w > 0,
        0 <= x < w,
        k == y * w + x,
    ensures
        k / w == y,
        k % w == x,
{
    lemma_fundamental_div_mod_converse(k, w, y, x);
}

/// The window at `(x, y)`, `w` by `h`, of a `width` by `height` plane,
/// clamped to the plane, with its width and height.
fn crop(p: &Vec<u8>, width: u32, height: u32, x: u32, y: u32, w: u32, h: u32) -> (r: (Vec<u8>, u32, u32))
    requires
        p@.len() == width as int * height as int,
    ensures
        r.0@ == crop_spec(p@, width as int, height as int, x as int, y as int, w as int, h as int),
        r.1 == crop_window(width as int, height as int, x as int, y as int, w as int, h as int).2,
        r.2 == crop_window(width as int, height as int, x as int, y as int, w as int, h as int).3,
{
    let x0 = if x <= width { x } else { width };
    let y0 = if y <= height { y } else { height };
    let cw = if w <= width - x0 { w } else { width - x0 };
    let ch = if h <= height - y0 { h } else { height - y0 };
    let ghost target = crop_spec(p@, width as int, height as int, x as int, y as int, w as int, h as int);
    let mut out: Vec<u8> = Vec::new();
    if cw == 0 || ch == 0 {
        proof {
            assert(cw * ch == 0) by (nonlinear_arith)
                requires cw == 0 || ch == 0;
            assert(out@ =~= target);
        }
        return (out, cw, ch);
    }
    let n = p.len();
    let mut row: u32 = 0;
    while row < ch
        invariant
            n == p@.len(),
            p@.len() == width as int * height as int,
            x0 + cw <= width,
            y0 + ch <= height,
            cw > 0,
            row <= ch,
            target == crop_spec(p@, width as int, height as int, x as int, y as int, w as int, h as int),
            crop_window(width as int, height as int, x as int, y as int, w as int, h as int) == (x0 as int, y0 as int, cw as int, ch as int),
            out@.len() == row * cw,
            forall|k: int| 0 <= k < out@.len() ==> out@[k] == target[k],
        decreases ch - row,
    {
        let mut col: u32 = 0;
        while col < cw
            invariant
                n == p@.len(),
                p@.len() == width as int * height as int,
                x0 + cw <= width,
                y0 + ch <= height,
                cw > 0,
                row < ch,
                col <= cw,
                target == crop_spec(p@, width as int, height as int, x as int, y as int, w as int, h as int),
                crop_window(width as int, height as int, x as int, y as int, w as int, h as int) == (x0 as int, y0 as int, cw as int, ch as int),
                out@.len() == row * cw + col,
                forall|k: int| 0 <= k < out@.len() ==> out@[k] == target[k],
            decreases cw - col,
        {
            proof {
                assert((y0 + row) * width + x0 + col < width * height) by (nonlinear_arith)
                    requires y0 + row < height, x0 + col < width, width > 0;
                assert(width * height == height * width) by (nonlinear_arith);
                lemma_row_major(row * cw + col, cw as int, col as int, row as int);
                assert(row * cw + col < cw * ch) by (nonlinear_arith)
                    requires row < ch, col < cw;
            }
            let index = ((y0 + row) as usize) * (width as usize) + (x0 + col) as usize;
            let ghost before = out@;
            out.push(p[index]);
            proof {
                assert(out@[before.len() as int] == target[before.len() as int]);
                assert forall|k: int| 0 <= k < out@.len() implies out@[k] == target[k] by {
                    if k < before.len() {
                        assert(out@[k] == before[k]);
                    }
                }
            }
            col += 1;
        }
        proof {
            assert((row + 1) * cw == row * cw + cw) by (nonlinear_arith);
        }
        row += 1;
    }
    proof {
        assert(ch * cw == cw * ch) by (nonlinear_arith);
        assert(out@ =~= target);
    }
    (out, cw, ch)
}

/// Column `x` lies in `[floor(x1), ceil(x2))` pixels, and likewise the row.
pub open spec fn in_box_pixel(b: BBox, x: int, y: int) -> bool {
    &&& (b.x1 as int) / (SUBPIXELS as int) <= x
    &&& x < (b.x2 + SUBPIXELS - 1) / (SUBPIXELS as int)
    &&& (b.y1 as int) / (SUBPIXELS as int) <= y
    &&& y < (b.y2 + SUBPIXELS - 1) / (SUBPIXELS as int)
}

/// Lit (255) where the plane reaches `MASK_ON` inside the box, 0 elsewhere.
pub open spec fn threshold_in_box(p: Seq<u8>, width: int, b: BBox) -> Seq<u8> {
    Seq::new(p.len(), |k: int| if in_box_pixel(b, k % width, k / width) && p[k] >= MASK_ON { 255u8 } else { 0u8 })
}

/// `n / 256`, rounded down.
fn floor_pixel(n: i64) -> (r: i64)
    requires
        -0x1_0000_0000 <= n <= 0x1_0000_0000,
    ensures
        r == (n as int) / (SUBPIXELS as int),
{
    if n >= 0 {
        n / 256
    } else {
        let q = (-n + 255) / 256;
        proof {
            assert(-q == n / 256) by (nonlinear_arith)
                requires n < 0, q == (-n + 255) / 256;
        }
        -q
    }
}

fn threshold_plane(p: &Vec<u8>, width: u32, height: u32, b: BBox) -> (r: Vec<u8>)
    requires
        p@.len() == width as int * height as int,
    ensures
        r@ == threshold_in_box(p@, width as int, b),
{
    let left = floor_pixel(b.x1 as i64);
    let right = floor_pixel(b.x2 as i64 + 255);
    let top = floor_pixel(b.y1 as i64);
    let bottom = floor_pixel(b.y2 as i64 + 255);
    let ghost target = threshold_in_box(p@, width as int, b);
    let mut out: Vec<u8> = Vec::new();
    if width == 0 {
        proof {
            assert(p@.len() == 0);
            assert(out@ =~= target);
        }
        return out;
    }
    let n = p.len();
    let mut y: u32 = 0;
    while y < height
        invariant
            n == p@.len(),
            p@.len() == width as int * height as int,
            width > 0,
            y <= height,
            target == threshold_in_box(p@, width as int, b),
            left == (b.x1 as int) / (SUBPIXELS as int),
            right == (b.x2 + SUBPIXELS - 1) / (SUBPIXELS as int),
            top == (b.y1 as int) / (SUBPIXELS as int),
            bottom == (b.y2 + SUBPIXELS - 1) / (SUBPIXELS as int),
            out@.len() == y * width,
            forall|k: int| 0 <= k < out@.len() ==> out@[k] == target[k],
        decreases height - y,
    {
        let mut x: u32 = 0;
        while x < width
            invariant
                n == p@.len(),
                p@.len() == width as int * height as int,
                width > 0,
                y < height,
                x <= width,
                target == threshold_in_box(p@, width as int, b),
                left == (b.x1 as int) / (SUBPIXELS as int),
                right == (b.x2 + SUBPIXELS - 1) / (SUBPIXELS as int),
                top == (b.y1 as int) / (SUBPIXELS as int),
                bottom == (b.y2 + SUBPIXELS - 1) / (SUBPIXELS as int),
                out@.len() == y * width + x,
                forall|k: int| 0 <= k < out@.len() ==> out@[k] == target[k],
            decreases width - x,
        {
            proof {
                lemma_row_major(y * width + x, width as int, x as int, y as int);
                assert(y * width + x < width * height) by (nonlinear_arith)
                    requires y < height, x < width;
                assert(width * height == height * width) by (nonlinear_arith);
            }
            let index = (y as usize) * (width as usize) + (x as usize);
            let inside = left <= x as i64 && (x as i64) < right && top <= y as i64 && (y as i64) < bottom;
            let value: u8 = if inside && p[index] >= MASK_ON { 255 } else { 0 };
            let ghost before = out@;
            out.push(value);
            proof {
                assert(out@[before.len() as int] == target[before.len() as int]);
                assert forall|k: int| 0 <= k < out@.len() implies out@[k] == target[k] by {
                    if k < before.len() {
                        assert(out@[k] == before[k]);
                    }
                }
            }
            x += 1;
        }
        proof {
            assert((y + 1) * width == y * width + width) by (nonlinear_arith);
        }
        y += 1;
    }
    proof {
        assert(height * width == width * height) by (nonlinear_arith);
        assert(out@ =~= target);
    }
    out
}

/// The page mask of one instance: its probabilities (0..255, on the
/// `proto_width` by `proto_height` grid) resampled to the padded input, the
/// padding cropped off, the rest resampled to the page, then lit where at
/// least half inside the instance's box.
pub open spec fn mask_to_page_spec(probabilities: Seq<u8>, proto_width: u32, proto_height: u32, l: Letterbox, b: BBox) -> Seq<u8> {
    let up = triangle_resize(probabilities, proto_width, proto_height, l.input_width, l.input_height);
    let (x0, y0, cw, ch) = crop_window(l.input_width as int, l.input_height as int, l.pad_x as int, l.pad_y as int, l.resized_width as int, l.resized_height as int);
    let content = crop_spec(up, l.input_width as int, l.input_height as int, l.pad_x as int, l.pad_y as int, l.resized_width as int, l.resized_height as int);
    let page = triangle_resize(content, cw as u32, ch as u32, l.original_width, l.original_height);
    threshold_in_box(page, l.original_width as int, b)
}


/// One instance's probabilities to a page-sized binary mask. Upsampling
/// happens on the full padded input before the padding is cropped, because
/// the prototypes are quarter-resolution and cropping there would shift the
/// mask; the box is the crop, since the basis carries other instances' mass.
pub fn mask_to_page(probabilities: &Vec<u8>, proto_width: u32, proto_height: u32, letterbox: &Letterbox, bbox: BBox) -> (m: TextMask)
    requires
        probabilities@.len() == proto_width as int * proto_height as int,
        plane_fits(letterbox.input_width, letterbox.input_height),
        plane_fits(letterbox.original_width, letterbox.original_height),
        resample_fits(proto_width, letterbox.input_height),
        resample_fits(letterbox.input_width, letterbox.original_height),
    ensures
        m.width_spec() == letterbox.original_width,
        m.height_spec() == letterbox.original_height,
        m.pixels_spec() == mask_to_page_spec(probabilities@, proto_width, proto_height, *letterbox, bbox),
{
    let up = resize_plane(probabilities, proto_width, proto_height, letterbox.input_width, letterbox.input_height);
    let (content, cw, ch) = crop(&up, letterbox.input_width, letterbox.input_height, letterbox.pad_x, letterbox.pad_y, letterbox.resized_width, letterbox.resized_height);
    proof {
        assert(cw as int * letterbox.original_height as int * 4 <= letterbox.input_width as int * letterbox.original_height as int * 4) by (nonlinear_arith)
            requires cw <= letterbox.input_width;
    }
    let page = resize_plane(&content, cw, ch, letterbox.original_width, letterbox.original_height);
    let lit = threshold_plane(&page, letterbox.original_width, letterbox.original_height, bbox);
    TextMask::from_raw(letterbox.original_width, letterbox.original_height, lit).unwrap()
}

/// Why a query's mask could not be located in the mask output.
#[derive(Clone, Copy, Debug, PartialEq, Eq, Structural)]
pub enum MaskShapeError {
    /// The mask output is not four-dimensional.
    Rank,
    /// The output holds fewer values than its shape declares for this query.
    Short,
}

/// Where query `query`'s logits sit in a `[batch, queries, height, width]`
/// mask output of `data_len` values: offset, length, width, height.
pub fn mask_window(dims: &[usize], data_len: usize, query: usize) -> (r: Result<(usize, usize, usize, usize), MaskShapeError>)
    requires
        dims@.len() == 4 ==> dims@[2] * dims@[3] * (query + 1) <= usize::MAX,
    ensures
        dims@.len() != 4 ==> r == Err::<(usize, usize, usize, usize), MaskShapeError>(MaskShapeError::Rank),
        dims@.len() == 4 ==> ({
            let stride = dims@[2] * dims@[3];
            if query * stride + stride <= data_len {
                r == Ok::<(usize, usize, usize, usize), MaskShapeError>(((query * stride) as usize, stride as usize, dims@[3], dims@[2]))
            } else {
                r == Err::<(usize, usize, usize, usize), MaskShapeError>(MaskShapeError::Short)
            }
        }),
{
    if dims.len() != 4 {
        return Err(MaskShapeError::Rank);
    }
    let height = dims[2];
    let width = dims[3];
    proof {
        assert(height * width <= height * width * (query + 1)) by (nonlinear_arith)
            requires height * width >= 0, query >= 0;
        assert(query * (height * width) + height * width == height * width * (query + 1)) by (nonlinear_arith);
    }
    let stride = height * width;
    let offset = query * stride;
    if offset + stride <= data_len {
        Ok((offset, stride, width, height))
    } else {
        Err(MaskShapeError::Short)
    }
}

/// Lit (255) where a plane reaches `MASK_ON`, 0 elsewhere.
pub open spec fn binarize_spec(p: Seq<u8>) -> Seq<u8> {
    p.map_values(|v: u8| if v >= MASK_ON { 255u8 } else { 0u8 })
}

/// A layout query's mask probabilities (0..255, `mask_width` by
/// `mask_height`) resampled to the page and binarised at one half.
pub fn decode_layout_mask(small: &Vec<u8>, mask_width: u32, mask_height: u32, page_width: u32, page_height: u32) -> (m: TextMask)
    requires
        small@.len() == mask_width as int * mask_height as int,
        plane_fits(page_width, page_height),
        resample_fits(mask_width, page_height),
    ensures
        m.width_spec() == page_width,
        m.height_spec() == page_height,
        m.pixels_spec() == binarize_spec(triangle_resize(small@, mask_width, mask_height, page_width, page_height)),
{
    let page = resize_plane(small, mask_width, mask_height, page_width, page_height);
    let mut out: Vec<u8> = Vec::new();
    let mut i: usize = 0;
    while i < page.len()
        invariant
            i <= page@.len(),
            out@ == binarize_spec(page@.take(i as int)),
        decreases page.len() - i,
    {
        let value: u8 = if page[i] >= MASK_ON { 255 } else { 0 };
        out.push(value);
        proof {
            assert(binarize_spec(page@.take(i + 1)) =~= binarize_spec(page@.take(i as int)).push(value));
        }
        i += 1;
    }
    proof {
        assert(page@.take(page@.len() as int) =~= page@);
    }
    TextMask::from_raw(page_width, page_height, out).unwrap()
}

} // verus!
