//! The comic text detector around its forward pass: the input size a page is
//! resized to, decoding of a YOLO prediction row into a page box, and the
//! text regions the kept boxes become, top to bottom.
use vstd::prelude::*;
use crate::blocks::TextRegion;
use crate::geometry::{BBox, SUBPIXELS};
use vstd::arithmetic::div_mod::lemma_div_is_ordered;

verus! {

/// A prediction is kept from this confidence on (ppm).
pub const CONFIDENCE_THRESHOLD: u32 = 400_000;

/// Overlap above which non-maximum suppression drops the weaker box (ppm).
/// Suppression runs on the float boxes of the inference step, outside this
/// library: `decode_prediction` keeps or drops one prediction on its own, and
/// `bboxes_to_text_blocks` takes the boxes that suppression kept.
pub const NMS_THRESHOLD: u32 = 350_000;

/// Boxes grow by this many pixels on every side.
pub const BBOX_DILATION: i32 = 1;

/// The detector's geometry: pages are scaled so their long side fits a
/// square input of `input_size` pixels.
#[derive(Clone, Copy, Debug)]
pub struct ComicTextDetector {
    pub input_size: u32,
}

/// The resized page: the long side becomes `size`, the short side keeps the
/// aspect ratio, rounded down.
pub open spec fn resized_dimensions_spec(w: int, h: int, size: int) -> (int, int) {
    if w >= h {
        (size, size * h / w)
    } else {
        (size * w / h, size)
    }
}

impl ComicTextDetector {
    /// Width and height a `width` by `height` page is resized to.
    pub fn resized_dimensions(&self, width: u32, height: u32) -> (r: (u32, u32))
        requires
            width > 0 || height > 0,
            self.input_size * (if width >= height { height } else { width }) <= u32::MAX,
        ensures
            (r.0 as int, r.1 as int) == resized_dimensions_spec(width as int, height as int, self.input_size as int),
    {
        if width >= height {
            (self.input_size, self.input_size * height / width)
        } else {
            (self.input_size * width / height, self.input_size)
        }
    }
}

/// `n / d`, rounded down.
fn floor_div(n: i64, d: i64) -> (r: i64)
    requires
        0 < d <= 0x1000_0000_0000_0000,
        -0x4000_0000_0000_0000 <= n,
    ensures
        r == n / d,
{
    if n >= 0 {
        n / d
    } else {
        let q = (-n + d - 1) / d;
        proof {
            assert(-q == n / d) by (nonlinear_arith)
                requires n < 0, d > 0, q == (-n + d - 1) / (d as int);
        }
        -q
    }
}

/// A centre coordinate and size (input sub-pixels) to a page edge
/// (sub-pixels): scaled by `original / resized`, pushed out by the dilation on
/// the side `sign` points to, clamped to `[0, original]` pixels.
pub open spec fn ctd_edge(twice: int, original: int, resized: int, sign: int) -> int {
    let scaled = (twice * original) / (2 * resized) + sign * BBOX_DILATION * SUBPIXELS;
    if scaled <= 0 {
        0
    } else if scaled >= original * SUBPIXELS {
        original * SUBPIXELS
    } else {
        scaled
    }
}

fn ctd_edge_exec(twice: i64, original: u32, resized: u32, sign: i64) -> (r: i32)
    requires
        -0x1_0000_0000 <= twice <= 0x1_0000_0000,
        original <= 0x7f_ffff,
        resized > 0,
        sign == 1 || sign == -1,
    ensures
        r == ctd_edge(twice as int, original as int, resized as int, sign as int),
{
    proof {
        assert(-0x1_0000_0000 * 0x7f_ffff <= twice * original <= 0x1_0000_0000 * 0x7f_ffff) by (nonlinear_arith)
            requires -0x1_0000_0000 <= twice <= 0x1_0000_0000, 0 <= original <= 0x7f_ffff;
    }
    let q = floor_div(twice * (original as i64), 2 * (resized as i64));
    proof {
        assert(-0x1_0000_0000 * 0x7f_ffff <= q <= 0x1_0000_0000 * 0x7f_ffff) by (nonlinear_arith)
            requires
                q == (twice * original) / (2 * resized),
                -0x1_0000_0000 * 0x7f_ffff <= twice * original <= 0x1_0000_0000 * 0x7f_ffff,
                resized > 0,
        ;
    }
    let scaled = q + sign * 256;
    let cap = (original as i64) * 256;
    if scaled <= 0 {
        0
    } else if scaled >= cap {
        cap as i32
    } else {
        scaled as i32
    }
}

/// One prediction row reduced to what decoding reads: box centre and size in
/// input sub-pixels, the best class and the confidence (objectness times the
/// class score, ppm).
#[derive(Clone, Copy, Debug, PartialEq, Eq, Structural)]
pub struct CtdPrediction {
    pub cx: i32,
    pub cy: i32,
    pub w: i32,
    pub h: i32,
    pub class_index: usize,
    pub confidence: u32,
}

/// Bound on prediction values (sub-pixels) that keeps the arithmetic in range.
pub const PRED_LIMIT: i32 = 0x4000_0000;

pub open spec fn ctd_prediction_in_range(p: CtdPrediction) -> bool {
    &&& -PRED_LIMIT <= p.cx <= PRED_LIMIT
    &&& -PRED_LIMIT <= p.cy <= PRED_LIMIT
    &&& -PRED_LIMIT <= p.w <= PRED_LIMIT
    &&& -PRED_LIMIT <= p.h <= PRED_LIMIT
}

/// The page box of a prediction, one pixel larger on every side.
pub open spec fn ctd_box_spec(p: CtdPrediction, original: (int, int), resized: (int, int)) -> BBox {
    BBox {
        x1: ctd_edge(2 * p.cx - p.w, original.0, resized.0, -1) as i32,
        y1: ctd_edge(2 * p.cy - p.h, original.1, resized.1, -1) as i32,
        x2: ctd_edge(2 * p.cx + p.w, original.0, resized.0, 1) as i32,
        y2: ctd_edge(2 * p.cy + p.h, original.1, resized.1, 1) as i32,
    }
}

/// A kept prediction's class, confidence and page box; `None` below the
/// confidence threshold.
pub fn decode_prediction(p: CtdPrediction, original: (u32, u32), resized: (u32, u32)) -> (r: Option<(usize, u32, BBox)>)
    requires
        ctd_prediction_in_range(p),
        original.0 <= 0x7f_ffff,
        original.1 <= 0x7f_ffff,
        resized.0 > 0,
        resized.1 > 0,
    ensures
        p.confidence < CONFIDENCE_THRESHOLD ==> r is None,
        p.confidence >= CONFIDENCE_THRESHOLD ==> r == Some((
            p.class_index,
            p.confidence,
            ctd_box_spec(p, (original.0 as int, original.1 as int), (resized.0 as int, resized.1 as int)),
        )),
{
    if p.confidence < CONFIDENCE_THRESHOLD {
        return None;
    }
    let cx = p.cx as i64;
    let cy = p.cy as i64;
    let w = p.w as i64;
    let h = p.h as i64;
    let bbox = BBox {
        x1: ctd_edge_exec(2 * cx - w, original.0, resized.0, -1),
        y1: ctd_edge_exec(2 * cy - h, original.1, resized.1, -1),
        x2: ctd_edge_exec(2 * cx + w, original.0, resized.0, 1),
        y2: ctd_edge_exec(2 * cy + h, original.1, resized.1, 1),
    };
    Some((p.class_index, p.confidence, bbox))
}

/// Twice the vertical centre of a box.
pub open spec fn twice_center_y(b: BBox) -> int {
    b.y1 + b.y2
}

/// `sorted` with `x` inserted after every box whose centre is not below it.
pub open spec fn insert_by_center(sorted: Seq<(BBox, u32)>, x: (BBox, u32)) -> Seq<(BBox, u32)>
    decreases sorted.len(),
{
    if sorted.len() == 0 {
        seq![x]
    } else if twice_center_y(sorted.last().0) <= twice_center_y(x.0) {
        sorted.push(x)
    } else {
        insert_by_center(sorted.drop_last(), x).push(sorted.last())
    }
}

/// Boxes ordered top to bottom by their vertical centre, equal centres kept
/// in their order.
pub open spec fn sort_by_center(s: Seq<(BBox, u32)>) -> Seq<(BBox, u32)>
    decreases s.len(),
{
    if s.len() == 0 {
        seq![]
    } else {
        insert_by_center(sort_by_center(s.drop_last()), s.last())
    }
}

proof fn lemma_insert_center_at(sorted: Seq<(BBox, u32)>, x: (BBox, u32), j: int)
    requires
        0 <= j <= sorted.len(),
        forall|k: int| j <= k < sorted.len() ==> twice_center_y((#[trigger] sorted[k]).0) > twice_center_y(x.0),
        j > 0 ==> twice_center_y(sorted[j - 1].0) <= twice_center_y(x.0),
    ensures
        insert_by_center(sorted, x) == sorted.insert(j, x),
    decreases sorted.len(),
{
    if sorted.len() == 0 {
        assert(sorted.insert(j, x) =~= seq![x]);
    } else if j == sorted.len() {
        assert(sorted.insert(j, x) =~= sorted.push(x));
    } else {
        let init = sorted.drop_last();
        assert forall|k: int| j <= k < init.len() implies twice_center_y((#[trigger] init[k]).0) > twice_center_y(x.0) by {
            assert(init[k] == sorted[k]);
        }
        lemma_insert_center_at(init, x, j);
        assert(init.insert(j, x).push(sorted.last()) =~= sorted.insert(j, x));
    }
}

/// The text region of a box and its confidence.
pub open spec fn ctd_region_of(b: (BBox, u32), t: TextRegion) -> bool {
    &&& t.x == b.0.x1
    &&& t.y == b.0.y1
    &&& t.width == b.0.x2 - b.0.x1
    &&& t.height == b.0.y2 - b.0.y1
    &&& t.confidence == b.1
    &&& t.detector is None
}

/// Kept boxes, with their confidences, as text regions ordered top to bottom.
pub fn bboxes_to_text_blocks(bboxes: Vec<(BBox, u32)>) -> (r: Vec<TextRegion>)
    ensures
        r@.len() == bboxes@.len(),
        forall|i: int| 0 <= i < r@.len() ==> ctd_region_of(sort_by_center(bboxes@)[i], #[trigger] r@[i]),
{
    let mut sorted: Vec<(BBox, u32)> = Vec::new();
    let mut i: usize = 0;
    while i < bboxes.len()
        invariant
            i <= bboxes@.len(),
            sorted@ == sort_by_center(bboxes@.take(i as int)),
        decreases bboxes.len() - i,
    {
        let x = bboxes[i];
        let key = x.0.y1 as i64 + x.0.y2 as i64;
        let mut j = sorted.len();
        while j > 0 && sorted[j - 1].0.y1 as i64 + sorted[j - 1].0.y2 as i64 > key
            invariant
                j <= sorted@.len(),
                key == twice_center_y(x.0),
                forall|k: int| j <= k < sorted@.len() ==> twice_center_y((#[trigger] sorted@[k]).0) > twice_center_y(x.0),
            decreases j,
        {
            j -= 1;
        }
        proof {
            lemma_insert_center_at(sorted@, x, j as int);
            assert(bboxes@.take(i + 1).drop_last() =~= bboxes@.take(i as int));
            assert(bboxes@.take(i + 1).last() == x);
        }
        sorted.insert(j, x);
        i += 1;
    }
    proof {
        assert(bboxes@.take(bboxes@.len() as int) =~= bboxes@);
        lemma_sort_center_len(bboxes@);
    }
    let mut out: Vec<TextRegion> = Vec::new();
    let mut k: usize = 0;
    while k < sorted.len()
        invariant
            k <= sorted@.len(),
            out@.len() == k,
            forall|m: int| 0 <= m < k ==> ctd_region_of(sorted@[m], #[trigger] out@[m]),
        decreases sorted.len() - k,
    {
        let (b, confidence) = sorted[k];
        out.push(TextRegion {
            x: b.x1,
            y: b.y1,
            width: b.x2 as i64 - b.x1 as i64,
            height: b.y2 as i64 - b.y1 as i64,
            confidence,
            detector: None,
        });
        k += 1;
    }
    out
}

proof fn lemma_insert_center_len(sorted: Seq<(BBox, u32)>, x: (BBox, u32))
    ensures
        insert_by_center(sorted, x).len() == sorted.len() + 1,
    decreases sorted.len(),
{
    if sorted.len() > 0 {
        lemma_insert_center_len(sorted.drop_last(), x);
    }
}

proof fn lemma_sort_center_len(s: Seq<(BBox, u32)>)
    ensures
        sort_by_center(s).len() == s.len(),
    decreases s.len(),
{
    if s.len() > 0 {
        lemma_sort_center_len(s.drop_last());
        lemma_insert_center_len(sort_by_center(s.drop_last()), s.last());
    }
}

proof fn lemma_insert_center_keeps_order(sorted: Seq<(BBox, u32)>, x: (BBox, u32))
    requires
        forall|i: int, j: int| 0 <= i < j < sorted.len() ==> twice_center_y((#[trigger] sorted[i]).0) <= twice_center_y((#[trigger] sorted[j]).0),
    ensures
        forall|i: int, j: int|
            0 <= i < j < insert_by_center(sorted, x).len() ==> twice_center_y((#[trigger] insert_by_center(sorted, x)[i]).0)
                <= twice_center_y((#[trigger] insert_by_center(sorted, x)[j]).0),
        insert_by_center(sorted, x).to_multiset() == sorted.to_multiset().insert(x),
    decreases sorted.len(),
{
    broadcast use vstd::seq_lib::group_to_multiset_ensures;
    broadcast use vstd::multiset::group_multiset_axioms;

    if sorted.len() == 0 {
        assert(seq![x] =~= sorted.push(x));
    } else if twice_center_y(sorted.last().0) <= twice_center_y(x.0) {
        let r = sorted.push(x);
        assert forall|i: int, j: int| 0 <= i < j < r.len() implies twice_center_y((#[trigger] r[i]).0) <= twice_center_y((#[trigger] r[j]).0) by {
            if j == r.len() - 1 && i < sorted.len() - 1 {
                assert(twice_center_y(sorted[i].0) <= twice_center_y(sorted[sorted.len() - 1].0));
            }
        }
    } else {
        let init = sorted.drop_last();
        let last = sorted.last();
        assert forall|i: int, j: int| 0 <= i < j < init.len() implies twice_center_y((#[trigger] init[i]).0) <= twice_center_y((#[trigger] init[j]).0) by {
            assert(init[i] == sorted[i] && init[j] == sorted[j]);
        }
        lemma_insert_center_keeps_order(init, x);
        let m = insert_by_center(init, x);
        assert forall|k: int| 0 <= k < m.len() implies twice_center_y((#[trigger] m[k]).0) <= twice_center_y(last.0) by {
            let e = m[k];
            assert(m.contains(e));
            assert(m.to_multiset().count(e) > 0);
            if e != x {
                assert(init.to_multiset().count(e) > 0);
                assert(init.contains(e));
                let j = choose|j: int| 0 <= j < init.len() && init[j] == e;
                assert(sorted[j] == e);
                assert(twice_center_y(sorted[j].0) <= twice_center_y(sorted[sorted.len() - 1].0));
            }
        }
        let r = m.push(last);
        assert forall|i: int, j: int| 0 <= i < j < r.len() implies twice_center_y((#[trigger] r[i]).0) <= twice_center_y((#[trigger] r[j]).0) by {
            if j == r.len() - 1 {
                assert(r[i] == m[i]);
            } else {
                assert(r[i] == m[i] && r[j] == m[j]);
            }
        }
        assert(sorted =~= init.push(last));
        assert(r.to_multiset() =~= sorted.to_multiset().insert(x));
    }
}

/// Text blocks come back top to bottom by vertical centre, and sorting
/// neither drops nor invents one.
pub proof fn law_blocks_read_top_to_bottom(s: Seq<(BBox, u32)>)
    ensures
        forall|i: int, j: int|
            0 <= i < j < sort_by_center(s).len() ==> twice_center_y((#[trigger] sort_by_center(s)[i]).0)
                <= twice_center_y((#[trigger] sort_by_center(s)[j]).0),
        sort_by_center(s).to_multiset() == s.to_multiset(),
    decreases s.len(),
{
    broadcast use vstd::seq_lib::group_to_multiset_ensures;

    if s.len() == 0 {
        assert(sort_by_center(s).to_multiset() =~= s.to_multiset());
    } else {
        law_blocks_read_top_to_bottom(s.drop_last());
        lemma_insert_center_keeps_order(sort_by_center(s.drop_last()), s.last());
        assert(s =~= s.drop_last().push(s.last()));
    }
}

/// A page edge never moves against its input: a larger `twice`, or a
/// dilation pushing further out, never gives a smaller edge; and the edge
/// stays on the page.
proof fn lemma_ctd_edge_monotone(a: int, b: int, original: int, resized: int, sa: int, sb: int)
    requires
        a <= b,
        sa <= sb,
        0 <= original <= 0x7f_ffff,
        resized > 0,
    ensures
        ctd_edge(a, original, resized, sa) <= ctd_edge(b, original, resized, sb),
        0 <= ctd_edge(a, original, resized, sa) <= original * SUBPIXELS,
        0 <= ctd_edge(b, original, resized, sb) <= original * SUBPIXELS,
{
    assert(a * original <= b * original) by (nonlinear_arith)
        requires a <= b, original >= 0;
    lemma_div_is_ordered(a * original, b * original, 2 * resized);
}

/// How a decoded comic-text-detector box follows its prediction:
/// - its top and bottom edges depend only on the prediction's vertical centre
///   and height and the vertical page and input sizes, and its left and right
///   edges only on the horizontal ones, so moving a prediction sideways never
///   moves its top or bottom and moving it up or down never moves its sides;
/// - moving the centre down (right) never moves an edge up (left);
/// - a box of non-negative size never comes out inverted, and where neither
///   of its edges on an axis was clamped to the page it spans at least two
///   pixels on that axis: it is pushed out by one pixel on every side.
pub proof fn law_ctd_box_follows_its_axes(
    p: CtdPrediction,
    q: CtdPrediction,
    original: (int, int),
    resized: (int, int),
    original2: (int, int),
    resized2: (int, int),
)
    requires
        0 <= original.0 <= 0x7f_ffff,
        0 <= original.1 <= 0x7f_ffff,
        resized.0 > 0,
        resized.1 > 0,
    ensures
        p.cy == q.cy && p.h == q.h && original.1 == original2.1 && resized.1 == resized2.1 ==> {
            &&& ctd_box_spec(p, original, resized).y1 == ctd_box_spec(q, original2, resized2).y1
            &&& ctd_box_spec(p, original, resized).y2 == ctd_box_spec(q, original2, resized2).y2
        },
        p.cx == q.cx && p.w == q.w && original.0 == original2.0 && resized.0 == resized2.0 ==> {
            &&& ctd_box_spec(p, original, resized).x1 == ctd_box_spec(q, original2, resized2).x1
            &&& ctd_box_spec(p, original, resized).x2 == ctd_box_spec(q, original2, resized2).x2
        },
        p.cy <= q.cy && p.h == q.h ==> {
            &&& ctd_box_spec(p, original, resized).y1 <= ctd_box_spec(q, original, resized).y1
            &&& ctd_box_spec(p, original, resized).y2 <= ctd_box_spec(q, original, resized).y2
        },
        p.cx <= q.cx && p.w == q.w ==> {
            &&& ctd_box_spec(p, original, resized).x1 <= ctd_box_spec(q, original, resized).x1
            &&& ctd_box_spec(p, original, resized).x2 <= ctd_box_spec(q, original, resized).x2
        },
        p.h >= 0 ==> ctd_box_spec(p, original, resized).y1 <= ctd_box_spec(p, original, resized).y2,
        p.w >= 0 ==> ctd_box_spec(p, original, resized).x1 <= ctd_box_spec(p, original, resized).x2,
        p.h >= 0 && 0 < ctd_box_spec(p, original, resized).y1 && ctd_box_spec(p, original, resized).y2 < original.1 * SUBPIXELS
            ==> ctd_box_spec(p, original, resized).y2 - ctd_box_spec(p, original, resized).y1 >= 2 * SUBPIXELS,
        p.w >= 0 && 0 < ctd_box_spec(p, original, resized).x1 && ctd_box_spec(p, original, resized).x2 < original.0 * SUBPIXELS
            ==> ctd_box_spec(p, original, resized).x2 - ctd_box_spec(p, original, resized).x1 >= 2 * SUBPIXELS,
{
    let (ox, oy) = original;
    let (rx, ry) = resized;
    lemma_ctd_edge_monotone(2 * p.cy - p.h, 2 * p.cy - p.h, oy, ry, -1, -1);
    lemma_ctd_edge_monotone(2 * p.cy + p.h, 2 * p.cy + p.h, oy, ry, 1, 1);
    lemma_ctd_edge_monotone(2 * p.cx - p.w, 2 * p.cx - p.w, ox, rx, -1, -1);
    lemma_ctd_edge_monotone(2 * p.cx + p.w, 2 * p.cx + p.w, ox, rx, 1, 1);
    lemma_ctd_edge_monotone(2 * q.cy - q.h, 2 * q.cy - q.h, oy, ry, -1, -1);
    lemma_ctd_edge_monotone(2 * q.cy + q.h, 2 * q.cy + q.h, oy, ry, 1, 1);
    lemma_ctd_edge_monotone(2 * q.cx - q.w, 2 * q.cx - q.w, ox, rx, -1, -1);
    lemma_ctd_edge_monotone(2 * q.cx + q.w, 2 * q.cx + q.w, ox, rx, 1, 1);
    if p.cy <= q.cy && p.h == q.h {
        lemma_ctd_edge_monotone(2 * p.cy - p.h, 2 * q.cy - q.h, oy, ry, -1, -1);
        lemma_ctd_edge_monotone(2 * p.cy + p.h, 2 * q.cy + q.h, oy, ry, 1, 1);
    }
    if p.cx <= q.cx && p.w == q.w {
        lemma_ctd_edge_monotone(2 * p.cx - p.w, 2 * q.cx - q.w, ox, rx, -1, -1);
        lemma_ctd_edge_monotone(2 * p.cx + p.w, 2 * q.cx + q.w, ox, rx, 1, 1);
    }
    if p.h >= 0 {
        lemma_ctd_edge_monotone(2 * p.cy - p.h, 2 * p.cy + p.h, oy, ry, -1, 1);
        lemma_ctd_edge_monotone(2 * p.cy - p.h, 2 * p.cy + p.h, oy, ry, 0, 0);
    }
    if p.w >= 0 {
        lemma_ctd_edge_monotone(2 * p.cx - p.w, 2 * p.cx + p.w, ox, rx, -1, 1);
        lemma_ctd_edge_monotone(2 * p.cx - p.w, 2 * p.cx + p.w, ox, rx, 0, 0);
    }
}

} // verus!
