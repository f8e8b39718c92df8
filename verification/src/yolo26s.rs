//! The YOLO26-seg layout detector's classes and post-processing: letterbox
//! geometry, box un-mapping and the removal of instances the head emits twice.
use vstd::prelude::*;
use crate::geometry::{BBox, SUBPIXELS, ratio_reaches, intersection_spec, intersection};
use crate::mask::TextMask;

verus! {

/// Long edge of the letterboxed input, as exported.
pub const INPUT_SIZE: u32 = 1280;
/// Input sides are padded up to a multiple of this.
pub const STRIDE: u32 = 32;
/// The export's recommended confidence, in parts per million.
pub const DEFAULT_CONFIDENCE_THRESHOLD: u32 = 250_000;
/// Same-class boxes at or above this IoU (parts per million) are one instance
/// emitted twice.
pub const DEDUP_IOU: u32 = 700_000;

/// The four classes, in the export's own id order.
#[derive(Clone, Copy, Debug, PartialEq, Eq, Hash, Structural)]
pub enum Yolo26sClass {
    /// Panel border.
    Frame,
    DialogueText,
    Balloon,
    /// Sound effects.
    OnomatopoeiaText,
}

pub open spec fn class_id_spec(c: Yolo26sClass) -> usize {
    match c {
        Yolo26sClass::Frame => 0,
        Yolo26sClass::DialogueText => 1,
        Yolo26sClass::Balloon => 2,
        Yolo26sClass::OnomatopoeiaText => 3,
    }
}

/// The class with export id `id`, if there is one.
pub open spec fn class_of_id(id: usize) -> Option<Yolo26sClass> {
    if id == 0 {
        Some(Yolo26sClass::Frame)
    } else if id == 1 {
        Some(Yolo26sClass::DialogueText)
    } else if id == 2 {
        Some(Yolo26sClass::Balloon)
    } else if id == 3 {
        Some(Yolo26sClass::OnomatopoeiaText)
    } else {
        None
    }
}

impl Yolo26sClass {
    /// Every class, in id order.
    pub const ALL: [Yolo26sClass; 4] = [
        Yolo26sClass::Frame,
        Yolo26sClass::DialogueText,
        Yolo26sClass::Balloon,
        Yolo26sClass::OnomatopoeiaText,
    ];

    /// The class with export id `id`, if there is one.
    pub fn from_id(id: usize) -> (r: Option<Yolo26sClass>)
        ensures
            r == class_of_id(id),
    {
        match id {
            0 => Some(Yolo26sClass::Frame),
            1 => Some(Yolo26sClass::DialogueText),
            2 => Some(Yolo26sClass::Balloon),
            3 => Some(Yolo26sClass::OnomatopoeiaText),
            _ => None,
        }
    }

    /// The export id of the class.
    pub fn id(self) -> (r: usize)
        ensures
            r == class_id_spec(self),
    {
        match self {
            Yolo26sClass::Frame => 0,
            Yolo26sClass::DialogueText => 1,
            Yolo26sClass::Balloon => 2,
            Yolo26sClass::OnomatopoeiaText => 3,
        }
    }

    /// The export's name for the class.
    pub fn as_str(self) -> (r: &'static str)
        ensures
            self == Yolo26sClass::Frame ==> r@ == "frame"@,
            self == Yolo26sClass::DialogueText ==> r@ == "dialogue_text"@,
            self == Yolo26sClass::Balloon ==> r@ == "balloon"@,
            self == Yolo26sClass::OnomatopoeiaText ==> r@ == "onomatopoeia_text"@,
    {
        match self {
            Yolo26sClass::Frame => "frame",
            Yolo26sClass::DialogueText => "dialogue_text",
            Yolo26sClass::Balloon => "balloon",
            Yolo26sClass::OnomatopoeiaText => "onomatopoeia_text",
        }
    }
}

/// `from_id` and `id` are inverse: every class has an id below four that
/// maps back to it, and exactly the ids below four name a class.
pub proof fn law_class_ids_round_trip(c: Yolo26sClass, id: usize)
    ensures
        class_id_spec(c) < 4,
        class_of_id(class_id_spec(c)) == Some(c),
        class_of_id(id) is Some <==> id < 4,
        class_of_id(id) matches Some(k) ==> class_id_spec(k) == id,
{
}

/// One detected instance; `bbox` is xyxy in page sub-pixels and `mask` is a
/// page-sized binary mask when it was decoded.
#[derive(Debug)]
pub struct Yolo26sRegion {
    pub class: Yolo26sClass,
    pub score: u32,
    pub bbox: BBox,
    pub mask: Option<TextMask>,
}

/// One detector output.
#[derive(Debug)]
pub struct Yolo26sDetection {
    pub image_width: u32,
    pub image_height: u32,
    pub regions: Vec<Yolo26sRegion>,
}

/// A surviving detection before its mask is decoded; `row` is the index of
/// the model output row it came from.
#[derive(Clone, Copy, Debug, PartialEq, Eq, Structural)]
pub struct Instance {
    pub class: Yolo26sClass,
    pub score: u32,
    pub bbox: BBox,
    pub row: usize,
}

/// `(x2 - x1) * (y2 - y1)` with no clamping, as the duplicate test computes it.
pub open spec fn signed_area(b: BBox) -> int {
    (b.x2 - b.x1) * (b.y2 - b.y1)
}

/// The duplicate test's IoU reaches `ppm`.
pub open spec fn twin_iou_reaches(a: BBox, b: BBox, ppm: int) -> bool {
    ratio_reaches(intersection_spec(a, b), signed_area(a) + signed_area(b) - intersection_spec(a, b), ppm)
}

/// `b` repeats an earlier instance `a`: same class, IoU at least `DEDUP_IOU`.
pub open spec fn is_twin(a: Instance, b: Instance) -> bool {
    a.class == b.class && twin_iou_reaches(a.bbox, b.bbox, DEDUP_IOU as int)
}

/// Keep each instance unless an already kept one is its twin.
pub open spec fn dedup_spec(s: Seq<Instance>) -> Seq<Instance>
    decreases s.len(),
{
    if s.len() == 0 {
        seq![]
    } else {
        let kept = dedup_spec(s.drop_last());
        if exists|k: int| 0 <= k < kept.len() && is_twin(#[trigger] kept[k], s.last()) {
            kept
        } else {
            kept.push(s.last())
        }
    }
}

fn twin_iou_at_least(a: BBox, b: BBox, ppm: u32) -> (r: bool)
    ensures
        r == twin_iou_reaches(a, b, ppm as int),
{
    let inter = intersection(a, b) as i128;
    proof {
        assert((a.x2 - a.x1) * (a.y2 - a.y1) <= 0x1_0000_0000 * 0x1_0000_0000) by (nonlinear_arith)
            requires -0x1_0000_0000 <= a.x2 - a.x1 <= 0x1_0000_0000, -0x1_0000_0000 <= a.y2 - a.y1 <= 0x1_0000_0000;
        assert((a.x2 - a.x1) * (a.y2 - a.y1) >= -0x1_0000_0000 * 0x1_0000_0000) by (nonlinear_arith)
            requires -0x1_0000_0000 <= a.x2 - a.x1 <= 0x1_0000_0000, -0x1_0000_0000 <= a.y2 - a.y1 <= 0x1_0000_0000;
        assert((b.x2 - b.x1) * (b.y2 - b.y1) <= 0x1_0000_0000 * 0x1_0000_0000) by (nonlinear_arith)
            requires -0x1_0000_0000 <= b.x2 - b.x1 <= 0x1_0000_0000, -0x1_0000_0000 <= b.y2 - b.y1 <= 0x1_0000_0000;
        assert((b.x2 - b.x1) * (b.y2 - b.y1) >= -0x1_0000_0000 * 0x1_0000_0000) by (nonlinear_arith)
            requires -0x1_0000_0000 <= b.x2 - b.x1 <= 0x1_0000_0000, -0x1_0000_0000 <= b.y2 - b.y1 <= 0x1_0000_0000;
    }
    let area_a = (a.x2 as i128 - a.x1 as i128) * (a.y2 as i128 - a.y1 as i128);
    let area_b = (b.x2 as i128 - b.x1 as i128) * (b.y2 as i128 - b.y1 as i128);
    let union = area_a + area_b - inter;
    if union <= 0 {
        ppm == 0
    } else {
        proof {
            assert(ppm * union <= 0x1_0000_0000 * 0x4_0000_0000_0000_0000) by (nonlinear_arith)
                requires 0 <= ppm <= 0x1_0000_0000, 0 < union <= 0x4_0000_0000_0000_0000;
        }
        inter * 1_000_000 >= (ppm as i128) * union
    }
}

/// Drop repeated instances of a single object: an instance is kept unless an
/// already kept instance of the same class overlaps it at `DEDUP_IOU`.
/// Expects descending score, so the survivor of a pair is the stronger one.
pub fn dedup(instances: Vec<Instance>) -> (kept: Vec<Instance>)
    ensures
        kept@ == dedup_spec(instances@),
{
    let mut kept: Vec<Instance> = Vec::new();
    let mut i: usize = 0;
    while i < instances.len()
        invariant
            i <= instances@.len(),
            kept@ == dedup_spec(instances@.take(i as int)),
        decreases instances.len() - i,
    {
        let candidate = instances[i];
        let mut duplicate = false;
        let mut k: usize = 0;
        while k < kept.len()
            invariant
                k <= kept@.len(),
                duplicate == exists|j: int| 0 <= j < k && is_twin(#[trigger] kept@[j], candidate),
            decreases kept.len() - k,
        {
            if kept[k].class == candidate.class && twin_iou_at_least(kept[k].bbox, candidate.bbox, DEDUP_IOU) {
                duplicate = true;
            }
            proof {
                if duplicate {
                    if !is_twin(kept@[k as int], candidate) {
                        let j = choose|j: int| 0 <= j < k && is_twin(#[trigger] kept@[j], candidate);
                        assert(0 <= j < k + 1);
                    }
                }
            }
            k += 1;
        }
        proof {
            assert(instances@.take(i + 1).drop_last() == instances@.take(i as int));
            assert(instances@.take(i + 1).last() == candidate);
        }
        if !duplicate {
            kept.push(candidate);
        }
        i += 1;
    }
    proof {
        assert(instances@.take(instances@.len() as int) == instances@);
    }
    kept
}

/// Deduplication keeps instances in order and never keeps two twins; every
/// dropped instance has an earlier kept twin that, on score-sorted input,
/// scores at least as much.
pub proof fn law_dedup(s: Seq<Instance>)
    ensures
        forall|k: int| 0 <= k < dedup_spec(s).len() ==> s.contains(#[trigger] dedup_spec(s)[k]),
        forall|i: int, j: int|
            0 <= i < j < dedup_spec(s).len() ==> !is_twin(#[trigger] dedup_spec(s)[i], #[trigger] dedup_spec(s)[j]),
        forall|m: int|
            0 <= m < s.len() ==> dedup_spec(s).contains(#[trigger] s[m]) || exists|k: int|
                0 <= k < dedup_spec(s).len() && is_twin(#[trigger] dedup_spec(s)[k], s[m]),
        (forall|i: int, j: int| 0 <= i < j < s.len() ==> #[trigger] s[i].score >= #[trigger] s[j].score) ==> forall|m: int|
            0 <= m < s.len() && !dedup_spec(s).contains(#[trigger] s[m]) ==> exists|k: int|
                0 <= k < dedup_spec(s).len() && is_twin(#[trigger] dedup_spec(s)[k], s[m]) && dedup_spec(s)[k].score
                    >= s[m].score,
        dedup_spec(s).len() <= s.len(),
    decreases s.len(),
{
    if s.len() == 0 {
        return;
    }
    let d = s.drop_last();
    let x = s.last();
    law_dedup(d);
    let kept = dedup_spec(d);
    let r = dedup_spec(s);
    assert forall|j: int| 0 <= j < d.len() implies #[trigger] d[j] == s[j] by {}
    assert forall|k: int| 0 <= k < r.len() implies s.contains(#[trigger] r[k]) by {
        if k < kept.len() {
            assert(r[k] == kept[k]);
            assert(d.contains(kept[k]));
            let j = choose|j: int| 0 <= j < d.len() && d[j] == kept[k];
            assert(s[j] == kept[k]);
        } else {
            assert(r[k] == x);
            assert(s[s.len() - 1] == x);
        }
    }
    assert forall|i: int, j: int| 0 <= i < j < r.len() implies !is_twin(#[trigger] r[i], #[trigger] r[j]) by {
        if j < kept.len() {
            assert(r[i] == kept[i] && r[j] == kept[j]);
        } else {
            assert(r[i] == kept[i]);
        }
    }
    assert forall|m: int| 0 <= m < s.len() implies r.contains(#[trigger] s[m]) || exists|k: int|
        0 <= k < r.len() && is_twin(#[trigger] r[k], s[m]) by {
        if m < d.len() {
            assert(s[m] == d[m]);
            if kept.contains(d[m]) {
                let k = choose|k: int| 0 <= k < kept.len() && kept[k] == d[m];
                assert(r[k] == kept[k]);
            } else {
                let k = choose|k: int| 0 <= k < kept.len() && is_twin(#[trigger] kept[k], d[m]);
                assert(r[k] == kept[k]);
            }
        } else {
            if r.len() > kept.len() {
                assert(r[kept.len() as int] == x);
            } else {
                let k = choose|k: int| 0 <= k < kept.len() && is_twin(#[trigger] kept[k], x);
                assert(r[k] == kept[k]);
            }
        }
    }
    if forall|i: int, j: int| 0 <= i < j < s.len() ==> #[trigger] s[i].score >= #[trigger] s[j].score {
        assert(forall|i: int, j: int| 0 <= i < j < d.len() ==> #[trigger] d[i].score >= #[trigger] d[j].score) by {
            assert forall|i: int, j: int| 0 <= i < j < d.len() implies #[trigger] d[i].score >= #[trigger] d[j].score by {
                assert(s[i].score >= s[j].score);
            }
        }
        assert forall|m: int| 0 <= m < s.len() && !r.contains(#[trigger] s[m]) implies exists|k: int|
            0 <= k < r.len() && is_twin(#[trigger] r[k], s[m]) && r[k].score >= s[m].score by {
            if m < d.len() {
                assert(s[m] == d[m]);
                if kept.contains(d[m]) {
                    let k = choose|k: int| 0 <= k < kept.len() && kept[k] == d[m];
                    assert(r[k] == kept[k]);
                    assert(r.contains(d[m]));
                }
                let k = choose|k: int| 0 <= k < kept.len() && is_twin(#[trigger] kept[k], d[m]) && kept[k].score >= d[m].score;
                assert(r[k] == kept[k]);
            } else {
                if r.len() > kept.len() {
                    assert(r[kept.len() as int] == x);
                    assert(r.contains(x));
                }
                let k = choose|k: int| 0 <= k < kept.len() && is_twin(#[trigger] kept[k], x);
                assert(r[k] == kept[k]);
                assert(d.contains(kept[k]));
                let j = choose|j: int| 0 <= j < d.len() && d[j] == kept[k];
                assert(s[j].score >= s[s.len() - 1].score);
            }
        }
    }
}

/// `idx` places each element of `t` at an index of `s`, in increasing order:
/// `t` is `s` with some elements left out and the rest in their order.
pub open spec fn places_in_order(t: Seq<Instance>, s: Seq<Instance>, idx: Seq<int>) -> bool {
    &&& idx.len() == t.len()
    &&& forall|k: int| 0 <= k < t.len() ==> 0 <= #[trigger] idx[k] < s.len() && t[k] == s[idx[k]]
    &&& forall|i: int, j: int| 0 <= i < j < idx.len() ==> #[trigger] idx[i] < #[trigger] idx[j]
}

proof fn lemma_dedup_indices(s: Seq<Instance>) -> (idx: Seq<int>)
    ensures
        places_in_order(dedup_spec(s), s, idx),
    decreases s.len(),
{
    if s.len() == 0 {
        seq![]
    } else {
        let d = s.drop_last();
        let prev = lemma_dedup_indices(d);
        assert forall|j: int| 0 <= j < d.len() implies #[trigger] d[j] == s[j] by {}
        if dedup_spec(s) == dedup_spec(d) {
            prev
        } else {
            let idx = prev.push(s.len() - 1);
            let r = dedup_spec(s);
            assert(r == dedup_spec(d).push(s.last()));
            assert forall|k: int| 0 <= k < r.len() implies 0 <= #[trigger] idx[k] < s.len() && r[k] == s[idx[k]] by {
                if k < prev.len() {
                    assert(idx[k] == prev[k]);
                    assert(r[k] == dedup_spec(d)[k]);
                }
            }
            assert forall|i: int, j: int| 0 <= i < j < idx.len() implies #[trigger] idx[i] < #[trigger] idx[j] by {
                if j < prev.len() {
                    assert(idx[i] == prev[i] && idx[j] == prev[j]);
                } else {
                    assert(idx[i] == prev[i]);
                }
            }
            idx
        }
    }
}

/// Deduplication only leaves instances out: what it keeps appears in the
/// input in the same order.
pub proof fn law_dedup_keeps_order(s: Seq<Instance>)
    ensures
        exists|idx: Seq<int>| places_in_order(dedup_spec(s), s, idx),
{
    let idx = lemma_dedup_indices(s);
}

/// Where the resized page sits inside the padded input.
#[derive(Clone, Copy, Debug, PartialEq, Eq, Structural)]
pub struct Letterbox {
    pub original_width: u32,
    pub original_height: u32,
    pub resized_width: u32,
    pub resized_height: u32,
    pub input_width: u32,
    pub input_height: u32,
    pub pad_x: u32,
    pub pad_y: u32,
    /// The resize factor is `scale_num / scale_den`.
    pub scale_num: u32,
    pub scale_den: u32,
}

/// `round(value * num / den)` for non-negative values, halves away from zero.
pub open spec fn round_ratio(value: int, num: int, den: int) -> int {
    (2 * value * num + den) / (2 * den)
}

/// A side resized by `num / den`, at least one pixel.
pub open spec fn resized_side(side: int, num: int, den: int) -> int {
    let r = round_ratio(side, num, den);
    if r >= 1 {
        r
    } else {
        1
    }
}

/// `side` rounded up to the next multiple of `STRIDE`.
pub open spec fn stride_up(side: int) -> int {
    ((side + STRIDE - 1) / (STRIDE as int)) * STRIDE
}

/// Scale the long edge to `INPUT_SIZE` and pad each side to the next stride
/// multiple, centred.
pub fn letterbox_geometry(original_width: u32, original_height: u32) -> (l: Letterbox)
    ensures
        l.original_width == original_width,
        l.original_height == original_height,
        l.scale_num == INPUT_SIZE,
        l.scale_den == if original_width >= original_height {
            if original_width >= 1 { original_width } else { 1 }
        } else {
            original_height
        },
        l.resized_width == resized_side(original_width as int, INPUT_SIZE as int, l.scale_den as int),
        l.resized_height == resized_side(original_height as int, INPUT_SIZE as int, l.scale_den as int),
        l.input_width == stride_up(l.resized_width as int),
        l.input_height == stride_up(l.resized_height as int),
        l.pad_x == (l.input_width - l.resized_width) / 2,
        l.pad_y == (l.input_height - l.resized_height) / 2,
        l.resized_width <= INPUT_SIZE,
        l.resized_height <= INPUT_SIZE,
        l.input_width % STRIDE == 0,
        l.input_height % STRIDE == 0,
        l.resized_width <= l.input_width < l.resized_width + STRIDE,
        l.resized_height <= l.input_height < l.resized_height + STRIDE,
{
    let long = if original_width >= original_height {
        if original_width >= 1 { original_width } else { 1 }
    } else {
        original_height
    };
    let rw = resize_side(original_width, long, INPUT_SIZE);
    let rh = resize_side(original_height, long, INPUT_SIZE);
    let iw = (rw + STRIDE - 1) / STRIDE * STRIDE;
    let ih = (rh + STRIDE - 1) / STRIDE * STRIDE;
    Letterbox {
        original_width,
        original_height,
        resized_width: rw,
        resized_height: rh,
        input_width: iw,
        input_height: ih,
        pad_x: (iw - rw) / 2,
        pad_y: (ih - rh) / 2,
        scale_num: INPUT_SIZE,
        scale_den: long,
    }
}

/// `side` scaled by `target / long`, rounded, at least one pixel.
pub fn resize_side(side: u32, long: u32, target: u32) -> (r: u32)
    requires
        long >= 1,
        side <= long,
        1 <= target <= INPUT_SIZE,
    ensures
        r == resized_side(side as int, target as int, long as int),
        1 <= r <= target,
{
    proof {
        assert((side as u64) * (target as u64) <= 0xffff_ffff * 1280) by (nonlinear_arith)
            requires side <= 0xffff_ffff, target <= 1280;
    }
    let num = 2 * ((side as u64) * (target as u64)) + (long as u64);
    let den = 2 * (long as u64);
    let q = num / den;
    proof {
        assert(2 * (side * target) == 2 * side * target) by (nonlinear_arith);
        assert(q <= target) by (nonlinear_arith)
            requires
                q == num / den,
                num == 2 * (side * target) + long,
                den == 2 * long,
                side <= long,
                long >= 1,
        ;
    }
    if q >= 1 {
        q as u32
    } else {
        1
    }
}

/// A model-input coordinate (sub-pixels) mapped back onto the page and
/// clamped to `[0, limit]` pixels.
pub open spec fn unmap_coord(raw: int, pad: int, num: int, den: int, limit: int) -> int {
    let shifted = raw - pad * SUBPIXELS;
    if shifted <= 0 {
        0
    } else if (shifted * den) / num >= limit * SUBPIXELS {
        limit * SUBPIXELS
    } else {
        (shifted * den) / num
    }
}

fn unmap_coord_exec(raw: i32, pad: u32, num: u32, den: u32, limit: u32) -> (r: i32)
    requires
        num > 0,
        pad <= 0x100_0000,
        limit <= 0x7f_ffff,
    ensures
        r == unmap_coord(raw as int, pad as int, num as int, den as int, limit as int),
{
    let shifted = raw as i64 - (pad as i64) * (SUBPIXELS as i64);
    if shifted <= 0 {
        0
    } else {
        proof {
            assert(shifted * den <= 0x1_0000_0000_0000 * 0x1_0000_0000) by (nonlinear_arith)
                requires 0 < shifted <= 0x1_0000_0000_0000, den <= 0xffff_ffff;
            assert(shifted * den >= 0) by (nonlinear_arith)
                requires 0 < shifted, den >= 0;
        }
        let q = (shifted as i128) * (den as i128) / (num as i128);
        let cap = (limit as i128) * 256;
        if q >= cap {
            cap as i32
        } else {
            q as i32
        }
    }
}

/// Input-space `x1 y1 x2 y2` (sub-pixels) to page sub-pixels: undo the padding
/// and the resize, then clamp to the page.
pub fn map_box(raw: BBox, letterbox: &Letterbox) -> (b: BBox)
    requires
        letterbox.scale_num > 0,
        letterbox.pad_x <= 0x100_0000,
        letterbox.pad_y <= 0x100_0000,
        letterbox.original_width <= 0x7f_ffff,
        letterbox.original_height <= 0x7f_ffff,
    ensures
        b.x1 == unmap_coord(raw.x1 as int, letterbox.pad_x as int, letterbox.scale_num as int, letterbox.scale_den as int, letterbox.original_width as int),
        b.y1 == unmap_coord(raw.y1 as int, letterbox.pad_y as int, letterbox.scale_num as int, letterbox.scale_den as int, letterbox.original_height as int),
        b.x2 == unmap_coord(raw.x2 as int, letterbox.pad_x as int, letterbox.scale_num as int, letterbox.scale_den as int, letterbox.original_width as int),
        b.y2 == unmap_coord(raw.y2 as int, letterbox.pad_y as int, letterbox.scale_num as int, letterbox.scale_den as int, letterbox.original_height as int),
{
    BBox {
        x1: unmap_coord_exec(raw.x1, letterbox.pad_x, letterbox.scale_num, letterbox.scale_den, letterbox.original_width),
        y1: unmap_coord_exec(raw.y1, letterbox.pad_y, letterbox.scale_num, letterbox.scale_den, letterbox.original_height),
        x2: unmap_coord_exec(raw.x2, letterbox.pad_x, letterbox.scale_num, letterbox.scale_den, letterbox.original_width),
        y2: unmap_coord_exec(raw.y2, letterbox.pad_y, letterbox.scale_num, letterbox.scale_den, letterbox.original_height),
    }
}

/// One row of the detection output: box corners in input sub-pixels, score
/// (ppm), class id.
#[derive(Clone, Copy, Debug, PartialEq, Eq, Structural)]
pub struct OutputRow {
    pub x1: i32,
    pub y1: i32,
    pub x2: i32,
    pub y2: i32,
    pub score: u32,
    pub class_id: usize,
}

/// Why the detection output was refused.
#[derive(Clone, Copy, Debug, PartialEq, Eq, Structural)]
pub enum ReadError {
    /// A row reaching the threshold names a class the export does not have.
    UnknownClass(usize),
}

/// A row's page box.
pub open spec fn row_box(r: OutputRow, l: Letterbox) -> BBox {
    BBox {
        x1: unmap_coord(r.x1 as int, l.pad_x as int, l.scale_num as int, l.scale_den as int, l.original_width as int) as i32,
        y1: unmap_coord(r.y1 as int, l.pad_y as int, l.scale_num as int, l.scale_den as int, l.original_height as int) as i32,
        x2: unmap_coord(r.x2 as int, l.pad_x as int, l.scale_num as int, l.scale_den as int, l.original_width as int) as i32,
        y2: unmap_coord(r.y2 as int, l.pad_y as int, l.scale_num as int, l.scale_den as int, l.original_height as int) as i32,
    }
}

/// The instances of the first `n` rows, in row order, or the first error.
pub open spec fn read_spec(rows: Seq<OutputRow>, l: Letterbox, threshold: u32, n: int) -> Result<Seq<Instance>, ReadError>
    decreases n,
{
    if n <= 0 {
        Ok(seq![])
    } else {
        match read_spec(rows, l, threshold, n - 1) {
            Err(e) => Err(e),
            Ok(kept) => {
                let r = rows[n - 1];
                if r.score < threshold {
                    Ok(kept)
                } else {
                    match class_of_id(r.class_id) {
                        None => Err(ReadError::UnknownClass(r.class_id)),
                        Some(class) => {
                            let b = row_box(r, l);
                            if b.x2 <= b.x1 || b.y2 <= b.y1 {
                                Ok(kept)
                            } else {
                                Ok(kept.push(Instance { class, score: r.score, bbox: b, row: (n - 1) as usize }))
                            }
                        },
                    }
                }
            },
        }
    }
}

/// `sorted` with `x` inserted after every instance scoring at least as much.
pub open spec fn insert_instance(sorted: Seq<Instance>, x: Instance) -> Seq<Instance>
    decreases sorted.len(),
{
    if sorted.len() == 0 {
        seq![x]
    } else if sorted.last().score >= x.score {
        sorted.push(x)
    } else {
        insert_instance(sorted.drop_last(), x).push(sorted.last())
    }
}

/// Stable sort by descending score.
pub open spec fn sort_instances(s: Seq<Instance>) -> Seq<Instance>
    decreases s.len(),
{
    if s.len() == 0 {
        seq![]
    } else {
        insert_instance(sort_instances(s.drop_last()), s.last())
    }
}

proof fn lemma_insert_instance_at(sorted: Seq<Instance>, x: Instance, j: int)
    requires
        0 <= j <= sorted.len(),
        forall|k: int| j <= k < sorted.len() ==> (#[trigger] sorted[k]).score < x.score,
        j > 0 ==> sorted[j - 1].score >= x.score,
    ensures
        insert_instance(sorted, x) == sorted.insert(j, x),
    decreases sorted.len(),
{
    if sorted.len() == 0 {
        assert(sorted.insert(j, x) =~= seq![x]);
    } else if j == sorted.len() {
        assert(sorted.insert(j, x) =~= sorted.push(x));
    } else {
        let init = sorted.drop_last();
        assert forall|k: int| j <= k < init.len() implies (#[trigger] init[k]).score < x.score by {
            assert(init[k] == sorted[k]);
        }
        lemma_insert_instance_at(init, x, j);
        assert(init.insert(j, x).push(sorted.last()) =~= sorted.insert(j, x));
    }
}

proof fn lemma_read_error_stays(rows: Seq<OutputRow>, l: Letterbox, threshold: u32, m: int, n: int)
    requires
        0 <= m <= n,
        read_spec(rows, l, threshold, m) is Err,
    ensures
        read_spec(rows, l, threshold, n) == read_spec(rows, l, threshold, m),
    decreases n - m,
{
    if n > m {
        lemma_read_error_stays(rows, l, threshold, m, n - 1);
    }
}

/// The instances of the detection output: rows below `threshold` skipped, a
/// kept row's class looked up (an unknown id refuses the output), its box
/// mapped onto the page and dropped when empty; then ordered by descending
/// score, which deduplication relies on.
pub fn read_instances(rows: &[OutputRow], letterbox: &Letterbox, threshold: u32) -> (r: Result<Vec<Instance>, ReadError>)
    requires
        letterbox.scale_num > 0,
        letterbox.pad_x <= 0x100_0000,
        letterbox.pad_y <= 0x100_0000,
        letterbox.original_width <= 0x7f_ffff,
        letterbox.original_height <= 0x7f_ffff,
    ensures
        match read_spec(rows@, *letterbox, threshold, rows@.len() as int) {
            Err(e) => r == Err::<Vec<Instance>, ReadError>(e),
            Ok(found) => (r matches Ok(v) && v@ == sort_instances(found)),
        },
{
    let mut found: Vec<Instance> = Vec::new();
    let mut i: usize = 0;
    while i < rows.len()
        invariant
            i <= rows@.len(),
            letterbox.scale_num > 0,
            letterbox.pad_x <= 0x100_0000,
            letterbox.pad_y <= 0x100_0000,
            letterbox.original_width <= 0x7f_ffff,
            letterbox.original_height <= 0x7f_ffff,
            read_spec(rows@, *letterbox, threshold, i as int) == Ok::<Seq<Instance>, ReadError>(found@),
        decreases rows.len() - i,
    {
        let row = rows[i];
        if row.score >= threshold {
            match Yolo26sClass::from_id(row.class_id) {
                None => {
                    proof {
                        lemma_read_error_stays(rows@, *letterbox, threshold, i + 1, rows@.len() as int);
                    }
                    return Err(ReadError::UnknownClass(row.class_id));
                },
                Some(class) => {
                    let b = map_box(BBox { x1: row.x1, y1: row.y1, x2: row.x2, y2: row.y2 }, letterbox);
                    if !(b.x2 <= b.x1 || b.y2 <= b.y1) {
                        found.push(Instance { class, score: row.score, bbox: b, row: i });
                    }
                },
            }
        }
        i += 1;
    }
    let mut sorted: Vec<Instance> = Vec::new();
    let mut k: usize = 0;
    while k < found.len()
        invariant
            k <= found@.len(),
            sorted@ == sort_instances(found@.take(k as int)),
        decreases found.len() - k,
    {
        let x = found[k];
        let mut j = sorted.len();
        while j > 0 && sorted[j - 1].score < x.score
            invariant
                j <= sorted@.len(),
                forall|m: int| j <= m < sorted@.len() ==> (#[trigger] sorted@[m]).score < x.score,
            decreases j,
        {
            j -= 1;
        }
        proof {
            lemma_insert_instance_at(sorted@, x, j as int);
            assert(found@.take(k + 1).drop_last() =~= found@.take(k as int));
            assert(found@.take(k + 1).last() == x);
        }
        sorted.insert(j, x);
        k += 1;
    }
    proof {
        assert(found@.take(found@.len() as int) =~= found@);
    }
    Ok(sorted)
}

/// Whether masks were asked for instances of `class`.
pub fn wants_mask(masks: &[Yolo26sClass], class: Yolo26sClass) -> (r: bool)
    ensures
        r == masks@.contains(class),
{
    let mut i: usize = 0;
    while i < masks.len()
        invariant
            i <= masks@.len(),
            forall|j: int| 0 <= j < i ==> masks@[j] != class,
        decreases masks.len() - i,
    {
        if masks[i] == class {
            proof {
                assert(masks@[i as int] == class);
            }
            return true;
        }
        i += 1;
    }
    false
}

/// Whether the mask basis must be read: some instance is of a class whose
/// mask was asked for.
pub fn needs_prototypes(instances: &[Instance], masks: &[Yolo26sClass]) -> (r: bool)
    ensures
        r == exists|i: int| 0 <= i < instances@.len() && masks@.contains((#[trigger] instances@[i]).class),
{
    if masks.len() == 0 {
        return false;
    }
    let mut i: usize = 0;
    while i < instances.len()
        invariant
            i <= instances@.len(),
            forall|j: int| 0 <= j < i ==> !masks@.contains((#[trigger] instances@[j]).class),
        decreases instances.len() - i,
    {
        if wants_mask(masks, instances[i].class) {
            return true;
        }
        i += 1;
    }
    false
}

/// Outline colour of a class: panels orange, dialogue blue, balloons green,
/// sound effects pink.
pub fn color_for(class: Yolo26sClass) -> (r: [u8; 4])
    ensures
        r@ == match class {
            Yolo26sClass::Frame => seq![255u8, 176u8, 0u8, 255u8],
            Yolo26sClass::DialogueText => seq![0u8, 160u8, 255u8, 255u8],
            Yolo26sClass::Balloon => seq![0u8, 255u8, 0u8, 255u8],
            Yolo26sClass::OnomatopoeiaText => seq![255u8, 64u8, 200u8, 255u8],
        },
{
    let r: [u8; 4] = match class {
        Yolo26sClass::Frame => [255, 176, 0, 255],
        Yolo26sClass::DialogueText => [0, 160, 255, 255],
        Yolo26sClass::Balloon => [0, 255, 0, 255],
        Yolo26sClass::OnomatopoeiaText => [255, 64, 200, 255],
    };
    assert(r@ =~= match class {
        Yolo26sClass::Frame => seq![255u8, 176u8, 0u8, 255u8],
        Yolo26sClass::DialogueText => seq![0u8, 160u8, 255u8, 255u8],
        Yolo26sClass::Balloon => seq![0u8, 255u8, 0u8, 255u8],
        Yolo26sClass::OnomatopoeiaText => seq![255u8, 64u8, 200u8, 255u8],
    });
    r
}

proof fn lemma_insert_instance_keeps_order(sorted: Seq<Instance>, x: Instance)
    requires
        forall|i: int, j: int| 0 <= i < j < sorted.len() ==> #[trigger] sorted[i].score >= #[trigger] sorted[j].score,
    ensures
        forall|i: int, j: int|
            0 <= i < j < insert_instance(sorted, x).len() ==> #[trigger] insert_instance(sorted, x)[i].score
                >= #[trigger] insert_instance(sorted, x)[j].score,
        insert_instance(sorted, x).to_multiset() == sorted.to_multiset().insert(x),
    decreases sorted.len(),
{
    broadcast use vstd::seq_lib::group_to_multiset_ensures;
    broadcast use vstd::multiset::group_multiset_axioms;

    if sorted.len() == 0 {
        assert(seq![x] =~= sorted.push(x));
    } else if sorted.last().score >= x.score {
        let r = sorted.push(x);
        assert forall|i: int, j: int| 0 <= i < j < r.len() implies #[trigger] r[i].score >= #[trigger] r[j].score by {
            if j == r.len() - 1 && i < sorted.len() - 1 {
                assert(sorted[i].score >= sorted[sorted.len() - 1].score);
            }
        }
    } else {
        let init = sorted.drop_last();
        let last = sorted.last();
        assert forall|i: int, j: int| 0 <= i < j < init.len() implies #[trigger] init[i].score >= #[trigger] init[j].score by {
            assert(init[i] == sorted[i] && init[j] == sorted[j]);
        }
        lemma_insert_instance_keeps_order(init, x);
        let m = insert_instance(init, x);
        assert forall|k: int| 0 <= k < m.len() implies (#[trigger] m[k]).score >= last.score by {
            let e = m[k];
            assert(m.contains(e));
            assert(m.to_multiset().count(e) > 0);
            if e != x {
                assert(init.to_multiset().count(e) > 0);
                assert(init.contains(e));
                let j = choose|j: int| 0 <= j < init.len() && init[j] == e;
                assert(sorted[j] == e);
                assert(sorted[j].score >= sorted[sorted.len() - 1].score);
            }
        }
        let r = m.push(last);
        assert forall|i: int, j: int| 0 <= i < j < r.len() implies #[trigger] r[i].score >= #[trigger] r[j].score by {
            if j == r.len() - 1 {
                assert(r[i] == m[i]);
            } else {
                assert(r[i] == m[i] && r[j] == m[j]);
            }
        }
        assert(sorted =~= init.push(last));
        assert(r.to_multiset() =~= sorted.to_multiset().insert(x));
    }
}

/// Instances come back in descending score, as deduplication expects, and
/// sorting neither drops nor invents one.
pub proof fn law_instances_by_descending_score(s: Seq<Instance>)
    ensures
        forall|i: int, j: int|
            0 <= i < j < sort_instances(s).len() ==> #[trigger] sort_instances(s)[i].score >= #[trigger] sort_instances(s)[j].score,
        sort_instances(s).to_multiset() == s.to_multiset(),
    decreases s.len(),
{
    broadcast use vstd::seq_lib::group_to_multiset_ensures;

    if s.len() == 0 {
        assert(sort_instances(s).to_multiset() =~= s.to_multiset());
    } else {
        law_instances_by_descending_score(s.drop_last());
        lemma_insert_instance_keeps_order(sort_instances(s.drop_last()), s.last());
        assert(s =~= s.drop_last().push(s.last()));
    }
}

/// Mask coefficients per instance, and prototype planes.
pub const MASK_COEFFICIENTS: usize = 32;

/// Values per detection row: box, score, class, then the mask coefficients.
pub const ROW_WIDTH: usize = 6 + MASK_COEFFICIENTS;

/// Why an output tensor's shape was refused.
#[derive(Clone, Copy, Debug, PartialEq, Eq, Structural)]
pub enum YoloShapeError {
    /// The detections are not `[1, instances, ROW_WIDTH]`.
    Detections,
    /// The prototypes are not `[1, MASK_COEFFICIENTS, height, width]`.
    Prototypes,
}

/// The number of detection rows in a `[1, instances, ROW_WIDTH]` output.
pub fn detection_rows(dims: &[usize]) -> (r: Result<usize, YoloShapeError>)
    ensures
        (dims@.len() == 3 && dims@[0] == 1 && dims@[2] == ROW_WIDTH) ==> r == Ok::<usize, YoloShapeError>(dims@[1]),
        !(dims@.len() == 3 && dims@[0] == 1 && dims@[2] == ROW_WIDTH) ==> r == Err::<usize, YoloShapeError>(YoloShapeError::Detections),
{
    if dims.len() == 3 && dims[0] == 1 && dims[2] == ROW_WIDTH {
        Ok(dims[1])
    } else {
        Err(YoloShapeError::Detections)
    }
}

/// Width and height of the prototype planes in a
/// `[1, MASK_COEFFICIENTS, height, width]` output.
pub fn prototype_size(dims: &[usize]) -> (r: Result<(usize, usize), YoloShapeError>)
    ensures
        (dims@.len() == 4 && dims@[0] == 1 && dims@[1] == MASK_COEFFICIENTS) ==> r == Ok::<(usize, usize), YoloShapeError>((dims@[3], dims@[2])),
        !(dims@.len() == 4 && dims@[0] == 1 && dims@[1] == MASK_COEFFICIENTS) ==> r == Err::<(usize, usize), YoloShapeError>(YoloShapeError::Prototypes),
{
    if dims.len() == 4 && dims[0] == 1 && dims[1] == MASK_COEFFICIENTS {
        Ok((dims[3], dims[2]))
    } else {
        Err(YoloShapeError::Prototypes)
    }
}

} // verus!
