//! The RT-DETR comic text & bubble detector around its forward pass: label
//! configuration, decoding of the graph's outputs into detections, and the
//! slicing of very tall pages into overlapping strips.
use vstd::prelude::*;
use crate::blocks::TextRegion;
use crate::comic_bubble::{
    ComicTextBubbleRegion, RegionView, detections_to_text_blocks, filter_and_fix_regions, filter_fix_spec,
    merge_slice_regions, merge_slices_spec, merge_text_spec, regions_view, text_blocks_spec, text_only,
    text_region_of,
};
use crate::geometry::{BBox, SUBPIXELS};
use crate::text::{decimal, decimal_spec};

verus! {

/// Labels assumed when the configuration names none.
pub fn default_num_labels() -> (r: usize)
    ensures
        r == 3,
{
    3
}

/// Model input height when the preprocessor configuration gives none.
pub fn default_processor_height() -> (r: usize)
    ensures
        r == 640,
{
    640
}

/// Model input width when the preprocessor configuration gives none.
pub fn default_processor_width() -> (r: usize)
    ensures
        r == 640,
{
    640
}

/// Size the preprocessor resizes to.
#[derive(Clone, Copy, Debug, PartialEq, Eq, Structural)]
pub struct ProcessorSize {
    pub height: usize,
    pub width: usize,
}

/// The default input size, 640 by 640.
pub fn default_processor_size() -> (r: ProcessorSize)
    ensures
        r.height == 640,
        r.width == 640,
{
    ProcessorSize { height: default_processor_height(), width: default_processor_width() }
}

/// The model's label configuration: names by decimal class id, and the
/// declared class count.
#[derive(Clone, Debug)]
pub struct RTDetrV2Config {
    pub id2label: Vec<(String, String)>,
    pub num_labels: usize,
}

pub open spec fn entries_view(s: Seq<(String, String)>) -> Seq<(Seq<char>, Seq<char>)> {
    s.map_values(|e: (String, String)| (e.0@, e.1@))
}

/// The name stored under `key`: that of the first entry with the key.
pub open spec fn lookup_label(entries: Seq<(Seq<char>, Seq<char>)>, key: Seq<char>) -> Option<Seq<char>>
    decreases entries.len(),
{
    if entries.len() == 0 {
        None
    } else if entries[0].0 == key {
        Some(entries[0].1)
    } else {
        lookup_label(entries.drop_first(), key)
    }
}

/// `label_<id>`.
pub open spec fn fallback_label(id: nat) -> Seq<char> {
    seq!['l', 'a', 'b', 'e', 'l', '_'] + decimal_spec(id)
}

impl RTDetrV2Config {
    /// The class count: the declared one, at least the number of names, at
    /// least one.
    pub fn num_labels(&self) -> (r: usize)
        ensures
            r == ({
                let m = if self.num_labels >= self.id2label@.len() { self.num_labels as int } else { self.id2label@.len() as int };
                if m >= 1 { m } else { 1 }
            }),
    {
        let n = self.id2label.len();
        let m = if self.num_labels >= n { self.num_labels } else { n };
        if m >= 1 {
            m
        } else {
            1
        }
    }

    /// The name of class `label_id`, or `label_<id>` when it has none.
    pub fn label(&self, label_id: usize) -> (r: String)
        ensures
            r@ == match lookup_label(entries_view(self.id2label@), decimal_spec(label_id as nat)) {
                Some(name) => name,
                None => fallback_label(label_id as nat),
            },
    {
        let key = decimal(label_id as u64);
        let ghost all = entries_view(self.id2label@);
        let mut i: usize = 0;
        proof {
            assert(all.skip(0) =~= all);
        }
        while i < self.id2label.len()
            invariant
                i <= self.id2label@.len(),
                all == entries_view(self.id2label@),
                key@ == decimal_spec(label_id as nat),
                lookup_label(all, key@) == lookup_label(all.skip(i as int), key@),
            decreases self.id2label.len() - i,
        {
            proof {
                assert(all.skip(i as int).drop_first() =~= all.skip(i + 1));
                assert(all.skip(i as int)[0] == (self.id2label@[i as int].0@, self.id2label@[i as int].1@));
            }
            if self.id2label[i].0 == key {
                return self.id2label[i].1.clone();
            }
            i += 1;
        }
        proof {
            assert(all.skip(i as int).len() == 0);
        }
        let mut name = String::from_str("label_");
        name.append(key.as_str());
        proof {
            reveal_strlit("label_");
            assert(name@ =~= fallback_label(label_id as nat));
        }
        name
    }
}

/// Why the graph's outputs were refused.
#[derive(Clone, Copy, Debug, PartialEq, Eq, Structural)]
pub enum DecodeError {
    /// The outputs do not hold four box values and one score per label.
    Shape,
    /// A kept detection carries a negative label id.
    NegativeLabel(i64),
    /// A kept detection's label id is not below the class count.
    LabelOutOfRange(usize),
}

/// What decoding the first detections gives: the kept regions as
/// `(label id, score, box)`, or the first error.
pub open spec fn decode_spec(labels: Seq<i64>, scores: Seq<u32>, boxes: Seq<i32>, threshold: u32, num_labels: int, n: int) -> Result<Seq<(usize, u32, BBox)>, DecodeError>
    decreases n,
{
    if n <= 0 {
        Ok(seq![])
    } else {
        match decode_spec(labels, scores, boxes, threshold, num_labels, n - 1) {
            Err(e) => Err(e),
            Ok(kept) => {
                let i = n - 1;
                if scores[i] < threshold {
                    Ok(kept)
                } else if labels[i] < 0 {
                    Err(DecodeError::NegativeLabel(labels[i]))
                } else if labels[i] >= num_labels {
                    Err(DecodeError::LabelOutOfRange(labels[i] as usize))
                } else {
                    Ok(kept.push((
                        labels[i] as usize,
                        scores[i],
                        BBox { x1: boxes[4 * i], y1: boxes[4 * i + 1], x2: boxes[4 * i + 2], y2: boxes[4 * i + 3] },
                    )))
                }
            },
        }
    }
}

/// The region a decoded detection becomes, named from the configuration.
pub open spec fn region_from(d: (usize, u32, BBox), config: RTDetrV2Config, r: RegionView) -> bool {
    &&& r.label_id == d.0
    &&& r.score == d.1
    &&& r.bbox == d.2
    &&& r.label == match lookup_label(entries_view(config.id2label@), decimal_spec(d.0 as nat)) {
        Some(name) => name,
        None => fallback_label(d.0 as nat),
    }
}

/// The graph's outputs (label ids, scores in ppm, boxes as four sub-pixel
/// values each) decoded into detections: those scoring below `threshold`
/// are skipped, and a kept one must carry a label id below the class count.
pub fn decode_detections(labels: &[i64], scores: &[u32], boxes: &[i32], threshold: u32, config: &RTDetrV2Config) -> (r: Result<Vec<ComicTextBubbleRegion>, DecodeError>)
    ensures
        !(boxes@.len() == 4 * labels@.len() && scores@.len() == labels@.len()) ==> r == Err::<Vec<ComicTextBubbleRegion>, DecodeError>(DecodeError::Shape),
        (boxes@.len() == 4 * labels@.len() && scores@.len() == labels@.len()) ==> match decode_spec(labels@, scores@, boxes@, threshold, config.num_labels_spec(), labels@.len() as int) {
            Err(e) => r == Err::<Vec<ComicTextBubbleRegion>, DecodeError>(e),
            Ok(kept) => (r matches Ok(v) && v@.len() == kept.len() && forall|i: int| 0 <= i < kept.len() ==> region_from(kept[i], *config, #[trigger] regions_view(v@)[i])),
        },
{
    if boxes.len() % 4 != 0 || boxes.len() / 4 != labels.len() || scores.len() != labels.len() {
        return Err(DecodeError::Shape);
    }
    let num_labels = config.num_labels();
    let nb = boxes.len();
    let mut out: Vec<ComicTextBubbleRegion> = Vec::new();
    let mut i: usize = 0;
    while i < labels.len()
        invariant
            nb == boxes@.len(),
            i <= labels@.len(),
            boxes@.len() == 4 * labels@.len(),
            scores@.len() == labels@.len(),
            num_labels == config.num_labels_spec(),
            (decode_spec(labels@, scores@, boxes@, threshold, num_labels as int, i as int) matches Ok(kept) && out@.len() == kept.len() && forall|k: int| 0 <= k < kept.len() ==> region_from(kept[k], *config, #[trigger] regions_view(out@)[k])),
        decreases labels.len() - i,
    {
        let ghost kept = decode_spec(labels@, scores@, boxes@, threshold, num_labels as int, i as int)->Ok_0;
        let ghost before = out@;
        if scores[i] < threshold {
            i += 1;
            continue;
        }
        let label = labels[i];
        if label < 0 {
            proof {
                lemma_decode_error_stays(labels@, scores@, boxes@, threshold, num_labels as int, i + 1, labels@.len() as int);
            }
            return Err(DecodeError::NegativeLabel(label));
        }
        if label as u64 >= num_labels as u64 {
            proof {
                lemma_decode_error_stays(labels@, scores@, boxes@, threshold, num_labels as int, i + 1, labels@.len() as int);
            }
            return Err(DecodeError::LabelOutOfRange(label as usize));
        }
        let label_id = label as usize;
        let bbox = BBox { x1: boxes[4 * i], y1: boxes[4 * i + 1], x2: boxes[4 * i + 2], y2: boxes[4 * i + 3] };
        let name = config.label(label_id);
        out.push(ComicTextBubbleRegion { label_id, label: name, score: scores[i], bbox });
        proof {
            let next = kept.push((label_id, scores[i as int], bbox));
            assert forall|k: int| 0 <= k < next.len() implies region_from(next[k], *config, #[trigger] regions_view(out@)[k]) by {
                if k < kept.len() {
                    assert(regions_view(out@)[k] == regions_view(before)[k]);
                }
            }
        }
        i += 1;
    }
    Ok(out)
}

/// Once decoding fails, decoding more detections fails the same way.
proof fn lemma_decode_error_stays(labels: Seq<i64>, scores: Seq<u32>, boxes: Seq<i32>, threshold: u32, num_labels: int, m: int, n: int)
    requires
        0 <= m <= n,
        decode_spec(labels, scores, boxes, threshold, num_labels, m) is Err,
    ensures
        decode_spec(labels, scores, boxes, threshold, num_labels, n) == decode_spec(labels, scores, boxes, threshold, num_labels, m),
    decreases n - m,
{
    if n > m {
        lemma_decode_error_stays(labels, scores, boxes, threshold, num_labels, m, n - 1);
    }
}

impl RTDetrV2Config {
    /// The class count, as `num_labels` computes it.
    pub open spec fn num_labels_spec(&self) -> int {
        let m = if self.num_labels >= self.id2label@.len() { self.num_labels as int } else { self.id2label@.len() as int };
        if m >= 1 { m } else { 1 }
    }
}

/// A page is sliced when it is more than 3.5 times taller than wide.
pub open spec fn should_slice_spec(width: int, height: int) -> bool {
    let w = if width >= 1 { width } else { 1 };
    2 * height > 7 * w
}

/// How tall pages are cut: strips three widths tall overlapping by a fifth,
/// and a last strip under 70% of a full one folded into its neighbour.
#[derive(Clone, Copy, Debug)]
pub struct ImageSlicer {}

/// `min(v, u32::MAX)`, at least one.
pub open spec fn saturate_at_least_one(v: int) -> int {
    if v < 1 {
        1
    } else if v > u32::MAX {
        u32::MAX as int
    } else {
        v
    }
}

/// Strip height, step between strip tops, and strip count for a page.
pub open spec fn slice_params_spec(width: int, height: int) -> (int, int, int) {
    let slice = saturate_at_least_one(3 * width);
    let step = saturate_at_least_one((8 * slice + 5) / 10);
    let count = (height + step - 1) / step;
    let count = if count > 1 && 10 * (height - (count - 1) * step) <= 7 * slice {
        count - 1
    } else {
        count
    };
    (slice, step, if count >= 1 { count } else { 1 })
}

impl ImageSlicer {
    pub fn new() -> (s: Self) {
        ImageSlicer {}
    }

    /// Whether a page of this size is cut into strips.
    pub fn should_slice(&self, width: u32, height: u32) -> (r: bool)
        ensures
            r == should_slice_spec(width as int, height as int),
    {
        let w: u64 = if width >= 1 { width as u64 } else { 1 };
        2 * (height as u64) > 7 * w
    }

    /// Strip height, step between strip tops, and number of strips.
    pub fn calculate_slice_params(&self, width: u32, height: u32) -> (r: (u32, u32, usize))
        ensures
            (r.0 as int, r.1 as int, r.2 as int) == slice_params_spec(width as int, height as int),
    {
        let raw = 3 * (width as u64);
        let slice: u64 = if raw < 1 { 1 } else if raw > 0xffff_ffff { 0xffff_ffff } else { raw };
        let raw_step = (8 * slice + 5) / 10;
        let step: u64 = if raw_step < 1 { 1 } else if raw_step > 0xffff_ffff { 0xffff_ffff } else { raw_step };
        let mut count: u64 = (height as u64 + step - 1) / step;
        proof {
            assert(count <= height as u64 + 1) by (nonlinear_arith)
                requires count == (height as int + step - 1) / (step as int), step >= 1;
            if height >= 1 {
                assert(count <= height) by (nonlinear_arith)
                    requires count == (height as int + step - 1) / (step as int), step >= 1, height >= 1;
            } else {
                assert(count == 0) by (nonlinear_arith)
                    requires count == (height as int + step - 1) / (step as int), step >= 1, height == 0;
            }
        }
        if count > 1 {
            proof {
                assert((count - 1) * step <= height) by (nonlinear_arith)
                    requires count == (height as int + step - 1) / (step as int), step >= 1, count >= 1;
            }
            let last = height as u64 - (count - 1) * step;
            if 10 * last <= 7 * slice {
                count = count - 1;
            }
        }
        let count = if count >= 1 { count } else { 1 };
        (slice as u32, step as u32, count as usize)
    }

    /// Top and height of each strip of a page, or `None` when the page is
    /// processed whole.
    pub fn slice_plan(&self, width: u32, height: u32) -> (r: Option<Vec<(u32, u32)>>)
        ensures
            !should_slice_spec(width as int, height as int) ==> r is None,
            should_slice_spec(width as int, height as int) ==> (r matches Some(plan) && {
                &&& plan@.len() == slice_params_spec(width as int, height as int).2
                &&& forall|k: int| 0 <= k < plan@.len() ==> {
                    let (top, bottom) = strip_bounds(width as int, height as int, k);
                    &&& (#[trigger] plan@[k]).0 == top
                    &&& plan@[k].1 == if bottom - top >= 1 { bottom - top } else { 1 }
                }
            }),
    {
        if !self.should_slice(width, height) {
            return None;
        }
        let (slice, step, count) = self.calculate_slice_params(width, height);
        let ghost params = slice_params_spec(width as int, height as int);
        let mut plan: Vec<(u32, u32)> = Vec::new();
        let mut k: usize = 0;
        while k < count
            invariant
                (slice as int, step as int, count as int) == params,
                params == slice_params_spec(width as int, height as int),
                k <= count,
                plan@.len() == k,
                forall|j: int| 0 <= j < k ==> {
                    let (top, bottom) = strip_bounds(width as int, height as int, j);
                    &&& (#[trigger] plan@[j]).0 == top
                    &&& plan@[j].1 == if bottom - top >= 1 { bottom - top } else { 1 }
                },
            decreases count - k,
        {
            proof {
                lemma_strip_top_fits(width as int, height as int, k as int);
            }
            let top = (k as u64) * (step as u64);
            let bottom: u64 = if k + 1 == count {
                height as u64
            } else if top + slice as u64 <= height as u64 {
                top + slice as u64
            } else {
                height as u64
            };
            let crop: u64 = if bottom >= top + 1 { bottom - top } else { 1 };
            plan.push((top as u32, crop as u32));
            k += 1;
        }
        Some(plan)
    }
}

/// Every strip starts on the page.
proof fn lemma_strip_top_fits(width: int, height: int, k: int)
    requires
        0 <= width <= u32::MAX,
        0 <= height <= u32::MAX,
        0 <= k < slice_params_spec(width, height).2,
    ensures
        k * slice_params_spec(width, height).1 <= height,
{
    let (slice, step, count) = slice_params_spec(width, height);
    let raw = (height + step - 1) / step;
    assert(step >= 1);
    assert((raw - 1) * step <= height) by (nonlinear_arith)
        requires raw == (height + step - 1) / step, step >= 1, height >= 0;
    if raw >= 1 {
        assert(k <= raw - 1);
        assert(k * step <= (raw - 1) * step) by (nonlinear_arith)
            requires k <= raw - 1, step >= 1, k >= 0;
    } else {
        assert(k == 0);
    }
}

/// A strip's detections moved down by the strip's top, onto the page.
pub open spec fn shifted_down(b: BBox, dy: int) -> BBox {
    BBox { x1: b.x1, y1: (b.y1 + dy) as i32, x2: b.x2, y2: (b.y2 + dy) as i32 }
}

/// Moves detections found in a strip starting `top` pixels down the page
/// onto page coordinates.
pub fn shift_detections(detections: &mut Vec<ComicTextBubbleRegion>, top: u32)
    requires
        top <= 0x7f_ffff,
        forall|i: int| 0 <= i < old(detections)@.len() ==> (#[trigger] old(detections)@[i]).bbox.y1 + top * SUBPIXELS <= i32::MAX && old(detections)@[i].bbox.y2 + top * SUBPIXELS <= i32::MAX,
    ensures
        final(detections)@.len() == old(detections)@.len(),
        forall|i: int| 0 <= i < final(detections)@.len() ==> {
            let before = old(detections)@[i];
            let after = #[trigger] final(detections)@[i];
            &&& after.label_id == before.label_id
            &&& after.label@ == before.label@
            &&& after.score == before.score
            &&& after.bbox == shifted_down(before.bbox, top * SUBPIXELS)
        },
{
    let dy: i32 = (top as i32) * SUBPIXELS;
    let mut i: usize = 0;
    while i < detections.len()
        invariant
            i <= detections@.len(),
            detections@.len() == old(detections)@.len(),
            dy == top * SUBPIXELS,
            0 <= dy <= 0x7f_ffff * 256,
            forall|j: int| 0 <= j < old(detections)@.len() ==> (#[trigger] old(detections)@[j]).bbox.y1 + dy <= i32::MAX && old(detections)@[j].bbox.y2 + dy <= i32::MAX,
            forall|j: int| i <= j < detections@.len() ==> #[trigger] detections@[j] == old(detections)@[j],
            forall|j: int| 0 <= j < i ==> {
                let before = old(detections)@[j];
                let after = #[trigger] detections@[j];
                &&& after.label_id == before.label_id
                &&& after.label@ == before.label@
                &&& after.score == before.score
                &&& after.bbox == shifted_down(before.bbox, dy as int)
            },
        decreases detections.len() - i,
    {
        let b = detections[i].bbox;
        let moved = ComicTextBubbleRegion {
            label_id: detections[i].label_id,
            label: detections[i].label.clone(),
            score: detections[i].score,
            bbox: BBox { x1: b.x1, y1: b.y1 + dy, x2: b.x2, y2: b.y2 + dy },
        };
        detections.set(i, moved);
        i += 1;
    }
}

/// Top and bottom of strip `k`: strips start every `step` rows and are
/// `slice` rows tall, cut at the page's bottom; the last one runs to it.
pub open spec fn strip_bounds(width: int, height: int, k: int) -> (int, int) {
    let (slice, step, count) = slice_params_spec(width, height);
    let top = k * step;
    let bottom = if k + 1 == count {
        height
    } else if top + slice <= height {
        top + slice
    } else {
        height
    };
    (top, bottom)
}

/// The strips of a sliced page cover it: every row lies in some strip.
pub proof fn law_strips_cover_the_page(width: int, height: int, y: int)
    requires
        0 <= width <= u32::MAX,
        0 <= height <= u32::MAX,
        0 <= y < height,
    ensures
        exists|k: int| 0 <= k < slice_params_spec(width, height).2 && {
            let (top, bottom) = #[trigger] strip_bounds(width, height, k);
            top <= y < bottom
        },
{
    let (slice, step, count) = slice_params_spec(width, height);
    assert(1 <= step <= slice) by {
        let raw = (8 * slice + 5) / 10;
        assert(raw <= slice) by (nonlinear_arith)
            requires raw == (8 * slice + 5) / 10, slice >= 1;
    }
    let q = y / step;
    assert(q * step <= y < (q + 1) * step) by (nonlinear_arith)
        requires q == y / step, step >= 1, y >= 0;
    let k = if q < count - 1 { q } else { count - 1 };
    assert(k * step <= q * step) by (nonlinear_arith)
        requires k <= q, step >= 1, k >= 0;
    assert(k >= 0) by (nonlinear_arith)
        requires q == y / step, step >= 1, y >= 0, count >= 1, k == if q < count - 1 { q } else { count - 1 };
    let (top, bottom) = strip_bounds(width, height, k);
    assert(top <= y);
    if k + 1 != count {
        assert(k == q);
        assert((k + 1) * step == k * step + step) by (nonlinear_arith);
    }
    assert(y < bottom);
}

/// Every decoded detection reaches the threshold and carries a label id
/// below the class count.
pub proof fn law_decoded_detections_are_valid(labels: Seq<i64>, scores: Seq<u32>, boxes: Seq<i32>, threshold: u32, num_labels: int, n: int)
    ensures
        decode_spec(labels, scores, boxes, threshold, num_labels, n) matches Ok(kept) ==> forall|i: int|
            0 <= i < kept.len() ==> (#[trigger] kept[i]).0 < num_labels && kept[i].1 >= threshold,
    decreases n,
{
    if n > 0 {
        law_decoded_detections_are_valid(labels, scores, boxes, threshold, num_labels, n - 1);
    }
}

/// What a page's detections become once every strip has been detected:
/// clamped to the page with slivers dropped, duplicates across strip borders
/// folded, and the text ones turned into text regions.
pub fn finish_page(detections: Vec<ComicTextBubbleRegion>, width: u32, height: u32) -> (r: (Vec<ComicTextBubbleRegion>, Vec<TextRegion>))
    requires
        width <= 0x7f_ffff,
        height <= 0x7f_ffff,
    ensures
        regions_view(r.0@) == merge_slices_spec(filter_fix_spec(regions_view(detections@), width as int, height as int), 0, height as int),
        ({
            let kept = text_blocks_spec(merge_text_spec(text_only(regions_view(r.0@)), seq![]), width as int, height as int);
            &&& r.1@.len() == kept.len()
            &&& forall|i: int| 0 <= i < r.1@.len() ==> text_region_of(kept[i], #[trigger] r.1@[i])
        }),
{
    let regions = merge_slice_regions(filter_and_fix_regions(detections, width, height), height);
    let blocks = detections_to_text_blocks(width, height, &regions);
    (regions, blocks)
}

} // verus!
