//! Post-processing for the RT-DETR comic text & bubble detector: clamping,
//! merging duplicate boxes across image slices, and turning text detections
//! into text regions.
use vstd::prelude::*;
use crate::blocks::TextRegion;
use crate::geometry::{
    BBox, SUBPIXELS, area, intersection, intersection_spec, iou_at_least, iou_reaches, max_int,
    min_int, span,
};

verus! {

/// Boxes at or below this many pixels on a side are dropped.
pub const MIN_SIDE_PIXELS: i32 = 5;

/// One detection. `score` is in parts per million, `bbox` in sub-pixels.
#[derive(Debug)]
pub struct ComicTextBubbleRegion {
    pub label_id: usize,
    pub label: String,
    pub score: u32,
    pub bbox: BBox,
}

pub struct RegionView {
    pub label_id: usize,
    pub label: Seq<char>,
    pub score: u32,
    pub bbox: BBox,
}

impl View for ComicTextBubbleRegion {
    type V = RegionView;

    open spec fn view(&self) -> RegionView {
        RegionView { label_id: self.label_id, label: self.label@, score: self.score, bbox: self.bbox }
    }
}

pub open spec fn regions_view(s: Seq<ComicTextBubbleRegion>) -> Seq<RegionView> {
    s.map_values(|r: ComicTextBubbleRegion| r@)
}

impl ComicTextBubbleRegion {
    /// Label 0 is a balloon.
    pub fn is_bubble(&self) -> (r: bool)
        ensures
            r == (self.label_id == 0),
    {
        self.label_id == 0
    }

    /// Labels 1 and 2 are text in a balloon and free text.
    pub fn is_text(&self) -> (r: bool)
        ensures
            r == (self.label_id == 1 || self.label_id == 2),
    {
        self.label_id == 1 || self.label_id == 2
    }

    /// A copy of the detection.
    pub fn duplicate(&self) -> (r: ComicTextBubbleRegion)
        ensures
            r@ == self@,
    {
        ComicTextBubbleRegion {
            label_id: self.label_id,
            label: self.label.clone(),
            score: self.score,
            bbox: self.bbox,
        }
    }
}

/// `c` clamped to `[0, limit]` pixels.
pub open spec fn clamp_coord(c: int, limit: int) -> int {
    if c < 0 {
        0
    } else if c > limit * SUBPIXELS {
        limit * SUBPIXELS
    } else {
        c
    }
}

pub open spec fn clamp_box_spec(b: BBox, width: int, height: int) -> BBox {
    BBox {
        x1: clamp_coord(b.x1 as int, width) as i32,
        y1: clamp_coord(b.y1 as int, height) as i32,
        x2: clamp_coord(b.x2 as int, width) as i32,
        y2: clamp_coord(b.y2 as int, height) as i32,
    }
}

fn clamp_coord_exec(c: i32, limit: u32) -> (r: i32)
    requires
        limit <= 0x7f_ffff,
    ensures
        r == clamp_coord(c as int, limit as int),
{
    let cap = (limit as i32) * 256;
    if c < 0 {
        0
    } else if c > cap {
        cap
    } else {
        c
    }
}

/// Clamp every coordinate to the image, in pixels.
pub fn clamp_box(bbox: BBox, image_width: u32, image_height: u32) -> (r: BBox)
    requires
        image_width <= 0x7f_ffff,
        image_height <= 0x7f_ffff,
    ensures
        r == clamp_box_spec(bbox, image_width as int, image_height as int),
{
    BBox {
        x1: clamp_coord_exec(bbox.x1, image_width),
        y1: clamp_coord_exec(bbox.y1, image_height),
        x2: clamp_coord_exec(bbox.x2, image_width),
        y2: clamp_coord_exec(bbox.y2, image_height),
    }
}

/// Area, zero for an inverted box.
pub fn box_area(bbox: BBox) -> (r: u128)
    ensures
        r == bbox.area_spec(),
        r <= 0x1_0000_0000_0000_0000,
{
    area(bbox)
}

/// IoU of two boxes reaches `ppm`.
pub fn rectangles_overlap(rect1: BBox, rect2: BBox, ppm: u32) -> (r: bool)
    ensures
        r == iou_reaches(rect1, rect2, ppm as int),
{
    iou_at_least(rect1, rect2, ppm)
}

/// `inner` is non-empty, no larger than `outer`, and at least `ppm` of it lies
/// inside `outer`.
pub open spec fn mostly_contained_spec(outer: BBox, inner: BBox, ppm: int) -> bool {
    if inner.area_spec() <= 0 || outer.area_spec() < inner.area_spec() {
        false
    } else {
        intersection_spec(outer, inner) * 1_000_000 >= ppm * inner.area_spec()
    }
}

proof fn lemma_ppm_product(p: int, a: int)
    requires
        0 <= p <= 0x1_0000_0000,
        0 <= a <= 0x1_0000_0000_0000_0000,
    ensures
        0 <= p * a <= 0x1_0000_0000 * 0x1_0000_0000_0000_0000,
{
    assert(0 <= p * a <= 0x1_0000_0000 * 0x1_0000_0000_0000_0000) by (nonlinear_arith)
        requires
            0 <= p <= 0x1_0000_0000,
            0 <= a <= 0x1_0000_0000_0000_0000,
    ;
}

/// `inner` is non-empty, no larger than `outer`, and at least `ppm` of it lies
/// inside `outer`.
pub fn is_mostly_contained(outer: BBox, inner: BBox, ppm: u32) -> (r: bool)
    ensures
        r == mostly_contained_spec(outer, inner, ppm as int),
{
    let inner_area = area(inner);
    if inner_area == 0 || area(outer) < inner_area {
        return false;
    }
    proof {
        lemma_ppm_product(ppm as int, inner_area as int);
    }
    intersection(outer, inner) * 1_000_000 >= (ppm as u128) * inner_area
}

/// Whether the smaller box lies at least `ppm` inside the other, and if so
/// whether the first box is the larger (or equal) one.
pub open spec fn contained_relation_spec(b1: BBox, b2: BBox, ppm: int) -> (bool, bool) {
    let a1 = b1.area_spec();
    let a2 = b2.area_spec();
    if a1 <= 0 || a2 <= 0 {
        (false, false)
    } else if intersection_spec(b1, b2) * 1_000_000 < ppm * min_int(a1, a2) {
        (false, false)
    } else {
        (true, a1 >= a2)
    }
}

/// Whether the smaller box lies at least `ppm` inside the other, and if so
/// whether the first box is the larger (or equal) one.
pub fn contained_relation(box1: BBox, box2: BBox, ppm: u32) -> (r: (bool, bool))
    ensures
        r == contained_relation_spec(box1, box2, ppm as int),
{
    let a1 = area(box1);
    let a2 = area(box2);
    if a1 == 0 || a2 == 0 {
        return (false, false);
    }
    let smaller = if a1 <= a2 {
        a1
    } else {
        a2
    };
    proof {
        lemma_ppm_product(ppm as int, smaller as int);
    }
    if intersection(box1, box2) * 1_000_000 < (ppm as u128) * smaller {
        return (false, false);
    }
    (true, a1 >= a2)
}

pub open spec fn merge_boxes_spec(b1: BBox, b2: BBox) -> BBox {
    BBox {
        x1: min_int(b1.x1 as int, b2.x1 as int) as i32,
        y1: min_int(b1.y1 as int, b2.y1 as int) as i32,
        x2: max_int(b1.x2 as int, b2.x2 as int) as i32,
        y2: max_int(b1.y2 as int, b2.y2 as int) as i32,
    }
}

/// The smallest box holding both.
pub fn merge_boxes(box1: BBox, box2: BBox) -> (r: BBox)
    ensures
        r == merge_boxes_spec(box1, box2),
{
    BBox {
        x1: if box1.x1 <= box2.x1 { box1.x1 } else { box2.x1 },
        y1: if box1.y1 <= box2.y1 { box1.y1 } else { box2.y1 },
        x2: if box1.x2 >= box2.x2 { box1.x2 } else { box2.x2 },
        y2: if box1.y2 >= box2.y2 { box1.y2 } else { box2.y2 },
    }
}

/// Clamp to the image and keep the regions more than `MIN_SIDE_PIXELS` on
/// both sides.
pub open spec fn filter_fix_spec(s: Seq<RegionView>, width: int, height: int) -> Seq<RegionView>
    decreases s.len(),
{
    if s.len() == 0 {
        seq![]
    } else {
        let rest = filter_fix_spec(s.drop_last(), width, height);
        let b = clamp_box_spec(s.last().bbox, width, height);
        if b.x2 - b.x1 <= MIN_SIDE_PIXELS * SUBPIXELS || b.y2 - b.y1 <= MIN_SIDE_PIXELS * SUBPIXELS {
            rest
        } else {
            rest.push(RegionView { bbox: b, ..s.last() })
        }
    }
}

/// Clamp every region to the image and drop the ones that end up
/// `MIN_SIDE_PIXELS` or thinner.
pub fn filter_and_fix_regions(regions: Vec<ComicTextBubbleRegion>, image_width: u32, image_height: u32) -> (r: Vec<
    ComicTextBubbleRegion,
>)
    requires
        image_width <= 0x7f_ffff,
        image_height <= 0x7f_ffff,
    ensures
        regions_view(r@) == filter_fix_spec(regions_view(regions@), image_width as int, image_height as int),
{
    let ghost input = regions_view(regions@);
    let mut out: Vec<ComicTextBubbleRegion> = Vec::new();
    let mut i: usize = 0;
    while i < regions.len()
        invariant
            i <= regions@.len(),
            input == regions_view(regions@),
            input.len() == regions@.len(),
            regions_view(out@) == filter_fix_spec(input.take(i as int), image_width as int, image_height as int),
            image_width <= 0x7f_ffff,
            image_height <= 0x7f_ffff,
        decreases regions.len() - i,
    {
        let ghost out_before = out@;
        proof {
            assert(input.take(i + 1).drop_last() == input.take(i as int));
            assert(input.take(i + 1).last() == input[i as int]);
            assert(input[i as int] == regions@[i as int]@);
        }
        let b = clamp_box(regions[i].bbox, image_width, image_height);
        if !((b.x2 as i64) - (b.x1 as i64) <= 5 * 256 || (b.y2 as i64) - (b.y1 as i64) <= 5 * 256) {
            let mut r = regions[i].duplicate();
            r.bbox = b;
            out.push(r);
            proof {
                assert forall|j: int| 0 <= j < out@.len() implies #[trigger] regions_view(out@)[j]
                    == filter_fix_spec(input.take(i + 1), image_width as int, image_height as int)[j] by {
                    if j < out_before.len() {
                        assert(out@[j] == out_before[j]);
                        assert(regions_view(out_before)[j] == out_before[j]@);
                    }
                }
                assert(regions_view(out@) =~= filter_fix_spec(input.take(i + 1), image_width as int, image_height as int));
            }
        }
        i += 1;
    }
    proof {
        assert(input.take(regions@.len() as int) == input);
    }
    out
}

// ---------------------------------------------------------------------------
// Merging overlapping text boxes
// ---------------------------------------------------------------------------

/// Two text boxes describe one block: IoU of one half, or either box at least
/// 30% inside the other (and no larger).
pub open spec fn text_overlap(a: BBox, b: BBox) -> bool {
    ||| iou_reaches(a, b, 500_000)
    ||| mostly_contained_spec(a, b, 300_000)
    ||| mostly_contained_spec(b, a, 300_000)
}

pub open spec fn max_score(a: u32, b: u32) -> u32 {
    if a >= b {
        a
    } else {
        b
    }
}

/// `c` grown to cover `r`, keeping the better score.
pub open spec fn absorb_text(c: RegionView, r: RegionView) -> RegionView {
    RegionView { bbox: merge_boxes_spec(c.bbox, r.bbox), score: max_score(c.score, r.score), ..c }
}

/// `Vec::swap_remove` on a sequence.
pub open spec fn swap_removed<A>(s: Seq<A>, i: int) -> Seq<A> {
    s.update(i, s.last()).drop_last()
}

/// Sweep the remaining regions from `index`, absorbing every one that
/// overlaps the (growing) candidate and removing it by swap-removal.
pub open spec fn sweep(c: RegionView, rs: Seq<RegionView>, index: int) -> (RegionView, Seq<RegionView>)
    decreases rs.len() - index,
{
    if index < 0 || index >= rs.len() {
        (c, rs)
    } else if text_overlap(c.bbox, rs[index].bbox) {
        sweep(absorb_text(c, rs[index]), swap_removed(rs, index), index)
    } else {
        sweep(c, rs, index + 1)
    }
}

/// A sweep never grows the region list.
pub proof fn lemma_sweep_len(c: RegionView, rs: Seq<RegionView>, index: int)
    ensures
        sweep(c, rs, index).1.len() <= rs.len(),
    decreases rs.len() - index,
{
    if index < 0 || index >= rs.len() {
    } else if text_overlap(c.bbox, rs[index].bbox) {
        lemma_sweep_len(absorb_text(c, rs[index]), swap_removed(rs, index), index);
    } else {
        lemma_sweep_len(c, rs, index + 1);
    }
}

/// Pop the last region, sweep the rest into it, record it, repeat.
pub open spec fn merge_text_spec(rs: Seq<RegionView>, merged: Seq<RegionView>) -> Seq<RegionView>
    decreases rs.len(),
{
    if rs.len() == 0 {
        merged
    } else {
        let (c, rest) = sweep(rs.last(), rs.drop_last(), 0);
        proof {
            lemma_sweep_len(rs.last(), rs.drop_last(), 0);
        }
        merge_text_spec(rest, merged.push(c))
    }
}

fn text_overlap_exec(a: BBox, b: BBox) -> (r: bool)
    ensures
        r == text_overlap(a, b),
{
    rectangles_overlap(a, b, 500_000) || is_mostly_contained(a, b, 300_000) || is_mostly_contained(b, a, 300_000)
}

/// Merge text boxes that describe one block into their union, keeping the
/// best score.
pub fn merge_text_regions(regions: Vec<ComicTextBubbleRegion>) -> (r: Vec<ComicTextBubbleRegion>)
    ensures
        regions_view(r@) == merge_text_spec(regions_view(regions@), seq![]),
{
    let mut regions = regions;
    let ghost target = merge_text_spec(regions_view(regions@), seq![]);
    let mut merged: Vec<ComicTextBubbleRegion> = Vec::new();
    proof {
        assert(regions_view(merged@) =~= seq![]);
    }
    while regions.len() > 0
        invariant
            merge_text_spec(regions_view(regions@), regions_view(merged@)) == target,
        decreases regions.len(),
    {
        let ghost rs = regions_view(regions@);
        let ghost before = regions@;
        let mut candidate = regions.pop().unwrap();
        proof {
            assert(regions_view(regions@) =~= rs.drop_last()) by {
                assert forall|j: int| 0 <= j < regions@.len() implies #[trigger] regions_view(regions@)[j] == rs.drop_last()[j] by {
                    assert(regions@[j] == before[j]);
                }
            }
            assert(candidate@ == rs.last());
        }
        let ghost swept = sweep(candidate@, regions_view(regions@), 0);
        let ghost n = regions@.len();
        let mut index: usize = 0;
        while index < regions.len()
            invariant
                sweep(candidate@, regions_view(regions@), index as int) == swept,
                regions@.len() <= n,
            decreases regions.len() - index,
        {
            let other_bbox = regions[index].bbox;
            proof {
                assert(regions_view(regions@)[index as int] == regions@[index as int]@);
            }
            if text_overlap_exec(candidate.bbox, other_bbox) {
                let ghost rv = regions_view(regions@);
                let ghost old_regions = regions@;
                let other_score = regions[index].score;
                candidate.bbox = merge_boxes(candidate.bbox, other_bbox);
                candidate.score = if candidate.score >= other_score { candidate.score } else { other_score };
                regions.swap_remove(index);
                proof {
                    assert(regions_view(regions@) =~= swapped_view(rv, index as int)) by {
                        assert forall|j: int| 0 <= j < regions@.len() implies #[trigger] regions_view(regions@)[j] == swapped_view(rv, index as int)[j] by {
                            if j == index {
                                assert(regions@[j] == old_regions.last());
                                assert(rv[rv.len() - 1] == old_regions[old_regions.len() - 1]@);
                            } else {
                                assert(regions@[j] == old_regions[j]);
                                assert(rv[j] == old_regions[j]@);
                            }
                        }
                    }
                }
            } else {
                index += 1;
            }
        }
        proof {
            assert(swept == (candidate@, regions_view(regions@)));
        }
        let ghost mv = regions_view(merged@);
        let ghost merged_before = merged@;
        merged.push(candidate);
        proof {
            assert(regions_view(merged@) =~= mv.push(swept.0)) by {
                assert forall|j: int| 0 <= j < merged@.len() implies #[trigger] regions_view(merged@)[j] == mv.push(swept.0)[j] by {
                    if j < merged_before.len() {
                        assert(merged@[j] == merged_before[j]);
                    }
                }
            }
        }
    }
    merged
}

pub open spec fn swapped_view(rv: Seq<RegionView>, i: int) -> Seq<RegionView> {
    swap_removed(rv, i)
}

// ---------------------------------------------------------------------------
// Merging detections across slices
// ---------------------------------------------------------------------------

pub open spec fn abs_int(v: int) -> int {
    if v >= 0 {
        v
    } else {
        -v
    }
}

/// A side, at least one pixel.
pub open spec fn side_min_pixel(lo: int, hi: int) -> int {
    if hi - lo >= SUBPIXELS {
        hi - lo
    } else {
        SUBPIXELS as int
    }
}

/// Two same-label boxes are halves of one object cut by a slice border: they
/// sit within a tenth of the taller box (and of the page) vertically, overlap
/// horizontally by more than a fifth of the narrower one, are within a factor
/// of 10/3 in area, and have left and right edges within half the wider box.
pub open spec fn stacked(b1: BBox, b2: BBox, image_height: int) -> bool {
    let a1 = b1.area_spec();
    let a2 = b2.area_spec();
    let w1 = side_min_pixel(b1.x1 as int, b1.x2 as int);
    let h1 = side_min_pixel(b1.y1 as int, b1.y2 as int);
    let w2 = side_min_pixel(b2.x1 as int, b2.x2 as int);
    let h2 = side_min_pixel(b2.y1 as int, b2.y2 as int);
    let y_dist = min_int(abs_int(b1.y1 - b2.y2), abs_int(b1.y2 - b2.y1));
    let x_overlap = if min_int(b1.x2 as int, b2.x2 as int) - max_int(b1.x1 as int, b2.x1 as int) > 0 {
        min_int(b1.x2 as int, b2.x2 as int) - max_int(b1.x1 as int, b2.x1 as int)
    } else {
        0
    };
    &&& 10 * y_dist < min_int(image_height * SUBPIXELS, max_int(h1, h2))
    &&& 5 * x_overlap > min_int(w1, w2)
    &&& 10 * min_int(a1, a2) > 3 * max_int(a1, a2)
    &&& 2 * abs_int(b1.x1 - b2.x1) < max_int(w1, w2)
    &&& 2 * abs_int(b1.x2 - b2.x2) < max_int(w1, w2)
}

/// Whether the region at `b2` folds into the one at `b1`, and the box the
/// survivor takes: the container when one box is 85% inside the other, the
/// larger on IoU of one half, the union of two stacked halves when that union
/// is at most three times the larger area.
pub open spec fn slice_merge(b1: BBox, b2: BBox, image_height: int) -> Option<BBox> {
    let (contained, contains_first) = contained_relation_spec(b1, b2, 850_000);
    if contained {
        Some(if contains_first { b1 } else { b2 })
    } else if iou_reaches(b1, b2, 500_000) {
        Some(if b2.area_spec() > b1.area_spec() { b2 } else { b1 })
    } else if stacked(b1, b2, image_height) && merge_boxes_spec(b1, b2).area_spec() <= 3 * max_int(
        b1.area_spec(),
        b2.area_spec(),
    ) {
        Some(merge_boxes_spec(b1, b2))
    } else {
        None
    }
}

/// Compare region `index` against every later region from `compare` on,
/// folding same-label duplicates into it by swap-removal.
pub open spec fn slice_sweep(rs: Seq<RegionView>, index: int, compare: int, image_height: int) -> Seq<RegionView>
    decreases rs.len() - compare,
{
    if index < 0 || compare <= index || compare >= rs.len() {
        rs
    } else if rs[index].label_id != rs[compare].label_id {
        slice_sweep(rs, index, compare + 1, image_height)
    } else {
        match slice_merge(rs[index].bbox, rs[compare].bbox, image_height) {
            Some(b) => {
                let grown = RegionView { bbox: b, score: max_score(rs[index].score, rs[compare].score), ..rs[index] };
                slice_sweep(swap_removed(rs.update(index, grown), compare), index, compare, image_height)
            },
            None => slice_sweep(rs, index, compare + 1, image_height),
        }
    }
}

/// A slice sweep never grows the region list.
pub proof fn lemma_slice_sweep_len(rs: Seq<RegionView>, index: int, compare: int, image_height: int)
    ensures
        slice_sweep(rs, index, compare, image_height).len() <= rs.len(),
        0 <= index < compare <= rs.len() ==> slice_sweep(rs, index, compare, image_height).len() > index,
        !(0 <= index < compare <= rs.len()) ==> slice_sweep(rs, index, compare, image_height) == rs,
    decreases rs.len() - compare,
{
    if index < 0 || compare <= index || compare >= rs.len() {
    } else if rs[index].label_id != rs[compare].label_id {
        lemma_slice_sweep_len(rs, index, compare + 1, image_height);
    } else {
        match slice_merge(rs[index].bbox, rs[compare].bbox, image_height) {
            Some(b) => {
                let grown = RegionView { bbox: b, score: max_score(rs[index].score, rs[compare].score), ..rs[index] };
                lemma_slice_sweep_len(swap_removed(rs.update(index, grown), compare), index, compare, image_height);
            },
            None => lemma_slice_sweep_len(rs, index, compare + 1, image_height),
        }
    }
}

/// Every region in turn absorbs its later same-label duplicates.
pub open spec fn merge_slices_spec(rs: Seq<RegionView>, index: int, image_height: int) -> Seq<RegionView>
    decreases rs.len() - index,
{
    if index < 0 || index >= rs.len() {
        rs
    } else {
        let next = slice_sweep(rs, index, index + 1, image_height);
        proof {
            lemma_slice_sweep_len(rs, index, index + 1, image_height);
        }
        merge_slices_spec(next, index + 1, image_height)
    }
}

/// Some region carries label `l`.
pub open spec fn has_label(s: Seq<RegionView>, l: usize) -> bool {
    exists|k: int| 0 <= k < s.len() && #[trigger] s[k].label_id == l
}

proof fn lemma_slice_sweep_labels(rs: Seq<RegionView>, index: int, compare: int, image_height: int, l: usize)
    ensures
        has_label(slice_sweep(rs, index, compare, image_height), l) == has_label(rs, l),
        slice_sweep(rs, index, compare, image_height).len() <= rs.len(),
    decreases rs.len() - compare,
{
    lemma_slice_sweep_len(rs, index, compare, image_height);
    if index < 0 || compare <= index || compare >= rs.len() {
    } else if rs[index].label_id != rs[compare].label_id {
        lemma_slice_sweep_labels(rs, index, compare + 1, image_height, l);
    } else {
        match slice_merge(rs[index].bbox, rs[compare].bbox, image_height) {
            Some(b) => {
                let grown = RegionView { bbox: b, score: max_score(rs[index].score, rs[compare].score), ..rs[index] };
                let next = swap_removed(rs.update(index, grown), compare);
                let n = rs.len() - 1;
                assert(next.len() == n);
                assert(next[index] == grown);
                assert forall|k: int| 0 <= k < next.len() && k != index implies #[trigger] next[k] == (if k == compare {
                    rs[n]
                } else {
                    rs[k]
                }) by {}
                if has_label(rs, l) {
                    let k = choose|k: int| 0 <= k < rs.len() && #[trigger] rs[k].label_id == l;
                    if k == index || k == compare {
                        assert(next[index].label_id == l);
                    } else if k == n {
                        assert(next[compare].label_id == l);
                    } else {
                        assert(next[k].label_id == l);
                    }
                }
                if has_label(next, l) {
                    let k = choose|k: int| 0 <= k < next.len() && #[trigger] next[k].label_id == l;
                    if k == index {
                        assert(rs[index].label_id == l);
                    } else if k == compare {
                        assert(rs[n].label_id == l);
                    } else {
                        assert(rs[k].label_id == l);
                    }
                }
                lemma_slice_sweep_labels(next, index, compare, image_height, l);
            },
            None => lemma_slice_sweep_labels(rs, index, compare + 1, image_height, l),
        }
    }
}

proof fn lemma_merge_slices_labels(rs: Seq<RegionView>, index: int, image_height: int, l: usize)
    ensures
        has_label(merge_slices_spec(rs, index, image_height), l) == has_label(rs, l),
        merge_slices_spec(rs, index, image_height).len() <= rs.len(),
    decreases rs.len() - index,
{
    if 0 <= index < rs.len() {
        let next = slice_sweep(rs, index, index + 1, image_height);
        lemma_slice_sweep_labels(rs, index, index + 1, image_height, l);
        lemma_slice_sweep_len(rs, index, index + 1, image_height);
        lemma_merge_slices_labels(next, index + 1, image_height, l);
    }
}

/// Slice merging folds regions only into regions of their own label: it never
/// adds regions, and a label is present afterwards exactly when it was
/// present before.
pub proof fn law_merge_slices_per_label(rs: Seq<RegionView>, image_height: int)
    ensures
        merge_slices_spec(rs, 0, image_height).len() <= rs.len(),
        forall|l: usize| #[trigger] has_label(merge_slices_spec(rs, 0, image_height), l) == has_label(rs, l),
{
    assert forall|l: usize| #[trigger] has_label(merge_slices_spec(rs, 0, image_height), l) == has_label(rs, l) by {
        lemma_merge_slices_labels(rs, 0, image_height, l);
    }
    if rs.len() > 0 {
        lemma_merge_slices_labels(rs, 0, image_height, 0);
    }
}

/// `inner` lies inside `outer`.
pub open spec fn box_within(inner: BBox, outer: BBox) -> bool {
    &&& outer.x1 <= inner.x1
    &&& outer.y1 <= inner.y1
    &&& inner.x2 <= outer.x2
    &&& inner.y2 <= outer.y2
}

proof fn lemma_span_grows(lo1: int, hi1: int, lo2: int, hi2: int)
    requires
        lo2 <= lo1,
        hi1 <= hi2,
    ensures
        0 <= span(lo1, hi1) <= span(lo2, hi2),
{
}

proof fn lemma_product_grows(a: int, b: int, c: int, d: int)
    requires
        0 <= a <= c,
        0 <= b <= d,
    ensures
        0 <= a * b <= c * d,
{
    assert(0 <= a * b <= c * d) by (nonlinear_arith)
        requires 0 <= a <= c, 0 <= b <= d;
}

/// A box that grows keeps at least the overlap and the area it had.
proof fn lemma_growth_keeps_overlap(c: BBox, cur: BBox, r: BBox)
    requires
        box_within(c, cur),
    ensures
        intersection_spec(c, r) <= intersection_spec(cur, r),
        c.area_spec() <= cur.area_spec(),
{
    lemma_span_grows(
        max_int(c.x1 as int, r.x1 as int), min_int(c.x2 as int, r.x2 as int),
        max_int(cur.x1 as int, r.x1 as int), min_int(cur.x2 as int, r.x2 as int),
    );
    lemma_span_grows(
        max_int(c.y1 as int, r.y1 as int), min_int(c.y2 as int, r.y2 as int),
        max_int(cur.y1 as int, r.y1 as int), min_int(cur.y2 as int, r.y2 as int),
    );
    lemma_product_grows(
        span(max_int(c.x1 as int, r.x1 as int), min_int(c.x2 as int, r.x2 as int)),
        span(max_int(c.y1 as int, r.y1 as int), min_int(c.y2 as int, r.y2 as int)),
        span(max_int(cur.x1 as int, r.x1 as int), min_int(cur.x2 as int, r.x2 as int)),
        span(max_int(cur.y1 as int, r.y1 as int), min_int(cur.y2 as int, r.y2 as int)),
    );
    lemma_span_grows(c.x1 as int, c.x2 as int, cur.x1 as int, cur.x2 as int);
    lemma_span_grows(c.y1 as int, c.y2 as int, cur.y1 as int, cur.y2 as int);
    lemma_product_grows(c.width_spec(), c.height_spec(), cur.width_spec(), cur.height_spec());
}

/// A box 30% or more inside `c` (and no larger) is 30% or more inside any box
/// that holds `c`.
proof fn lemma_contained_stays(c: BBox, cur: BBox, r: BBox)
    requires
        box_within(c, cur),
        mostly_contained_spec(c, r, 300_000),
    ensures
        mostly_contained_spec(cur, r, 300_000),
{
    lemma_growth_keeps_overlap(c, cur, r);
}

proof fn lemma_sweep_absorbs(c: BBox, cur: RegionView, rs: Seq<RegionView>, index: int)
    requires
        0 <= index,
        box_within(c, cur.bbox),
        forall|j: int| 0 <= j < index && j < rs.len() ==> !mostly_contained_spec(c, #[trigger] rs[j].bbox, 300_000),
    ensures
        box_within(c, sweep(cur, rs, index).0.bbox),
        forall|j: int| 0 <= j < sweep(cur, rs, index).1.len() ==> !mostly_contained_spec(c, #[trigger] sweep(cur, rs, index).1[j].bbox, 300_000),
    decreases rs.len() - index,
{
    if index >= rs.len() {
    } else if text_overlap(cur.bbox, rs[index].bbox) {
        let grown = absorb_text(cur, rs[index]);
        let next = swap_removed(rs, index);
        assert forall|j: int| 0 <= j < index && j < next.len() implies !mostly_contained_spec(c, #[trigger] next[j].bbox, 300_000) by {
            assert(next[j] == rs[j]);
        }
        lemma_sweep_absorbs(c, grown, next, index);
    } else {
        if mostly_contained_spec(c, rs[index].bbox, 300_000) {
            lemma_contained_stays(c, cur.bbox, rs[index].bbox);
        }
        lemma_sweep_absorbs(c, cur, rs, index + 1);
    }
}

/// A sweep that removes nothing leaves the regions as they were.
proof fn lemma_sweep_keeps_all(cur: RegionView, rs: Seq<RegionView>, index: int)
    ensures
        sweep(cur, rs, index).1.len() == rs.len() ==> sweep(cur, rs, index).1 == rs,
    decreases rs.len() - index,
{
    if index < 0 || index >= rs.len() {
    } else if text_overlap(cur.bbox, rs[index].bbox) {
        lemma_sweep_len(absorb_text(cur, rs[index]), swap_removed(rs, index), index);
    } else {
        lemma_sweep_keeps_all(cur, rs, index + 1);
    }
}

proof fn lemma_merge_text_len(rs: Seq<RegionView>, merged: Seq<RegionView>)
    ensures
        merge_text_spec(rs, merged).len() <= merged.len() + rs.len(),
    decreases rs.len(),
{
    if rs.len() > 0 {
        let (c, rest) = sweep(rs.last(), rs.drop_last(), 0);
        lemma_sweep_len(rs.last(), rs.drop_last(), 0);
        lemma_merge_text_len(rest, merged.push(c));
    }
}

/// Text merging takes the last-proposed box as its first candidate, and no
/// box lying 30% or more inside it (and no larger) survives on its own: the
/// candidate grows to hold the last box, every such box is merged into it,
/// and so the boxes come out fewer than they went in.
pub proof fn law_text_merge_absorbs_nested(rs: Seq<RegionView>)
    requires
        rs.len() > 0,
    ensures
        box_within(rs.last().bbox, merge_text_spec(rs, seq![])[0].bbox),
        forall|j: int| 0 <= j < sweep(rs.last(), rs.drop_last(), 0).1.len()
            ==> !mostly_contained_spec(rs.last().bbox, #[trigger] sweep(rs.last(), rs.drop_last(), 0).1[j].bbox, 300_000),
        (exists|k: int| 0 <= k < rs.len() - 1 && mostly_contained_spec(rs.last().bbox, #[trigger] rs[k].bbox, 300_000))
            ==> merge_text_spec(rs, seq![]).len() < rs.len(),
{
    let c = rs.last();
    let d = rs.drop_last();
    let (cand, rest) = sweep(c, d, 0);
    lemma_sweep_absorbs(c.bbox, c, d, 0);
    lemma_sweep_len(c, d, 0);
    lemma_sweep_keeps_all(c, d, 0);
    lemma_merge_text_len(rest, seq![cand]);
    if rest.len() > 0 {
        let m = merge_text_spec(rest, seq![cand]);
        lemma_merge_text_prefix(rest, seq![cand]);
    } else {
        assert(merge_text_spec(rest, seq![cand]) == seq![cand]);
    }
    if exists|k: int| 0 <= k < rs.len() - 1 && mostly_contained_spec(c.bbox, #[trigger] rs[k].bbox, 300_000) {
        let k = choose|k: int| 0 <= k < rs.len() - 1 && mostly_contained_spec(c.bbox, #[trigger] rs[k].bbox, 300_000);
        if rest.len() == d.len() {
            assert(rest == d);
            assert(d[k] == rs[k]);
            assert(!mostly_contained_spec(c.bbox, rest[k].bbox, 300_000));
        }
    }
}

/// Merging keeps what was already merged, in front.
proof fn lemma_merge_text_prefix(rs: Seq<RegionView>, merged: Seq<RegionView>)
    ensures
        merge_text_spec(rs, merged).len() >= merged.len(),
        forall|i: int| 0 <= i < merged.len() ==> #[trigger] merge_text_spec(rs, merged)[i] == merged[i],
    decreases rs.len(),
{
    if rs.len() > 0 {
        let (c, rest) = sweep(rs.last(), rs.drop_last(), 0);
        lemma_sweep_len(rs.last(), rs.drop_last(), 0);
        lemma_merge_text_prefix(rest, merged.push(c));
        assert forall|i: int| 0 <= i < merged.len() implies #[trigger] merge_text_spec(rs, merged)[i] == merged[i] by {
            assert(merged.push(c)[i] == merged[i]);
        }
    }
}

/// Two text boxes: the later one is the candidate, and the earlier one is
/// merged into it exactly when their IoU reaches one half or either lies 30%
/// or more inside the other (and is no larger). Merged, they give one box,
/// the smallest holding both, with the better score; otherwise both come out
/// unchanged, the later first.
pub proof fn law_text_merge_pair(a: RegionView, b: RegionView)
    ensures
        ({
            let out = merge_text_spec(seq![a, b], seq![]);
            if iou_reaches(b.bbox, a.bbox, 500_000) || mostly_contained_spec(b.bbox, a.bbox, 300_000)
                || mostly_contained_spec(a.bbox, b.bbox, 300_000) {
                &&& out.len() == 1
                &&& out[0].bbox.x1 == min_int(a.bbox.x1 as int, b.bbox.x1 as int)
                &&& out[0].bbox.y1 == min_int(a.bbox.y1 as int, b.bbox.y1 as int)
                &&& out[0].bbox.x2 == max_int(a.bbox.x2 as int, b.bbox.x2 as int)
                &&& out[0].bbox.y2 == max_int(a.bbox.y2 as int, b.bbox.y2 as int)
                &&& out[0].score == max_int(a.score as int, b.score as int)
                &&& out[0].label_id == b.label_id
            } else {
                out == seq![b, a]
            }
        }),
{
    let rs = seq![a, b];
    assert(rs.last() == b);
    assert(rs.drop_last() =~= seq![a]);
    let s1 = sweep(b, seq![a], 0);
    if text_overlap(b.bbox, a.bbox) {
        let g = absorb_text(b, a);
        assert(swap_removed(seq![a], 0) =~= Seq::<RegionView>::empty());
        assert(sweep(g, Seq::<RegionView>::empty(), 0) == (g, Seq::<RegionView>::empty()));
        assert(s1 == (g, Seq::<RegionView>::empty()));
        assert(Seq::<RegionView>::empty().push(g) =~= seq![g]);
        assert(merge_text_spec(Seq::<RegionView>::empty(), seq![g]) == seq![g]);
        assert(merge_text_spec(rs, seq![]) == merge_text_spec(Seq::<RegionView>::empty(), Seq::<RegionView>::empty().push(g)));
    } else {
        assert(sweep(b, seq![a], 1) == (b, seq![a]));
        assert(s1 == (b, seq![a]));
        let s2 = sweep(a, Seq::<RegionView>::empty(), 0);
        assert(seq![a].drop_last() =~= Seq::<RegionView>::empty());
        assert(seq![a].last() == a);
        assert(s2 == (a, Seq::<RegionView>::empty()));
        assert(Seq::<RegionView>::empty().push(b) =~= seq![b]);
        assert(seq![b].push(a) =~= seq![b, a]);
        assert(merge_text_spec(Seq::<RegionView>::empty(), seq![b, a]) == seq![b, a]);
        assert(merge_text_spec(seq![a], seq![b]) == merge_text_spec(Seq::<RegionView>::empty(), seq![b].push(a)));
        assert(merge_text_spec(rs, seq![]) == merge_text_spec(seq![a], Seq::<RegionView>::empty().push(b)));
    }
}

/// Two same-label regions where neither is 85% inside the other and their IoU
/// is below one half, but they are the two halves of one object cut by a
/// strip border (`stacked`) and their union is at most three times the larger
/// area: they fold into one region whose box is the smallest holding both,
/// with the better score.
pub proof fn law_slice_merge_joins_halves(a: RegionView, b: RegionView, image_height: int)
    requires
        a.label_id == b.label_id,
        !contained_relation_spec(a.bbox, b.bbox, 850_000).0,
        !iou_reaches(a.bbox, b.bbox, 500_000),
        stacked(a.bbox, b.bbox, image_height),
        ({
            let u = BBox {
                x1: min_int(a.bbox.x1 as int, b.bbox.x1 as int) as i32,
                y1: min_int(a.bbox.y1 as int, b.bbox.y1 as int) as i32,
                x2: max_int(a.bbox.x2 as int, b.bbox.x2 as int) as i32,
                y2: max_int(a.bbox.y2 as int, b.bbox.y2 as int) as i32,
            };
            u.area_spec() <= 3 * max_int(a.bbox.area_spec(), b.bbox.area_spec())
        }),
    ensures
        ({
            let out = merge_slices_spec(seq![a, b], 0, image_height);
            &&& out.len() == 1
            &&& out[0].label_id == a.label_id
            &&& out[0].bbox.x1 == min_int(a.bbox.x1 as int, b.bbox.x1 as int)
            &&& out[0].bbox.y1 == min_int(a.bbox.y1 as int, b.bbox.y1 as int)
            &&& out[0].bbox.x2 == max_int(a.bbox.x2 as int, b.bbox.x2 as int)
            &&& out[0].bbox.y2 == max_int(a.bbox.y2 as int, b.bbox.y2 as int)
            &&& box_within(a.bbox, out[0].bbox)
            &&& box_within(b.bbox, out[0].bbox)
            &&& out[0].score == max_int(a.score as int, b.score as int)
        }),
{
    let rs = seq![a, b];
    let bx = slice_merge(a.bbox, b.bbox, image_height);
    assert(bx == Some(merge_boxes_spec(a.bbox, b.bbox)));
    let grown = RegionView { bbox: merge_boxes_spec(a.bbox, b.bbox), score: max_score(a.score, b.score), ..a };
    let next = swap_removed(rs.update(0, grown), 1);
    assert(next =~= seq![grown]);
    assert(slice_sweep(next, 0, 1, image_height) == next);
    assert(slice_sweep(rs, 0, 1, image_height) == next);
    assert(merge_slices_spec(next, 1, image_height) == next);
}

/// Two same-label regions where the smaller lies 85% or more inside the
/// other, or whose IoU reaches one half, are one object seen twice: they fold
/// into one region that keeps the larger box (the first on a tie) and the
/// better score.
pub proof fn law_slice_merge_keeps_the_larger(a: RegionView, b: RegionView, image_height: int)
    requires
        a.label_id == b.label_id,
        ({
            let a1 = a.bbox.area_spec();
            let a2 = b.bbox.area_spec();
            ||| (a1 > 0 && a2 > 0 && intersection_spec(a.bbox, b.bbox) * 1_000_000 >= 850_000 * min_int(a1, a2))
            ||| iou_reaches(a.bbox, b.bbox, 500_000)
        }),
    ensures
        ({
            let out = merge_slices_spec(seq![a, b], 0, image_height);
            &&& out.len() == 1
            &&& out[0].label_id == a.label_id
            &&& out[0].bbox == if b.bbox.area_spec() > a.bbox.area_spec() { b.bbox } else { a.bbox }
            &&& out[0].score == max_int(a.score as int, b.score as int)
        }),
{
    let rs = seq![a, b];
    let bx = slice_merge(a.bbox, b.bbox, image_height);
    let larger = if b.bbox.area_spec() > a.bbox.area_spec() { b.bbox } else { a.bbox };
    assert(bx == Some(larger));
    let grown = RegionView { bbox: larger, score: max_score(a.score, b.score), ..a };
    let next = swap_removed(rs.update(0, grown), 1);
    assert(next =~= seq![grown]);
    assert(slice_sweep(next, 0, 1, image_height) == next);
    assert(slice_sweep(rs, 0, 1, image_height) == next);
    assert(merge_slices_spec(next, 1, image_height) == next);
}

fn abs_diff_i32(a: i32, b: i32) -> (r: i64)
    ensures
        r == abs_int(a - b),
{
    let d = a as i64 - b as i64;
    if d >= 0 {
        d
    } else {
        -d
    }
}

fn side_min_pixel_exec(lo: i32, hi: i32) -> (r: i64)
    ensures
        r == side_min_pixel(lo as int, hi as int),
        SUBPIXELS <= r <= 0x1_0000_0000,
{
    let d = hi as i64 - lo as i64;
    if d >= 256 {
        d
    } else {
        256
    }
}

fn min_i64(a: i64, b: i64) -> (r: i64)
    ensures
        r == min_int(a as int, b as int),
{
    if a <= b {
        a
    } else {
        b
    }
}

fn max_i64(a: i64, b: i64) -> (r: i64)
    ensures
        r == max_int(a as int, b as int),
{
    if a >= b {
        a
    } else {
        b
    }
}

fn stacked_exec(b1: BBox, b2: BBox, image_height: u32) -> (r: bool)
    requires
        image_height <= 0x7f_ffff,
    ensures
        r == stacked(b1, b2, image_height as int),
{
    let a1 = area(b1);
    let a2 = area(b2);
    let w1 = side_min_pixel_exec(b1.x1, b1.x2);
    let h1 = side_min_pixel_exec(b1.y1, b1.y2);
    let w2 = side_min_pixel_exec(b2.x1, b2.x2);
    let h2 = side_min_pixel_exec(b2.y1, b2.y2);
    let y_dist = min_i64(abs_diff_i32(b1.y1, b2.y2), abs_diff_i32(b1.y2, b2.y1));
    let right = if b1.x2 <= b2.x2 { b1.x2 } else { b2.x2 };
    let left = if b1.x1 >= b2.x1 { b1.x1 } else { b2.x1 };
    let x_overlap: i64 = if (right as i64) - (left as i64) > 0 { (right as i64) - (left as i64) } else { 0 };
    let small = if a1 <= a2 { a1 } else { a2 };
    let large = if a1 >= a2 { a1 } else { a2 };
    let widest = max_i64(w1, w2);
    10 * y_dist < min_i64((image_height as i64) * 256, max_i64(h1, h2))
        && 5 * x_overlap > min_i64(w1, w2)
        && 10 * small > 3 * large
        && 2 * abs_diff_i32(b1.x1, b2.x1) < widest
        && 2 * abs_diff_i32(b1.x2, b2.x2) < widest
}

fn slice_merge_exec(b1: BBox, b2: BBox, image_height: u32) -> (r: Option<BBox>)
    requires
        image_height <= 0x7f_ffff,
    ensures
        r == slice_merge(b1, b2, image_height as int),
{
    let (contained, contains_first) = contained_relation(b1, b2, 850_000);
    if contained {
        return Some(if contains_first { b1 } else { b2 });
    }
    if iou_at_least(b1, b2, 500_000) {
        return Some(if area(b2) > area(b1) { b2 } else { b1 });
    }
    if stacked_exec(b1, b2, image_height) {
        let merged = merge_boxes(b1, b2);
        let a1 = area(b1);
        let a2 = area(b2);
        let large = if a1 >= a2 { a1 } else { a2 };
        if area(merged) <= 3 * large {
            return Some(merged);
        }
    }
    None
}

/// Fold duplicates that the overlapping slices produced: per label, a region
/// absorbs later regions that it contains or is contained in, overlaps by IoU,
/// or continues across a slice border.
pub fn merge_slice_regions(regions: Vec<ComicTextBubbleRegion>, image_height: u32) -> (r: Vec<
    ComicTextBubbleRegion,
>)
    requires
        image_height <= 0x7f_ffff,
    ensures
        regions_view(r@) == merge_slices_spec(regions_view(regions@), 0, image_height as int),
{
    let mut regions = regions;
    let ghost target = merge_slices_spec(regions_view(regions@), 0, image_height as int);
    let mut index: usize = 0;
    while index < regions.len()
        invariant
            merge_slices_spec(regions_view(regions@), index as int, image_height as int) == target,
            image_height <= 0x7f_ffff,
        decreases regions.len() - index,
    {
        let ghost start = regions_view(regions@);
        let ghost swept = slice_sweep(start, index as int, index + 1, image_height as int);
        proof {
            lemma_slice_sweep_len(start, index as int, index + 1, image_height as int);
        }
        let mut compare = index + 1;
        while compare < regions.len()
            invariant
                index < compare <= regions@.len() + 1,
                index < regions@.len(),
                slice_sweep(regions_view(regions@), index as int, compare as int, image_height as int) == swept,
                image_height <= 0x7f_ffff,
                regions@.len() <= start.len(),
            decreases regions.len() - compare,
        {
            let ghost rv = regions_view(regions@);
            let ghost old_regions = regions@;
            proof {
                assert(rv[index as int] == regions@[index as int]@);
                assert(rv[compare as int] == regions@[compare as int]@);
            }
            if regions[index].label_id != regions[compare].label_id {
                compare += 1;
            } else {
                match slice_merge_exec(regions[index].bbox, regions[compare].bbox, image_height) {
                    Some(b) => {
                        let s1 = regions[index].score;
                        let s2 = regions[compare].score;
                        regions[index].bbox = b;
                        regions[index].score = if s1 >= s2 { s1 } else { s2 };
                        let ghost mid = regions@;
                        regions.swap_remove(compare);
                        proof {
                            let grown = RegionView { bbox: b, score: max_score(rv[index as int].score, rv[compare as int].score), ..rv[index as int] };
                            let expect = swap_removed(rv.update(index as int, grown), compare as int);
                            assert forall|j: int| 0 <= j < regions@.len() implies #[trigger] regions_view(regions@)[j] == expect[j] by {
                                if j == compare {
                                    assert(regions@[j] == mid.last());
                                    if compare == old_regions.len() - 1 {
                                    } else {
                                        assert(mid.last() == old_regions.last());
                                    }
                                } else if j == index {
                                    assert(regions@[j] == mid[j]);
                                } else {
                                    assert(regions@[j] == old_regions[j]);
                                }
                            }
                            assert(regions_view(regions@) =~= expect);
                        }
                    },
                    None => {
                        compare += 1;
                    },
                }
            }
        }
        proof {
            lemma_slice_sweep_len(regions_view(regions@), index as int, compare as int, image_height as int);
        }
        index += 1;
    }
    regions
}

// ---------------------------------------------------------------------------
// Text regions
// ---------------------------------------------------------------------------

/// The text detections (labels 1 and 2), in order.
pub open spec fn text_only(s: Seq<RegionView>) -> Seq<RegionView>
    decreases s.len(),
{
    if s.len() == 0 {
        seq![]
    } else if s.last().label_id == 1 || s.last().label_id == 2 {
        text_only(s.drop_last()).push(s.last())
    } else {
        text_only(s.drop_last())
    }
}

/// The merged text boxes that survive clamping with both sides above
/// `MIN_SIDE_PIXELS`.
pub open spec fn text_blocks_spec(s: Seq<RegionView>, width: int, height: int) -> Seq<RegionView>
    decreases s.len(),
{
    if s.len() == 0 {
        seq![]
    } else {
        let rest = text_blocks_spec(s.drop_last(), width, height);
        let b = clamp_box_spec(s.last().bbox, width, height);
        if side_min_pixel(b.x1 as int, b.x2 as int) <= MIN_SIDE_PIXELS * SUBPIXELS || side_min_pixel(
            b.y1 as int,
            b.y2 as int,
        ) <= MIN_SIDE_PIXELS * SUBPIXELS {
            rest
        } else {
            rest.push(RegionView { bbox: b, ..s.last() })
        }
    }
}

/// The region a kept text box becomes.
pub open spec fn text_region_of(v: RegionView, t: TextRegion) -> bool {
    &&& t.x == v.bbox.x1
    &&& t.y == v.bbox.y1
    &&& t.width == side_min_pixel(v.bbox.x1 as int, v.bbox.x2 as int)
    &&& t.height == side_min_pixel(v.bbox.y1 as int, v.bbox.y2 as int)
    &&& t.confidence == v.score
    &&& (t.detector matches Some(d) && d@ == "comic-text-bubble-detector"@)
}

fn text_detections(detections: &[ComicTextBubbleRegion]) -> (r: Vec<ComicTextBubbleRegion>)
    ensures
        regions_view(r@) == text_only(regions_view(detections@)),
{
    let ghost input = regions_view(detections@);
    let mut out: Vec<ComicTextBubbleRegion> = Vec::new();
    let mut i: usize = 0;
    proof {
        assert(regions_view(out@) =~= text_only(input.take(0)));
    }
    while i < detections.len()
        invariant
            i <= detections@.len(),
            input == regions_view(detections@),
            input.len() == detections@.len(),
            regions_view(out@) == text_only(input.take(i as int)),
        decreases detections.len() - i,
    {
        let ghost before = out@;
        proof {
            assert(input.take(i + 1).drop_last() == input.take(i as int));
            assert(input.take(i + 1).last() == input[i as int]);
            assert(input[i as int] == detections@[i as int]@);
        }
        if detections[i].is_text() {
            out.push(detections[i].duplicate());
            proof {
                assert forall|j: int| 0 <= j < out@.len() implies #[trigger] regions_view(out@)[j] == text_only(input.take(i + 1))[j] by {
                    if j < before.len() {
                        assert(out@[j] == before[j]);
                    }
                }
                assert(regions_view(out@) =~= text_only(input.take(i + 1)));
            }
        }
        i += 1;
    }
    proof {
        assert(input.take(detections@.len() as int) == input);
    }
    out
}

/// Text regions from the text detections: overlapping boxes merged, clamped
/// to the image, and kept when both sides exceed `MIN_SIDE_PIXELS`.
pub fn detections_to_text_blocks(image_width: u32, image_height: u32, detections: &[ComicTextBubbleRegion]) -> (r: Vec<TextRegion>)
    requires
        image_width <= 0x7f_ffff,
        image_height <= 0x7f_ffff,
    ensures
        ({
            let kept = text_blocks_spec(
                merge_text_spec(text_only(regions_view(detections@)), seq![]),
                image_width as int,
                image_height as int,
            );
            &&& r@.len() == kept.len()
            &&& forall|i: int| 0 <= i < r@.len() ==> text_region_of(kept[i], #[trigger] r@[i])
        }),
{
    let texts = merge_text_regions(text_detections(detections));
    let ghost input = regions_view(texts@);
    let ghost kept = text_blocks_spec(input, image_width as int, image_height as int);
    let mut blocks: Vec<TextRegion> = Vec::new();
    let mut i: usize = 0;
    while i < texts.len()
        invariant
            i <= texts@.len(),
            input == regions_view(texts@),
            input.len() == texts@.len(),
            image_width <= 0x7f_ffff,
            image_height <= 0x7f_ffff,
            blocks@.len() == text_blocks_spec(input.take(i as int), image_width as int, image_height as int).len(),
            forall|k: int| 0 <= k < blocks@.len() ==> text_region_of(
                text_blocks_spec(input.take(i as int), image_width as int, image_height as int)[k],
                #[trigger] blocks@[k],
            ),
        decreases texts.len() - i,
    {
        let ghost before = blocks@;
        proof {
            assert(input.take(i + 1).drop_last() == input.take(i as int));
            assert(input.take(i + 1).last() == input[i as int]);
            assert(input[i as int] == texts@[i as int]@);
        }
        let b = clamp_box(texts[i].bbox, image_width, image_height);
        let width = side_min_pixel_exec(b.x1, b.x2);
        let height = side_min_pixel_exec(b.y1, b.y2);
        if !(width <= 5 * 256 || height <= 5 * 256) {
            proof {
                assert(b.x2 - b.x1 <= 0x7f_ffff * 256);
                assert(b.y2 - b.y1 <= 0x7f_ffff * 256);
            }
            blocks.push(TextRegion {
                x: b.x1,
                y: b.y1,
                width,
                height,
                confidence: texts[i].score,
                detector: Some(String::from_str("comic-text-bubble-detector")),
            });
            proof {
                let g = text_blocks_spec(input.take(i + 1), image_width as int, image_height as int);
                assert forall|k: int| 0 <= k < blocks@.len() implies text_region_of(g[k], #[trigger] blocks@[k]) by {
                    if k < before.len() {
                        assert(blocks@[k] == before[k]);
                    }
                }
            }
        }
        i += 1;
    }
    proof {
        assert(input.take(texts@.len() as int) == input);
    }
    blocks
}

/// Outline colour of a label: balloons green, text in balloons orange, free
/// text blue, anything else white.
pub fn color_for_label(label_id: usize) -> (r: [u8; 4])
    ensures
        r@ == if label_id == 0 {
            seq![0u8, 255u8, 0u8, 255u8]
        } else if label_id == 1 {
            seq![255u8, 160u8, 0u8, 255u8]
        } else if label_id == 2 {
            seq![0u8, 160u8, 255u8, 255u8]
        } else {
            seq![255u8, 255u8, 255u8, 255u8]
        },
{
    let r: [u8; 4] = match label_id {
        0 => [0, 255, 0, 255],
        1 => [255, 160, 0, 255],
        2 => [0, 160, 255, 255],
        _ => [255, 255, 255, 255],
    };
    assert(r@ =~= (if label_id == 0 {
        seq![0u8, 255u8, 0u8, 255u8]
    } else if label_id == 1 {
        seq![255u8, 160u8, 0u8, 255u8]
    } else if label_id == 2 {
        seq![0u8, 160u8, 255u8, 255u8]
    } else {
        seq![255u8, 255u8, 255u8, 255u8]
    }));
    r
}

} // verus!
