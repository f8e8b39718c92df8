//! The AnimeText YOLO12 text-block detector: variants and their repository
//! layout, the recommended confidence, the 640-pixel letterbox, decoding of the
//! prediction plane and the text regions it yields.
use vstd::prelude::*;
use crate::blocks::TextRegion;
use crate::geometry::{BBox, PPM, SUBPIXELS};
use crate::yolo26s::{Letterbox, map_box, resize_side, resized_side, unmap_coord};

verus! {

/// Side of the square model input, in pixels.
pub const INPUT_SIZE: u32 = 640;

/// Confidence used when the export pins none (parts per million).
pub const DEFAULT_CONFIDENCE_THRESHOLD: u32 = 250_000;

/// Overlap above which non-maximum suppression drops the weaker box (ppm).
/// Suppression runs on the float boxes of the inference step, outside this
/// library: `decode_predictions` returns every box above the confidence
/// threshold, before suppression.
pub const DEFAULT_NMS_THRESHOLD: u32 = 450_000;

/// Model sizes of the export.
#[derive(Clone, Copy, Debug, PartialEq, Eq, Structural)]
pub enum AnimeTextYoloVariant {
    N,
    S,
    M,
    L,
    X,
}

/// The one-letter name of a variant.
pub open spec fn variant_letter(v: AnimeTextYoloVariant) -> char {
    match v {
        AnimeTextYoloVariant::N => 'n',
        AnimeTextYoloVariant::S => 's',
        AnimeTextYoloVariant::M => 'm',
        AnimeTextYoloVariant::L => 'l',
        AnimeTextYoloVariant::X => 'x',
    }
}

impl AnimeTextYoloVariant {
    /// The variant's one-letter name.
    pub fn as_str(self) -> (r: &'static str)
        ensures
            r@ == seq![variant_letter(self)],
    {
        match self {
            AnimeTextYoloVariant::N => {
                proof { reveal_strlit("n"); }
                "n"
            },
            AnimeTextYoloVariant::S => {
                proof { reveal_strlit("s"); }
                "s"
            },
            AnimeTextYoloVariant::M => {
                proof { reveal_strlit("m"); }
                "m"
            },
            AnimeTextYoloVariant::L => {
                proof { reveal_strlit("l"); }
                "l"
            },
            AnimeTextYoloVariant::X => {
                proof { reveal_strlit("x"); }
                "x"
            },
        }
    }
}

/// `yolo12<letter>_animetext`: one directory per variant in the repository.
pub open spec fn variant_directory_spec(v: AnimeTextYoloVariant) -> Seq<char> {
    seq!['y', 'o', 'l', 'o', '1', '2'] + seq![variant_letter(v)] + seq![
        '_',
        'a',
        'n',
        'i',
        'm',
        'e',
        't',
        'e',
        'x',
        't',
    ]
}

/// The repository directory that holds a variant's export.
pub fn variant_directory(variant: AnimeTextYoloVariant) -> (r: String)
    ensures
        r@ == variant_directory_spec(variant),
{
    let mut s = String::from_str("yolo12");
    s.append(variant.as_str());
    s.append("_animetext");
    proof {
        reveal_strlit("yolo12");
        reveal_strlit("_animetext");
        assert(s@ =~= variant_directory_spec(variant));
    }
    s
}

/// A threshold read from the export is used when it lies in `[0, 1)`.
pub open spec fn accepted_threshold_spec(reading: Option<i64>) -> Option<u32> {
    match reading {
        Some(t) => if 0 <= t < PPM {
            Some(t as u32)
        } else {
            None
        },
        None => None,
    }
}

/// The export's own threshold, kept only when it lies in `[0, 1)` (ppm).
pub fn accepted_threshold(reading: Option<i64>) -> (r: Option<u32>)
    ensures
        r == accepted_threshold_spec(reading),
{
    match reading {
        Some(t) => if 0 <= t && t < PPM as i64 {
            Some(t as u32)
        } else {
            None
        },
        None => None,
    }
}

/// A loaded detector: which export it runs and the confidence it recommends.
#[derive(Clone, Copy, Debug)]
pub struct AnimeTextDetector {
    variant: AnimeTextYoloVariant,
    recommended_confidence: Option<u32>,
}

impl AnimeTextDetector {
    #[verifier::type_invariant]
    spec fn threshold_in_range(self) -> bool {
        self.recommended_confidence matches Some(t) ==> t < PPM
    }

    pub closed spec fn variant_spec(self) -> AnimeTextYoloVariant {
        self.variant
    }

    pub closed spec fn recommended_spec(self) -> Option<u32> {
        self.recommended_confidence
    }

    /// A detector for `variant`; the threshold read beside the export is
    /// kept only when it lies in `[0, 1)`.
    pub fn new(variant: AnimeTextYoloVariant, threshold_reading: Option<i64>) -> (d: Self)
        ensures
            d.variant_spec() == variant,
            d.recommended_spec() == accepted_threshold_spec(threshold_reading),
    {
        AnimeTextDetector { variant, recommended_confidence: accepted_threshold(threshold_reading) }
    }

    pub fn variant(&self) -> (v: AnimeTextYoloVariant)
        ensures
            v == self.variant_spec(),
    {
        self.variant
    }

    /// The export's F1-optimal confidence, when it pins one (ppm).
    pub fn recommended_confidence(&self) -> (r: Option<u32>)
        ensures
            r == self.recommended_spec(),
            r matches Some(t) ==> t < PPM,
    {
        proof { use_type_invariant(self); }
        self.recommended_confidence
    }

    /// The confidence inference runs at: the recommended one, else the default.
    pub fn confidence_threshold(&self) -> (t: u32)
        ensures
            t == match self.recommended_spec() {
                Some(r) => r,
                None => DEFAULT_CONFIDENCE_THRESHOLD,
            },
            t < PPM,
    {
        proof { use_type_invariant(self); }
        match self.recommended_confidence {
            Some(t) => t,
            None => DEFAULT_CONFIDENCE_THRESHOLD,
        }
    }
}

/// The long side of a page, at least one pixel.
pub open spec fn long_side(w: int, h: int) -> int {
    let w1 = if w >= 1 { w } else { 1 };
    let h1 = if h >= 1 { h } else { 1 };
    if w1 >= h1 { w1 } else { h1 }
}

/// Scale the long side to `INPUT_SIZE` and centre the result on the square
/// input.
pub fn letterbox(original_width: u32, original_height: u32) -> (l: Letterbox)
    ensures
        l.original_width == original_width,
        l.original_height == original_height,
        l.scale_num == INPUT_SIZE,
        l.scale_den == long_side(original_width as int, original_height as int),
        l.resized_width == resized_side(original_width as int, INPUT_SIZE as int, l.scale_den as int),
        l.resized_height == resized_side(original_height as int, INPUT_SIZE as int, l.scale_den as int),
        l.input_width == INPUT_SIZE,
        l.input_height == INPUT_SIZE,
        l.pad_x == (INPUT_SIZE - l.resized_width) / 2,
        l.pad_y == (INPUT_SIZE - l.resized_height) / 2,
        1 <= l.resized_width <= INPUT_SIZE,
        1 <= l.resized_height <= INPUT_SIZE,
{
    let w1 = if original_width >= 1 { original_width } else { 1 };
    let h1 = if original_height >= 1 { original_height } else { 1 };
    let long = if w1 >= h1 { w1 } else { h1 };
    let rw = resize_side(original_width, long, INPUT_SIZE);
    let rh = resize_side(original_height, long, INPUT_SIZE);
    Letterbox {
        original_width,
        original_height,
        resized_width: rw,
        resized_height: rh,
        input_width: INPUT_SIZE,
        input_height: INPUT_SIZE,
        pad_x: (INPUT_SIZE - rw) / 2,
        pad_y: (INPUT_SIZE - rh) / 2,
        scale_num: INPUT_SIZE,
        scale_den: long,
    }
}

/// Input-space corners (sub-pixels) mapped back onto the page: the padding
/// removed, the scale undone, each coordinate clamped to the page.
pub fn map_bbox_to_original(bbox: BBox, letterbox: &Letterbox) -> (b: BBox)
    requires
        letterbox.scale_num > 0,
        letterbox.pad_x <= 0x100_0000,
        letterbox.pad_y <= 0x100_0000,
        letterbox.original_width <= 0x7f_ffff,
        letterbox.original_height <= 0x7f_ffff,
    ensures
        b.x1 == unmap_coord(bbox.x1 as int, letterbox.pad_x as int, letterbox.scale_num as int, letterbox.scale_den as int, letterbox.original_width as int),
        b.y1 == unmap_coord(bbox.y1 as int, letterbox.pad_y as int, letterbox.scale_num as int, letterbox.scale_den as int, letterbox.original_height as int),
        b.x2 == unmap_coord(bbox.x2 as int, letterbox.pad_x as int, letterbox.scale_num as int, letterbox.scale_den as int, letterbox.original_width as int),
        b.y2 == unmap_coord(bbox.y2 as int, letterbox.pad_y as int, letterbox.scale_num as int, letterbox.scale_den as int, letterbox.original_height as int),
{
    map_box(bbox, letterbox)
}

/// One anchor of the prediction plane: box centre and size in input
/// sub-pixels, and the text score in parts per million.
#[derive(Clone, Copy, Debug, PartialEq, Eq, Structural)]
pub struct Prediction {
    pub cx: i32,
    pub cy: i32,
    pub w: i32,
    pub h: i32,
    pub score: u32,
}

/// Bound on prediction coordinates (sub-pixels) that keeps corner arithmetic
/// inside `i32`.
pub const COORD_LIMIT: i32 = 0x2000_0000;

pub open spec fn prediction_in_range(p: Prediction) -> bool {
    &&& -COORD_LIMIT <= p.cx <= COORD_LIMIT
    &&& -COORD_LIMIT <= p.cy <= COORD_LIMIT
    &&& -COORD_LIMIT <= p.w <= COORD_LIMIT
    &&& -COORD_LIMIT <= p.h <= COORD_LIMIT
}

/// Half a size, rounded toward zero.
pub open spec fn half(v: int) -> int {
    if v >= 0 {
        v / 2
    } else {
        -((-v) / 2)
    }
}

fn half_exec(v: i32) -> (r: i32)
    requires
        -COORD_LIMIT <= v <= COORD_LIMIT,
    ensures
        r == half(v as int),
{
    if v >= 0 {
        v / 2
    } else {
        -((-v) / 2)
    }
}

/// The corners of a centre-size box; a negative size gives an inverted box.
pub open spec fn corners(p: Prediction) -> BBox {
    BBox {
        x1: (p.cx - half(p.w as int)) as i32,
        y1: (p.cy - half(p.h as int)) as i32,
        x2: (p.cx + half(p.w as int)) as i32,
        y2: (p.cy + half(p.h as int)) as i32,
    }
}

/// A detected text block: class id, class name, score (ppm), page box
/// (sub-pixels).
#[derive(Debug)]
pub struct AnimeTextRegion {
    pub label_id: usize,
    pub label: String,
    pub score: u32,
    pub bbox: BBox,
}

/// What a region holds, as plain values.
pub struct AnimeRegionView {
    pub label_id: usize,
    pub label: Seq<char>,
    pub score: u32,
    pub bbox: BBox,
}

impl View for AnimeTextRegion {
    type V = AnimeRegionView;

    open spec fn view(&self) -> AnimeRegionView {
        AnimeRegionView { label_id: self.label_id, label: self.label@, score: self.score, bbox: self.bbox }
    }
}

pub open spec fn anime_regions_view(s: Seq<AnimeTextRegion>) -> Seq<AnimeRegionView> {
    s.map_values(|r: AnimeTextRegion| r@)
}

/// The page box of an anchor.
pub open spec fn page_box(p: Prediction, l: Letterbox) -> BBox {
    let c = corners(p);
    BBox {
        x1: unmap_coord(c.x1 as int, l.pad_x as int, l.scale_num as int, l.scale_den as int, l.original_width as int) as i32,
        y1: unmap_coord(c.y1 as int, l.pad_y as int, l.scale_num as int, l.scale_den as int, l.original_height as int) as i32,
        x2: unmap_coord(c.x2 as int, l.pad_x as int, l.scale_num as int, l.scale_den as int, l.original_width as int) as i32,
        y2: unmap_coord(c.y2 as int, l.pad_y as int, l.scale_num as int, l.scale_den as int, l.original_height as int) as i32,
    }
}

/// An anchor is kept when it reaches the threshold and its page box is not
/// empty.
pub open spec fn anchor_kept(p: Prediction, l: Letterbox, threshold: u32) -> bool {
    let b = page_box(p, l);
    p.score >= threshold && b.x2 > b.x1 && b.y2 > b.y1
}

/// The anchors that survive, in order, as `(score, page box)`.
pub open spec fn decode_spec(s: Seq<Prediction>, l: Letterbox, threshold: u32) -> Seq<(u32, BBox)>
    decreases s.len(),
{
    if s.len() == 0 {
        seq![]
    } else {
        let rest = decode_spec(s.drop_last(), l, threshold);
        let p = s.last();
        if anchor_kept(p, l, threshold) {
            rest.push((p.score, page_box(p, l)))
        } else {
            rest
        }
    }
}

pub open spec fn letterbox_in_range(l: Letterbox) -> bool {
    &&& l.scale_num > 0
    &&& l.pad_x <= 0x100_0000
    &&& l.pad_y <= 0x100_0000
    &&& l.original_width <= 0x7f_ffff
    &&& l.original_height <= 0x7f_ffff
}

/// Decode the prediction plane: keep the anchors whose text score reaches
/// `threshold`, map their boxes onto the page and drop the empty ones. Every
/// region is labelled `text_block`, the export's single class. No overlap
/// suppression happens here (see `DEFAULT_NMS_THRESHOLD`).
pub fn decode_predictions(predictions: &[Prediction], letterbox: &Letterbox, threshold: u32) -> (r: Vec<AnimeTextRegion>)
    requires
        letterbox_in_range(*letterbox),
        forall|i: int| 0 <= i < predictions@.len() ==> prediction_in_range(#[trigger] predictions@[i]),
    ensures
        r@.len() == decode_spec(predictions@, *letterbox, threshold).len(),
        forall|i: int| 0 <= i < r@.len() ==> {
            let d = decode_spec(predictions@, *letterbox, threshold)[i];
            &&& (#[trigger] r@[i]).label_id == 0
            &&& r@[i].label@ == seq!['t', 'e', 'x', 't', '_', 'b', 'l', 'o', 'c', 'k']
            &&& r@[i].score == d.0
            &&& r@[i].bbox == d.1
        },
{
    let mut out: Vec<AnimeTextRegion> = Vec::new();
    let mut i: usize = 0;
    while i < predictions.len()
        invariant
            i <= predictions@.len(),
            letterbox_in_range(*letterbox),
            forall|k: int| 0 <= k < predictions@.len() ==> prediction_in_range(#[trigger] predictions@[k]),
            out@.len() == decode_spec(predictions@.take(i as int), *letterbox, threshold).len(),
            forall|k: int| 0 <= k < out@.len() ==> {
                let d = decode_spec(predictions@.take(i as int), *letterbox, threshold)[k];
                &&& (#[trigger] out@[k]).label_id == 0
                &&& out@[k].label@ == seq!['t', 'e', 'x', 't', '_', 'b', 'l', 'o', 'c', 'k']
                &&& out@[k].score == d.0
                &&& out@[k].bbox == d.1
            },
        decreases predictions.len() - i,
    {
        let p = predictions[i];
        proof {
            assert(predictions@.take(i + 1).drop_last() =~= predictions@.take(i as int));
            assert(predictions@.take(i + 1).last() == p);
            assert(prediction_in_range(predictions@[i as int]));
        }
        let hw = half_exec(p.w);
        let hh = half_exec(p.h);
        let corner = BBox { x1: p.cx - hw, y1: p.cy - hh, x2: p.cx + hw, y2: p.cy + hh };
        let b = map_box(corner, letterbox);
        if p.score >= threshold && b.x2 > b.x1 && b.y2 > b.y1 {
            let label = String::from_str("text_block");
            proof {
                reveal_strlit("text_block");
            }
            out.push(AnimeTextRegion { label_id: 0, label, score: p.score, bbox: b });
        }
        i += 1;
    }
    proof {
        assert(predictions@.take(predictions@.len() as int) =~= predictions@);
    }
    out
}

/// The regions wide and tall enough to be text, as text regions.
pub open spec fn text_regions_spec(s: Seq<AnimeRegionView>) -> Seq<AnimeRegionView>
    decreases s.len(),
{
    if s.len() == 0 {
        seq![]
    } else {
        let rest = text_regions_spec(s.drop_last());
        let b = s.last().bbox;
        if b.x2 - b.x1 > SUBPIXELS && b.y2 - b.y1 > SUBPIXELS {
            rest.push(s.last())
        } else {
            rest
        }
    }
}

/// The text region a kept detection becomes.
pub open spec fn anime_text_region_of(v: AnimeRegionView, t: TextRegion) -> bool {
    &&& t.x == v.bbox.x1
    &&& t.y == v.bbox.y1
    &&& t.width == v.bbox.x2 - v.bbox.x1
    &&& t.height == v.bbox.y2 - v.bbox.y1
    &&& t.confidence == v.score
    &&& (t.detector matches Some(d) && d@ == seq![
        'a',
        'n',
        'i',
        'm',
        'e',
        '-',
        't',
        'e',
        'x',
        't',
        '-',
        'y',
        'o',
        'l',
        'o',
    ])
}

/// Text regions from detections, dropping those at most one pixel wide or
/// tall.
pub fn regions_to_text_blocks(regions: &[AnimeTextRegion]) -> (r: Vec<TextRegion>)
    ensures
        r@.len() == text_regions_spec(anime_regions_view(regions@)).len(),
        forall|i: int| 0 <= i < r@.len() ==> anime_text_region_of(
            text_regions_spec(anime_regions_view(regions@))[i],
            #[trigger] r@[i],
        ),
{
    let ghost input = anime_regions_view(regions@);
    let mut out: Vec<TextRegion> = Vec::new();
    let mut i: usize = 0;
    while i < regions.len()
        invariant
            i <= regions@.len(),
            input == anime_regions_view(regions@),
            input.len() == regions@.len(),
            out@.len() == text_regions_spec(input.take(i as int)).len(),
            forall|k: int| 0 <= k < out@.len() ==> anime_text_region_of(
                text_regions_spec(input.take(i as int))[k],
                #[trigger] out@[k],
            ),
        decreases regions.len() - i,
    {
        let region = &regions[i];
        let ghost before = out@;
        proof {
            assert(input.take(i + 1).drop_last() =~= input.take(i as int));
            assert(input.take(i + 1).last() == input[i as int]);
            assert(input[i as int] == regions@[i as int]@);
        }
        let width = region.bbox.x2 as i64 - region.bbox.x1 as i64;
        let height = region.bbox.y2 as i64 - region.bbox.y1 as i64;
        if width > SUBPIXELS as i64 && height > SUBPIXELS as i64 {
            let detector = String::from_str("anime-text-yolo");
            proof {
                reveal_strlit("anime-text-yolo");
            }
            out.push(TextRegion {
                x: region.bbox.x1,
                y: region.bbox.y1,
                width,
                height,
                confidence: region.score,
                detector: Some(detector),
            });
            proof {
                let g = text_regions_spec(input.take(i + 1));
                assert(g == text_regions_spec(input.take(i as int)).push(input[i as int]));
                assert(detector@ =~= seq!['a', 'n', 'i', 'm', 'e', '-', 't', 'e', 'x', 't', '-', 'y', 'o', 'l', 'o']);
                assert forall|k: int| 0 <= k < out@.len() implies anime_text_region_of(g[k], #[trigger] out@[k]) by {
                    if k < before.len() {
                        assert(out@[k] == before[k]);
                    }
                }
            }
        }
        i += 1;
    }
    proof {
        assert(input.take(input.len() as int) =~= input);
    }
    out
}

/// `sorted` with `x` inserted after every region scoring at least as much.
pub open spec fn insert_region_by_score(sorted: Seq<AnimeRegionView>, x: AnimeRegionView) -> Seq<AnimeRegionView>
    decreases sorted.len(),
{
    if sorted.len() == 0 {
        seq![x]
    } else if sorted.last().score >= x.score {
        sorted.push(x)
    } else {
        insert_region_by_score(sorted.drop_last(), x).push(sorted.last())
    }
}

/// Stable sort by descending score.
pub open spec fn sort_regions_spec(s: Seq<AnimeRegionView>) -> Seq<AnimeRegionView>
    decreases s.len(),
{
    if s.len() == 0 {
        seq![]
    } else {
        insert_region_by_score(sort_regions_spec(s.drop_last()), s.last())
    }
}

proof fn lemma_insert_region_at(sorted: Seq<AnimeRegionView>, x: AnimeRegionView, j: int)
    requires
        0 <= j <= sorted.len(),
        forall|k: int| j <= k < sorted.len() ==> (#[trigger] sorted[k]).score < x.score,
        j > 0 ==> sorted[j - 1].score >= x.score,
    ensures
        insert_region_by_score(sorted, x) == sorted.insert(j, x),
    decreases sorted.len(),
{
    if sorted.len() == 0 {
        assert(sorted.insert(j, x) =~= seq![x]);
    } else if j == sorted.len() {
        assert(sorted.insert(j, x) =~= sorted.push(x));
    } else {
        let init = sorted.drop_last();
        assert forall|k: int| j <= k < init.len() implies (#[trigger] init[k]).score < x.score by {
            assert(init[k] == sorted[k]);
        }
        lemma_insert_region_at(init, x, j);
        assert(init.insert(j, x).push(sorted.last()) =~= sorted.insert(j, x));
    }
}

/// Orders regions by descending score, keeping the order of equal scores.
pub fn sort_regions_by_score(regions: Vec<AnimeTextRegion>) -> (r: Vec<AnimeTextRegion>)
    ensures
        anime_regions_view(r@) == sort_regions_spec(anime_regions_view(regions@)),
{
    let ghost input = anime_regions_view(regions@);
    let mut rest = regions;
    let mut out: Vec<AnimeTextRegion> = Vec::new();
    let ghost mut taken: int = 0;
    while rest.len() > 0
        invariant
            0 <= taken <= input.len(),
            rest@.len() == input.len() - taken,
            anime_regions_view(rest@) == input.skip(taken),
            anime_regions_view(out@) == sort_regions_spec(input.take(taken)),
        decreases rest.len(),
    {
        let ghost pre = rest@;
        let x = rest.remove(0);
        proof {
            assert(x == pre[0]);
            assert(anime_regions_view(pre)[0] == pre[0]@);
            assert(x@ == input[taken]);
            assert forall|k: int| 0 <= k < rest@.len() implies #[trigger] anime_regions_view(rest@)[k] == input.skip(taken + 1)[k] by {
                assert(rest@[k] == pre[k + 1]);
                assert(anime_regions_view(pre)[k + 1] == input.skip(taken)[k + 1]);
            }
            assert(anime_regions_view(rest@) =~= input.skip(taken + 1));
        }
        let mut j = out.len();
        while j > 0 && out[j - 1].score < x.score
            invariant
                j <= out@.len(),
                forall|k: int| j <= k < out@.len() ==> (#[trigger] out@[k]).score < x.score,
            decreases j,
        {
            j -= 1;
        }
        proof {
            let before = anime_regions_view(out@);
            assert forall|k: int| j <= k < before.len() implies (#[trigger] before[k]).score < x@.score by {
                assert(before[k] == out@[k]@);
            }
            if j > 0 {
                assert(before[j - 1] == out@[j - 1]@);
            }
            lemma_insert_region_at(before, x@, j as int);
            assert(input.take(taken + 1).drop_last() =~= input.take(taken));
        }
        let ghost old_out = out@;
        out.insert(j, x);
        proof {
            assert(anime_regions_view(out@) =~= anime_regions_view(old_out).insert(j as int, x@));
            taken = taken + 1;
        }
    }
    proof {
        assert(input.skip(taken).len() == 0);
        assert(input.take(taken) =~= input);
    }
    out
}

} // verus!
