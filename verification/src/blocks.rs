//! Turning detections into text blocks: reading direction, nominal font size
//! and a record of which detectors proposed each block.
use vstd::prelude::*;
use crate::geometry::{BBox, SUBPIXELS};
use crate::fusion::{Candidate, Class, Detector, FusedRegion, FusedRegionView, MaskFill};
use crate::yolo26s::{DEFAULT_CONFIDENCE_THRESHOLD, Yolo26sClass, Yolo26sRegion};

verus! {

/// Reading direction of a text block.
#[derive(Clone, Copy, Debug, PartialEq, Eq, Hash, Structural)]
pub enum TextDirection {
    Horizontal,
    Vertical,
}

/// A text block handed to the rest of the pipeline.
#[derive(Debug)]
pub struct TextBlock {
    pub bbox: BBox,
    /// Parts per million.
    pub confidence: u32,
    pub source_direction: Option<TextDirection>,
    pub source_lang: Option<String>,
    pub rotation_deg: Option<i32>,
    /// Sub-pixels.
    pub detected_font_size: Option<i32>,
    pub detector: Option<String>,
}

/// A detected text rectangle: corner, size (sub-pixels) and confidence
/// (parts per million).
#[derive(Debug)]
pub struct TextRegion {
    pub x: i32,
    pub y: i32,
    pub width: i64,
    pub height: i64,
    pub confidence: u32,
    pub detector: Option<String>,
}

/// A side of a box, never less than one pixel.
pub open spec fn side_at_least_one_pixel(lo: int, hi: int) -> int {
    if hi - lo >= SUBPIXELS {
        hi - lo
    } else {
        SUBPIXELS as int
    }
}

/// Taller than 1.15 times its own width reads as vertical Japanese.
pub open spec fn direction_of(b: BBox) -> TextDirection {
    let w = side_at_least_one_pixel(b.x1 as int, b.x2 as int);
    let h = side_at_least_one_pixel(b.y1 as int, b.y2 as int);
    if 100 * h >= 115 * w {
        TextDirection::Vertical
    } else {
        TextDirection::Horizontal
    }
}

/// The shorter side, at least one pixel: the nominal font size.
pub open spec fn font_size_of(b: BBox) -> int {
    let w = side_at_least_one_pixel(b.x1 as int, b.x2 as int);
    let h = side_at_least_one_pixel(b.y1 as int, b.y2 as int);
    if w <= h {
        w
    } else {
        h
    }
}

fn side_exec(lo: i32, hi: i32) -> (r: i64)
    ensures
        r == side_at_least_one_pixel(lo as int, hi as int),
        SUBPIXELS <= r <= 0x1_0000_0000,
{
    let d = hi as i64 - lo as i64;
    if d >= SUBPIXELS as i64 {
        d
    } else {
        SUBPIXELS as i64
    }
}

/// Reading direction and nominal font size of a box.
pub fn direction_and_size(b: BBox) -> (r: (TextDirection, i64))
    ensures
        r.0 == direction_of(b),
        r.1 == font_size_of(b),
{
    let w = side_exec(b.x1, b.x2);
    let h = side_exec(b.y1, b.y2);
    let direction = if 100 * h >= 115 * w {
        TextDirection::Vertical
    } else {
        TextDirection::Horizontal
    };
    (direction, if w <= h { w } else { h })
}

/// The short tag a detector is recorded under.
pub open spec fn tag_spec(d: Detector) -> Seq<char> {
    match d {
        Detector::Layout => "layout"@,
        Detector::RtDetr => "rtdetr"@,
        Detector::AnimeText => "animetext"@,
        Detector::ComicTextDetector => "ctd"@,
    }
}

/// The short tag a detector is recorded under.
pub fn detector_tag(detector: &Detector) -> (r: &'static str)
    ensures
        r@ == tag_spec(*detector),
{
    match detector {
        Detector::Layout => "layout",
        Detector::RtDetr => "rtdetr",
        Detector::AnimeText => "animetext",
        Detector::ComicTextDetector => "ctd",
    }
}

/// Tags joined by `+`.
pub open spec fn join_tags(ds: Seq<Detector>) -> Seq<char>
    decreases ds.len(),
{
    if ds.len() == 0 {
        seq![]
    } else if ds.len() == 1 {
        tag_spec(ds[0])
    } else {
        join_tags(ds.drop_last()) + "+"@ + tag_spec(ds.last())
    }
}

/// `koharu-fusion(` the voters joined by `+` `)`.
pub open spec fn fusion_label(ds: Seq<Detector>) -> Seq<char> {
    "koharu-fusion("@ + join_tags(ds) + ")"@
}

fn fusion_label_exec(detectors: &Vec<Detector>) -> (r: String)
    ensures
        r@ == fusion_label(detectors@),
{
    let mut joined = String::new();
    let mut i: usize = 0;
    while i < detectors.len()
        invariant
            i <= detectors@.len(),
            joined@ == join_tags(detectors@.take(i as int)),
        decreases detectors.len() - i,
    {
        proof {
            assert(detectors@.take(i + 1).drop_last() == detectors@.take(i as int));
        }
        if i > 0 {
            joined.append("+");
        } else {
            proof {
                assert(joined@ == Seq::<char>::empty());
            }
        }
        joined.append(detector_tag(&detectors[i]));
        proof {
            if i == 0 {
                assert(detectors@.take(1)[0] == detectors@[0]);
                assert(joined@ =~= join_tags(detectors@.take(1)));
            } else {
                assert(joined@ =~= join_tags(detectors@.take(i + 1)));
            }
        }
        i += 1;
    }
    proof {
        assert(detectors@.take(detectors@.len() as int) == detectors@);
    }
    let mut label = String::from_str("koharu-fusion(");
    label.append(joined.as_str());
    label.append(")");
    label
}

/// What `text_block` builds from an accepted fused region.
pub open spec fn fused_block_spec(r: FusedRegionView, b: TextBlock) -> bool {
    &&& b.bbox == r.bbox
    &&& b.confidence == r.score
    &&& b.source_direction == Some(direction_of(r.bbox))
    &&& (b.source_lang matches Some(l) && l@ == "unknown"@)
    &&& b.rotation_deg == Some(0i32)
    &&& b.detected_font_size == Some(font_size_of(r.bbox) as i32)
    &&& (b.detector matches Some(d) && d@ == fusion_label(r.detectors))
}

/// A text block for an accepted fused region, recording every voter:
/// `koharu-fusion(layout+ctd)`.
pub fn text_block(region: &FusedRegion) -> (r: (BBox, TextBlock))
    ensures
        r.0 == region.bbox,
        fused_block_spec(region@, r.1),
{
    let (direction, size) = direction_and_size(region.bbox);
    let block = TextBlock {
        bbox: region.bbox,
        confidence: region.score,
        source_direction: Some(direction),
        source_lang: Some(String::from_str("unknown")),
        rotation_deg: Some(0),
        detected_font_size: Some(size as i32),
        detector: Some(fusion_label_exec(&region.detectors)),
    };
    (region.bbox, block)
}

/// The fusion class a layout class proposes; panels are not proposals.
pub open spec fn layout_class(c: Yolo26sClass) -> Option<Class> {
    match c {
        Yolo26sClass::Balloon => Some(Class::Bubble),
        Yolo26sClass::DialogueText => Some(Class::Text),
        Yolo26sClass::OnomatopoeiaText => Some(Class::Sfx),
        Yolo26sClass::Frame => None,
    }
}

/// The layout model's proposals, in order. Each carries the fill of its
/// decoded mask, where there is one.
pub open spec fn layout_candidates_spec(s: Seq<(Yolo26sClass, u32, BBox, Option<MaskFill>)>) -> Seq<
    Candidate,
>
    decreases s.len(),
{
    if s.len() == 0 {
        seq![]
    } else {
        let rest = layout_candidates_spec(s.drop_last());
        let (class, score, bbox, mask_fill) = s.last();
        if score >= DEFAULT_CONFIDENCE_THRESHOLD {
            match layout_class(class) {
                Some(k) => rest.push(
                    Candidate { bbox, detector: Detector::Layout, class: k, score, has_mask: true, mask_fill },
                ),
                None => rest,
            }
        } else {
            rest
        }
    }
}

/// The plain values of layout regions that proposals are made from.
pub open spec fn region_keys(s: Seq<Yolo26sRegion>) -> Seq<(Yolo26sClass, u32, BBox)> {
    s.map_values(|r: Yolo26sRegion| (r.class, r.score, r.bbox))
}

/// How much of a region's box its decoded mask lights; `None` where the mask
/// was not decoded. The box and the mask are both in page pixels.
pub open spec fn region_fill(r: Yolo26sRegion) -> Option<MaskFill> {
    match r.mask {
        Some(m) => Some(m.fill_of(r.bbox)),
        None => None,
    }
}

/// The plain values of layout regions that proposals are made from, the
/// measured mask fill among them.
pub open spec fn candidate_keys(s: Seq<Yolo26sRegion>) -> Seq<(Yolo26sClass, u32, BBox, Option<MaskFill>)> {
    s.map_values(|r: Yolo26sRegion| (r.class, r.score, r.bbox, region_fill(r)))
}

/// Layout classes onto fusion's, for regions at the export's confidence.
/// Every layout instance carries mask coefficients, so each proposal is
/// marked as coming from the model that segments; where the mask was decoded,
/// the proposal also carries how much of its box the mask lit.
pub fn layout_candidates(regions: &[Yolo26sRegion]) -> (r: Vec<Candidate>)
    ensures
        r@ == layout_candidates_spec(candidate_keys(regions@)),
{
    let ghost keys = candidate_keys(regions@);
    let mut out: Vec<Candidate> = Vec::new();
    let mut i: usize = 0;
    while i < regions.len()
        invariant
            i <= regions@.len(),
            keys == candidate_keys(regions@),
            keys.len() == regions@.len(),
            out@ == layout_candidates_spec(keys.take(i as int)),
        decreases regions.len() - i,
    {
        let region = &regions[i];
        proof {
            assert(keys.take(i + 1).drop_last() == keys.take(i as int));
            assert(keys.take(i + 1).last() == keys[i as int]);
        }
        if region.score >= DEFAULT_CONFIDENCE_THRESHOLD {
            let class = match region.class {
                Yolo26sClass::Balloon => Some(Class::Bubble),
                Yolo26sClass::DialogueText => Some(Class::Text),
                Yolo26sClass::OnomatopoeiaText => Some(Class::Sfx),
                Yolo26sClass::Frame => None,
            };
            if let Some(class) = class {
                let mask_fill = match &region.mask {
                    Some(m) => Some(m.mask_fill(region.bbox)),
                    None => None,
                };
                out.push(
                    Candidate {
                        bbox: region.bbox,
                        detector: Detector::Layout,
                        class,
                        score: region.score,
                        has_mask: true,
                        mask_fill,
                    },
                );
            }
        }
        i += 1;
    }
    proof {
        assert(keys.take(regions@.len() as int) == keys);
    }
    out
}

/// A block for one glyph-holding layout region.
pub open spec fn layout_block_spec(key: (Yolo26sClass, u32, BBox), b: TextBlock) -> bool {
    &&& b.bbox == key.2
    &&& b.confidence == key.1
    &&& b.source_direction == Some(direction_of(key.2))
    &&& (b.source_lang matches Some(l) && l@ == "unknown"@)
    &&& b.rotation_deg == Some(0i32)
    &&& b.detected_font_size == Some(font_size_of(key.2) as i32)
    &&& (b.detector matches Some(d) && d@ == "koharu-yolo26s"@)
}

/// The layout regions that hold glyphs (dialogue text and SFX) at the
/// export's confidence.
pub open spec fn glyph_regions(s: Seq<(Yolo26sClass, u32, BBox)>) -> Seq<(Yolo26sClass, u32, BBox)>
    decreases s.len(),
{
    if s.len() == 0 {
        seq![]
    } else {
        let rest = glyph_regions(s.drop_last());
        let k = s.last();
        if (k.0 == Yolo26sClass::DialogueText || k.0 == Yolo26sClass::OnomatopoeiaText)
            && k.1 >= DEFAULT_CONFIDENCE_THRESHOLD {
            rest.push(k)
        } else {
            rest
        }
    }
}

/// One text block per region that holds glyphs, dropping the structural
/// classes (frame, balloon) and anything below the export's confidence.
pub fn text_blocks(regions: &[Yolo26sRegion]) -> (r: Vec<(BBox, TextBlock)>)
    ensures
        r@.len() == glyph_regions(region_keys(regions@)).len(),
        forall|i: int|
            0 <= i < r@.len() ==> (#[trigger] r@[i]).0 == glyph_regions(region_keys(regions@))[i].2
                && layout_block_spec(glyph_regions(region_keys(regions@))[i], r@[i].1),
{
    let ghost keys = region_keys(regions@);
    let mut out: Vec<(BBox, TextBlock)> = Vec::new();
    let mut i: usize = 0;
    while i < regions.len()
        invariant
            i <= regions@.len(),
            keys == region_keys(regions@),
            keys.len() == regions@.len(),
            out@.len() == glyph_regions(keys.take(i as int)).len(),
            forall|k: int|
                0 <= k < out@.len() ==> (#[trigger] out@[k]).0 == glyph_regions(keys.take(i as int))[k].2
                    && layout_block_spec(glyph_regions(keys.take(i as int))[k], out@[k].1),
        decreases regions.len() - i,
    {
        let region = &regions[i];
        let ghost before = out@;
        proof {
            assert(keys.take(i + 1).drop_last() == keys.take(i as int));
            assert(keys.take(i + 1).last() == keys[i as int]);
        }
        let glyphs = match region.class {
            Yolo26sClass::DialogueText => true,
            Yolo26sClass::OnomatopoeiaText => true,
            _ => false,
        };
        if glyphs && region.score >= DEFAULT_CONFIDENCE_THRESHOLD {
            let (direction, size) = direction_and_size(region.bbox);
            let block = TextBlock {
                bbox: region.bbox,
                confidence: region.score,
                source_direction: Some(direction),
                source_lang: Some(String::from_str("unknown")),
                rotation_deg: Some(0),
                detected_font_size: Some(size as i32),
                detector: Some(String::from_str("koharu-yolo26s")),
            };
            out.push((region.bbox, block));
            proof {
                let g = glyph_regions(keys.take(i + 1));
                assert(g == glyph_regions(keys.take(i as int)).push(keys[i as int]));
                assert forall|k: int| 0 <= k < out@.len() implies (#[trigger] out@[k]).0 == g[k].2
                    && layout_block_spec(g[k], out@[k].1) by {
                    if k < before.len() {
                        assert(out@[k] == before[k]);
                    }
                }
            }
        }
        i += 1;
    }
    proof {
        assert(keys.take(regions@.len() as int) == keys);
    }
    out
}

} // verus!
