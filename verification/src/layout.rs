//! The koharu-layout instance segmenter around its forward pass: the export's
//! configuration (input size, class names, per-class thresholds), the mapping
//! of normalised boxes onto the page, and the decoding of the graph's outputs
//! into regions ordered by score.
use vstd::prelude::*;
use crate::geometry::{BBox, SUBPIXELS};
use crate::mask::TextMask;
use vstd::arithmetic::div_mod::lemma_div_is_ordered;

verus! {

/// The graph's input: tensor name and `[batch, channels, height, width]`.
#[derive(Clone, Debug)]
pub struct LayoutInputConfig {
    pub name: String,
    pub shape: [usize; 4],
}

/// What the export's configuration says that decoding needs: the input, the
/// class names by index, and recommended score floors (ppm) by class name.
#[derive(Clone, Debug)]
pub struct LayoutOnnxConfig {
    pub input: LayoutInputConfig,
    pub classes: Vec<(usize, String)>,
    pub recommended_thresholds: Vec<(String, u32)>,
}

pub open spec fn classes_view(s: Seq<(usize, String)>) -> Seq<(usize, Seq<char>)> {
    s.map_values(|e: (usize, String)| (e.0, e.1@))
}

pub open spec fn thresholds_view(s: Seq<(String, u32)>) -> Seq<(Seq<char>, u32)> {
    s.map_values(|e: (String, u32)| (e.0@, e.1))
}

/// The name of class `class`: that of the first entry for it.
pub open spec fn class_name_spec(classes: Seq<(usize, Seq<char>)>, class: usize) -> Option<Seq<char>>
    decreases classes.len(),
{
    if classes.len() == 0 {
        None
    } else if classes[0].0 == class {
        Some(classes[0].1)
    } else {
        class_name_spec(classes.drop_first(), class)
    }
}

/// The recommended floor for `label`: that of the first entry for it.
pub open spec fn recommended_spec(thresholds: Seq<(Seq<char>, u32)>, label: Seq<char>) -> Option<u32>
    decreases thresholds.len(),
{
    if thresholds.len() == 0 {
        None
    } else if thresholds[0].0 == label {
        Some(thresholds[0].1)
    } else {
        recommended_spec(thresholds.drop_first(), label)
    }
}

/// A class's score floor: the recommended one, else `fallback`.
pub open spec fn threshold_spec(thresholds: Seq<(Seq<char>, u32)>, label: Seq<char>, fallback: u32) -> u32 {
    match recommended_spec(thresholds, label) {
        Some(t) => t,
        None => fallback,
    }
}

impl LayoutOnnxConfig {
    /// Input width.
    pub fn width(&self) -> (r: usize)
        ensures
            r == self.input.shape@[3],
    {
        self.input.shape[3]
    }

    /// Input height.
    pub fn height(&self) -> (r: usize)
        ensures
            r == self.input.shape@[2],
    {
        self.input.shape[2]
    }

    /// Score floor for class `label`: the export's recommendation, else
    /// `fallback`.
    pub fn threshold(&self, label: &str, fallback: u32) -> (r: u32)
        ensures
            r == threshold_spec(thresholds_view(self.recommended_thresholds@), label@, fallback),
    {
        let key = String::from_str(label);
        let ghost all = thresholds_view(self.recommended_thresholds@);
        proof {
            assert(all.skip(0) =~= all);
        }
        let mut i: usize = 0;
        while i < self.recommended_thresholds.len()
            invariant
                i <= self.recommended_thresholds@.len(),
                all == thresholds_view(self.recommended_thresholds@),
                key@ == label@,
                recommended_spec(all, label@) == recommended_spec(all.skip(i as int), label@),
            decreases self.recommended_thresholds.len() - i,
        {
            proof {
                assert(all.skip(i as int).drop_first() =~= all.skip(i + 1));
                assert(all.skip(i as int)[0] == (self.recommended_thresholds@[i as int].0@, self.recommended_thresholds@[i as int].1));
            }
            if self.recommended_thresholds[i].0 == key {
                return self.recommended_thresholds[i].1;
            }
            i += 1;
        }
        proof {
            assert(all.skip(i as int).len() == 0);
        }
        fallback
    }

    /// Name of class `class`, if the configuration gives one.
    pub fn class_name(&self, class: usize) -> (r: Option<String>)
        ensures
            match r {
                Some(name) => class_name_spec(classes_view(self.classes@), class) == Some(name@),
                None => class_name_spec(classes_view(self.classes@), class) is None,
            },
    {
        let ghost all = classes_view(self.classes@);
        proof {
            assert(all.skip(0) =~= all);
        }
        let mut i: usize = 0;
        while i < self.classes.len()
            invariant
                i <= self.classes@.len(),
                all == classes_view(self.classes@),
                class_name_spec(all, class) == class_name_spec(all.skip(i as int), class),
            decreases self.classes.len() - i,
        {
            proof {
                assert(all.skip(i as int).drop_first() =~= all.skip(i + 1));
                assert(all.skip(i as int)[0] == (self.classes@[i as int].0, self.classes@[i as int].1@));
            }
            if self.classes[i].0 == class {
                return Some(self.classes[i].1.clone());
            }
            i += 1;
        }
        proof {
            assert(all.skip(i as int).len() == 0);
        }
        None
    }
}

/// Bound on normalised coordinates (ppm) that keeps the arithmetic in range.
pub const NORM_LIMIT: i32 = 0x4000_0000;

/// A normalised edge `(2 * centre -/+ size) / 2` scaled onto a side of `side`
/// pixels, in sub-pixels, clamped to the side.
pub open spec fn scale_edge(twice: int, side: int) -> int {
    let n = twice * side * SUBPIXELS;
    if n <= 0 {
        0
    } else if n / 2_000_000 >= side * SUBPIXELS {
        side * SUBPIXELS
    } else {
        n / 2_000_000
    }
}

fn scale_edge_exec(twice: i64, side: u32) -> (r: i32)
    requires
        -0x1_0000_0000 <= twice <= 0x1_0000_0000,
        side <= 0x7f_ffff,
    ensures
        r == scale_edge(twice as int, side as int),
{
    proof {
        assert(-0x1_0000_0000 * 0x7f_ffff <= twice * side <= 0x1_0000_0000 * 0x7f_ffff) by (nonlinear_arith)
            requires -0x1_0000_0000 <= twice <= 0x1_0000_0000, 0 <= side <= 0x7f_ffff;
    }
    let n = twice * (side as i64) * 256;
    let cap = (side as i64) * 256;
    if n <= 0 {
        0
    } else if n / 2_000_000 >= cap {
        cap as i32
    } else {
        (n / 2_000_000) as i32
    }
}

/// Normalised `cx, cy, w, h` (ppm) to page `x1, y1, x2, y2` (sub-pixels),
/// clamped to the page.
pub open spec fn scale_box_spec(raw: Seq<i32>, width: int, height: int) -> BBox {
    BBox {
        x1: scale_edge(2 * raw[0] - raw[2], width) as i32,
        y1: scale_edge(2 * raw[1] - raw[3], height) as i32,
        x2: scale_edge(2 * raw[0] + raw[2], width) as i32,
        y2: scale_edge(2 * raw[1] + raw[3], height) as i32,
    }
}

pub open spec fn norm_in_range(v: i32) -> bool {
    -NORM_LIMIT <= v <= NORM_LIMIT
}

/// A normalised centre-size box mapped onto a `width` by `height` page.
pub fn scale_box(raw: [i32; 4], width: u32, height: u32) -> (b: BBox)
    requires
        forall|i: int| 0 <= i < 4 ==> norm_in_range(#[trigger] raw@[i]),
        width <= 0x7f_ffff,
        height <= 0x7f_ffff,
    ensures
        b == scale_box_spec(raw@, width as int, height as int),
{
    assert(norm_in_range(raw@[0]) && norm_in_range(raw@[1]) && norm_in_range(raw@[2]) && norm_in_range(raw@[3]));
    let cx = raw[0] as i64;
    let cy = raw[1] as i64;
    let w = raw[2] as i64;
    let h = raw[3] as i64;
    BBox {
        x1: scale_edge_exec(2 * cx - w, width),
        y1: scale_edge_exec(2 * cy - h, height),
        x2: scale_edge_exec(2 * cx + w, width),
        y2: scale_edge_exec(2 * cy + h, height),
    }
}

/// One detected instance: class, score (ppm), page box (sub-pixels), the
/// query it came from, and its page-sized binary mask where masks were
/// decoded.
#[derive(Debug)]
pub struct LayoutRegion {
    pub label_id: usize,
    pub label: String,
    pub score: u32,
    pub bbox: BBox,
    pub query: usize,
    pub mask: Option<TextMask>,
}

pub struct LayoutRegionView {
    pub label_id: usize,
    pub label: Seq<char>,
    pub score: u32,
    pub bbox: BBox,
    pub query: usize,
    pub mask: Option<TextMask>,
}

impl View for LayoutRegion {
    type V = LayoutRegionView;

    open spec fn view(&self) -> LayoutRegionView {
        LayoutRegionView {
            label_id: self.label_id,
            label: self.label@,
            score: self.score,
            bbox: self.bbox,
            query: self.query,
            mask: self.mask,
        }
    }
}

pub open spec fn layout_regions_view(s: Seq<LayoutRegion>) -> Seq<LayoutRegionView> {
    s.map_values(|r: LayoutRegion| r@)
}

/// Why the graph's outputs were refused.
#[derive(Clone, Copy, Debug, PartialEq, Eq, Structural)]
pub enum LayoutError {
    /// `dets` does not hold four values per query.
    DetsShape,
    /// `labels` does not hold one logit per query and channel.
    LabelsShape,
    /// `labels` has no channel at all (the last one is "no object").
    NoClassChannels,
    /// The graph scores more classes than the configuration names.
    TooManyClasses,
    /// The configuration names no class with this index.
    MissingClass(usize),
}

/// The first class below `n` that the configuration does not name.
pub open spec fn first_unnamed(classes: Seq<(usize, Seq<char>)>, n: int) -> Option<usize>
    decreases n,
{
    if n <= 0 {
        None
    } else {
        match first_unnamed(classes, n - 1) {
            Some(c) => Some(c),
            None => if class_name_spec(classes, (n - 1) as usize) is None {
                Some((n - 1) as usize)
            } else {
                None
            },
        }
    }
}

/// The regions of one query, classes in order: each class whose score
/// reaches its floor.
pub open spec fn query_regions(
    config: LayoutOnnxConfig,
    dets: Seq<i32>,
    scores: Seq<u32>,
    channels: int,
    fallback: u32,
    width: int,
    height: int,
    query: int,
    n: int,
) -> Seq<LayoutRegionView>
    decreases n,
{
    if n <= 0 {
        seq![]
    } else {
        let rest = query_regions(config, dets, scores, channels, fallback, width, height, query, n - 1);
        let class = n - 1;
        let name = class_name_spec(classes_view(config.classes@), class as usize)->0;
        let score = scores[query * channels + class];
        if score >= threshold_spec(thresholds_view(config.recommended_thresholds@), name, fallback) {
            rest.push(LayoutRegionView {
                label_id: class as usize,
                label: name,
                score,
                bbox: scale_box_spec(dets.subrange(4 * query, 4 * query + 4), width, height),
                query: query as usize,
                mask: None,
            })
        } else {
            rest
        }
    }
}

/// The regions of the first `q` queries, query by query.
pub open spec fn all_regions(
    config: LayoutOnnxConfig,
    dets: Seq<i32>,
    scores: Seq<u32>,
    channels: int,
    fallback: u32,
    width: int,
    height: int,
    q: int,
) -> Seq<LayoutRegionView>
    decreases q,
{
    if q <= 0 {
        seq![]
    } else {
        all_regions(config, dets, scores, channels, fallback, width, height, q - 1)
            + query_regions(config, dets, scores, channels, fallback, width, height, q - 1, channels - 1)
    }
}

/// `sorted` with `x` inserted after every region scoring at least as much.
pub open spec fn insert_by_score(sorted: Seq<LayoutRegionView>, x: LayoutRegionView) -> Seq<LayoutRegionView>
    decreases sorted.len(),
{
    if sorted.len() == 0 {
        seq![x]
    } else if sorted.last().score >= x.score {
        sorted.push(x)
    } else {
        insert_by_score(sorted.drop_last(), x).push(sorted.last())
    }
}

/// Stable sort by descending score.
pub open spec fn sort_by_score(s: Seq<LayoutRegionView>) -> Seq<LayoutRegionView>
    decreases s.len(),
{
    if s.len() == 0 {
        seq![]
    } else {
        insert_by_score(sort_by_score(s.drop_last()), s.last())
    }
}

proof fn lemma_insert_at(sorted: Seq<LayoutRegionView>, x: LayoutRegionView, j: int)
    requires
        0 <= j <= sorted.len(),
        forall|k: int| j <= k < sorted.len() ==> (#[trigger] sorted[k]).score < x.score,
        j > 0 ==> sorted[j - 1].score >= x.score,
    ensures
        insert_by_score(sorted, x) == sorted.insert(j, x),
    decreases sorted.len(),
{
    if sorted.len() == 0 {
        assert(sorted.insert(j, x) =~= seq![x]);
    } else if j == sorted.len() {
        assert(sorted.insert(j, x) =~= sorted.push(x));
    } else {
        let init = sorted.drop_last();
        assert forall|k: int| j <= k < init.len() implies (#[trigger] init[k]).score < x.score by {
            assert(init[k] == sorted[k]);
        }
        lemma_insert_at(init, x, j);
        assert(init.insert(j, x).push(sorted.last()) =~= sorted.insert(j, x));
    }
}

/// Orders regions by descending score, keeping the order of equal scores.
pub fn sort_regions_by_score(regions: Vec<LayoutRegion>) -> (r: Vec<LayoutRegion>)
    ensures
        layout_regions_view(r@) == sort_by_score(layout_regions_view(regions@)),
{
    let ghost input = layout_regions_view(regions@);
    let mut rest = regions;
    let mut out: Vec<LayoutRegion> = Vec::new();
    let ghost mut taken: int = 0;
    while rest.len() > 0
        invariant
            0 <= taken <= input.len(),
            rest@.len() == input.len() - taken,
            layout_regions_view(rest@) == input.skip(taken),
            layout_regions_view(out@) == sort_by_score(input.take(taken)),
        decreases rest.len(),
    {
        let ghost pre = rest@;
        let x = rest.remove(0);
        proof {
            assert(x == pre[0]);
            assert(layout_regions_view(pre)[0] == pre[0]@);
            assert(x@ == input[taken]);
            assert forall|k: int| 0 <= k < rest@.len() implies #[trigger] layout_regions_view(rest@)[k] == input.skip(taken + 1)[k] by {
                assert(rest@[k] == pre[k + 1]);
                assert(layout_regions_view(pre)[k + 1] == input.skip(taken)[k + 1]);
            }
            assert(layout_regions_view(rest@) =~= input.skip(taken + 1));
        }
        let mut j = out.len();
        while j > 0 && out[j - 1].score < x.score
            invariant
                j <= out@.len(),
                forall|k: int| j <= k < out@.len() ==> (#[trigger] out@[k]).score < x.score,
            decreases j,
        {
            j -= 1;
        }
        proof {
            let before = layout_regions_view(out@);
            assert forall|k: int| j <= k < before.len() implies (#[trigger] before[k]).score < x@.score by {
                assert(before[k] == out@[k]@);
            }
            if j > 0 {
                assert(before[j - 1] == out@[j - 1]@);
            }
            lemma_insert_at(before, x@, j as int);
            assert(input.take(taken + 1).drop_last() =~= input.take(taken));
        }
        let ghost old_out = out@;
        out.insert(j, x);
        proof {
            assert(layout_regions_view(out@) =~= layout_regions_view(old_out).insert(j as int, x@));
            taken = taken + 1;
        }
    }
    proof {
        assert(input.skip(taken).len() == 0);
        assert(input.take(taken) =~= input);
    }
    out
}

/// Every intermediate value stays in range: normalised boxes within
/// `NORM_LIMIT` and a page of at most `0x7f_ffff` pixels a side.
pub open spec fn layout_inputs_in_range(dets: Seq<i32>, width: int, height: int) -> bool {
    &&& forall|i: int| 0 <= i < dets.len() ==> norm_in_range(#[trigger] dets[i])
    &&& 0 <= width <= 0x7f_ffff
    &&& 0 <= height <= 0x7f_ffff
}

/// Decodes the graph's outputs for a `width` by `height` page: `dets` holds
/// four normalised values per query, `scores` one probability (ppm) per query
/// and channel, the last channel being "no object". Every class whose score
/// reaches its floor (the export's, else `fallback`) yields a region; the
/// regions come back by descending score.
pub fn decode_layout(
    config: &LayoutOnnxConfig,
    dets: &[i32],
    scores: &[u32],
    queries: usize,
    channels: usize,
    fallback: u32,
    width: u32,
    height: u32,
) -> (r: Result<Vec<LayoutRegion>, LayoutError>)
    requires
        layout_inputs_in_range(dets@, width as int, height as int),
    ensures
        dets@.len() != 4 * queries ==> r == Err::<Vec<LayoutRegion>, LayoutError>(LayoutError::DetsShape),
        dets@.len() == 4 * queries && scores@.len() != queries * channels ==> r == Err::<Vec<LayoutRegion>, LayoutError>(LayoutError::LabelsShape),
        dets@.len() == 4 * queries && scores@.len() == queries * channels && channels == 0 ==> r == Err::<Vec<LayoutRegion>, LayoutError>(LayoutError::NoClassChannels),
        dets@.len() == 4 * queries && scores@.len() == queries * channels && channels > 0 && channels - 1 > config.classes@.len() ==> r == Err::<Vec<LayoutRegion>, LayoutError>(LayoutError::TooManyClasses),
        dets@.len() == 4 * queries && scores@.len() == queries * channels && channels > 0 && channels - 1 <= config.classes@.len() ==> ({
            let missing = if queries > 0 { first_unnamed(classes_view(config.classes@), channels - 1) } else { None };
            match missing {
                Some(c) => r == Err::<Vec<LayoutRegion>, LayoutError>(LayoutError::MissingClass(c)),
                None => (r matches Ok(v) && layout_regions_view(v@) == sort_by_score(
                    all_regions(*config, dets@, scores@, channels as int, fallback, width as int, height as int, queries as int),
                )),
            }
        }),
{
    if dets.len() % 4 != 0 || dets.len() / 4 != queries {
        return Err(LayoutError::DetsShape);
    }
    if channels > 0 && queries > scores.len() / channels {
        proof {
            assert(scores@.len() != queries * channels) by (nonlinear_arith)
                requires channels > 0, queries > (scores@.len() as int) / (channels as int);
        }
        return Err(LayoutError::LabelsShape);
    }
    if channels == 0 {
        if scores.len() != 0 {
            return Err(LayoutError::LabelsShape);
        }
        return Err(LayoutError::NoClassChannels);
    }
    proof {
        assert(queries * channels <= scores@.len()) by (nonlinear_arith)
            requires channels > 0, queries <= (scores@.len() as int) / (channels as int);
    }
    if scores.len() != queries * channels {
        return Err(LayoutError::LabelsShape);
    }
    let num_classes = channels - 1;
    if num_classes > config.classes.len() {
        return Err(LayoutError::TooManyClasses);
    }
    let mut names: Vec<String> = Vec::new();
    if queries > 0 {
        let mut c: usize = 0;
        while c < num_classes
            invariant
                c <= num_classes,
                queries > 0,
                dets@.len() == 4 * queries,
                scores@.len() == queries * channels,
                num_classes == channels - 1,
                channels > 0,
                num_classes <= config.classes@.len(),
                names@.len() == c,
                first_unnamed(classes_view(config.classes@), c as int) is None,
                forall|k: int| 0 <= k < c ==> class_name_spec(classes_view(config.classes@), k as usize) == Some(#[trigger] names@[k]@),
            decreases num_classes - c,
        {
            match config.class_name(c) {
                Some(name) => {
                    names.push(name);
                },
                None => {
                    proof {
                        lemma_first_unnamed_stays(classes_view(config.classes@), c as int + 1, num_classes as int);
                    }
                    return Err(LayoutError::MissingClass(c));
                },
            }
            c += 1;
        }
    } else {
        let ghost empty = all_regions(*config, dets@, scores@, channels as int, fallback, width as int, height as int, 0);
        proof {
            assert(sort_by_score(empty) =~= seq![]);
        }
        let out: Vec<LayoutRegion> = Vec::new();
        proof {
            assert(layout_regions_view(out@) =~= seq![]);
        }
        return Ok(out);
    }
    let nd = dets.len();
    let ns = scores.len();
    let mut regions: Vec<LayoutRegion> = Vec::new();
    let mut q: usize = 0;
    while q < queries
        invariant
            nd == dets@.len(),
            ns == scores@.len(),
            q <= queries,
            dets@.len() == 4 * queries,
            scores@.len() == queries * channels,
            num_classes == channels - 1,
            names@.len() == num_classes,
            layout_inputs_in_range(dets@, width as int, height as int),
            forall|k: int| 0 <= k < num_classes ==> class_name_spec(classes_view(config.classes@), k as usize) == Some(#[trigger] names@[k]@),
            layout_regions_view(regions@) == all_regions(*config, dets@, scores@, channels as int, fallback, width as int, height as int, q as int),
        decreases queries - q,
    {
        proof {
            assert(4 * q + 4 <= 4 * queries);
            assert(q * channels + channels <= queries * channels) by (nonlinear_arith)
                requires q < queries, channels >= 0;
        }
        let raw: [i32; 4] = [dets[4 * q], dets[4 * q + 1], dets[4 * q + 2], dets[4 * q + 3]];
        assert(raw@ =~= dets@.subrange(4 * q as int, 4 * q as int + 4));
        let bbox = scale_box(raw, width, height);
        let ghost base = layout_regions_view(regions@);
        let mut c: usize = 0;
        while c < num_classes
            invariant
                ns == scores@.len(),
                c <= num_classes,
                q < queries,
                dets@.len() == 4 * queries,
                scores@.len() == queries * channels,
                q * channels + channels <= queries * channels,
                num_classes == channels - 1,
                names@.len() == num_classes,
                bbox == scale_box_spec(dets@.subrange(4 * q as int, 4 * q as int + 4), width as int, height as int),
                forall|k: int| 0 <= k < num_classes ==> class_name_spec(classes_view(config.classes@), k as usize) == Some(#[trigger] names@[k]@),
                layout_regions_view(regions@) == base + query_regions(*config, dets@, scores@, channels as int, fallback, width as int, height as int, q as int, c as int),
            decreases num_classes - c,
        {
            let score = scores[q * channels + c];
            let floor = config.threshold(names[c].as_str(), fallback);
            proof {
                assert(class_name_spec(classes_view(config.classes@), c) == Some(names@[c as int]@));
            }
            if score >= floor {
                let ghost before = regions@;
                regions.push(LayoutRegion { label_id: c, label: names[c].clone(), score, bbox, query: q, mask: None });
                proof {
                    assert(layout_regions_view(regions@) =~= layout_regions_view(before).push(regions@[before.len() as int]@));
                }
            }
            c += 1;
        }
        q += 1;
    }
    Ok(sort_regions_by_score(regions))
}

proof fn lemma_first_unnamed_stays(classes: Seq<(usize, Seq<char>)>, m: int, n: int)
    requires
        0 <= m <= n,
        first_unnamed(classes, m) is Some,
    ensures
        first_unnamed(classes, n) == first_unnamed(classes, m),
    decreases n - m,
{
    if n > m {
        lemma_first_unnamed_stays(classes, m, n - 1);
    }
}

/// Outline colour of a class, in the export's class order: text, onomatopoeia,
/// bubble, panel; white for anything else.
pub fn color_for_label(label_id: usize) -> (r: [u8; 4])
    ensures
        r@ == if label_id == 0 {
            seq![0u8, 160u8, 255u8, 255u8]
        } else if label_id == 1 {
            seq![255u8, 64u8, 200u8, 255u8]
        } else if label_id == 2 {
            seq![0u8, 255u8, 0u8, 255u8]
        } else if label_id == 3 {
            seq![255u8, 176u8, 0u8, 255u8]
        } else {
            seq![255u8, 255u8, 255u8, 255u8]
        },
{
    let r: [u8; 4] = match label_id {
        0 => [0, 160, 255, 255],
        1 => [255, 64, 200, 255],
        2 => [0, 255, 0, 255],
        3 => [255, 176, 0, 255],
        _ => [255, 255, 255, 255],
    };
    assert(r@ =~= (if label_id == 0 {
        seq![0u8, 160u8, 255u8, 255u8]
    } else if label_id == 1 {
        seq![255u8, 64u8, 200u8, 255u8]
    } else if label_id == 2 {
        seq![0u8, 255u8, 0u8, 255u8]
    } else if label_id == 3 {
        seq![255u8, 176u8, 0u8, 255u8]
    } else {
        seq![255u8, 255u8, 255u8, 255u8]
    }));
    r
}

proof fn lemma_insert_keeps_order(sorted: Seq<LayoutRegionView>, x: LayoutRegionView)
    requires
        forall|i: int, j: int| 0 <= i < j < sorted.len() ==> #[trigger] sorted[i].score >= #[trigger] sorted[j].score,
    ensures
        forall|i: int, j: int|
            0 <= i < j < insert_by_score(sorted, x).len() ==> #[trigger] insert_by_score(sorted, x)[i].score
                >= #[trigger] insert_by_score(sorted, x)[j].score,
        insert_by_score(sorted, x).to_multiset() == sorted.to_multiset().insert(x),
    decreases sorted.len(),
{
    broadcast use vstd::seq_lib::group_to_multiset_ensures;
    broadcast use vstd::multiset::group_multiset_axioms;

    if sorted.len() == 0 {
        assert(seq![x] =~= sorted.push(x));
    } else if sorted.last().score >= x.score {
        let r = sorted.push(x);
        assert forall|i: int, j: int| 0 <= i < j < r.len() implies #[trigger] r[i].score >= #[trigger] r[j].score by {
            if j == r.len() - 1 && i < sorted.len() - 1 {
                assert(sorted[i].score >= sorted[sorted.len() - 1].score);
            }
        }
    } else {
        let init = sorted.drop_last();
        let last = sorted.last();
        assert forall|i: int, j: int| 0 <= i < j < init.len() implies #[trigger] init[i].score >= #[trigger] init[j].score by {
            assert(init[i] == sorted[i] && init[j] == sorted[j]);
        }
        lemma_insert_keeps_order(init, x);
        let m = insert_by_score(init, x);
        assert forall|k: int| 0 <= k < m.len() implies (#[trigger] m[k]).score >= last.score by {
            let e = m[k];
            assert(m.contains(e));
            assert(m.to_multiset().count(e) > 0);
            if e != x {
                assert(init.to_multiset().count(e) > 0);
                assert(init.contains(e));
                let j = choose|j: int| 0 <= j < init.len() && init[j] == e;
                assert(sorted[j] == e);
                assert(sorted[j].score >= sorted[sorted.len() - 1].score);
            }
        }
        let r = m.push(last);
        assert forall|i: int, j: int| 0 <= i < j < r.len() implies #[trigger] r[i].score >= #[trigger] r[j].score by {
            if j == r.len() - 1 {
                assert(r[i] == m[i]);
            } else {
                assert(r[i] == m[i] && r[j] == m[j]);
            }
        }
        assert(sorted =~= init.push(last));
        assert(r.to_multiset() =~= sorted.to_multiset().insert(x));
    }
}

/// Decoded regions come back in descending score, and sorting neither drops
/// nor invents a region.
pub proof fn law_regions_by_descending_score(s: Seq<LayoutRegionView>)
    ensures
        forall|i: int, j: int|
            0 <= i < j < sort_by_score(s).len() ==> #[trigger] sort_by_score(s)[i].score >= #[trigger] sort_by_score(s)[j].score,
        sort_by_score(s).to_multiset() == s.to_multiset(),
    decreases s.len(),
{
    broadcast use vstd::seq_lib::group_to_multiset_ensures;

    if s.len() == 0 {
        assert(sort_by_score(s).to_multiset() =~= s.to_multiset());
    } else {
        law_regions_by_descending_score(s.drop_last());
        lemma_insert_keeps_order(sort_by_score(s.drop_last()), s.last());
        assert(s =~= s.drop_last().push(s.last()));
    }
}

/// A scaled edge never moves against its input and stays on the side.
proof fn lemma_scale_edge_monotone(a: int, b: int, side: int)
    requires
        a <= b,
        0 <= side <= 0x7f_ffff,
    ensures
        scale_edge(a, side) <= scale_edge(b, side),
        0 <= scale_edge(a, side) <= side * SUBPIXELS,
        0 <= scale_edge(b, side) <= side * SUBPIXELS,
{
    assert(a * side * SUBPIXELS <= b * side * SUBPIXELS) by (nonlinear_arith)
        requires a <= b, side >= 0;
    lemma_div_is_ordered(a * side * SUBPIXELS, b * side * SUBPIXELS, 2_000_000);
}

/// How a layout box follows its normalised centre and size:
/// - its top and bottom edges depend only on the vertical centre, the height
///   and the page height, and its left and right edges only on the horizontal
///   centre, the width and the page width: changing a box's width never moves
///   its top or bottom, and changing its height never moves its sides;
/// - moving the centre down (right) never moves an edge up (left);
/// - a box of non-negative size never comes out inverted.
pub proof fn law_layout_box_follows_its_axes(raw: Seq<i32>, other: Seq<i32>, width: int, height: int, width2: int, height2: int)
    requires
        raw.len() == 4,
        other.len() == 4,
        0 <= width <= 0x7f_ffff,
        0 <= height <= 0x7f_ffff,
    ensures
        raw[1] == other[1] && raw[3] == other[3] && height == height2 ==> {
            &&& scale_box_spec(raw, width, height).y1 == scale_box_spec(other, width2, height2).y1
            &&& scale_box_spec(raw, width, height).y2 == scale_box_spec(other, width2, height2).y2
        },
        raw[0] == other[0] && raw[2] == other[2] && width == width2 ==> {
            &&& scale_box_spec(raw, width, height).x1 == scale_box_spec(other, width2, height2).x1
            &&& scale_box_spec(raw, width, height).x2 == scale_box_spec(other, width2, height2).x2
        },
        raw[1] <= other[1] && raw[3] == other[3] ==> {
            &&& scale_box_spec(raw, width, height).y1 <= scale_box_spec(other, width, height).y1
            &&& scale_box_spec(raw, width, height).y2 <= scale_box_spec(other, width, height).y2
        },
        raw[0] <= other[0] && raw[2] == other[2] ==> {
            &&& scale_box_spec(raw, width, height).x1 <= scale_box_spec(other, width, height).x1
            &&& scale_box_spec(raw, width, height).x2 <= scale_box_spec(other, width, height).x2
        },
        raw[3] >= 0 ==> scale_box_spec(raw, width, height).y1 <= scale_box_spec(raw, width, height).y2,
        raw[2] >= 0 ==> scale_box_spec(raw, width, height).x1 <= scale_box_spec(raw, width, height).x2,
{
    let (cx, cy, w, h) = (raw[0] as int, raw[1] as int, raw[2] as int, raw[3] as int);
    let (ocx, ocy, ow, oh) = (other[0] as int, other[1] as int, other[2] as int, other[3] as int);
    lemma_scale_edge_monotone(2 * cy - h, 2 * cy - h, height);
    lemma_scale_edge_monotone(2 * cy + h, 2 * cy + h, height);
    lemma_scale_edge_monotone(2 * cx - w, 2 * cx - w, width);
    lemma_scale_edge_monotone(2 * cx + w, 2 * cx + w, width);
    lemma_scale_edge_monotone(2 * ocy - oh, 2 * ocy - oh, height);
    lemma_scale_edge_monotone(2 * ocy + oh, 2 * ocy + oh, height);
    lemma_scale_edge_monotone(2 * ocx - ow, 2 * ocx - ow, width);
    lemma_scale_edge_monotone(2 * ocx + ow, 2 * ocx + ow, width);
    if cy <= ocy && h == oh {
        lemma_scale_edge_monotone(2 * cy - h, 2 * ocy - oh, height);
        lemma_scale_edge_monotone(2 * cy + h, 2 * ocy + oh, height);
    }
    if cx <= ocx && w == ow {
        lemma_scale_edge_monotone(2 * cx - w, 2 * ocx - ow, width);
        lemma_scale_edge_monotone(2 * cx + w, 2 * ocx + ow, width);
    }
    if h >= 0 {
        lemma_scale_edge_monotone(2 * cy - h, 2 * cy + h, height);
    }
    if w >= 0 {
        lemma_scale_edge_monotone(2 * cx - w, 2 * cx + w, width);
    }
}

} // verus!
