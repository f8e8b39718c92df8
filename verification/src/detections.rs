//! Whole detections of the models that segment: the decoded regions together
//! with the page size and, where they were asked for, each region's page mask.
use vstd::prelude::*;
use crate::layout::{
    LayoutError, LayoutOnnxConfig, LayoutRegion, LayoutRegionView, all_regions, classes_view,
    decode_layout, first_unnamed, layout_inputs_in_range, layout_regions_view, sort_by_score,
};
use crate::mask::TextMask;
use crate::mask_decode::{
    MaskShapeError, binarize_spec, decode_layout_mask, mask_to_page, mask_to_page_spec, plane_fits,
    resample_fits, triangle_resize,
};
use crate::yolo26s::{
    Instance, Letterbox, Yolo26sClass, Yolo26sDetection, Yolo26sRegion, dedup, dedup_spec, wants_mask,
};

verus! {

/// What `decode_layout` makes of the graph's outputs.
pub open spec fn decode_layout_spec(
    config: LayoutOnnxConfig,
    dets: Seq<i32>,
    scores: Seq<u32>,
    queries: int,
    channels: int,
    fallback: u32,
    width: int,
    height: int,
) -> Result<Seq<LayoutRegionView>, LayoutError> {
    if dets.len() != 4 * queries {
        Err(LayoutError::DetsShape)
    } else if scores.len() != queries * channels {
        Err(LayoutError::LabelsShape)
    } else if channels == 0 {
        Err(LayoutError::NoClassChannels)
    } else if channels - 1 > config.classes@.len() {
        Err(LayoutError::TooManyClasses)
    } else {
        match if queries > 0 { first_unnamed(classes_view(config.classes@), channels - 1) } else { None } {
            Some(c) => Err(LayoutError::MissingClass(c)),
            None => Ok(sort_by_score(all_regions(config, dets, scores, channels, fallback, width, height, queries))),
        }
    }
}

/// A layout detection: the page size and the regions, best first.
#[derive(Debug)]
pub struct LayoutDetection {
    pub image_width: u32,
    pub image_height: u32,
    pub regions: Vec<LayoutRegion>,
}

/// Why a layout detection could not be assembled.
#[derive(Clone, Copy, Debug, PartialEq, Eq, Structural)]
pub enum LayoutDetectionError {
    /// The box and class outputs were refused.
    Decode(LayoutError),
    /// A region's mask could not be located in the mask output.
    Mask(MaskShapeError),
}

/// Query `query`'s mask is wholly inside a `[batch, queries, height, width]`
/// mask output of `data_len` values.
pub open spec fn mask_fits(dims: Seq<usize>, data_len: int, query: int) -> bool {
    query * (dims[2] * dims[3]) + dims[2] * dims[3] <= data_len
}

/// Query `query`'s mask, resampled to the page and binarised at one half.
pub open spec fn layout_mask_spec(dims: Seq<usize>, data: Seq<u8>, query: int, width: u32, height: u32) -> Seq<u8> {
    let stride = dims[2] * dims[3];
    binarize_spec(
        triangle_resize(
            data.subrange(query * stride, query * stride + stride),
            dims[3] as u32,
            dims[2] as u32,
            width,
            height,
        ),
    )
}

/// How the mask output decides a detection of `regions`: `None` when every
/// region's mask is there, else the error.
pub open spec fn mask_problem(regions: Seq<LayoutRegionView>, dims: Seq<usize>, data_len: int) -> Option<MaskShapeError> {
    if regions.len() == 0 {
        None
    } else if dims.len() != 4 {
        Some(MaskShapeError::Rank)
    } else if exists|i: int| 0 <= i < regions.len() && !mask_fits(dims, data_len, #[trigger] regions[i].query as int) {
        Some(MaskShapeError::Short)
    } else {
        None
    }
}

/// `x` is region `v` carrying mask `m`.
pub open spec fn with_mask(v: LayoutRegionView, x: LayoutRegionView) -> bool {
    x == LayoutRegionView { mask: x.mask, ..v }
}

/// The mask output can be read for a page of this size: its grid sides fit
/// `u32`, and the page and the resampler's plane fit memory's index range.
pub open spec fn layout_masks_in_range(mask_dims: Option<&[usize]>, width: u32, height: u32) -> bool {
    mask_dims matches Some(d) ==> (d@.len() == 4 ==> {
        &&& d@[2] <= u32::MAX
        &&& d@[3] <= u32::MAX
        &&& plane_fits(width, height)
        &&& resample_fits(d@[3] as u32, height)
    })
}

/// Whether query `query`'s mask lies wholly inside `data_len` values of a
/// grid `h` by `w`.
fn window_fits(h: usize, w: usize, query: usize, data_len: usize) -> (r: bool)
    ensures
        r == (query * (h * w) + h * w <= data_len),
{
    assert(0 <= h * w) by (nonlinear_arith)
        requires h >= 0, w >= 0;
    assert(0 <= query * (h * w)) by (nonlinear_arith)
        requires query >= 0, h * w >= 0;
    let stride = match h.checked_mul(w) {
        None => {
            return false;
        },
        Some(s) => s,
    };
    if stride == 0 {
        assert(query * (h * w) == 0) by (nonlinear_arith)
            requires h * w == 0;
        return true;
    }
    if query == usize::MAX {
        assert(query * stride >= query) by (nonlinear_arith)
            requires stride >= 1, query >= 0;
        return false;
    }
    assert(query * stride + stride == stride * (query + 1)) by (nonlinear_arith);
    match stride.checked_mul(query + 1) {
        None => false,
        Some(need) => need <= data_len,
    }
}

fn copy_range(data: &[u8], start: usize, len: usize) -> (r: Vec<u8>)
    requires
        start + len <= data@.len(),
    ensures
        r@ == data@.subrange(start as int, start + len),
{
    let n = data.len();
    let mut r: Vec<u8> = Vec::new();
    let mut i: usize = 0;
    while i < len
        invariant
            i <= len,
            n == data@.len(),
            start + len <= data@.len(),
            r@ == data@.subrange(start as int, start + i),
        decreases len - i,
    {
        r.push(data[start + i]);
        proof {
            assert(data@.subrange(start as int, start + i + 1) =~= data@.subrange(start as int, start + i).push(data@[start + i]));
        }
        i += 1;
    }
    r
}

/// The layout detector's result for a `width` by `height` page: the regions
/// `decode_layout` finds, best first, each carrying its page-sized binary mask
/// exactly when the mask output (`mask_dims`, `mask_data`: the query masks'
/// probabilities, 0..255) was given. A region's mask is its query's plane
/// resampled to the page and lit where it reaches one half. The mask output is
/// refused when a region's mask cannot be found in it.
pub fn layout_detection(
    config: &LayoutOnnxConfig,
    dets: &[i32],
    scores: &[u32],
    mask_dims: Option<&[usize]>,
    mask_data: &[u8],
    queries: usize,
    channels: usize,
    fallback: u32,
    width: u32,
    height: u32,
) -> (r: Result<LayoutDetection, LayoutDetectionError>)
    requires
        layout_inputs_in_range(dets@, width as int, height as int),
        layout_masks_in_range(mask_dims, width, height),
    ensures
        match decode_layout_spec(*config, dets@, scores@, queries as int, channels as int, fallback, width as int, height as int) {
            Err(e) => r == Err::<LayoutDetection, LayoutDetectionError>(LayoutDetectionError::Decode(e)),
            Ok(found) => if mask_dims is Some && mask_problem(found, mask_dims->0@, mask_data@.len() as int) is Some {
                r == Err::<LayoutDetection, LayoutDetectionError>(
                    LayoutDetectionError::Mask(mask_problem(found, mask_dims->0@, mask_data@.len() as int)->0),
                )
            } else {
                r matches Ok(det) && {
                    &&& det.image_width == width
                    &&& det.image_height == height
                    &&& det.regions@.len() == found.len()
                    &&& forall|i: int| 0 <= i < found.len() ==> {
                        let x = (#[trigger] det.regions@[i])@;
                        &&& with_mask(found[i], x)
                        &&& (x.mask is Some) == (mask_dims is Some)
                        &&& (mask_dims matches Some(d) ==> (x.mask matches Some(m) && {
                            &&& m.width_spec() == width
                            &&& m.height_spec() == height
                            &&& m.pixels_spec() == layout_mask_spec(d@, mask_data@, found[i].query as int, width, height)
                        }))
                    }
                }
            },
        },
{
    let regions = match decode_layout(config, dets, scores, queries, channels, fallback, width, height) {
        Ok(v) => v,
        Err(e) => {
            return Err(LayoutDetectionError::Decode(e));
        },
    };
    let ghost found = layout_regions_view(regions@);
    let data_len = mask_data.len();
    assert(decode_layout_spec(*config, dets@, scores@, queries as int, channels as int, fallback, width as int, height as int) == Ok::<Seq<LayoutRegionView>, LayoutError>(found));
    if let Some(dims) = mask_dims {
        if regions.len() > 0 && dims.len() != 4 {
            return Err(LayoutDetectionError::Mask(MaskShapeError::Rank));
        }
        let mut k: usize = 0;
        while k < regions.len()
            invariant
                k <= regions@.len(),
                mask_dims == Some(dims),
                found == layout_regions_view(regions@),
                decode_layout_spec(*config, dets@, scores@, queries as int, channels as int, fallback, width as int, height as int)
                    == Ok::<Seq<LayoutRegionView>, LayoutError>(found),
                regions@.len() > 0 ==> dims@.len() == 4,
                forall|j: int| 0 <= j < k ==> mask_fits(dims@, mask_data@.len() as int, #[trigger] found[j].query as int),
            decreases regions.len() - k,
        {
            assert(found[k as int] == regions@[k as int]@);
            if !window_fits(dims[2], dims[3], regions[k].query, mask_data.len()) {
                proof {
                    assert(!mask_fits(dims@, mask_data@.len() as int, found[k as int].query as int));
                    assert(mask_problem(found, dims@, mask_data@.len() as int) == Some(MaskShapeError::Short));
                }
                return Err(LayoutDetectionError::Mask(MaskShapeError::Short));
            }
            k += 1;
        }
        assert(mask_problem(found, dims@, mask_data@.len() as int) is None);
    }
    let mut rest = regions;
    let mut out: Vec<LayoutRegion> = Vec::new();
    let ghost mut taken: int = 0;
    while rest.len() > 0
        invariant
            0 <= taken <= found.len(),
            rest@.len() == found.len() - taken,
            forall|j: int| 0 <= j < rest@.len() ==> #[trigger] rest@[j]@ == found[taken + j],
            out@.len() == taken,
            layout_masks_in_range(mask_dims, width, height),
            data_len == mask_data@.len(),
            mask_dims matches Some(d) ==> found.len() > 0 ==> d@.len() == 4,
            mask_dims matches Some(d) ==> forall|j: int| 0 <= j < found.len() ==> mask_fits(d@, mask_data@.len() as int, #[trigger] found[j].query as int),
            forall|i: int| 0 <= i < taken ==> {
                let x = (#[trigger] out@[i])@;
                &&& with_mask(found[i], x)
                &&& (x.mask is Some) == (mask_dims is Some)
                &&& (mask_dims matches Some(d) ==> (x.mask matches Some(m) && {
                    &&& m.width_spec() == width
                    &&& m.height_spec() == height
                    &&& m.pixels_spec() == layout_mask_spec(d@, mask_data@, found[i].query as int, width, height)
                }))
            },
        decreases rest.len(),
    {
        let ghost pre = rest@;
        let mut x = rest.remove(0);
        assert(x@ == found[taken]);
        assert forall|j: int| 0 <= j < rest@.len() implies #[trigger] rest@[j]@ == found[taken + 1 + j] by {
            assert(rest@[j] == pre[j + 1]);
        }
        if let Some(dims) = mask_dims {
            let h = dims[2];
            let w = dims[3];
            let q = x.query;
            proof {
                assert(mask_fits(dims@, mask_data@.len() as int, found[taken].query as int));
                assert(q * (h * w) + h * w <= mask_data@.len());
                assert(0 <= q * (h * w)) by (nonlinear_arith)
                    requires q >= 0, h * w >= 0;
                assert(0 <= h * w) by (nonlinear_arith)
                    requires h >= 0, w >= 0;
                assert(h * w <= mask_data@.len());
                assert(dims@.len() == 4);
                assert(h <= u32::MAX && w <= u32::MAX);
                assert((w as u32) as int * (h as u32) as int == h * w) by (nonlinear_arith)
                    requires h <= u32::MAX, w <= u32::MAX;
            }
            let stride = h * w;
            let small = copy_range(mask_data, q * stride, stride);
            let m = decode_layout_mask(&small, w as u32, h as u32, width, height);
            x.mask = Some(m);
        } else {
            x.mask = None;
        }
        let ghost before = out@;
        out.push(x);
        proof {
            assert forall|i: int| 0 <= i < taken + 1 implies #[trigger] out@[i] == (if i < taken { before[i] } else { x }) by {}
            taken = taken + 1;
        }
    }
    Ok(LayoutDetection { image_width: width, image_height: height, regions: out })
}

/// How many of `s` are of a class whose mask was asked for.
pub open spec fn wanted_count(s: Seq<Instance>, masks: Seq<Yolo26sClass>) -> nat
    decreases s.len(),
{
    if s.len() == 0 {
        0
    } else {
        wanted_count(s.drop_last(), masks) + if masks.contains(s.last().class) {
            1nat
        } else {
            0nat
        }
    }
}

proof fn lemma_wanted_count_grows(s: Seq<Instance>, masks: Seq<Yolo26sClass>, i: int)
    requires
        0 <= i <= s.len(),
    ensures
        wanted_count(s.take(i), masks) <= wanted_count(s, masks),
    decreases s.len() - i,
{
    if i < s.len() {
        assert(s.take(i + 1).drop_last() =~= s.take(i));
        lemma_wanted_count_grows(s, masks, i + 1);
    } else {
        assert(s.take(i) =~= s);
    }
}

/// The page and the resampler's planes for a mask on `l` fit memory's index
/// range.
pub open spec fn instance_masks_fit(l: Letterbox, proto_width: u32) -> bool {
    &&& plane_fits(l.input_width, l.input_height)
    &&& plane_fits(l.original_width, l.original_height)
    &&& resample_fits(proto_width, l.input_height)
    &&& resample_fits(l.input_width, l.original_height)
}

/// The yolo26s detector's result for the page `letterbox` was made from:
/// the instances read from the model (best first) with repeated instances of
/// one object dropped (`dedup`), each a region of the page size that carries a
/// page-sized binary mask exactly when its class is among `masks`. Those
/// instances' mask probabilities come in `planes`, in order, on the
/// `proto_width` by `proto_height` prototype grid; a region's mask is its plane
/// taken to the page and lit inside its box (`mask_to_page`).
pub fn yolo26s_detection(
    instances: Vec<Instance>,
    letterbox: &Letterbox,
    masks: &[Yolo26sClass],
    planes: &Vec<Vec<u8>>,
    proto_width: u32,
    proto_height: u32,
) -> (r: Yolo26sDetection)
    requires
        planes@.len() == wanted_count(dedup_spec(instances@), masks@),
        forall|k: int| 0 <= k < planes@.len() ==> (#[trigger] planes@[k])@.len() == proto_width as int * proto_height as int,
        planes@.len() > 0 ==> instance_masks_fit(*letterbox, proto_width),
    ensures
        r.image_width == letterbox.original_width,
        r.image_height == letterbox.original_height,
        r.regions@.len() == dedup_spec(instances@).len(),
        forall|i: int| 0 <= i < r.regions@.len() ==> {
            let x = dedup_spec(instances@)[i];
            let region = #[trigger] r.regions@[i];
            &&& region.class == x.class
            &&& region.score == x.score
            &&& region.bbox == x.bbox
            &&& (region.mask is Some) == masks@.contains(x.class)
            &&& (region.mask matches Some(m) ==> {
                &&& m.width_spec() == letterbox.original_width
                &&& m.height_spec() == letterbox.original_height
                &&& m.pixels_spec() == mask_to_page_spec(
                    planes@[wanted_count(dedup_spec(instances@).take(i), masks@) as int]@,
                    proto_width,
                    proto_height,
                    *letterbox,
                    x.bbox,
                )
            })
        },
{
    let kept = dedup(instances);
    let ghost ks = kept@;
    let mut regions: Vec<Yolo26sRegion> = Vec::new();
    let mut used: usize = 0;
    let mut i: usize = 0;
    while i < kept.len()
        invariant
            ks == kept@,
            ks == dedup_spec(instances@),
            i <= ks.len(),
            used == wanted_count(ks.take(i as int), masks@),
            planes@.len() == wanted_count(ks, masks@),
            forall|k: int| 0 <= k < planes@.len() ==> (#[trigger] planes@[k])@.len() == proto_width as int * proto_height as int,
            planes@.len() > 0 ==> instance_masks_fit(*letterbox, proto_width),
            regions@.len() == i,
            forall|j: int| 0 <= j < i ==> {
                let x = ks[j];
                let region = #[trigger] regions@[j];
                &&& region.class == x.class
                &&& region.score == x.score
                &&& region.bbox == x.bbox
                &&& (region.mask is Some) == masks@.contains(x.class)
                &&& (region.mask matches Some(m) ==> {
                    &&& m.width_spec() == letterbox.original_width
                    &&& m.height_spec() == letterbox.original_height
                    &&& m.pixels_spec() == mask_to_page_spec(
                        planes@[wanted_count(ks.take(j), masks@) as int]@,
                        proto_width,
                        proto_height,
                        *letterbox,
                        x.bbox,
                    )
                })
            },
        decreases kept.len() - i,
    {
        let x = kept[i];
        proof {
            assert(ks.take(i + 1).drop_last() =~= ks.take(i as int));
            assert(ks.take(i + 1).last() == x);
            lemma_wanted_count_grows(ks, masks@, i + 1);
        }
        let mask = if wants_mask(masks, x.class) {
            let available = planes.len();
            assert(used < available);
            let m = mask_to_page(&planes[used], proto_width, proto_height, letterbox, x.bbox);
            used += 1;
            Some(m)
        } else {
            None
        };
        let ghost before = regions@;
        regions.push(Yolo26sRegion { class: x.class, score: x.score, bbox: x.bbox, mask });
        proof {
            assert forall|j: int| 0 <= j < i + 1 implies #[trigger] regions@[j] == (if j < i { before[j] } else { regions@[i as int] }) by {}
        }
        i += 1;
    }
    proof {
        assert(ks.take(ks.len() as int) =~= ks);
    }
    Yolo26sDetection { image_width: letterbox.original_width, image_height: letterbox.original_height, regions }
}

} // verus!
