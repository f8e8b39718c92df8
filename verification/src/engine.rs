//! The fused detector's decisions around the four models: which proposals
//! each model contributes, and which fused regions become text blocks.
use vstd::prelude::*;
use crate::anime_text::{AnimeRegionView, AnimeTextRegion, anime_regions_view};
use crate::blocks::{TextBlock, TextRegion, fused_block_spec, candidate_keys, layout_candidates, layout_candidates_spec, text_block};
use crate::comic_bubble::{ComicTextBubbleRegion, RegionView, regions_view};
use crate::fusion::{Candidate, Class, Detector, Fusion, FusedRegion, FusedRegionView};
use crate::geometry::BBox;
use crate::yolo26s::Yolo26sRegion;

verus! {

/// RT-DETR's proposal: balloons as bubbles, both text labels as text.
pub open spec fn rtdetr_candidate(r: RegionView) -> Candidate {
    Candidate {
        bbox: r.bbox,
        detector: Detector::RtDetr,
        class: if r.label_id == 0 { Class::Bubble } else { Class::Text },
        score: r.score,
        has_mask: false,
        mask_fill: None,
    }
}

/// comic-text-detector's proposal: a text box from corner and size.
pub open spec fn ctd_candidate(t: TextRegion) -> Candidate {
    Candidate {
        bbox: BBox { x1: t.x, y1: t.y, x2: (t.x + t.width) as i32, y2: (t.y + t.height) as i32 },
        detector: Detector::ComicTextDetector,
        class: Class::Text,
        score: t.confidence,
        has_mask: false,
        mask_fill: None,
    }
}

/// AnimeText's proposal: a text box.
pub open spec fn anime_candidate(r: AnimeRegionView) -> Candidate {
    Candidate { bbox: r.bbox, detector: Detector::AnimeText, class: Class::Text, score: r.score, has_mask: false, mask_fill: None }
}

/// A text region whose far corner fits in `i32`.
pub open spec fn region_fits(t: TextRegion) -> bool {
    &&& i32::MIN <= t.x + t.width <= i32::MAX
    &&& i32::MIN <= t.y + t.height <= i32::MAX
}

/// Every proposal fusion weighs, model by model: the layout model's, then
/// RT-DETR's, comic-text-detector's and, when it loaded, AnimeText's.
pub open spec fn fusion_candidates_spec(
    layout: Seq<Yolo26sRegion>,
    rtdetr: Seq<RegionView>,
    ctd: Seq<TextRegion>,
    anime: Option<Seq<AnimeRegionView>>,
) -> Seq<Candidate> {
    layout_candidates_spec(candidate_keys(layout)) + rtdetr.map_values(|r: RegionView| rtdetr_candidate(r))
        + ctd.map_values(|t: TextRegion| ctd_candidate(t)) + match anime {
        Some(a) => a.map_values(|r: AnimeRegionView| anime_candidate(r)),
        None => seq![],
    }
}

/// The proposals of all four models, in that order.
pub fn fusion_candidates(
    layout: &[Yolo26sRegion],
    rtdetr: &[ComicTextBubbleRegion],
    ctd: &[TextRegion],
    anime: Option<&[AnimeTextRegion]>,
) -> (r: Vec<Candidate>)
    requires
        forall|i: int| 0 <= i < ctd@.len() ==> region_fits(#[trigger] ctd@[i]),
    ensures
        r@ == fusion_candidates_spec(
            layout@,
            regions_view(rtdetr@),
            ctd@,
            match anime {
                Some(a) => Some(anime_regions_view(a@)),
                None => None,
            },
        ),
{
    let mut out = layout_candidates(layout);
    let ghost base = out@;
    let ghost rt = regions_view(rtdetr@).map_values(|r: RegionView| rtdetr_candidate(r));
    let mut i: usize = 0;
    while i < rtdetr.len()
        invariant
            i <= rtdetr@.len(),
            rt == regions_view(rtdetr@).map_values(|r: RegionView| rtdetr_candidate(r)),
            out@ == base + rt.take(i as int),
        decreases rtdetr.len() - i,
    {
        let region = &rtdetr[i];
        let class = if region.label_id == 0 { Class::Bubble } else { Class::Text };
        out.push(Candidate { bbox: region.bbox, detector: Detector::RtDetr, class, score: region.score, has_mask: false, mask_fill: None });
        proof {
            assert(rt[i as int] == rtdetr_candidate(rtdetr@[i as int]@));
            assert(base + rt.take(i + 1) =~= (base + rt.take(i as int)).push(rt[i as int]));
        }
        i += 1;
    }
    proof {
        assert(rt.take(rtdetr@.len() as int) =~= rt);
    }
    let ghost base2 = out@;
    let ghost ct = ctd@.map_values(|t: TextRegion| ctd_candidate(t));
    let mut j: usize = 0;
    while j < ctd.len()
        invariant
            j <= ctd@.len(),
            forall|k: int| 0 <= k < ctd@.len() ==> region_fits(#[trigger] ctd@[k]),
            ct == ctd@.map_values(|t: TextRegion| ctd_candidate(t)),
            out@ == base2 + ct.take(j as int),
        decreases ctd.len() - j,
    {
        let t = &ctd[j];
        proof {
            assert(region_fits(ctd@[j as int]));
        }
        let bbox = BBox { x1: t.x, y1: t.y, x2: (t.x as i64 + t.width) as i32, y2: (t.y as i64 + t.height) as i32 };
        out.push(Candidate { bbox, detector: Detector::ComicTextDetector, class: Class::Text, score: t.confidence, has_mask: false, mask_fill: None });
        proof {
            assert(ct[j as int] == ctd_candidate(ctd@[j as int]));
            assert(base2 + ct.take(j + 1) =~= (base2 + ct.take(j as int)).push(ct[j as int]));
        }
        j += 1;
    }
    proof {
        assert(ct.take(ctd@.len() as int) =~= ct);
    }
    match anime {
        Some(a) => {
            let ghost base3 = out@;
            let ghost an = anime_regions_view(a@).map_values(|r: AnimeRegionView| anime_candidate(r));
            let mut k: usize = 0;
            while k < a.len()
                invariant
                    k <= a@.len(),
                    an == anime_regions_view(a@).map_values(|r: AnimeRegionView| anime_candidate(r)),
                    out@ == base3 + an.take(k as int),
                decreases a.len() - k,
            {
                out.push(Candidate { bbox: a[k].bbox, detector: Detector::AnimeText, class: Class::Text, score: a[k].score, has_mask: false, mask_fill: None });
                proof {
                    assert(an[k as int] == anime_candidate(a@[k as int]@));
                    assert(base3 + an.take(k + 1) =~= (base3 + an.take(k as int)).push(an[k as int]));
                }
                k += 1;
            }
            proof {
                assert(an.take(a@.len() as int) =~= an);
            }
        },
        None => {
            proof {
                assert(out@ =~= out@ + Seq::<Candidate>::empty());
            }
        },
    }
    out
}

pub open spec fn fused_regions_view(s: Seq<FusedRegion>) -> Seq<FusedRegionView> {
    s.map_values(|r: FusedRegion| r@)
}

/// The accepted fused regions, in order; the rest are left for review.
pub open spec fn accepted_regions(s: Seq<FusedRegionView>) -> Seq<FusedRegionView> {
    s.filter(|r: FusedRegionView| r.accepted)
}

/// Text blocks for the accepted regions only, in order: a region kept for
/// review would be inpainted like a confirmed one, so it is not emitted.
pub fn accepted_text_blocks(fusion: &Fusion) -> (r: Vec<(BBox, TextBlock)>)
    ensures
        r@.len() == accepted_regions(fused_regions_view(fusion.regions@)).len(),
        forall|i: int| 0 <= i < r@.len() ==> {
            let region = accepted_regions(fused_regions_view(fusion.regions@))[i];
            &&& (#[trigger] r@[i]).0 == region.bbox
            &&& fused_block_spec(region, r@[i].1)
        },
{
    let ghost all = fused_regions_view(fusion.regions@);
    let mut out: Vec<(BBox, TextBlock)> = Vec::new();
    let mut i: usize = 0;
    while i < fusion.regions.len()
        invariant
            i <= fusion.regions@.len(),
            all == fused_regions_view(fusion.regions@),
            out@.len() == accepted_regions(all.take(i as int)).len(),
            forall|k: int| 0 <= k < out@.len() ==> {
                let region = accepted_regions(all.take(i as int))[k];
                &&& (#[trigger] out@[k]).0 == region.bbox
                &&& fused_block_spec(region, out@[k].1)
            },
        decreases fusion.regions.len() - i,
    {
        let ghost before = out@;
        proof {
            assert(all.take(i + 1) =~= all.take(i as int).push(all[i as int]));
            all.take(i as int).lemma_filter_push(all[i as int], |r: FusedRegionView| r.accepted);
            assert(all[i as int] == fusion.regions@[i as int]@);
        }
        if fusion.regions[i].accepted {
            let block = text_block(&fusion.regions[i]);
            out.push(block);
            proof {
                let g = accepted_regions(all.take(i + 1));
                assert forall|k: int| 0 <= k < out@.len() implies {
                    let region = g[k];
                    &&& (#[trigger] out@[k]).0 == region.bbox
                    &&& fused_block_spec(region, out@[k].1)
                } by {
                    if k < before.len() {
                        assert(out@[k] == before[k]);
                    }
                }
            }
        }
        i += 1;
    }
    proof {
        assert(all.take(fusion.regions@.len() as int) =~= all);
    }
    out
}

} // verus!
